use micromedia::mpv::{
    first_existing, lib_places, player_lib_name, player_lib_places, player_options, viewer_options, MpvError, Order,
    Place, Purpose, Reply, Session,
};

fn path(p: &Place) -> String {
    match p {
        Place::Named => "named".to_string(),
        Place::Binary(s) => format!("binary:{s}"),
        Place::Current(s) => format!("current:{s}"),
        Place::Data(s) => format!("data:{s}"),
        Place::System(s) => format!("system:{s}"),
    }
}

#[test]
fn the_library_is_looked_for_in_order() {
    let v: Vec<String> = lib_places(true, true, true, false).iter().map(path).collect();
    assert_eq!(v.len(), 16);
    assert_eq!(v[0], "named");
    assert_eq!(v[1..4], ["system:libmpv.so", "system:libmpv.so.2", "system:libmpv.so.1"]);
    assert_eq!(v[4], "binary:appdata/libs/libmpv.so");
    assert_eq!(v[7], "binary:libs/libmpv.so");
    assert_eq!(v[10], "current:appdata/libs/libmpv.so");
    assert_eq!(v[15], "current:libs/libmpv.so.1");
    let w: Vec<String> = lib_places(false, false, true, true).iter().map(path).collect();
    assert_eq!(w.len(), 12);
    assert_eq!(w[0], "system:libmpv-2.dll");
    assert_eq!(w[4], "current:appdata/libs/libmpv-2.dll");
    assert_eq!(lib_places(false, false, false, false).len(), 3);
}

#[test]
fn the_first_file_that_is_there() {
    assert_eq!(first_existing(&vec![false, true, true]), Some(1));
    assert_eq!(first_existing(&vec![false]), None);
    assert_eq!(first_existing(&Vec::new()), None);
}

#[test]
fn places_of_the_window_player() {
    let v: Vec<String> = player_lib_places(false).iter().map(path).collect();
    assert_eq!((v[0].as_str(), v[6].as_str()), ("data:libs/libmpv.so", "system:/usr/local/lib/libmpv.so"));
    assert_eq!(player_lib_places(true).len(), 2);
    assert_eq!((player_lib_name(false), player_lib_name(true)), ("libmpv.so", "mpv-2.dll"));
}

#[test]
fn options_in_their_order() {
    let o = viewer_options(&None);
    assert_eq!((o.len(), o[4].1.as_str()), (10, "no"));
    assert_eq!(viewer_options(&Some("auto-copy".to_string()))[4].1, "auto-copy");
    let p = player_options();
    assert_eq!((p.len(), p[9].0.as_str(), p[9].1.as_str()), (12, "demuxer-max-bytes", "100MiB"));
}

/// Runs a session in which the given order fails. Gives the orders and the end.
fn run(purpose: Purpose, failing: Option<(Order, Reply)>) -> (Vec<Order>, Session) {
    let mut s = Session::begin(purpose);
    let mut orders = Vec::new();
    while s.order != Order::Finish {
        orders.push(s.order);
        let r = match failing {
            Some((o, r)) if o == s.order => r,
            _ => Reply::Done,
        };
        s.reply(r);
    }
    (orders, s)
}

#[test]
fn a_shot_opens_and_closes_everything() {
    let (orders, s) = run(Purpose::Shot, None);
    assert_eq!(
        orders,
        vec![
            Order::Create,
            Order::SetOptions,
            Order::Initialize,
            Order::MakeContext,
            Order::Load,
            Order::Wait,
            Order::Draw,
            Order::FreeContext,
            Order::Destroy,
        ]
    );
    assert!(!s.handle && !s.context && s.error.is_none());
}

#[test]
fn failures_close_what_is_open() {
    let cases = [
        (Order::Create, MpvError::Create, 1),
        (Order::Initialize, MpvError::Initialize(-4), 4),
        (Order::MakeContext, MpvError::Context(-4), 5),
        (Order::Load, MpvError::Load(-4), 7),
        (Order::Wait, MpvError::NotReady, 8),
        (Order::Draw, MpvError::Draw(-4), 9),
    ];
    for (order, error, steps) in cases {
        let (orders, s) = run(Purpose::Shot, Some((order, Reply::Failed(-4))));
        assert_eq!(s.error, Some(error));
        assert_eq!(orders.len(), steps);
        assert!(!s.handle && !s.context);
    }
}

#[test]
fn a_bad_path_closes_what_is_open() {
    let (orders, s) = run(Purpose::Shot, Some((Order::Load, Reply::BadPath)));
    assert_eq!(s.error, Some(MpvError::Path));
    assert_eq!(orders[orders.len() - 3..], [Order::Load, Order::FreeContext, Order::Destroy]);
    assert!(!s.handle && !s.context);
    let (orders, s) = run(Purpose::Probe, Some((Order::Load, Reply::BadPath)));
    assert_eq!(orders.last(), Some(&Order::Destroy));
    assert!(!s.handle);
}

#[test]
fn other_purposes() {
    let (orders, s) = run(Purpose::Probe, None);
    assert_eq!(orders.len(), 6);
    assert!(!s.handle);
    let (orders, mut s) = run(Purpose::Player, None);
    assert_eq!(orders.last(), Some(&Order::Observe));
    assert!(s.handle && s.context);
    assert_eq!(s.close(), Order::FreeContext);
    assert_eq!(s.reply(Reply::Done), Order::Destroy);
    assert_eq!(s.reply(Reply::Done), Order::Finish);
    assert!(!s.handle && !s.context);
    let (orders, s) = run(Purpose::Viewer, None);
    assert_eq!(orders.len(), 3);
    assert!(s.handle && !s.context);
}

#[test]
fn codes_below_zero_are_failures() {
    assert_eq!(Reply::of_code(0), Reply::Done);
    assert_eq!(Reply::of_code(3), Reply::Done);
    assert_eq!(Reply::of_code(-1), Reply::Failed(-1));
}
