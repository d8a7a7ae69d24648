use micromedia::player::{event_kind, frame_fits, screenshot_done, EventKind, FrameBuffer, Player, PlayerEvent};

fn words(v: Option<Vec<String>>) -> Vec<String> {
    v.unwrap_or_default()
}

#[test]
fn a_player_is_told_what_to_do() {
    let mut p = Player::new(0.0f64, None);
    assert!(p.available);
    assert_eq!(words(p.load("/m/a.mp4", 0.0)), vec!["loadfile", "/m/a.mp4"]);
    assert_eq!((p.is_playing, p.current_file.as_deref()), (true, Some("/m/a.mp4")));
    assert_eq!(words(p.toggle_pause()), vec!["cycle", "pause"]);
    assert!(p.is_playing);
    assert_eq!(words(p.seek(12.5, "12.5")), vec!["seek", "12.5", "absolute"]);
    assert_eq!(p.position, 12.5);
    assert_eq!(words(p.screenshot("t.png")), vec!["screenshot-to-file", "t.png", "video"]);
    assert_eq!(words(p.stop(0.0)), vec!["stop"]);
    assert_eq!((p.is_playing, p.current_file.is_none(), p.position), (false, true, 0.0));
}

#[test]
fn without_its_library_a_player_does_next_to_nothing() {
    let mut p = Player::new(0i64, Some("gone".to_string()));
    assert_eq!(p.load("a", 0), None);
    assert_eq!(p.current_file, None);
    assert_eq!(p.seek(5, "5"), None);
    assert_eq!(p.position, 0);
    assert_eq!(p.toggle_pause(), None);
    assert!(p.is_playing);
    assert_eq!(p.stop(0), None);
    assert!(!p.is_playing);
    assert_eq!(p.screenshot("x"), None);
    assert_eq!((p.render_width, p.render_height), (854, 480));
}

#[test]
fn events_change_what_is_played() {
    let mut p = Player::new(0i64, None);
    p.load("a", 0);
    p.on_event(PlayerEvent::Position(3));
    p.on_event(PlayerEvent::Duration(9));
    assert_eq!((p.position, p.duration), (3, 9));
    p.on_event(PlayerEvent::Pause(1));
    assert!(!p.is_playing);
    p.on_event(PlayerEvent::Pause(0));
    assert!(p.is_playing);
    p.on_event(PlayerEvent::EndFile);
    assert_eq!((p.is_playing, p.current_file.is_some()), (false, true));
    p.on_event(PlayerEvent::Shutdown);
    assert_eq!(p.current_file, None);
    p.on_event(PlayerEvent::Position(7));
    assert_eq!(p.current_file, None);
}

#[test]
fn events_by_number() {
    assert_eq!(event_kind(0, 1, 5, true), EventKind::Empty);
    assert_eq!(event_kind(22, 1, 5, true), EventKind::Position);
    assert_eq!(event_kind(22, 2, 5, true), EventKind::Duration);
    assert_eq!(event_kind(22, 3, 3, true), EventKind::Pause);
    assert_eq!(event_kind(22, 3, 5, true), EventKind::Other);
    assert_eq!(event_kind(22, 1, 5, false), EventKind::Other);
    assert_eq!(event_kind(22, 4, 5, true), EventKind::Other);
    assert_eq!(event_kind(7, 0, 0, false), EventKind::EndFile);
    assert_eq!(event_kind(1, 0, 0, false), EventKind::Shutdown);
    assert_eq!(event_kind(9, 0, 0, false), EventKind::Other);
}

#[test]
fn frames_are_drawn_and_shown_once() {
    let mut p = Player::new(0i64, None);
    p.load("a", 0);
    assert!(p.wants_frame(true));
    assert!(!p.wants_frame(false));
    let mut f = FrameBuffer::empty();
    assert_eq!(f.begin_frame(&mut p, 0, 4, 4), None);
    let s = f.begin_frame(&mut p, 1, 1, 3).unwrap();
    assert_eq!((s.width, s.height, s.stride, f.pixels.len()), (2, 3, 8, 24));
    assert_eq!((p.render_width, p.render_height), (2, 3));
    assert_eq!(f.take_picture(), None);
    f.pixels[0] = 9;
    f.end_frame(-1);
    assert_eq!(f.take_picture(), None);
    f.end_frame(0);
    let pic = f.take_picture().unwrap();
    assert_eq!(&pic[..8], &[9, 0, 0, 255, 0, 0, 0, 255]);
    assert_eq!(pic.len(), 24);
    assert_eq!(f.take_picture(), None);
}

#[test]
fn screenshots() {
    assert!(screenshot_done(0, Some(1)));
    assert!(!screenshot_done(-1, Some(1)));
    assert!(!screenshot_done(0, Some(0)));
    assert!(!screenshot_done(0, None));
}

#[test]
fn frames_that_are_too_large() {
    assert!(frame_fits(0, 0));
    assert!(frame_fits(7680, 4320));
    assert!(frame_fits(32767, 32767));
    assert!(!frame_fits(32768, 32768));
    assert!(!frame_fits(u32::MAX, 1));
}
