//! The library of the player: where it is found, how a player is set up, and how
//! what was opened of it gets closed.

use vstd::prelude::*;
use crate::text::texts;
use crate::thumbs::option_texts;

verus! {

broadcast use vstd::string::group_string_axioms;

// ---------------------------------------------------------------------------
// Where the library is.

/// A place where the library may be.
pub enum Place {
    /// The file that the environment names.
    Named,
    /// A file below the directory of the binary.
    Binary(String),
    /// A file below the current directory.
    Current(String),
    /// A file below the directory of the application's data.
    Data(String),
    /// A library of the system: one that its loader finds by name, or a file by its
    /// full path.
    System(String),
}

/// What a [`Place`] says.
pub enum PlaceRec {
    Named,
    Binary(Seq<char>),
    Current(Seq<char>),
    Data(Seq<char>),
    System(Seq<char>),
}

impl View for Place {
    type V = PlaceRec;

    open spec fn view(&self) -> PlaceRec {
        match self {
            Place::Named => PlaceRec::Named,
            Place::Binary(s) => PlaceRec::Binary(s@),
            Place::Current(s) => PlaceRec::Current(s@),
            Place::Data(s) => PlaceRec::Data(s@),
            Place::System(s) => PlaceRec::System(s@),
        }
    }
}

/// What places say.
pub open spec fn place_recs(v: Seq<Place>) -> Seq<PlaceRec> {
    v.map_values(|p: Place| p@)
}

/// The names that the library has.
pub open spec fn lib_names(windows: bool) -> Seq<Seq<char>> {
    if windows {
        seq!["libmpv-2.dll"@, "mpv-2.dll"@, "libmpv.dll"@, "mpv-1.dll"@]
    } else {
        seq!["libmpv.so"@, "libmpv.so.2"@, "libmpv.so.1"@]
    }
}

/// The directories that are searched below another one.
pub open spec fn lib_dirs() -> Seq<Seq<char>> {
    seq!["appdata/libs/"@, "libs/"@]
}

/// The files with the names in a directory.
pub open spec fn in_dir(dir: Seq<char>, names: Seq<Seq<char>>) -> Seq<Seq<char>> {
    names.map_values(|n: Seq<char>| dir + n)
}

/// The files that are searched below a directory: all names in the first directory,
/// and all of them in the second.
pub open spec fn lib_files(windows: bool) -> Seq<Seq<char>> {
    in_dir(lib_dirs()[0], lib_names(windows)) + in_dir(lib_dirs()[1], lib_names(windows))
}

/// Where the library is looked for: first the file that is named, next among the
/// libraries of the system, then below the directory of the binary, and last below
/// the current directory; a file or a directory only where it is known.
pub open spec fn search_places(named: bool, binary: bool, current: bool, windows: bool) -> Seq<PlaceRec> {
    (if named {
        seq![PlaceRec::Named]
    } else {
        Seq::empty()
    }) + lib_names(windows).map_values(|n: Seq<char>| PlaceRec::System(n)) + (if binary {
        lib_files(windows).map_values(|f: Seq<char>| PlaceRec::Binary(f))
    } else {
        Seq::empty()
    }) + (if current {
        lib_files(windows).map_values(|f: Seq<char>| PlaceRec::Current(f))
    } else {
        Seq::empty()
    })
}

fn names(windows: bool) -> (r: Vec<&'static str>)
    ensures
        r@.map_values(|s: &'static str| s@) == lib_names(windows),
{
    let mut v: Vec<&'static str> = Vec::new();
    if windows {
        v.push("libmpv-2.dll");
        v.push("mpv-2.dll");
        v.push("libmpv.dll");
        v.push("mpv-1.dll");
    } else {
        v.push("libmpv.so");
        v.push("libmpv.so.2");
        v.push("libmpv.so.1");
    }
    assert(v@.map_values(|s: &'static str| s@) =~= lib_names(windows));
    v
}

fn files_in(dir: &str, windows: bool) -> (r: Vec<String>)
    ensures
        texts(r@) == in_dir(dir@, lib_names(windows)),
{
    let ns = names(windows);
    let ghost all = lib_names(windows);
    let mut out: Vec<String> = Vec::new();
    let mut i: usize = 0;
    while i < ns.len()
        invariant
            i <= ns@.len(),
            all == lib_names(windows),
            ns@.map_values(|s: &'static str| s@) == all,
            out@.len() == i,
            forall|k: int| 0 <= k < i ==> (#[trigger] out@[k])@ == dir@ + all[k],
        decreases ns.len() - i,
    {
        assert(ns@.map_values(|s: &'static str| s@)[i as int] == ns@[i as int]@);
        let mut f = dir.to_string();
        f.append(ns[i]);
        out.push(f);
        i += 1;
    }
    assert(ns@.len() == all.len()) by {
        assert(ns@.map_values(|s: &'static str| s@).len() == ns@.len());
    }
    assert(texts(out@) =~= in_dir(dir@, all));
    out
}

/// The files that are searched below a directory.
fn files(windows: bool) -> (r: Vec<String>)
    ensures
        texts(r@) == lib_files(windows),
{
    let mut a = files_in("appdata/libs/", windows);
    let mut b = files_in("libs/", windows);
    let ghost ta = texts(a@);
    let ghost tb = texts(b@);
    a.append(&mut b);
    assert(texts(a@) =~= ta + tb);
    a
}

/// Where the library is looked for, in the order of preference.
pub fn lib_places(named: bool, binary: bool, current: bool, windows: bool) -> (r: Vec<Place>)
    ensures
        place_recs(r@) == search_places(named, binary, current, windows),
{
    let fs = files(windows);
    let ghost all = lib_files(windows);
    let mut out: Vec<Place> = Vec::new();
    if named {
        out.push(Place::Named);
    }
    let ghost told = place_recs(out@);
    assert(told =~= if named {
        seq![PlaceRec::Named]
    } else {
        Seq::<PlaceRec>::empty()
    });
    let ns = names(windows);
    let ghost ln = lib_names(windows);
    assert(ns@.map_values(|s: &'static str| s@).len() == ns@.len());
    let mut i: usize = 0;
    while i < ns.len()
        invariant
            i <= ns@.len() == ln.len(),
            ns@.map_values(|s: &'static str| s@) == ln,
            place_recs(out@) == told + ln.take(i as int).map_values(|n: Seq<char>| PlaceRec::System(n)),
        decreases ns.len() - i,
    {
        let ghost out0 = out@;
        assert(ns@.map_values(|s: &'static str| s@)[i as int] == ns@[i as int]@);
        out.push(Place::System(ns[i].to_string()));
        assert(place_recs(out@) =~= place_recs(out0).push(PlaceRec::System(ln[i as int])));
        assert(ln.take(i + 1).map_values(|n: Seq<char>| PlaceRec::System(n)) =~= ln.take(i as int).map_values(
            |n: Seq<char>| PlaceRec::System(n),
        ).push(PlaceRec::System(ln[i as int])));
        i += 1;
    }
    assert(ln.take(i as int) =~= ln);
    let ghost first = place_recs(out@);
    if binary {
        let mut i: usize = 0;
        while i < fs.len()
            invariant
                i <= fs@.len(),
                texts(fs@) == all,
                place_recs(out@) == first + all.take(i as int).map_values(|f: Seq<char>| PlaceRec::Binary(f)),
            decreases fs.len() - i,
        {
            let ghost out0 = out@;
            assert(texts(fs@)[i as int] == fs@[i as int]@);
            out.push(Place::Binary(fs[i].clone()));
            assert(place_recs(out@) =~= place_recs(out0).push(PlaceRec::Binary(all[i as int])));
            assert(all.take(i + 1).map_values(|f: Seq<char>| PlaceRec::Binary(f)) =~= all.take(i as int).map_values(
                |f: Seq<char>| PlaceRec::Binary(f),
            ).push(PlaceRec::Binary(all[i as int])));
            i += 1;
        }
        assert(texts(fs@).len() == fs@.len());
        assert(all.take(i as int) =~= all);
    }
    let ghost second = place_recs(out@);
    assert(second =~= first + (if binary {
        all.map_values(|f: Seq<char>| PlaceRec::Binary(f))
    } else {
        Seq::<PlaceRec>::empty()
    }));
    if current {
        let mut i: usize = 0;
        while i < fs.len()
            invariant
                i <= fs@.len(),
                texts(fs@) == all,
                place_recs(out@) == second + all.take(i as int).map_values(|f: Seq<char>| PlaceRec::Current(f)),
            decreases fs.len() - i,
        {
            let ghost out0 = out@;
            assert(texts(fs@)[i as int] == fs@[i as int]@);
            out.push(Place::Current(fs[i].clone()));
            assert(place_recs(out@) =~= place_recs(out0).push(PlaceRec::Current(all[i as int])));
            assert(all.take(i + 1).map_values(|f: Seq<char>| PlaceRec::Current(f)) =~= all.take(i as int).map_values(
                |f: Seq<char>| PlaceRec::Current(f),
            ).push(PlaceRec::Current(all[i as int])));
            i += 1;
        }
        assert(texts(fs@).len() == fs@.len());
        assert(all.take(i as int) =~= all);
    }
    assert(place_recs(out@) =~= search_places(named, binary, current, windows));
    out
}

/// Where the library of the window's own player is looked for.
pub open spec fn player_places(windows: bool) -> Seq<PlaceRec> {
    if windows {
        seq![PlaceRec::Data("libs/mpv-2.dll"@), PlaceRec::Data("libs/libmpv-2.dll"@)]
    } else {
        seq![
            PlaceRec::Data("libs/libmpv.so"@),
            PlaceRec::Data("libs/libmpv.so.2"@),
            PlaceRec::Data("libs/libmpv.so.1"@),
            PlaceRec::System("/usr/lib/libmpv.so"@),
            PlaceRec::System("/usr/lib/x86_64-linux-gnu/libmpv.so"@),
            PlaceRec::System("/usr/lib64/libmpv.so"@),
            PlaceRec::System("/usr/local/lib/libmpv.so"@),
        ]
    }
}

/// Where the library of the window's own player is looked for, in the order of
/// preference.
pub fn player_lib_places(windows: bool) -> (r: Vec<Place>)
    ensures
        place_recs(r@) == player_places(windows),
{
    let mut out: Vec<Place> = Vec::new();
    if windows {
        out.push(Place::Data("libs/mpv-2.dll".to_string()));
        out.push(Place::Data("libs/libmpv-2.dll".to_string()));
    } else {
        out.push(Place::Data("libs/libmpv.so".to_string()));
        out.push(Place::Data("libs/libmpv.so.2".to_string()));
        out.push(Place::Data("libs/libmpv.so.1".to_string()));
        out.push(Place::System("/usr/lib/libmpv.so".to_string()));
        out.push(Place::System("/usr/lib/x86_64-linux-gnu/libmpv.so".to_string()));
        out.push(Place::System("/usr/lib64/libmpv.so".to_string()));
        out.push(Place::System("/usr/local/lib/libmpv.so".to_string()));
    }
    assert(place_recs(out@) =~= player_places(windows));
    out
}

/// The name that the system is asked for where the library is at none of the places.
pub fn player_lib_name(windows: bool) -> (r: &'static str)
    ensures
        r@ == if windows {
            "mpv-2.dll"@
        } else {
            "libmpv.so"@
        },
{
    if windows {
        "mpv-2.dll"
    } else {
        "libmpv.so"
    }
}

/// The first place at which there is a file, by what was found at each.
pub fn first_existing(found: &Vec<bool>) -> (r: Option<usize>)
    ensures
        match r {
            Some(i) => i < found@.len() && found@[i as int] && forall|k: int| 0 <= k < i ==> !#[trigger] found@[k],
            None => forall|k: int| 0 <= k < found@.len() ==> !#[trigger] found@[k],
        },
{
    let mut i: usize = 0;
    while i < found.len()
        invariant
            i <= found@.len(),
            forall|k: int| 0 <= k < i ==> !#[trigger] found@[k],
        decreases found.len() - i,
    {
        if found[i] {
            return Some(i);
        }
        i += 1;
    }
    None
}

// ---------------------------------------------------------------------------
// Options.

/// The options of the player of the viewer: it draws into the window, and scales
/// well.
pub open spec fn viewer_option_texts(hwdec: Seq<char>) -> Seq<(Seq<char>, Seq<char>)> {
    seq![
        ("vo"@, "libmpv"@),
        ("terminal"@, "no"@),
        ("msg-level"@, "all=warn"@),
        ("keep-open"@, "yes"@),
        ("hwdec"@, hwdec),
        ("scale"@, "spline36"@),
        ("cscale"@, "spline36"@),
        ("dscale"@, "mitchell"@),
        ("correct-downscaling"@, "yes"@),
        ("sigmoid-upscaling"@, "yes"@),
    ]
}

fn put(out: &mut Vec<(String, String)>, name: &str, value: &str)
    ensures
        option_texts(final(out)@) == option_texts(old(out)@).push((name@, value@)),
{
    let ghost before = out@;
    out.push((name.to_string(), value.to_string()));
    assert(option_texts(out@) =~= option_texts(before).push((name@, value@)));
}

/// The options of the player of the viewer, in the order in which they are set.
/// Where the environment does not say how to decode, the graphics card is left out.
pub fn viewer_options(hwdec: &Option<String>) -> (r: Vec<(String, String)>)
    ensures
        option_texts(r@) == viewer_option_texts(
            match hwdec {
                Some(s) => s@,
                None => "no"@,
            },
        ),
{
    let mut out: Vec<(String, String)> = Vec::new();
    assert(option_texts(out@) =~= Seq::empty());
    put(&mut out, "vo", "libmpv");
    put(&mut out, "terminal", "no");
    put(&mut out, "msg-level", "all=warn");
    put(&mut out, "keep-open", "yes");
    match hwdec {
        Some(s) => put(&mut out, "hwdec", s.as_str()),
        None => put(&mut out, "hwdec", "no"),
    }
    put(&mut out, "scale", "spline36");
    put(&mut out, "cscale", "spline36");
    put(&mut out, "dscale", "mitchell");
    put(&mut out, "correct-downscaling", "yes");
    put(&mut out, "sigmoid-upscaling", "yes");
    assert(option_texts(out@) =~= viewer_option_texts(
        match hwdec {
            Some(s) => s@,
            None => "no"@,
        },
    ));
    out
}

/// The options of the window's own player: it draws into memory, has no keys of its
/// own, and reads ahead for slow disks.
pub open spec fn player_option_texts() -> Seq<(Seq<char>, Seq<char>)> {
    seq![
        ("vo"@, "libmpv"@),
        ("hwdec"@, "no"@),
        ("video-timing-offset"@, "0"@),
        ("idle"@, "yes"@),
        ("input-default-bindings"@, "no"@),
        ("input-vo-keyboard"@, "no"@),
        ("osc"@, "no"@),
        ("osd-level"@, "0"@),
        ("cache"@, "yes"@),
        ("demuxer-max-bytes"@, "100MiB"@),
        ("demuxer-readahead-secs"@, "10"@),
        ("cache-secs"@, "30"@),
    ]
}

/// The options of the window's own player, in the order in which they are set.
pub fn player_options() -> (r: Vec<(String, String)>)
    ensures
        option_texts(r@) == player_option_texts(),
{
    let mut out: Vec<(String, String)> = Vec::new();
    assert(option_texts(out@) =~= Seq::empty());
    put(&mut out, "vo", "libmpv");
    put(&mut out, "hwdec", "no");
    put(&mut out, "video-timing-offset", "0");
    put(&mut out, "idle", "yes");
    put(&mut out, "input-default-bindings", "no");
    put(&mut out, "input-vo-keyboard", "no");
    put(&mut out, "osc", "no");
    put(&mut out, "osd-level", "0");
    put(&mut out, "cache", "yes");
    put(&mut out, "demuxer-max-bytes", "100MiB");
    put(&mut out, "demuxer-readahead-secs", "10");
    put(&mut out, "cache-secs", "30");
    assert(option_texts(out@) =~= player_option_texts());
    out
}

// ---------------------------------------------------------------------------
// From the first call to the last.

/// What a player is opened for.
#[derive(Debug, Clone, Copy, PartialEq, Eq, Structural)]
pub enum Purpose {
    /// To draw one frame for a thumbnail.
    Shot,
    /// To learn how long a video is.
    Probe,
    /// To play in the window, drawing into memory.
    Player,
    /// To play in the viewer, which makes the render context itself.
    Viewer,
}

/// What is to be done with the library next.
#[derive(Debug, Clone, Copy, PartialEq, Eq, Structural)]
pub enum Order {
    /// Make a handle.
    Create,
    /// Set the options.
    SetOptions,
    /// Initialise the handle.
    Initialize,
    /// Make a render context.
    MakeContext,
    /// Open the file.
    Load,
    /// Wait for what is wanted of the file.
    Wait,
    /// Draw the frame.
    Draw,
    /// Ask to be told of changes.
    Observe,
    /// Free the render context.
    FreeContext,
    /// Destroy the handle.
    Destroy,
    /// Nothing more.
    Finish,
}

/// What came of it.
#[derive(Debug, Clone, Copy, PartialEq, Eq, Structural)]
pub enum Reply {
    Done,
    /// It failed, with the code of the library where it gives one.
    Failed(i32),
    /// The path cannot be handed to the library.
    BadPath,
}

/// Why a player could not do what it was opened for.
#[derive(Debug, Clone, Copy, PartialEq, Eq, Structural)]
pub enum MpvError {
    Create,
    Initialize(i32),
    Context(i32),
    Path,
    Load(i32),
    /// What was waited for did not come.
    NotReady,
    Draw(i32),
}

impl Reply {
    /// What a code of the library says: less than 0 is a failure.
    pub fn of_code(code: i32) -> (r: Reply)
        ensures
            r == if code < 0 {
                Reply::Failed(code)
            } else {
                Reply::Done
            },
    {
        if code < 0 {
            Reply::Failed(code)
        } else {
            Reply::Done
        }
    }
}

/// A player from the first call to the last.
#[derive(Debug, Clone, Copy, PartialEq, Eq, Structural)]
pub struct Session {
    pub purpose: Purpose,
    /// What is to be done next.
    pub order: Order,
    /// Whether there is a handle that is not destroyed.
    pub handle: bool,
    /// Whether there is a render context that is not freed.
    pub context: bool,
    pub error: Option<MpvError>,
}

/// The next thing on the way out: the context goes before the handle.
pub open spec fn closing(s: Session) -> Order {
    if s.context {
        Order::FreeContext
    } else if s.handle {
        Order::Destroy
    } else {
        Order::Finish
    }
}

/// On the way out after a failure.
pub open spec fn failing(s: Session, e: MpvError) -> Session {
    Session { order: closing(s), error: Some(e), ..s }
}

/// The session after what it ordered was done. What fails is followed by the way
/// out.
pub open spec fn session_after(s: Session, r: Reply) -> Session {
    match s.order {
        Order::Create => if r is Done {
            Session { handle: true, order: Order::SetOptions, ..s }
        } else {
            failing(s, MpvError::Create)
        },
        Order::SetOptions => Session { order: Order::Initialize, ..s },
        Order::Initialize => match r {
            Reply::Failed(c) => failing(s, MpvError::Initialize(c)),
            _ => Session {
                order: match s.purpose {
                    Purpose::Shot => Order::MakeContext,
                    Purpose::Probe => Order::Load,
                    Purpose::Player => Order::MakeContext,
                    Purpose::Viewer => Order::Finish,
                },
                ..s
            },
        },
        Order::MakeContext => match r {
            Reply::Failed(c) => failing(s, MpvError::Context(c)),
            _ => Session {
                context: true,
                order: if s.purpose is Player {
                    Order::Observe
                } else {
                    Order::Load
                },
                ..s
            },
        },
        Order::Load => match r {
            Reply::Done => Session { order: Order::Wait, ..s },
            Reply::Failed(c) => failing(s, MpvError::Load(c)),
            Reply::BadPath => failing(s, MpvError::Path),
        },
        Order::Wait => if r !is Done {
            failing(s, MpvError::NotReady)
        } else if s.purpose is Shot {
            Session { order: Order::Draw, ..s }
        } else {
            Session { order: closing(s), ..s }
        },
        Order::Draw => match r {
            Reply::Failed(c) => failing(s, MpvError::Draw(c)),
            _ => Session { order: closing(s), ..s },
        },
        Order::Observe => Session { order: Order::Finish, ..s },
        Order::FreeContext => {
            let s = Session { context: false, ..s };
            Session { order: closing(s), ..s }
        },
        Order::Destroy => {
            let s = Session { handle: false, ..s };
            Session { order: closing(s), ..s }
        },
        Order::Finish => s,
    }
}

impl Session {
    /// A player is opened.
    pub fn begin(purpose: Purpose) -> (r: Session)
        ensures
            r == begun(purpose),
    {
        Session { purpose, order: Order::Create, handle: false, context: false, error: None }
    }

    fn way_out(&self) -> (r: Order)
        ensures
            r == closing(*self),
    {
        if self.context {
            Order::FreeContext
        } else if self.handle {
            Order::Destroy
        } else {
            Order::Finish
        }
    }

    fn fail(&mut self, e: MpvError)
        ensures
            *final(self) == failing(*old(self), e),
    {
        self.order = self.way_out();
        self.error = Some(e);
    }

    /// What was ordered was done, with this result. Gives what is to be done next.
    pub fn reply(&mut self, r: Reply) -> (next: Order)
        ensures
            *final(self) == session_after(*old(self), r),
            next == final(self).order,
    {
        match self.order {
            Order::Create => match r {
                Reply::Done => {
                    self.handle = true;
                    self.order = Order::SetOptions;
                },
                _ => self.fail(MpvError::Create),
            },
            Order::SetOptions => {
                self.order = Order::Initialize;
            },
            Order::Initialize => match r {
                Reply::Failed(c) => self.fail(MpvError::Initialize(c)),
                _ => {
                    self.order = match self.purpose {
                        Purpose::Shot => Order::MakeContext,
                        Purpose::Probe => Order::Load,
                        Purpose::Player => Order::MakeContext,
                        Purpose::Viewer => Order::Finish,
                    };
                },
            },
            Order::MakeContext => match r {
                Reply::Failed(c) => self.fail(MpvError::Context(c)),
                _ => {
                    self.context = true;
                    self.order = match self.purpose {
                        Purpose::Player => Order::Observe,
                        _ => Order::Load,
                    };
                },
            },
            Order::Load => match r {
                Reply::Done => {
                    self.order = Order::Wait;
                },
                Reply::Failed(c) => self.fail(MpvError::Load(c)),
                Reply::BadPath => self.fail(MpvError::Path),
            },
            Order::Wait => match r {
                Reply::Done => match self.purpose {
                    Purpose::Shot => {
                        self.order = Order::Draw;
                    },
                    _ => {
                        self.order = self.way_out();
                    },
                },
                _ => self.fail(MpvError::NotReady),
            },
            Order::Draw => match r {
                Reply::Failed(c) => self.fail(MpvError::Draw(c)),
                _ => {
                    self.order = self.way_out();
                },
            },
            Order::Observe => {
                self.order = Order::Finish;
            },
            Order::FreeContext => {
                self.context = false;
                self.order = self.way_out();
            },
            Order::Destroy => {
                self.handle = false;
                self.order = self.way_out();
            },
            Order::Finish => {},
        }
        self.order
    }

    /// A player that was left open is closed. Gives what is to be done first.
    pub fn close(&mut self) -> (next: Order)
        ensures
            *final(self) == (Session { order: closing(*old(self)), ..*old(self) }),
            next == final(self).order,
    {
        self.order = self.way_out();
        self.order
    }
}

/// A session at its beginning.
pub open spec fn begun(purpose: Purpose) -> Session {
    Session { purpose, order: Order::Create, handle: false, context: false, error: None }
}

/// Whether what a session orders can be done with what it has open: nothing is done
/// without a handle, drawn or freed without a context, and a handle is destroyed
/// only without one.
pub open spec fn in_step(s: Session) -> bool {
    &&& s.context ==> s.handle
    &&& match s.order {
        Order::Create => !s.handle,
        Order::SetOptions | Order::Initialize | Order::MakeContext => s.handle && !s.context,
        Order::Load | Order::Wait => s.handle && s.context == (s.purpose is Shot),
        Order::Draw | Order::Observe | Order::FreeContext => s.context,
        Order::Destroy => s.handle && !s.context,
        Order::Finish => true,
    }
    &&& s.order is Load || s.order is Wait ==> s.purpose is Shot || s.purpose is Probe
    &&& s.order is Draw ==> s.purpose is Shot
    &&& s.order is MakeContext ==> s.purpose is Shot || s.purpose is Player
    &&& s.order is Observe ==> s.purpose is Player
    &&& s.error is Some ==> s.order is FreeContext || s.order is Destroy || s.order is Finish
    &&& s.order is Finish && s.error is None && s.handle ==> s.purpose is Player || s.purpose is Viewer
    &&& s.order is Finish && s.handle ==> s.error is None
}

/// Whatever the library answers, a session orders only what can be done with what
/// is open, from its beginning on.
pub proof fn law_session_stays_in_step(s: Session, r: Reply)
    requires
        in_step(s) || s == begun(s.purpose),
    ensures
        in_step(s),
        in_step(session_after(s, r)),
{
}

/// How far on its way an order is.
pub open spec fn place_of(o: Order) -> int {
    match o {
        Order::Create => 0,
        Order::SetOptions => 1,
        Order::Initialize => 2,
        Order::MakeContext => 3,
        Order::Load => 4,
        Order::Wait => 5,
        Order::Draw => 6,
        Order::Observe => 7,
        Order::FreeContext => 8,
        Order::Destroy => 9,
        Order::Finish => 10,
    }
}

/// Every answer brings a session nearer to its end: each order is given at most
/// once, so nothing is made, freed or destroyed twice.
pub proof fn law_session_goes_on(s: Session, r: Reply)
    requires
        in_step(s),
        s.order !is Finish,
    ensures
        place_of(session_after(s, r).order) > place_of(s.order),
{
}

/// A session that is over has nothing open where it failed or was opened for one
/// answer only.
pub proof fn law_session_leaves_nothing_open(s: Session)
    requires
        in_step(s),
        s.order is Finish,
        s.error is Some || s.purpose is Shot || s.purpose is Probe,
    ensures
        !s.handle,
        !s.context,
{
}

/// A player that is closed leaves nothing open: two answers later it is over.
pub proof fn law_closed_player_leaves_nothing_open(s: Session, a: Reply, b: Reply)
    requires
        in_step(s),
        s.order is Finish,
    ensures
        ({
            let closed = session_after(session_after(Session { order: closing(s), ..s }, a), b);
            closed.order is Finish && !closed.handle && !closed.context
        }),
{
}

} // verus!
