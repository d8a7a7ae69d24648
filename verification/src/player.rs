//! The window's own player: what it plays, what it is told, and the frames that it
//! draws into memory.
//!
//! Times are numbers of the caller's choice: the player hands them on and never
//! looks at them.

use vstd::prelude::*;
use crate::text::texts;
use crate::ui::viewer::{opaque_pixels, to_opaque};

verus! {

broadcast use vstd::string::group_string_axioms;

// ---------------------------------------------------------------------------
// What is played.

/// What is played.
pub struct Player<T> {
    pub is_playing: bool,
    pub current_file: Option<String>,
    pub position: T,
    pub duration: T,
    /// Whether the library of the player is there.
    pub available: bool,
    pub error_msg: Option<String>,
    /// The size that was drawn last.
    pub render_width: u32,
    pub render_height: u32,
}

/// A text that may be missing.
pub open spec fn text_of(s: Option<String>) -> Option<Seq<char>> {
    match s {
        Some(t) => Some(t@),
        None => None,
    }
}

/// What a [`Player`] says of what it plays.
pub struct PlayerRec<T> {
    pub is_playing: bool,
    pub current_file: Option<Seq<char>>,
    pub position: T,
    pub duration: T,
}

impl<T> View for Player<T> {
    type V = PlayerRec<T>;

    open spec fn view(&self) -> PlayerRec<T> {
        PlayerRec {
            is_playing: self.is_playing,
            current_file: text_of(self.current_file),
            position: self.position,
            duration: self.duration,
        }
    }
}

/// The words of a command.
pub open spec fn command_texts(c: Option<Vec<String>>) -> Option<Seq<Seq<char>>> {
    match c {
        Some(v) => Some(texts(v@)),
        None => None,
    }
}

fn words_of(a: &str, b: Option<&str>, c: Option<&str>) -> (r: Vec<String>)
    ensures
        texts(r@) == seq![a@] + (match b {
            Some(s) => seq![s@],
            None => Seq::empty(),
        }) + (match c {
            Some(s) => seq![s@],
            None => Seq::empty(),
        }),
{
    let mut out: Vec<String> = Vec::new();
    out.push(a.to_string());
    match b {
        Some(s) => out.push(s.to_string()),
        None => {},
    }
    match c {
        Some(s) => out.push(s.to_string()),
        None => {},
    }
    assert(texts(out@) =~= seq![a@] + (match b {
        Some(s) => seq![s@],
        None => Seq::empty(),
    }) + (match c {
        Some(s) => seq![s@],
        None => Seq::empty(),
    }));
    out
}

/// An event of the library, as far as the player minds it.
#[derive(Debug, Clone, Copy, PartialEq, Eq, Structural)]
pub enum EventKind {
    /// There is no event: the queue is empty.
    Empty,
    /// The position changed.
    Position,
    /// The length changed.
    Duration,
    /// It was paused or goes on.
    Pause,
    EndFile,
    Shutdown,
    /// Another event.
    Other,
}

/// The library has no event.
pub const MPV_EVENT_NONE: i32 = 0;

/// The library shuts down.
pub const MPV_EVENT_SHUTDOWN: i32 = 1;

/// A file is over.
pub const MPV_EVENT_END_FILE: i32 = 7;

/// Something that is observed changed.
pub const MPV_EVENT_PROPERTY_CHANGE: i32 = 22;

/// The value is a flag.
pub const MPV_FORMAT_FLAG: i32 = 3;

/// The value is a number.
pub const MPV_FORMAT_DOUBLE: i32 = 5;

/// What an event is about. The numbers 1, 2 and 3 stand for the position, the
/// length and the pause, which are observed under them; a change counts only where
/// it comes with a value of the right format.
pub open spec fn kind_of_event(event: i32, observed: u64, format: i32, value: bool) -> EventKind {
    if event == MPV_EVENT_NONE {
        EventKind::Empty
    } else if event == MPV_EVENT_END_FILE {
        EventKind::EndFile
    } else if event == MPV_EVENT_SHUTDOWN {
        EventKind::Shutdown
    } else if event != MPV_EVENT_PROPERTY_CHANGE || !value {
        EventKind::Other
    } else if observed == 1 && format == MPV_FORMAT_DOUBLE {
        EventKind::Position
    } else if observed == 2 && format == MPV_FORMAT_DOUBLE {
        EventKind::Duration
    } else if observed == 3 && format == MPV_FORMAT_FLAG {
        EventKind::Pause
    } else {
        EventKind::Other
    }
}

/// What an event is about, and so which value is to be read from it.
pub fn event_kind(event: i32, observed: u64, format: i32, value: bool) -> (r: EventKind)
    ensures
        r == kind_of_event(event, observed, format, value),
{
    if event == MPV_EVENT_NONE {
        EventKind::Empty
    } else if event == MPV_EVENT_END_FILE {
        EventKind::EndFile
    } else if event == MPV_EVENT_SHUTDOWN {
        EventKind::Shutdown
    } else if event != MPV_EVENT_PROPERTY_CHANGE || !value {
        EventKind::Other
    } else if observed == 1 && format == MPV_FORMAT_DOUBLE {
        EventKind::Position
    } else if observed == 2 && format == MPV_FORMAT_DOUBLE {
        EventKind::Duration
    } else if observed == 3 && format == MPV_FORMAT_FLAG {
        EventKind::Pause
    } else {
        EventKind::Other
    }
}

/// An event with its value.
pub enum PlayerEvent<T> {
    Position(T),
    Duration(T),
    /// A flag that is not 0 where the player is paused.
    Pause(i32),
    EndFile,
    Shutdown,
    Other,
}

/// What is played after an event.
pub open spec fn player_after<T>(p: PlayerRec<T>, e: PlayerEvent<T>) -> PlayerRec<T> {
    match e {
        PlayerEvent::Position(t) => PlayerRec { position: t, ..p },
        PlayerEvent::Duration(t) => PlayerRec { duration: t, ..p },
        PlayerEvent::Pause(flag) => PlayerRec { is_playing: flag == 0, ..p },
        PlayerEvent::EndFile => PlayerRec { is_playing: false, ..p },
        PlayerEvent::Shutdown => PlayerRec { is_playing: false, current_file: None, ..p },
        PlayerEvent::Other => p,
    }
}

/// Whether a player differs from another in nothing but what it plays.
pub open spec fn same_setup<T>(a: Player<T>, b: Player<T>) -> bool {
    &&& a.available == b.available
    &&& a.error_msg == b.error_msg
    &&& a.render_width == b.render_width
    &&& a.render_height == b.render_height
}

impl<T: Copy> Player<T> {
    /// A player that plays nothing. It is available unless its library could not be
    /// set up for a reason.
    pub fn new(zero: T, error: Option<String>) -> (r: Player<T>)
        ensures
            r@ == (PlayerRec { is_playing: false, current_file: None, position: zero, duration: zero }),
            r.available == (error is None),
            r.error_msg == error,
            r.render_width == 854,
            r.render_height == 480,
    {
        Player {
            is_playing: false,
            current_file: None,
            position: zero,
            duration: zero,
            available: error.is_none(),
            error_msg: error,
            render_width: 854,
            render_height: 480,
        }
    }

    /// Opens a file. Gives the command for the library; without it nothing happens.
    pub fn load(&mut self, path: &str, zero: T) -> (r: Option<Vec<String>>)
        ensures
            same_setup(*final(self), *old(self)),
            command_texts(r) == if old(self).available {
                Some(seq!["loadfile"@, path@])
            } else {
                None
            },
            final(self)@ == if old(self).available {
                PlayerRec { is_playing: true, current_file: Some(path@), position: zero, ..old(self)@ }
            } else {
                old(self)@
            },
    {
        if !self.available {
            return None;
        }
        self.current_file = Some(path.to_string());
        self.is_playing = true;
        self.position = zero;
        let words = words_of("loadfile", Some(path), None);
        assert(texts(words@) =~= seq!["loadfile"@, path@]);
        Some(words)
    }

    /// Plays on, or pauses. Without the library only the state changes; with it the
    /// library says when it did.
    pub fn toggle_pause(&mut self) -> (r: Option<Vec<String>>)
        ensures
            same_setup(*final(self), *old(self)),
            command_texts(r) == if old(self).available {
                Some(seq!["cycle"@, "pause"@])
            } else {
                None
            },
            final(self)@ == if old(self).available {
                old(self)@
            } else {
                PlayerRec { is_playing: !old(self).is_playing, ..old(self)@ }
            },
    {
        if !self.available {
            self.is_playing = !self.is_playing;
            return None;
        }
        let words = words_of("cycle", Some("pause"), None);
        assert(texts(words@) =~= seq!["cycle"@, "pause"@]);
        Some(words)
    }

    /// Plays nothing any more.
    pub fn stop(&mut self, zero: T) -> (r: Option<Vec<String>>)
        ensures
            same_setup(*final(self), *old(self)),
            command_texts(r) == if old(self).available {
                Some(seq!["stop"@])
            } else {
                None
            },
            final(self)@ == (PlayerRec { is_playing: false, current_file: None, position: zero, duration: zero }),
    {
        self.is_playing = false;
        self.current_file = None;
        self.position = zero;
        self.duration = zero;
        if !self.available {
            return None;
        }
        let words = words_of("stop", None, None);
        assert(texts(words@) =~= seq!["stop"@]);
        Some(words)
    }

    /// Jumps to a time, which is given as text too. Without the library nothing
    /// happens.
    pub fn seek(&mut self, position: T, written: &str) -> (r: Option<Vec<String>>)
        ensures
            same_setup(*final(self), *old(self)),
            command_texts(r) == if old(self).available {
                Some(seq!["seek"@, written@, "absolute"@])
            } else {
                None
            },
            final(self)@ == if old(self).available {
                PlayerRec { position, ..old(self)@ }
            } else {
                old(self)@
            },
    {
        if !self.available {
            return None;
        }
        self.position = position;
        let words = words_of("seek", Some(written), Some("absolute"));
        assert(texts(words@) =~= seq!["seek"@, written@, "absolute"@]);
        Some(words)
    }

    /// The command that writes the frame into a file.
    pub fn screenshot(&self, path: &str) -> (r: Option<Vec<String>>)
        ensures
            command_texts(r) == if self.available {
                Some(seq!["screenshot-to-file"@, path@, "video"@])
            } else {
                None
            },
    {
        if !self.available {
            return None;
        }
        let words = words_of("screenshot-to-file", Some(path), Some("video"));
        assert(texts(words@) =~= seq!["screenshot-to-file"@, path@, "video"@]);
        Some(words)
    }

    /// The library tells of an event.
    pub fn on_event(&mut self, e: PlayerEvent<T>)
        ensures
            same_setup(*final(self), *old(self)),
            final(self)@ == player_after(old(self)@, e),
    {
        match e {
            PlayerEvent::Position(t) => {
                self.position = t;
            },
            PlayerEvent::Duration(t) => {
                self.duration = t;
            },
            PlayerEvent::Pause(flag) => {
                self.is_playing = flag == 0;
            },
            PlayerEvent::EndFile => {
                self.is_playing = false;
            },
            PlayerEvent::Shutdown => {
                self.is_playing = false;
                self.current_file = None;
            },
            PlayerEvent::Other => {},
        }
    }

    /// Whether the library is to be asked for a frame.
    pub fn wants_frame(&self, has_context: bool) -> (r: bool)
        ensures
            r == (self.available && has_context && self.current_file is Some),
    {
        self.available && has_context && self.current_file.is_some()
    }
}

/// Whether a frame was written into a file: the library did not fail, and there is a
/// file that is not empty.
pub fn screenshot_done(code: i32, size: Option<u64>) -> (r: bool)
    ensures
        r == (code >= 0 && (size matches Some(n) && n > 0)),
{
    code >= 0 && match size {
        Some(n) => n > 0,
        None => false,
    }
}

// ---------------------------------------------------------------------------
// Frames.

/// A frame that the player drew, with four bytes to a pixel.
pub struct FrameBuffer {
    pub pixels: Vec<u8>,
    pub width: u32,
    pub height: u32,
    /// Whether it was drawn and not shown yet.
    pub dirty: bool,
}

/// A side of a frame: at least 2.
pub open spec fn frame_side(n: u32) -> u32 {
    if n < 2 {
        2
    } else {
        n
    }
}

/// Whether a frame of a size has a number of bytes that the library can be told.
pub fn frame_fits(width: u32, height: u32) -> (r: bool)
    ensures
        r == (frame_side(width) * 4 * frame_side(height) <= u32::MAX),
{
    let w: u64 = if width < 2 {
        2
    } else {
        width as u64
    };
    let h: u64 = if height < 2 {
        2
    } else {
        height as u64
    };
    assert(w * 4 * h <= 0x4_0000_0000 * 0x1_0000_0000) by (nonlinear_arith)
        requires
            w <= 0xffff_ffff,
            h <= 0xffff_ffff,
    ;
    w as u128 * 4 * h as u128 <= u32::MAX as u128
}

/// Whether bytes were cut off or zeros were added at the end.
pub open spec fn resized(before: Seq<u8>, after: Seq<u8>) -> bool {
    forall|i: int|
        0 <= i < after.len() ==> #[trigger] after[i] == if i < before.len() {
            before[i]
        } else {
            0
        }
}

/// What the library is told of a frame.
#[derive(Debug, Clone, Copy, PartialEq, Eq, Structural)]
pub struct FrameSize {
    pub width: u32,
    pub height: u32,
    /// How many bytes there are from one row to the next.
    pub stride: i32,
}

impl FrameBuffer {
    /// Whether there are four bytes to a pixel.
    pub open spec fn wf(&self) -> bool {
        self.pixels@.len() == self.width * self.height * 4
    }

    /// A frame of no size.
    pub fn empty() -> (r: FrameBuffer)
        ensures
            r.wf(),
            r.width == 0,
            r.height == 0,
            !r.dirty,
    {
        FrameBuffer { pixels: Vec::new(), width: 0, height: 0, dirty: false }
    }

    /// Makes room for a frame that is to be drawn. `updates` is what the library has
    /// new; where that is 0, nothing is drawn.
    pub fn begin_frame<T: Copy>(&mut self, player: &mut Player<T>, updates: u64, width: u32, height: u32) -> (r: Option<
        FrameSize,
    >)
        requires
            old(self).wf(),
            frame_side(width) * 4 * frame_side(height) <= u32::MAX,
        ensures
            final(self).wf(),
            final(self).dirty == old(self).dirty,
            final(player)@ == old(player)@,
            final(player).available == old(player).available,
            final(player).error_msg == old(player).error_msg,
            updates == 0 ==> r is None && final(self).pixels@ == old(self).pixels@ && final(self).width == old(
                self,
            ).width && final(self).height == old(self).height && *final(player) == *old(player),
            updates != 0 ==> {
                let w = frame_side(width);
                let h = frame_side(height);
                &&& r == Some(FrameSize { width: w, height: h, stride: (w * 4) as i32 })
                &&& final(self).width == w
                &&& final(self).height == h
                &&& final(player).render_width == w
                &&& final(player).render_height == h
                &&& resized(old(self).pixels@, final(self).pixels@)
            },
    {
        if updates == 0 {
            return None;
        }
        let w: u32 = if width < 2 {
            2
        } else {
            width
        };
        let h: u32 = if height < 2 {
            2
        } else {
            height
        };
        assert(w * 4 <= 0x7fff_ffff && w * 4 * h == w * h * 4) by (nonlinear_arith)
            requires
                w * 4 * h <= 0xffff_ffff,
                h >= 2,
        ;
        player.render_width = w;
        player.render_height = h;
        let stride: i32 = (w * 4) as i32;
        let size: usize = (stride as u32 * h) as usize;
        let ghost before = self.pixels@;
        if self.pixels.len() != size {
            self.pixels.resize(size, 0);
            assert forall|i: int| 0 <= i < self.pixels@.len() implies #[trigger] self.pixels@[i] == if i < before.len() {
                before[i]
            } else {
                0
            } by {
                if size > before.len() && i < before.len() {
                    assert(self.pixels@.subrange(0, before.len() as int)[i] == before[i]);
                }
            }
        }
        self.width = w;
        self.height = h;
        Some(FrameSize { width: w, height: h, stride })
    }

    /// A frame was drawn, with this code of the library.
    pub fn end_frame(&mut self, code: i32)
        ensures
            final(self).pixels@ == old(self).pixels@,
            final(self).width == old(self).width,
            final(self).height == old(self).height,
            final(self).dirty == (old(self).dirty || code >= 0),
    {
        if code >= 0 {
            self.dirty = true;
        }
    }

    /// The pixels of a frame that was not shown yet, none of them see-through.
    pub fn take_picture(&mut self) -> (r: Option<Vec<u8>>)
        requires
            old(self).wf(),
        ensures
            final(self).wf(),
            final(self).pixels@ == old(self).pixels@,
            final(self).width == old(self).width,
            final(self).height == old(self).height,
            match r {
                Some(v) => old(self).dirty && old(self).pixels@.len() > 0 && !final(self).dirty && v@ == opaque_pixels(
                    old(self).pixels@,
                ) && v@.len() == old(self).width * old(self).height * 4,
                None => (!old(self).dirty || old(self).pixels@.len() == 0) && final(self).dirty == old(self).dirty,
            },
    {
        proof {
            let w = self.width as int;
            let h = self.height as int;
            assert(w * h == 0 <==> w == 0 || h == 0) by (nonlinear_arith);
        }
        if self.dirty && self.width > 0 && self.height > 0 && self.pixels.len() > 0 {
            self.dirty = false;
            Some(to_opaque(&self.pixels))
        } else {
            None
        }
    }
}

/// No pixel of a picture that is shown is see-through.
pub proof fn law_pictures_are_opaque(p: Seq<u8>, i: int)
    requires
        0 <= i < p.len() / 4,
    ensures
        opaque_pixels(p)[i * 4] == p[i * 4],
        opaque_pixels(p)[i * 4 + 1] == p[i * 4 + 1],
        opaque_pixels(p)[i * 4 + 2] == p[i * 4 + 2],
        opaque_pixels(p)[i * 4 + 3] == 255,
{
}

/// What is stopped is not played, whatever the library still tells of it: no file
/// comes back.
pub proof fn law_events_open_no_file<T>(p: PlayerRec<T>, e: PlayerEvent<T>)
    requires
        p.current_file is None,
    ensures
        player_after(p, e).current_file is None,
{
}

} // verus!
