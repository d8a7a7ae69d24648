//! The view of one file: an image, or a video with its controls.

use vstd::prelude::*;
use crate::db::MediaType;
use crate::text::{decimal, push_decimal};

verus! {

broadcast use vstd::string::group_string_axioms;

// ---------------------------------------------------------------------------
// Times.

/// A number of at least two digits.
pub open spec fn two_digits(n: int) -> Seq<char> {
    if n < 10 {
        seq!['0'] + decimal(n)
    } else {
        decimal(n)
    }
}

/// A time as `m:ss`, or as `h:mm:ss` from an hour on.
pub open spec fn time_text(total: int) -> Seq<char> {
    let h = total / 3600;
    let m = total % 3600 / 60;
    let s = total % 60;
    if h > 0 {
        decimal(h) + seq![':'] + two_digits(m) + seq![':'] + two_digits(s)
    } else {
        decimal(m) + seq![':'] + two_digits(s)
    }
}

/// A time as `m:ss`, however many minutes it has.
pub open spec fn short_time_text(total: int) -> Seq<char> {
    decimal(total / 60) + seq![':'] + two_digits(total % 60)
}

fn push_two(out: &mut String, n: u64)
    requires
        n <= i64::MAX,
    ensures
        final(out)@ == old(out)@ + two_digits(n as int),
{
    let ghost before = out@;
    if n < 10 {
        out.push('0');
    }
    push_decimal(out, n as i64);
    assert(out@ =~= before + two_digits(n as int));
}

/// Writes whole seconds as a time.
pub fn format_time(total: u64) -> (r: String)
    ensures
        r@ == time_text(total as int),
{
    let h: u64 = total / 3600;
    let m: u64 = (total % 3600) / 60;
    let s: u64 = total % 60;
    let mut out = String::new();
    if h > 0 {
        push_decimal(&mut out, h as i64);
        out.push(':');
        push_two(&mut out, m);
    } else {
        push_decimal(&mut out, m as i64);
    }
    out.push(':');
    push_two(&mut out, s);
    assert(out@ =~= time_text(total as int));
    out
}

/// Writes whole seconds, which are not negative, in minutes and seconds.
pub fn fmt_time(secs: i64) -> (r: String)
    requires
        secs >= 0,
    ensures
        r@ == short_time_text(secs as int),
{
    let mut out = String::new();
    push_decimal(&mut out, secs / 60);
    out.push(':');
    push_two(&mut out, (secs % 60) as u64);
    assert(out@ =~= short_time_text(secs as int));
    out
}

/// Where a player is and how long it plays: `m:ss / m:ss`.
pub fn time_label(pos: i64, duration: i64) -> (r: String)
    requires
        pos >= 0,
        duration >= 0,
    ensures
        r@ == short_time_text(pos as int) + " / "@ + short_time_text(duration as int),
{
    let mut out = fmt_time(pos);
    out.append(" / ");
    let d = fmt_time(duration);
    out.append(d.as_str());
    out
}

// ---------------------------------------------------------------------------
// The view.

/// What the view asks for.
#[derive(Debug, Clone, Copy, PartialEq, Eq, Structural)]
pub enum ViewerAction {
    Idle,
    Close,
    SetAsThumbnail,
    EditTags(i64),
}

/// What the view shows.
#[derive(Debug, Clone, Copy, PartialEq, Eq)]
pub struct ViewerState {
    /// The file that is shown, and its kind.
    pub current: Option<(i64, MediaType)>,
    pub fullscreen: bool,
    /// Whether the picture of the video is to be dropped before the next frame.
    pub drop_video_texture: bool,
}

impl Default for ViewerState {
    fn default() -> (r: ViewerState)
        ensures
            r == (ViewerState { current: None, fullscreen: false, drop_video_texture: false }),
    {
        ViewerState { current: None, fullscreen: false, drop_video_texture: false }
    }
}

impl ViewerState {
    /// The picture of the video is to be dropped, but not while a frame is drawn.
    pub fn invalidate_video_texture(&mut self)
        ensures
            *final(self) == (ViewerState { drop_video_texture: true, ..*old(self) }),
    {
        self.drop_video_texture = true;
    }

    /// At the beginning of a frame: says whether the picture of the video is to be
    /// dropped now.
    pub fn process_deferred(&mut self) -> (r: bool)
        ensures
            r == old(self).drop_video_texture,
            *final(self) == (ViewerState { drop_video_texture: false, ..*old(self) }),
    {
        let r = self.drop_video_texture;
        self.drop_video_texture = false;
        r
    }
}

/// What was done in the bar over the view.
#[derive(Debug, Clone, Copy, PartialEq, Eq, Structural)]
pub enum BarEvent {
    Back,
    Tags,
    SetAsThumbnail,
}

/// What is asked for when something is done in the bar. A thumbnail is taken from a
/// video only.
pub open spec fn bar_asks(media: (i64, MediaType), e: BarEvent) -> ViewerAction {
    match e {
        BarEvent::Back => ViewerAction::Close,
        BarEvent::Tags => ViewerAction::EditTags(media.0),
        BarEvent::SetAsThumbnail => if media.1 is Video {
            ViewerAction::SetAsThumbnail
        } else {
            ViewerAction::Idle
        },
    }
}

/// What is asked for when things are done in the bar one after the other.
pub open spec fn bar_run_asks(media: (i64, MediaType), es: Seq<BarEvent>, n: int) -> ViewerAction
    decreases n,
{
    if n <= 0 {
        ViewerAction::Idle
    } else {
        let ask = bar_asks(media, es[n - 1]);
        if ask == ViewerAction::Idle {
            bar_run_asks(media, es, n - 1)
        } else {
            ask
        }
    }
}

/// All that was done in the view while it was shown once. Without a file it closes.
/// The escape key leaves the full screen; the bar is there only outside of it. Says
/// what is asked for, and whether the player has to stop.
pub fn show_viewer(state: &mut ViewerState, escape: bool, events: &Vec<BarEvent>) -> (r: (ViewerAction, bool))
    ensures
        match old(state).current {
            None => *final(state) == *old(state) && r == (ViewerAction::Close, false),
            Some(media) => {
                &&& *final(state) == (ViewerState {
                    fullscreen: old(state).fullscreen && !escape,
                    ..*old(state)
                })
                &&& r.0 == if final(state).fullscreen {
                    ViewerAction::Idle
                } else {
                    bar_run_asks(media, events@, events@.len() as int)
                }
                &&& r.1 == (!final(state).fullscreen && events@.contains(BarEvent::Back))
            },
        },
{
    let media = match state.current {
        None => {
            return (ViewerAction::Close, false);
        },
        Some(m) => m,
    };
    if state.fullscreen && escape {
        state.fullscreen = false;
    }
    let mut action = ViewerAction::Idle;
    let mut stop = false;
    if !state.fullscreen {
        let mut i: usize = 0;
        while i < events.len()
            invariant
                i <= events@.len(),
                action == bar_run_asks(media, events@, i as int),
                stop == events@.take(i as int).contains(BarEvent::Back),
            decreases events.len() - i,
        {
            let e = events[i];
            let ghost t = events@.take(i as int);
            proof {
                assert(events@.take(i + 1) =~= t.push(e));
                crate::order::lemma_push_contains(t, e, BarEvent::Back);
            }
            match e {
                BarEvent::Back => {
                    action = ViewerAction::Close;
                    stop = true;
                },
                BarEvent::Tags => {
                    action = ViewerAction::EditTags(media.0);
                },
                BarEvent::SetAsThumbnail => {
                    if media.1.is_video() {
                        action = ViewerAction::SetAsThumbnail;
                    }
                },
            }
            i += 1;
        }
        assert(events@.take(i as int) =~= events@);
    }
    (action, stop)
}

// ---------------------------------------------------------------------------
// The video.

/// What was done with the video and its controls.
#[derive(Debug, Clone, Copy, PartialEq, Eq, Structural)]
pub enum VideoEvent {
    /// The picture was clicked.
    Click,
    /// The picture was clicked twice.
    DoubleClick,
    /// The button that plays and pauses.
    PlayPause,
    /// A jump back.
    Back,
    /// A jump ahead.
    Ahead,
    /// A jump to the place that was clicked in the bar.
    Seek,
    /// The end.
    Stop,
    /// The button below the picture that goes to the full screen and back.
    Fullscreen,
    /// The button over the picture that leaves the full screen.
    ExitFullscreen,
}

/// What the player has to do.
#[derive(Debug, Clone, Copy, PartialEq, Eq, Structural)]
pub enum PlayerOrder {
    TogglePause,
    SeekBack,
    SeekAhead,
    SeekTo,
    Stop,
}

/// Whether something keeps the controls in view.
pub open spec fn is_activity(e: VideoEvent) -> bool {
    e is Click || e is DoubleClick
}

/// The view after something was done with the video. To stop leaves the full
/// screen; outside of it the picture is dropped too.
pub open spec fn video_after(s: ViewerState, e: VideoEvent) -> ViewerState {
    match e {
        VideoEvent::DoubleClick => ViewerState { fullscreen: !s.fullscreen, ..s },
        VideoEvent::Fullscreen => ViewerState { fullscreen: !s.fullscreen, ..s },
        VideoEvent::ExitFullscreen => ViewerState { fullscreen: false, ..s },
        VideoEvent::Stop => ViewerState {
            fullscreen: false,
            drop_video_texture: s.drop_video_texture || !s.fullscreen,
            ..s
        },
        _ => s,
    }
}

/// What the player has to do when something was done with the video.
pub open spec fn video_order(e: VideoEvent) -> Option<PlayerOrder> {
    match e {
        VideoEvent::Click => Some(PlayerOrder::TogglePause),
        VideoEvent::PlayPause => Some(PlayerOrder::TogglePause),
        VideoEvent::Back => Some(PlayerOrder::SeekBack),
        VideoEvent::Ahead => Some(PlayerOrder::SeekAhead),
        VideoEvent::Seek => Some(PlayerOrder::SeekTo),
        VideoEvent::Stop => Some(PlayerOrder::Stop),
        VideoEvent::DoubleClick => None,
        VideoEvent::Fullscreen => None,
        VideoEvent::ExitFullscreen => None,
    }
}

impl ViewerState {
    /// Something was done with the video or its controls. Gives what the player has
    /// to do, and whether the controls stay in view for it.
    pub fn video_event(&mut self, e: VideoEvent) -> (r: (Option<PlayerOrder>, bool))
        ensures
            *final(self) == video_after(*old(self), e),
            r.0 == video_order(e),
            r.1 == is_activity(e),
    {
        match e {
            VideoEvent::Click => (Some(PlayerOrder::TogglePause), true),
            VideoEvent::PlayPause => (Some(PlayerOrder::TogglePause), false),
            VideoEvent::Back => (Some(PlayerOrder::SeekBack), false),
            VideoEvent::Ahead => (Some(PlayerOrder::SeekAhead), false),
            VideoEvent::Seek => (Some(PlayerOrder::SeekTo), false),
            VideoEvent::Stop => {
                if !self.fullscreen {
                    self.drop_video_texture = true;
                }
                self.fullscreen = false;
                (Some(PlayerOrder::Stop), false)
            },
            VideoEvent::DoubleClick => {
                self.fullscreen = !self.fullscreen;
                (None, true)
            },
            VideoEvent::Fullscreen => {
                self.fullscreen = !self.fullscreen;
                (None, false)
            },
            VideoEvent::ExitFullscreen => {
                self.fullscreen = false;
                (None, false)
            },
        }
    }

    /// The video that is shown is to be played. Says whether the player has to open
    /// it: not where it is open already.
    pub fn begin_video(&mut self, open: &Option<String>, wanted: &str) -> (r: bool)
        ensures
            r == !(open matches Some(c) && c@ == wanted@),
            *final(self) == (ViewerState {
                drop_video_texture: old(self).drop_video_texture || r,
                ..*old(self)
            }),
    {
        let same = match open {
            Some(c) => crate::order::same_text(c.as_str(), wanted),
            None => false,
        };
        if !same {
            self.invalidate_video_texture();
        }
        !same
    }

    /// Whether the controls are shown: always outside the full screen, and in it
    /// while the mouse was moved a moment ago.
    pub fn show_controls(&self, moved_lately: bool) -> (r: bool)
        ensures
            r == (!self.fullscreen || moved_lately),
    {
        !self.fullscreen || moved_lately
    }

    /// Whether room is left for the controls below the picture.
    pub fn controls_below(&self, moved_lately: bool) -> (r: bool)
        ensures
            r == !self.fullscreen,
    {
        self.show_controls(moved_lately) && !self.fullscreen
    }
}

/// Where the controls of a video are.
#[derive(Debug, Clone, Copy, PartialEq, Eq, Structural)]
pub enum Controls {
    /// Below the picture.
    Below,
    /// Over the picture.
    Over,
    Hidden,
}

impl ViewerState {
    /// Where the controls are, given whether they are shown.
    pub fn controls(&self, shown: bool) -> (r: Controls)
        ensures
            r == if !self.fullscreen {
                Controls::Below
            } else if shown {
                Controls::Over
            } else {
                Controls::Hidden
            },
    {
        if !self.fullscreen {
            Controls::Below
        } else if shown {
            Controls::Over
        } else {
            Controls::Hidden
        }
    }
}

/// What stands in place of the picture where there is no player.
pub fn no_player_text(error: &Option<String>) -> (r: String)
    ensures
        r@ == match error {
            Some(e) => "libmpv not available:\n"@ + e@ + "\n\nPlace libmpv.so or mpv-2.dll\nin appdata/libs/"@,
            None => "libmpv not loaded"@,
        },
{
    match error {
        Some(e) => {
            let mut out = "libmpv not available:\n".to_string();
            out.append(e.as_str());
            out.append("\n\nPlace libmpv.so or mpv-2.dll\nin appdata/libs/");
            out
        },
        None => "libmpv not loaded".to_string(),
    }
}

/// The pixels of what the player drew, with every fourth byte full: no pixel is
/// see-through. Bytes that make no whole pixel are left out.
pub open spec fn opaque_pixels(p: Seq<u8>) -> Seq<u8> {
    Seq::new(
        (p.len() / 4 * 4) as nat,
        |i: int|
            if i % 4 == 3 {
                255u8
            } else {
                p[i]
            },
    )
}

/// The pixels of what the player drew, none of them see-through.
pub fn to_opaque(pixels: &Vec<u8>) -> (r: Vec<u8>)
    ensures
        r@ == opaque_pixels(pixels@),
{
    let total: usize = pixels.len();
    let n: usize = total / 4;
    let mut out: Vec<u8> = Vec::new();
    let mut i: usize = 0;
    while i < n
        invariant
            i <= n,
            total == pixels@.len(),
            n == total / 4,
            out@.len() == i * 4,
            forall|k: int| 0 <= k < i * 4 ==> #[trigger] out@[k] == opaque_pixels(pixels@)[k],
        decreases n - i,
    {
        out.push(pixels[i * 4]);
        out.push(pixels[i * 4 + 1]);
        out.push(pixels[i * 4 + 2]);
        out.push(255);
        i += 1;
    }
    assert(out@ =~= opaque_pixels(pixels@));
    out
}

/// The button reads `Pause` while the player plays, else `Play`.
pub fn play_label(is_playing: bool) -> (r: &'static str)
    ensures
        r@ == if is_playing {
            "Pause"@
        } else {
            "Play"@
        },
{
    if is_playing {
        "Pause"
    } else {
        "Play"
    }
}

} // verus!
