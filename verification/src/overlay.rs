//! The viewer over the gallery: one file, with the controls of the player.

use vstd::prelude::*;
use crate::media::MediaType;
use crate::names::{base_name, basename};
use crate::order::{ends, ends_with};
use crate::text::{decimal, lowercase, lowercased, push_decimal};
use crate::thumbs::{thumb_filename, thumb_name};

verus! {

broadcast use vstd::string::group_string_axioms;

/// How many speeds there are to choose from.
pub const SPEED_COUNT: usize = 6;

/// The place of the ordinary speed among them.
pub const NORMAL_SPEED: usize = 2;

/// How long the controls stay in the full screen when nothing is done, in
/// milliseconds.
pub const HIDE_AFTER_MS: u64 = 2500;

/// What the viewer shows.
#[derive(Debug, Clone, Copy, PartialEq, Eq, Structural)]
pub struct Overlay {
    /// The file that is open, or -1.
    pub current: i64,
    pub open: bool,
    /// Whether the file is played by the player.
    pub is_video: bool,
    /// Whether the player draws into the window.
    pub render_video: bool,
    pub fullscreen: bool,
    pub speed: usize,
    pub muted: bool,
    pub looping: bool,
    pub controls_visible: bool,
    /// When something was done last.
    pub last_activity_ms: u64,
}

/// How a file is opened.
#[derive(Debug, Clone, Copy, PartialEq, Eq, Structural)]
pub enum Opening {
    /// Not at all: there is no such file.
    Unknown,
    /// Not at all: it is a video, and there is no player.
    NoPlayer,
    /// By the player, which begins anew at the end where `looped`.
    Played {
        looped: bool,
    },
    /// As a picture.
    Picture,
}

/// Whether a file is a GIF, which may be animated.
pub open spec fn is_gif(rel: Seq<char>) -> bool {
    ends_with(lowercased(rel), ".gif"@)
}

/// How a file is opened: videos, and GIFs where there is a player, are played; GIFs
/// begin anew at their end.
pub open spec fn opening_of(info: Option<(Seq<char>, MediaType)>, player: bool) -> Opening {
    match info {
        None => Opening::Unknown,
        Some(f) => opening_as(f.1, is_gif(f.0), player),
    }
}

/// How a file is opened, by its kind.
pub open spec fn opening_as(kind: MediaType, gif: bool, player: bool) -> Opening {
    if kind is Video || (gif && player) {
        if player {
            Opening::Played { looped: gif }
        } else {
            Opening::NoPlayer
        }
    } else {
        Opening::Picture
    }
}

/// How a file is opened, by its kind and whether it is a GIF.
pub fn choose_opening(kind: MediaType, gif: bool, player: bool) -> (r: Opening)
    ensures
        r == opening_as(kind, gif, player),
{
    if kind.is_video() || (gif && player) {
        if player {
            Opening::Played { looped: gif }
        } else {
            Opening::NoPlayer
        }
    } else {
        Opening::Picture
    }
}

/// The viewer when a file is opened. A video that cannot be played is the current
/// file, but is not shown.
pub open spec fn opened(v: Overlay, id: i64, how: Opening) -> Overlay {
    match how {
        Opening::Unknown => v,
        Opening::NoPlayer => Overlay { current: id, controls_visible: true, ..v },
        Opening::Played { looped } => Overlay {
            current: id,
            open: true,
            is_video: true,
            render_video: true,
            looping: looped,
            controls_visible: true,
            ..v
        },
        Opening::Picture => Overlay {
            current: id,
            open: true,
            is_video: false,
            render_video: false,
            controls_visible: true,
            ..v
        },
    }
}

/// The viewer when it is closed.
pub open spec fn closed(v: Overlay) -> Overlay {
    Overlay {
        current: -1i64,
        open: false,
        is_video: false,
        render_video: false,
        fullscreen: false,
        controls_visible: true,
        ..v
    }
}

impl Overlay {
    /// A viewer that shows nothing.
    pub fn new(now_ms: u64) -> (r: Overlay)
        ensures
            r == (Overlay {
                current: -1i64,
                open: false,
                is_video: false,
                render_video: false,
                fullscreen: false,
                speed: NORMAL_SPEED,
                muted: false,
                looping: false,
                controls_visible: true,
                last_activity_ms: now_ms,
            }),
    {
        Overlay {
            current: -1,
            open: false,
            is_video: false,
            render_video: false,
            fullscreen: false,
            speed: NORMAL_SPEED,
            muted: false,
            looping: false,
            controls_visible: true,
            last_activity_ms: now_ms,
        }
    }

    /// Whether the speed is one of those to choose from.
    pub open spec fn wf(self) -> bool {
        self.speed < SPEED_COUNT
    }

    /// Opens a file that is opened in this way.
    pub fn open_as(&mut self, id: i64, how: Opening)
        ensures
            *final(self) == opened(*old(self), id, how),
    {
        match how {
            Opening::Unknown => {},
            Opening::NoPlayer => {
                self.current = id;
                self.controls_visible = true;
            },
            Opening::Played { looped } => {
                self.current = id;
                self.controls_visible = true;
                self.is_video = true;
                self.open = true;
                self.render_video = true;
                self.looping = looped;
            },
            Opening::Picture => {
                self.current = id;
                self.controls_visible = true;
                self.render_video = false;
                self.is_video = false;
                self.open = true;
            },
        }
    }

    /// Opens a file, of which the path below the media and the kind are given where
    /// it is known. Gives how, and the name that is shown.
    pub fn open_file(&mut self, id: i64, info: &Option<(String, MediaType)>, player: bool) -> (r: (
        Opening,
        Option<String>,
    ))
        ensures
            r.0 == opening_of(
                match info {
                    Some(f) => Some((f.0@, f.1)),
                    None => None,
                },
                player,
            ),
            match info {
                Some(f) => r.1 matches Some(n) && n@ == base_name(f.0@),
                None => r.1 is None,
            },
            *final(self) == opened(*old(self), id, r.0),
    {
        match info {
            None => (Opening::Unknown, None),
            Some(f) => {
                let lower = lowercase(f.0.as_str());
                let gif = ends(lower.as_str(), ".gif");
                let how = choose_opening(f.1, gif, player);
                self.open_as(id, how);
                (how, Some(basename(f.0.as_str())))
            },
        }
    }

    /// Closes the viewer. Says whether the window has to leave the full screen.
    pub fn close(&mut self) -> (r: bool)
        ensures
            *final(self) == closed(*old(self)),
            r == old(self).fullscreen,
    {
        let r = self.fullscreen;
        self.fullscreen = false;
        self.open = false;
        self.is_video = false;
        self.controls_visible = true;
        self.current = -1;
        self.render_video = false;
        r
    }

    /// Turns the sound off or on. Says whether it is off.
    pub fn toggle_mute(&mut self) -> (r: bool)
        ensures
            r == !old(self).muted,
            *final(self) == (Overlay { muted: r, ..*old(self) }),
    {
        self.muted = !self.muted;
        self.muted
    }

    /// Goes on to the next speed, and from the last to the first. Gives its place.
    pub fn cycle_speed(&mut self) -> (r: usize)
        requires
            old(self).wf(),
        ensures
            final(self).wf(),
            r == (old(self).speed + 1) % (SPEED_COUNT as int),
            *final(self) == (Overlay { speed: r, ..*old(self) }),
    {
        self.speed = (self.speed + 1) % SPEED_COUNT;
        self.speed
    }

    /// Begins anew at the end, or does not. Says whether it does.
    pub fn toggle_loop(&mut self) -> (r: bool)
        ensures
            r == !old(self).looping,
            *final(self) == (Overlay { looping: r, ..*old(self) }),
    {
        self.looping = !self.looping;
        self.looping
    }

    /// Goes to the full screen, or leaves it. Says whether it is there.
    pub fn toggle_fullscreen(&mut self, now_ms: u64) -> (r: bool)
        ensures
            r == !old(self).fullscreen,
            *final(self) == (Overlay {
                fullscreen: r,
                controls_visible: true,
                last_activity_ms: now_ms,
                ..*old(self)
            }),
    {
        self.fullscreen = !self.fullscreen;
        self.controls_visible = true;
        self.last_activity_ms = now_ms;
        self.fullscreen
    }

    /// Something was done.
    pub fn activity(&mut self, now_ms: u64)
        ensures
            *final(self) == (Overlay { controls_visible: true, last_activity_ms: now_ms, ..*old(self) }),
    {
        self.last_activity_ms = now_ms;
        self.controls_visible = true;
    }

    /// Some time went by. While a video is shown, the controls are hidden in the full
    /// screen when nothing was done for a while, and are there outside of it. Says
    /// whether the player is to be asked where it is.
    pub fn tick(&mut self, now_ms: u64) -> (r: bool)
        ensures
            r == (old(self).open && old(self).is_video),
            *final(self) == if !r {
                *old(self)
            } else {
                Overlay {
                    controls_visible: if old(self).fullscreen {
                        old(self).controls_visible && now_ms - old(self).last_activity_ms <= HIDE_AFTER_MS
                    } else {
                        true
                    },
                    ..*old(self)
                }
            },
    {
        if !self.open || !self.is_video {
            return false;
        }
        if self.fullscreen {
            if now_ms > self.last_activity_ms && now_ms - self.last_activity_ms > HIDE_AFTER_MS {
                self.controls_visible = false;
            }
        } else {
            self.controls_visible = true;
        }
        true
    }

    /// The files that the frame becomes a thumbnail in: the one that the frame is
    /// written to, and the thumbnail. There are none without a file or a player.
    pub fn thumbnail_files(&self, player: bool) -> (r: Option<(String, String)>)
        ensures
            match r {
                Some(f) => player && self.current >= 0 && f.0@ == decimal(self.current as int) + ".cap.png"@ && f.1@
                    == thumb_name(self.current),
                None => !player || self.current < 0,
            },
    {
        if !player || self.current < 0 {
            return None;
        }
        let mut cap = String::new();
        push_decimal(&mut cap, self.current);
        cap.append(".cap.png");
        assert(cap@ =~= decimal(self.current as int) + ".cap.png"@);
        Some((cap, thumb_filename(self.current)))
    }

    /// Whether a change of zoom or place is handed to the player.
    pub fn moves_video(&self, player: bool) -> (r: bool)
        ensures
            r == (self.is_video && player),
    {
        self.is_video && player
    }
}

/// What was opened and closed again leaves no trace but the settings of the player:
/// nothing is open, and the window is not full.
pub proof fn law_close_undoes_open(v: Overlay, id: i64, how: Opening)
    ensures
        closed(opened(v, id, how)).current == -1,
        !closed(opened(v, id, how)).open,
        !closed(opened(v, id, how)).render_video,
        !closed(opened(v, id, how)).fullscreen,
        closed(opened(v, id, how)).muted == v.muted,
        closed(opened(v, id, how)).speed == v.speed,
{
}

/// As many steps through the speeds as there are speeds lead back to where they
/// began.
pub proof fn law_speeds_come_round(i: int)
    requires
        0 <= i < SPEED_COUNT,
    ensures
        ((((((i + 1) % 6 + 1) % 6 + 1) % 6 + 1) % 6 + 1) % 6 + 1) % 6 == i,
        SPEED_COUNT == 6,
{
}

/// The player draws into the window only while a video is shown, as long as files
/// are opened and the viewer is closed.
pub proof fn law_player_draws_while_shown(v: Overlay, id: i64, how: Opening)
    requires
        v.render_video ==> v.open && v.is_video,
    ensures
        opened(v, id, how).render_video ==> opened(v, id, how).open && opened(v, id, how).is_video,
        !closed(v).render_video,
{
}

} // verus!
