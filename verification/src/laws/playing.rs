//! What is played and shown: how a file is opened, what the player tells, and how times
//! are written.

use vstd::prelude::*;
use super::texts::{law_numbers_are_written_in_tens, law_parts_of_texts};
use crate::media::MediaType;
use crate::overlay::{closed, opened, opening_of, Opening, Overlay};
use crate::player::{frame_side, kind_of_event, player_after, resized, PlayerEvent, PlayerRec};
use crate::text::{decimal, lowercased};
use crate::ui::viewer::{opaque_pixels, short_time_text, time_text, two_digits, video_after, video_order, PlayerOrder, VideoEvent, ViewerState};

verus! {

/// Whether a path ends in the extension of GIFs, in whatever case.
pub open spec fn names_gif(rel: Seq<char>) -> bool {
    exists|a: Seq<char>| lowercased(rel) == #[trigger] (a + ".gif"@)
}

/// A video is played where there is a player. A GIF is played too, again and again, and
/// is a picture where there is no player. Any other picture is shown as one.
pub proof fn law_how_a_file_is_opened(rel: Seq<char>, kind: MediaType, player: bool)
    ensures
        opening_of(None, player) is Unknown,
        ({
            let how = opening_of(Some((rel, kind)), player);
            &&& kind == MediaType::Video && !player ==> how is NoPlayer
            &&& kind == MediaType::Video && player ==> how == Opening::Played { looped: names_gif(rel) }
            &&& kind == MediaType::Image && names_gif(rel) && player ==> how == Opening::Played { looped: true }
            &&& kind == MediaType::Image && !(names_gif(rel) && player) ==> how is Picture
        }),
{
    law_parts_of_texts(lowercased(rel), ".gif"@);
}

/// A file that is opened is the one that is shown, as a video or as a picture; one that
/// is not known changes nothing. Sound, speed and full screen stay as they were.
pub proof fn law_opened_file(v: Overlay, id: i64, how: Opening)
    ensures
        how is Unknown ==> opened(v, id, how) == v,
        !(how is Unknown) ==> opened(v, id, how).current == id && opened(v, id, how).controls_visible,
        how is Played ==> opened(v, id, how).open && opened(v, id, how).is_video && opened(v, id, how).render_video
            && opened(v, id, how).looping == how->looped,
        how is Picture ==> opened(v, id, how).open && !opened(v, id, how).is_video && !opened(v, id, how).render_video,
        how is NoPlayer ==> opened(v, id, how).open == v.open && opened(v, id, how).is_video == v.is_video,
        opened(v, id, how).muted == v.muted,
        opened(v, id, how).speed == v.speed,
        opened(v, id, how).fullscreen == v.fullscreen,
        opened(v, id, how).last_activity_ms == v.last_activity_ms,
        !(how is Played) ==> opened(v, id, how).looping == v.looping,
{
}

/// A viewer that is closed shows nothing and leaves the full screen; sound, speed and
/// whether it begins anew stay.
pub proof fn law_closed_viewer(v: Overlay)
    ensures
        closed(v).current < 0,
        !closed(v).open && !closed(v).is_video && !closed(v).render_video && !closed(v).fullscreen,
        closed(v).controls_visible,
        closed(v).muted == v.muted && closed(v).speed == v.speed && closed(v).looping == v.looping,
        closed(v).last_activity_ms == v.last_activity_ms,
{
}

/// What the player tells is taken over, each thing in its place and nothing else; at the
/// end of a file it does not play, and when the library goes there is no file.
pub proof fn law_player_follows_its_events<T>(p: PlayerRec<T>, t: T, flag: i32)
    ensures
        player_after(p, PlayerEvent::Position(t)).position == t,
        player_after(p, PlayerEvent::Position(t)).duration == p.duration,
        player_after(p, PlayerEvent::Position(t)).is_playing == p.is_playing,
        player_after(p, PlayerEvent::Position(t)).current_file == p.current_file,
        player_after(p, PlayerEvent::Duration(t)).duration == t,
        player_after(p, PlayerEvent::Duration(t)).position == p.position,
        player_after(p, PlayerEvent::Duration(t)).is_playing == p.is_playing,
        player_after(p, PlayerEvent::Duration(t)).current_file == p.current_file,
        player_after(p, PlayerEvent::<T>::Pause(flag)).is_playing <==> flag == 0,
        player_after(p, PlayerEvent::<T>::Pause(flag)).position == p.position,
        player_after(p, PlayerEvent::<T>::Pause(flag)).duration == p.duration,
        player_after(p, PlayerEvent::<T>::Pause(flag)).current_file == p.current_file,
        !player_after(p, PlayerEvent::<T>::EndFile).is_playing,
        player_after(p, PlayerEvent::<T>::EndFile).current_file == p.current_file,
        player_after(p, PlayerEvent::<T>::EndFile).position == p.position,
        !player_after(p, PlayerEvent::<T>::Shutdown).is_playing,
        player_after(p, PlayerEvent::<T>::Shutdown).current_file is None,
        player_after(p, PlayerEvent::<T>::Other) == p,
{
}

/// What an event of the library is about: of those that tell a property only the three
/// that are observed count, under their numbers and in their formats.
pub proof fn law_events_are_told_apart(event: i32, observed: u64, format: i32, value: bool)
    ensures
        kind_of_event(event, observed, format, value) is Empty <==> event == 0,
        kind_of_event(event, observed, format, value) is Shutdown <==> event == 1,
        kind_of_event(event, observed, format, value) is EndFile <==> event == 7,
        kind_of_event(event, observed, format, value) is Position <==> event == 22 && value && observed == 1 && format == 5,
        kind_of_event(event, observed, format, value) is Duration <==> event == 22 && value && observed == 2 && format == 5,
        kind_of_event(event, observed, format, value) is Pause <==> event == 22 && value && observed == 3 && format == 3,
{
}

/// A side of a frame is never less than two, and otherwise as it is asked for.
pub proof fn law_frame_sides(n: u32)
    ensures
        frame_side(n) >= 2,
        n >= 2 ==> frame_side(n) == n,
        n < 2 ==> frame_side(n) == 2,
{
}

/// Bytes that are resized keep their beginning; what is added is zero.
pub proof fn law_resized_bytes(before: Seq<u8>, after: Seq<u8>, i: int)
    requires
        resized(before, after),
        0 <= i < after.len(),
    ensures
        i < before.len() ==> after[i] == before[i],
        i >= before.len() ==> after[i] == 0,
{
}

/// A picture has as many whole pixels as what it was made of.
pub proof fn law_pictures_have_whole_pixels(p: Seq<u8>)
    ensures
        opaque_pixels(p).len() % 4 == 0,
        p.len() - 4 < opaque_pixels(p).len() <= p.len(),
{
}

/// The character of a digit.
pub open spec fn digit(d: int) -> char {
    (('0' as u32) + d) as char
}

proof fn lemma_two_digits(n: int)
    requires
        0 <= n < 60,
    ensures
        two_digits(n) == seq![digit(n / 10), digit(n % 10)],
{
    if n < 10 {
        law_numbers_are_written_in_tens(1, n);
        assert(two_digits(n) =~= seq![digit(n / 10), digit(n % 10)]);
    } else {
        law_numbers_are_written_in_tens(n / 10, n % 10);
        law_numbers_are_written_in_tens(1, n / 10);
        assert(10 * (n / 10) + n % 10 == n);
        assert(two_digits(n) =~= seq![digit(n / 10), digit(n % 10)]);
    }
}

/// A time is written as its minutes and its seconds, of which there are two digits; from
/// an hour on its hours come first, and its minutes have two digits too.
pub proof fn law_times_are_written(h: int, m: int, s: int)
    requires
        h >= 0,
        0 <= m < 60,
        0 <= s < 60,
    ensures
        h > 0 ==> time_text(3600 * h + 60 * m + s) == decimal(h) + seq![
            ':',
            digit(m / 10),
            digit(m % 10),
            ':',
            digit(s / 10),
            digit(s % 10),
        ],
        time_text(60 * m + s) == decimal(m) + seq![':', digit(s / 10), digit(s % 10)],
{
    lemma_time_parts(h, m, s);
    lemma_time_parts(0, m, s);
    lemma_two_digits(m);
    lemma_two_digits(s);
    let tail = seq![':', digit(m / 10), digit(m % 10), ':', digit(s / 10), digit(s % 10)];
    assert(seq![':'] + two_digits(s) =~= seq![':', digit(s / 10), digit(s % 10)]);
    if h > 0 {
        assert(decimal(h) + seq![':'] + two_digits(m) + seq![':'] + two_digits(s) =~= decimal(h) + tail);
    }
    assert(decimal(m) + seq![':'] + two_digits(s) =~= decimal(m) + seq![':', digit(s / 10), digit(s % 10)]);
}

proof fn lemma_time_parts(h: int, m: int, s: int)
    requires
        h >= 0,
        0 <= m < 60,
        0 <= s < 60,
    ensures
        (3600 * h + 60 * m + s) / 3600 == h,
        (3600 * h + 60 * m + s) % 3600 / 60 == m,
        (3600 * h + 60 * m + s) % 60 == s,
{
}

/// The time of a player is written as its minutes, however many, and its seconds in two
/// digits.
pub proof fn law_short_times_are_written(m: int, s: int)
    requires
        m >= 0,
        0 <= s < 60,
    ensures
        short_time_text(60 * m + s) == decimal(m) + seq![':', digit(s / 10), digit(s % 10)],
{
    lemma_two_digits(s);
    assert(short_time_text(60 * m + s) =~= decimal(m) + seq![':', digit(s / 10), digit(s % 10)]);
}

/// The full screen is entered and left by its button and by a double click, and left for
/// good by its other button and by stopping.
pub proof fn law_video_and_full_screen(v: ViewerState, e: VideoEvent)
    ensures
        e is DoubleClick || e is Fullscreen ==> video_after(v, e).fullscreen == !v.fullscreen,
        e is ExitFullscreen || e is Stop ==> !video_after(v, e).fullscreen,
        !(e is DoubleClick || e is Fullscreen || e is ExitFullscreen || e is Stop) ==> video_after(v, e) == v,
        video_after(v, e).current == v.current,
        e is Stop && !v.fullscreen ==> video_after(v, e).drop_video_texture,
        !(e is Stop) ==> video_after(v, e).drop_video_texture == v.drop_video_texture,
        e is Stop && v.fullscreen ==> video_after(v, e).drop_video_texture == v.drop_video_texture,
{
}

/// The player pauses or plays on at a click and at its button, jumps where it is told to
/// and stops when it is told to; the full screen is no matter of its.
pub proof fn law_video_orders(e: VideoEvent)
    ensures
        video_order(e) == Some(PlayerOrder::TogglePause) <==> e is Click || e is PlayPause,
        video_order(e) == Some(PlayerOrder::SeekBack) <==> e is Back,
        video_order(e) == Some(PlayerOrder::SeekAhead) <==> e is Ahead,
        video_order(e) == Some(PlayerOrder::SeekTo) <==> e is Seek,
        video_order(e) == Some(PlayerOrder::Stop) <==> e is Stop,
        video_order(e) is None <==> e is DoubleClick || e is Fullscreen || e is ExitFullscreen,
{
}

} // verus!
