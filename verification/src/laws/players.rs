//! The players: where their library is looked for, which steps a session takes, and what
//! is taken from it.

use vstd::prelude::*;
use crate::mpv::{begun, closing, lib_files, lib_names, player_option_texts, player_places, search_places, session_after, viewer_option_texts, MpvError, Order, PlaceRec, Purpose, Reply, Session};
use crate::text::decimal;
use crate::thumbnail::{args_after, args_before, try_after, ThumbTry};
use crate::thumbs::{aligned, channel_max, inscribed, new_short, probe_option_texts, reach, shows_frame, thumb_name, thumb_option_texts, wait_after, FramePlan, Wait};

verus! {

/// How early a kind of place is looked at.
pub open spec fn turn_of(p: PlaceRec) -> int {
    match p {
        PlaceRec::Named => 0,
        PlaceRec::System(n) => 1,
        PlaceRec::Binary(f) => 2,
        PlaceRec::Current(f) => 3,
        PlaceRec::Data(f) => 4,
    }
}

/// The library is looked for first where it is said to be, next in the system, and below
/// the directory of the binary before the current one.
pub proof fn law_places_come_in_turn(named: bool, binary: bool, current: bool, windows: bool, i: int, j: int)
    requires
        0 <= i < j < search_places(named, binary, current, windows).len(),
    ensures
        turn_of(search_places(named, binary, current, windows)[i]) <= turn_of(
            search_places(named, binary, current, windows)[j],
        ) < 4,
{
}

/// Every place where the library may be is looked at: the file that is named, each name
/// in the system, and each name in both directories of libraries. One of which the
/// directory is not known is left out.
pub proof fn law_every_place_is_looked_at(named: bool, binary: bool, current: bool, windows: bool, k: int)
    requires
        0 <= k < lib_names(windows).len(),
    ensures
        ({
            let places = search_places(named, binary, current, windows);
            let n = lib_names(windows)[k];
            &&& places.contains(PlaceRec::Named) <==> named
            &&& places.contains(PlaceRec::System(n))
            &&& places.contains(PlaceRec::Binary("appdata/libs/"@ + n)) <==> binary
            &&& places.contains(PlaceRec::Binary("libs/"@ + n)) <==> binary
            &&& places.contains(PlaceRec::Current("appdata/libs/"@ + n)) <==> current
            &&& places.contains(PlaceRec::Current("libs/"@ + n)) <==> current
        }),
{
    let places = search_places(named, binary, current, windows);
    let names = lib_names(windows);
    let c = names.len() as int;
    let n = names[k];
    let files = lib_files(windows);
    let x: int = if named {
        1
    } else {
        0
    };
    let y: int = if binary {
        2 * c
    } else {
        0
    };
    assert(files.len() == 2 * c);
    assert(files[k] == "appdata/libs/"@ + n);
    assert(files[c + k] == "libs/"@ + n);
    if named {
        assert(places[0] == PlaceRec::Named);
    }
    assert(places[x + k] == PlaceRec::System(n));
    if binary {
        assert(places[x + c + k] == PlaceRec::Binary(files[k]));
        assert(places[x + c + c + k] == PlaceRec::Binary(files[c + k]));
    }
    if current {
        assert(places[x + c + y + k] == PlaceRec::Current(files[k]));
        assert(places[x + c + y + c + k] == PlaceRec::Current(files[c + k]));
    }
}

/// What is made is handled in the order in which it is made: the player gets its options
/// before it begins, a picture is drawn once the file is there, and what is open is
/// closed at the end, the context before the handle.
pub proof fn law_session_takes_its_steps(s: Session)
    ensures
        begun(s.purpose).order is Create && !begun(s.purpose).handle && !begun(s.purpose).context,
        begun(s.purpose).error is None,
        ({
            let t = session_after(s, Reply::Done);
            &&& t.purpose == s.purpose && t.error == s.error
            &&& s.order is Create ==> t.order is SetOptions && t.handle && t.context == s.context
            &&& s.order is SetOptions ==> t.order is Initialize
            &&& s.order is Initialize ==> t.order == match s.purpose {
                Purpose::Shot => Order::MakeContext,
                Purpose::Player => Order::MakeContext,
                Purpose::Probe => Order::Load,
                Purpose::Viewer => Order::Finish,
            }
            &&& s.order is MakeContext ==> t.context && t.handle == s.handle && t.order == match s.purpose {
                Purpose::Player => Order::Observe,
                _ => Order::Load,
            }
            &&& s.order is Load ==> t.order is Wait
            &&& s.order is Wait && s.purpose is Shot ==> t.order is Draw
            &&& s.order is Wait && !(s.purpose is Shot) || s.order is Draw ==> t.order == closing(s)
            &&& s.order is Observe ==> t.order is Finish && t.handle == s.handle && t.context == s.context
            &&& s.order is FreeContext ==> !t.context && t.handle == s.handle && (t.order is Destroy <==> s.handle)
            &&& s.order is Destroy ==> !t.handle
            &&& !(s.order is Create || s.order is MakeContext || s.order is FreeContext || s.order is Destroy)
                ==> t.handle == s.handle && t.context == s.context
        }),
        closing(s) is FreeContext <==> s.context,
        closing(s) is Destroy <==> !s.context && s.handle,
        closing(s) is Finish <==> !s.context && !s.handle,
{
}

/// What fails is told with its code, and the session goes out.
pub proof fn law_session_tells_what_failed(s: Session, code: i32)
    ensures
        ({
            let t = session_after(s, Reply::Failed(code));
            &&& s.order is Create ==> t.error == Some(MpvError::Create)
            &&& s.order is Initialize ==> t.error == Some(MpvError::Initialize(code))
            &&& s.order is MakeContext ==> t.error == Some(MpvError::Context(code))
            &&& s.order is Load ==> t.error == Some(MpvError::Load(code))
            &&& s.order is Wait ==> t.error == Some(MpvError::NotReady)
            &&& s.order is Draw ==> t.error == Some(MpvError::Draw(code))
            &&& s.order is Create || s.order is Initialize || s.order is MakeContext || s.order is Load || s.order is Wait
                || s.order is Draw ==> t.order == closing(s) && t.handle == s.handle && t.context == s.context
            &&& s.order is SetOptions ==> t.error == s.error && t.order is Initialize
        }),
        s.order is Load ==> session_after(s, Reply::BadPath).error == Some(MpvError::Path),
{
}

/// One that waits goes on when what it waits for comes, gives up when the file or the
/// library ends, and waits on else.
pub proof fn law_waiting_ends(event: i32, wanted: i32)
    ensures
        wait_after(event, wanted) is Ready <==> event == wanted,
        wait_after(event, wanted) is Over <==> event != wanted && (event == 7 || event == 1),
        wait_after(event, wanted) is Again <==> event != wanted && event != 7 && event != 1,
{
}

/// The rows of a frame begin at multiples of 64, at the next one there is.
pub proof fn law_rows_are_aligned(n: int)
    requires
        n >= 0,
    ensures
        aligned(n) % 64 == 0,
        n <= aligned(n) < n + 64,
{
}

/// A picture of a frame shows each pixel where it is, its first three bytes in their
/// order.
pub proof fn law_picture_shows_its_frame(rgb: Seq<u8>, frame: Seq<u8>, plan: FramePlan, x: int, y: int)
    requires
        shows_frame(rgb, frame, plan),
        0 <= x < plan.width,
        0 <= y < plan.height,
    ensures
        rgb.len() == plan.width * plan.height * 3,
        rgb[(y * plan.width + x) * 3] == frame[y * plan.stride + x * 4],
        rgb[(y * plan.width + x) * 3 + 1] == frame[y * plan.stride + x * 4 + 1],
        rgb[(y * plan.width + x) * 3 + 2] == frame[y * plan.stride + x * 4 + 2],
{
    assert(rgb[(y * plan.width + x) * 3 + 0] == frame[y * plan.stride + x * 4 + 0]);
}

/// A picture that is scaled into a square fills it along its longer side, stands out
/// nowhere, and keeps its proportions up to a pixel.
pub proof fn law_picture_fits_its_square(width: u32, height: u32, max: u32, w: u32, h: u32)
    requires
        width > 0,
        height > 0,
        max > 0,
        inscribed((width, height), max, w, h),
    ensures
        0 < w <= max && 0 < h <= max,
        width >= height ==> w == max && height * max - width <= h * width <= height * max + width,
        width < height ==> h == max && width * max - height <= w * height <= width * max + height,
{
}

/// A frame that cannot be taken five seconds into a video is taken at its beginning, and
/// after that no more.
pub proof fn law_second_try_is_at_the_beginning(secs: u32)
    ensures
        try_after(ThumbTry::At(secs), true) is Made,
        try_after(ThumbTry::At(5), false) == ThumbTry::At(0),
        secs != 5 ==> try_after(ThumbTry::At(secs), false) is Failed,
        try_after(ThumbTry::Made, false) is Made && try_after(ThumbTry::Failed, true) is Failed,
{
}

/// A call names the second of the frame before the video, and asks for one frame of a
/// width with the height that goes with it.
pub proof fn law_frame_is_called_for(secs: u32, width: u32)
    ensures
        args_before(secs) == seq!["-y"@, "-ss"@, decimal(secs as int), "-i"@],
        args_after(width) == seq!["-frames:v"@, "1"@, "-vf"@, "scale="@ + decimal(width as int) + ":-1"@],
{
}

/// The thumbnail of a file is called by its id.
pub proof fn law_thumbnail_is_called_by_id(id: i64)
    ensures
        thumb_name(id) == decimal(id as int) + ".jpg"@,
{
}

/// The names of the library, in the order in which they are tried.
pub proof fn law_names_of_the_library()
    ensures
        lib_names(true) == seq!["libmpv-2.dll"@, "mpv-2.dll"@, "libmpv.dll"@, "mpv-1.dll"@],
        lib_names(false) == seq!["libmpv.so"@, "libmpv.so.2"@, "libmpv.so.1"@],
        player_places(true) == seq![PlaceRec::Data("libs/mpv-2.dll"@), PlaceRec::Data("libs/libmpv-2.dll"@)],
        player_places(false).len() == 7,
        player_places(false).take(3) == seq![
            PlaceRec::Data("libs/libmpv.so"@),
            PlaceRec::Data("libs/libmpv.so.2"@),
            PlaceRec::Data("libs/libmpv.so.1"@),
        ],
        player_places(false).skip(3) == seq![
            PlaceRec::System("/usr/lib/libmpv.so"@),
            PlaceRec::System("/usr/lib/x86_64-linux-gnu/libmpv.so"@),
            PlaceRec::System("/usr/lib64/libmpv.so"@),
            PlaceRec::System("/usr/local/lib/libmpv.so"@),
        ],
{
}

/// Whether the option at a place is set to a value.
pub open spec fn is_set(options: Seq<(Seq<char>, Seq<char>)>, k: int, name: Seq<char>, value: Seq<char>) -> bool {
    0 <= k < options.len() && options[k] == (name, value)
}

/// A player draws through the library; one that only looks at a video draws nothing. One
/// that makes a thumbnail is silent, stands still, and stands where it is told to; that of
/// the viewer decodes as it is told to.
pub proof fn law_options_of_players(percent: u32, hwdec: Seq<char>)
    ensures
        is_set(thumb_option_texts(percent), 0, "vo"@, "libmpv"@),
        is_set(thumb_option_texts(percent), 1, "hwdec"@, "no"@),
        is_set(thumb_option_texts(percent), 2, "audio"@, "no"@),
        is_set(thumb_option_texts(percent), 3, "terminal"@, "no"@),
        is_set(thumb_option_texts(percent), 4, "msg-level"@, "all=no"@),
        is_set(thumb_option_texts(percent), 5, "pause"@, "yes"@),
        is_set(thumb_option_texts(percent), 6, "hr-seek"@, "yes"@),
        is_set(thumb_option_texts(percent), 7, "start"@, decimal(percent as int) + seq!['%']),
        thumb_option_texts(percent).len() == 8,
        is_set(probe_option_texts(), 0, "vo"@, "null"@),
        is_set(probe_option_texts(), 1, "audio"@, "no"@),
        is_set(probe_option_texts(), 2, "terminal"@, "no"@),
        is_set(probe_option_texts(), 3, "msg-level"@, "all=no"@),
        is_set(probe_option_texts(), 4, "pause"@, "yes"@),
        probe_option_texts().len() == 5,
        is_set(viewer_option_texts(hwdec), 0, "vo"@, "libmpv"@),
        is_set(viewer_option_texts(hwdec), 1, "terminal"@, "no"@),
        is_set(viewer_option_texts(hwdec), 2, "msg-level"@, "all=warn"@),
        is_set(viewer_option_texts(hwdec), 3, "keep-open"@, "yes"@),
        is_set(viewer_option_texts(hwdec), 4, "hwdec"@, hwdec),
        is_set(viewer_option_texts(hwdec), 5, "scale"@, "spline36"@),
        is_set(viewer_option_texts(hwdec), 6, "cscale"@, "spline36"@),
        is_set(viewer_option_texts(hwdec), 7, "dscale"@, "mitchell"@),
        is_set(viewer_option_texts(hwdec), 8, "correct-downscaling"@, "yes"@),
        is_set(viewer_option_texts(hwdec), 9, "sigmoid-upscaling"@, "yes"@),
        viewer_option_texts(hwdec).len() == 10,
        is_set(player_option_texts(), 0, "vo"@, "libmpv"@),
        is_set(player_option_texts(), 1, "hwdec"@, "no"@),
        is_set(player_option_texts(), 3, "idle"@, "yes"@),
        is_set(player_option_texts(), 8, "cache"@, "yes"@),
        player_option_texts().len() == 12,
{
}

/// Room for the sum of the pixels that become one is asked for with a margin: for as many
/// of them as there are to a pixel along each side and three more, or all there are.
pub proof fn law_room_for_sums(side: int, n: int, long: int, short: int, max: u32)
    requires
        side >= 0,
        n > 0,
    ensures
        reach(side, n) <= side,
        reach(side, n) == side || reach(side, n) >= side / n + 3,
        new_short(long, short, max) >= 1,
        channel_max(None) == 65535,
        channel_max(Some((1u8, 1u8))) == 255,
        channel_max(Some((3u8, 3u8))) == 255,
        channel_max(Some((2u8, 1u8))) == 65535,
        channel_max(Some((12u8, 3u8))) == 65535,
{
    assert(side / 0x40_0000 >= 0);
}

} // verus!
