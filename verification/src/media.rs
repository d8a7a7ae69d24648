//! Kinds of media, told apart by file extension.
//!
//! Video goes to the player, which handles practically everything, so the list
//! of video extensions only keeps what is not media out of the index.

use vstd::prelude::*;
use crate::order::same_text;

verus! {

/// The kind of a media file. It is stored as an integer.
#[derive(Debug, Clone, Copy, PartialEq, Eq, Structural)]
pub enum MediaType {
    Image,
    Video,
}

impl MediaType {
    /// The integer that stands for the kind.
    pub open spec fn code(self) -> i64 {
        match self {
            MediaType::Image => 0,
            MediaType::Video => 1,
        }
    }

    /// The kind that an integer stands for, if it stands for one.
    pub fn from_i64(v: i64) -> (r: Option<MediaType>)
        ensures
            match r {
                Some(t) => t.code() == v,
                None => v != 0 && v != 1,
            },
    {
        if v == 0 {
            Some(MediaType::Image)
        } else if v == 1 {
            Some(MediaType::Video)
        } else {
            None
        }
    }

    /// The integer that stands for the kind.
    pub fn to_i64(self) -> (r: i64)
        ensures
            r == self.code(),
    {
        match self {
            MediaType::Image => 0,
            MediaType::Video => 1,
        }
    }

    /// Whether this is video.
    pub fn is_video(self) -> (r: bool)
        ensures
            r == (self is Video),
    {
        match self {
            MediaType::Image => false,
            MediaType::Video => true,
        }
    }
}

/// Whether an extension belongs to a picture.
pub open spec fn image_ext(e: Seq<char>) -> bool {
    ||| e == "jpg"@
    ||| e == "jpeg"@
    ||| e == "png"@
    ||| e == "webp"@
    ||| e == "gif"@
    ||| e == "bmp"@
}

/// Whether an extension belongs to a video.
pub open spec fn video_ext(e: Seq<char>) -> bool {
    ||| e == "mp4"@
    ||| e == "mkv"@
    ||| e == "avi"@
    ||| e == "webm"@
    ||| e == "mov"@
    ||| e == "m4v"@
    ||| e == "wmv"@
    ||| e == "flv"@
    ||| e == "mpg"@
    ||| e == "mpeg"@
    ||| e == "ts"@
    ||| e == "m2ts"@
    ||| e == "3gp"@
    ||| e == "ogv"@
}

/// The kind of media that an extension stands for.
pub open spec fn kind_of(e: Seq<char>) -> Option<MediaType> {
    if image_ext(e) {
        Some(MediaType::Image)
    } else if video_ext(e) {
        Some(MediaType::Video)
    } else {
        None
    }
}

/// The kind of media by extension (in lower case, without the dot); `None` for
/// what is not media.
pub fn classify(ext: &str) -> (r: Option<MediaType>)
    ensures
        r == kind_of(ext@),
{
    if same_text(ext, "jpg") || same_text(ext, "jpeg") || same_text(ext, "png") || same_text(
        ext,
        "webp",
    ) || same_text(ext, "gif") || same_text(ext, "bmp") {
        Some(MediaType::Image)
    } else if same_text(ext, "mp4") || same_text(ext, "mkv") || same_text(ext, "avi") || same_text(
        ext,
        "webm",
    ) || same_text(ext, "mov") || same_text(ext, "m4v") || same_text(ext, "wmv") || same_text(
        ext,
        "flv",
    ) || same_text(ext, "mpg") || same_text(ext, "mpeg") || same_text(ext, "ts") || same_text(
        ext,
        "m2ts",
    ) || same_text(ext, "3gp") || same_text(ext, "ogv") {
        Some(MediaType::Video)
    } else {
        None
    }
}

} // verus!
