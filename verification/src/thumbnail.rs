//! The worker that makes thumbnails one by one, and the calls of ffmpeg that it
//! makes them with.

use vstd::prelude::*;
use crate::media::MediaType;
use crate::text::{decimal, push_decimal, texts};
use crate::thumbs::{thumb_filename, thumb_name};

verus! {

broadcast use vstd::string::group_string_axioms;

/// A file as the gallery holds it.
pub struct MediaFile {
    pub id: i64,
    pub path: String,
    pub filename: String,
    pub media_type: MediaType,
    pub file_size: Option<i64>,
    pub created_at: i64,
    pub thumbnail_path: Option<String>,
    /// Whether the thumbnail was taken from a frame of the user's choice.
    pub custom_thumbnail: bool,
}

/// What a [`MediaFile`] says.
#[verifier::ext_equal]
pub struct MediaRec {
    pub id: i64,
    pub path: Seq<char>,
    pub filename: Seq<char>,
    pub media_type: MediaType,
    pub file_size: Option<i64>,
    pub created_at: i64,
    pub thumbnail: Option<Seq<char>>,
    pub custom_thumbnail: bool,
}

impl View for MediaFile {
    type V = MediaRec;

    open spec fn view(&self) -> MediaRec {
        MediaRec {
            id: self.id,
            path: self.path@,
            filename: self.filename@,
            media_type: self.media_type,
            file_size: self.file_size,
            created_at: self.created_at,
            thumbnail: match self.thumbnail_path {
                Some(s) => Some(s@),
                None => None,
            },
            custom_thumbnail: self.custom_thumbnail,
        }
    }
}

impl MediaFile {
    /// Another one that says the same.
    pub fn copied(&self) -> (r: MediaFile)
        ensures
            r@ == self@,
    {
        MediaFile {
            id: self.id,
            path: self.path.clone(),
            filename: self.filename.clone(),
            media_type: self.media_type,
            file_size: self.file_size,
            created_at: self.created_at,
            thumbnail_path: match &self.thumbnail_path {
                Some(s) => Some(s.clone()),
                None => None,
            },
            custom_thumbnail: self.custom_thumbnail,
        }
    }
}

/// What files say.
pub open spec fn media_recs(v: Seq<MediaFile>) -> Seq<MediaRec> {
    v.map_values(|f: MediaFile| f@)
}

/// What came of a file that waited for its thumbnail.
pub struct ThumbnailResult {
    pub media_id: i64,
    /// The file with the thumbnail, where there is one.
    pub thumb_filename: Option<String>,
}

/// What a [`ThumbnailResult`] says.
pub struct ResultRec {
    pub media_id: i64,
    pub thumb: Option<Seq<char>>,
}

impl View for ThumbnailResult {
    type V = ResultRec;

    open spec fn view(&self) -> ResultRec {
        ResultRec {
            media_id: self.media_id,
            thumb: match self.thumb_filename {
                Some(s) => Some(s@),
                None => None,
            },
        }
    }
}

/// What results say.
pub open spec fn result_recs(v: Seq<ThumbnailResult>) -> Seq<ResultRec> {
    v.map_values(|f: ThumbnailResult| f@)
}

/// The files that wait for their thumbnails, and the results that wait to be taken.
/// `R` is what stands for the directory that the paths of the files begin at.
pub struct ThumbnailWorker<R> {
    media_root: R,
    thumbnail_width: u32,
    waiting: Vec<MediaFile>,
    /// How many files were handed out and are not done.
    working: usize,
    done: Vec<ThumbnailResult>,
    pending: usize,
}

/// What a [`ThumbnailWorker`] says.
#[verifier::ext_equal]
pub struct WorkerRec<R> {
    pub media_root: R,
    pub thumbnail_width: u32,
    pub waiting: Seq<MediaRec>,
    pub working: nat,
    pub done: Seq<ResultRec>,
}

impl<R> View for ThumbnailWorker<R> {
    type V = WorkerRec<R>;

    closed spec fn view(&self) -> WorkerRec<R> {
        WorkerRec {
            media_root: self.media_root,
            thumbnail_width: self.thumbnail_width,
            waiting: media_recs(self.waiting@),
            working: self.working as nat,
            done: result_recs(self.done@),
        }
    }
}

impl<R> WorkerRec<R> {
    /// How many files were queued of which the result was not taken.
    pub open spec fn pending(self) -> nat {
        self.waiting.len() + self.working + self.done.len()
    }
}

impl<R> ThumbnailWorker<R> {
    /// Whether the count of what is pending is right.
    pub closed spec fn wf(&self) -> bool {
        self.pending == self@.pending()
    }

    /// A worker that has nothing to do. It makes the thumbnails of files below
    /// `media_root`, `thumbnail_width` wide.
    pub fn start(media_root: R, thumbnail_width: u32) -> (r: ThumbnailWorker<R>)
        ensures
            r.wf(),
            r@ == (WorkerRec {
                media_root,
                thumbnail_width,
                waiting: Seq::empty(),
                working: 0,
                done: Seq::empty(),
            }),
    {
        let r = ThumbnailWorker {
            media_root,
            thumbnail_width,
            waiting: Vec::new(),
            working: 0,
            done: Vec::new(),
            pending: 0,
        };
        assert(r@ =~= WorkerRec {
            media_root,
            thumbnail_width,
            waiting: Seq::empty(),
            working: 0,
            done: Seq::empty(),
        });
        r
    }

    /// The directory that the paths of the files begin at.
    pub fn media_root(&self) -> (r: &R)
        ensures
            *r == self@.media_root,
    {
        &self.media_root
    }

    /// How wide the thumbnails are.
    pub fn thumbnail_width(&self) -> (r: u32)
        ensures
            r == self@.thumbnail_width,
    {
        self.thumbnail_width
    }

    /// Queues a file, unless it has a thumbnail.
    pub fn queue(&mut self, file: MediaFile)
        requires
            old(self).wf(),
            old(self)@.pending() < usize::MAX,
        ensures
            final(self).wf(),
            final(self)@ == if file.thumbnail_path is Some {
                old(self)@
            } else {
                WorkerRec { waiting: old(self)@.waiting.push(file@), ..old(self)@ }
            },
    {
        if file.thumbnail_path.is_some() {
            return;
        }
        let ghost before = self@;
        let ghost f = file@;
        self.waiting.push(file);
        self.pending += 1;
        assert(self@ =~= WorkerRec { waiting: before.waiting.push(f), ..before });
    }

    /// Hands out the file that waited longest.
    pub fn next(&mut self) -> (r: Option<MediaFile>)
        requires
            old(self).wf(),
        ensures
            final(self).wf(),
            match r {
                Some(f) => old(self)@.waiting.len() > 0 && f@ == old(self)@.waiting[0] && final(self)@ == (WorkerRec {
                    waiting: old(self)@.waiting.drop_first(),
                    working: old(self)@.working + 1,
                    ..old(self)@
                }),
                None => old(self)@.waiting.len() == 0 && final(self)@ == old(self)@,
            },
    {
        if self.waiting.len() == 0 {
            return None;
        }
        let ghost before = self@;
        let ghost w = self.waiting@;
        let f = self.waiting.remove(0);
        assert(media_recs(w)[0] == w[0]@);
        self.working += 1;
        assert(self@ =~= WorkerRec {
            waiting: before.waiting.drop_first(),
            working: before.working + 1,
            ..before
        });
        Some(f)
    }

    /// A file that was handed out is done.
    pub fn finish(&mut self, result: ThumbnailResult)
        requires
            old(self).wf(),
            old(self)@.working > 0,
        ensures
            final(self).wf(),
            final(self)@ == (WorkerRec {
                working: (old(self)@.working - 1) as nat,
                done: old(self)@.done.push(result@),
                ..old(self)@
            }),
    {
        let ghost before = self@;
        let ghost r = result@;
        self.working -= 1;
        self.done.push(result);
        assert(self@ =~= WorkerRec { working: (before.working - 1) as nat, done: before.done.push(r), ..before });
    }

    /// Takes the oldest result that was not taken.
    pub fn try_recv(&mut self) -> (r: Option<ThumbnailResult>)
        requires
            old(self).wf(),
        ensures
            final(self).wf(),
            match r {
                Some(t) => old(self)@.done.len() > 0 && t@ == old(self)@.done[0] && final(self)@ == (WorkerRec {
                    done: old(self)@.done.drop_first(),
                    ..old(self)@
                }),
                None => old(self)@.done.len() == 0 && final(self)@ == old(self)@,
            },
    {
        if self.done.len() == 0 {
            return None;
        }
        let ghost before = self@;
        let ghost d = self.done@;
        let t = self.done.remove(0);
        assert(result_recs(d)[0] == d[0]@);
        self.pending -= 1;
        assert(self@ =~= WorkerRec { done: before.done.drop_first(), ..before });
        Some(t)
    }

    /// Whether there is a file of which the result was not taken.
    pub fn busy(&self) -> (r: bool)
        requires
            self.wf(),
        ensures
            r == (self@.pending() > 0),
    {
        self.pending > 0
    }
}

// ---------------------------------------------------------------------------
// Calls of ffmpeg.

/// What ffmpeg is called.
pub fn ffmpeg_binary_name(windows: bool) -> (r: &'static str)
    ensures
        r@ == if windows {
            "ffmpeg.exe"@
        } else {
            "ffmpeg"@
        },
{
    if windows {
        "ffmpeg.exe"
    } else {
        "ffmpeg"
    }
}

/// The ffmpeg to call: the one in the directory of libraries below the data of the
/// application where it is there, else the one that the system finds.
pub fn find_ffmpeg(portable_exists: bool, windows: bool) -> (r: String)
    ensures
        r@ == (if portable_exists {
            "libs/"@
        } else {
            ""@
        }) + (if windows {
            "ffmpeg.exe"@
        } else {
            "ffmpeg"@
        }),
{
    let mut out = if portable_exists {
        "libs/".to_string()
    } else {
        "".to_string()
    };
    out.append(ffmpeg_binary_name(windows));
    out
}

/// What stands before the path of the video.
pub open spec fn args_before(secs: u32) -> Seq<Seq<char>> {
    seq!["-y"@, "-ss"@, decimal(secs as int), "-i"@]
}

/// What stands between the path of the video and that of the thumbnail.
pub open spec fn args_after(width: u32) -> Seq<Seq<char>> {
    seq!["-frames:v"@, "1"@, "-vf"@, "scale="@ + decimal(width as int) + ":-1"@]
}

/// A call of ffmpeg that takes one frame at a time of a video.
pub struct FfmpegCall {
    /// What stands before the path of the video.
    pub before: Vec<String>,
    /// What stands between the path of the video and that of the thumbnail.
    pub after: Vec<String>,
}

/// A call of ffmpeg that takes the frame after so many seconds.
pub fn ffmpeg_call(secs: u32, width: u32) -> (r: FfmpegCall)
    ensures
        texts(r.before@) == args_before(secs),
        texts(r.after@) == args_after(width),
{
    let mut at = String::new();
    push_decimal(&mut at, secs as i64);
    assert(at@ =~= decimal(secs as int));
    let mut before: Vec<String> = Vec::new();
    before.push("-y".to_string());
    before.push("-ss".to_string());
    before.push(at);
    before.push("-i".to_string());
    assert(texts(before@) =~= args_before(secs));
    let mut scale = "scale=".to_string();
    push_decimal(&mut scale, width as i64);
    scale.append(":-1");
    let mut after: Vec<String> = Vec::new();
    after.push("-frames:v".to_string());
    after.push("1".to_string());
    after.push("-vf".to_string());
    after.push(scale);
    assert(texts(after@) =~= args_after(width));
    FfmpegCall { before, after }
}

/// The second of a video that the thumbnail is taken from first.
pub const FIRST_TRY: u32 = 5;

/// How far a thumbnail of a video is.
#[derive(Debug, Clone, Copy, PartialEq, Eq, Structural)]
pub enum ThumbTry {
    /// ffmpeg is to take the frame after so many seconds.
    At(u32),
    Made,
    Failed,
}

/// What is done after a call that made the thumbnail, or did not: a video that is
/// too short for the first try gets its first frame.
pub open spec fn try_after(t: ThumbTry, made: bool) -> ThumbTry {
    match t {
        ThumbTry::At(secs) => if made {
            ThumbTry::Made
        } else if secs == FIRST_TRY {
            ThumbTry::At(0)
        } else {
            ThumbTry::Failed
        },
        _ => t,
    }
}

impl ThumbTry {
    /// The first call.
    pub fn first() -> (r: ThumbTry)
        ensures
            r == ThumbTry::At(FIRST_TRY),
    {
        ThumbTry::At(FIRST_TRY)
    }

    /// ffmpeg was called: whether it ended well, and whether the thumbnail is there.
    pub fn after(self, success: bool, exists: bool) -> (r: ThumbTry)
        ensures
            r == try_after(self, success && exists),
    {
        match self {
            ThumbTry::At(secs) => if success && exists {
                ThumbTry::Made
            } else if secs == FIRST_TRY {
                ThumbTry::At(0)
            } else {
                ThumbTry::Failed
            },
            _ => self,
        }
    }

    /// The result of a file once its thumbnail was made or given up.
    pub fn result(self, media_id: i64) -> (r: ThumbnailResult)
        ensures
            r@.media_id == media_id,
            r@.thumb == if self is Made {
                Some(thumb_name(media_id))
            } else {
                None
            },
    {
        match self {
            ThumbTry::Made => ThumbnailResult { media_id, thumb_filename: Some(thumb_filename(media_id)) },
            _ => ThumbnailResult { media_id, thumb_filename: None },
        }
    }
}

/// ffmpeg is called at most twice for a thumbnail.
pub proof fn law_at_most_two_tries(a: bool, b: bool)
    ensures
        try_after(try_after(ThumbTry::At(FIRST_TRY), a), b) !is At,
        try_after(try_after(ThumbTry::At(FIRST_TRY), a), b) is Made <==> a || b,
{
}

} // verus!
