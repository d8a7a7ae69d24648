//! The pass over the whole library: the scan, the thumbnails, the hashes of the
//! contents, the lengths of the videos and the resolutions.
//!
//! [`Reindex`] says what has to be done next and takes what came of it. Thumbnails
//! come before hashes, since a hash reads every byte of a file and a thumbnail can
//! be shown at once.

use vstd::prelude::*;
use crate::db::{file_ids_grow, limited, updated, waiting, waits, Db, FileRec, MediaType, Pending, Tables};
use crate::db::queue::id_path_kinds;
use crate::seqs::{lemma_filter_from, lemma_filter_step};

pub mod passes;

verus! {

broadcast use vstd::string::group_string_axioms;

/// The longest side of a thumbnail.
pub const THUMB_MAX: u32 = 320;

/// How many files are taken from the index at a time.
pub const BATCH: i64 = 16;

/// Where in a video the frame of its thumbnail is taken, in percent of its length.
pub const VIDEO_THUMB_PERCENT: u32 = 20;

/// The thumbnail is there.
pub const THUMB_OK: i64 = 1;

/// The thumbnail could not be made.
pub const THUMB_ERR: i64 = 2;

/// What the pass is at.
#[derive(Debug, Clone, Copy, PartialEq, Eq, Structural)]
pub enum Stage {
    Scan,
    Thumbs,
    Hashes,
    Durations,
    Resolutions,
    Finished,
}

impl Stage {
    /// The stage that comes after this one.
    pub open spec fn following(self) -> Stage {
        match self {
            Stage::Scan => Stage::Thumbs,
            Stage::Thumbs => Stage::Hashes,
            Stage::Hashes => Stage::Durations,
            Stage::Durations => Stage::Resolutions,
            Stage::Resolutions => Stage::Finished,
            Stage::Finished => Stage::Finished,
        }
    }

    /// How many stages are to come.
    pub open spec fn ahead(self) -> int {
        match self {
            Stage::Scan => 5,
            Stage::Thumbs => 4,
            Stage::Hashes => 3,
            Stage::Durations => 2,
            Stage::Resolutions => 1,
            Stage::Finished => 0,
        }
    }

    /// What the files of a stage wait for.
    pub open spec fn pending(self) -> Pending {
        match self {
            Stage::Thumbs => Pending::Thumb,
            Stage::Hashes => Pending::Hash,
            Stage::Durations => Pending::Duration,
            _ => Pending::Resolution,
        }
    }

    fn next(self) -> (r: Stage)
        ensures
            r == self.following(),
    {
        match self {
            Stage::Scan => Stage::Thumbs,
            Stage::Thumbs => Stage::Hashes,
            Stage::Hashes => Stage::Durations,
            Stage::Durations => Stage::Resolutions,
            Stage::Resolutions => Stage::Finished,
            Stage::Finished => Stage::Finished,
        }
    }
}

/// A file that something has to be found for.
pub struct Task {
    pub id: i64,
    pub rel: String,
    pub is_video: bool,
}

/// What a [`Task`] says.
#[verifier::ext_equal]
pub struct TaskRec {
    pub id: i64,
    pub rel: Seq<char>,
    pub is_video: bool,
}

impl View for Task {
    type V = TaskRec;

    open spec fn view(&self) -> TaskRec {
        TaskRec { id: self.id, rel: self.rel@, is_video: self.is_video }
    }
}

/// What the tasks say.
pub open spec fn task_recs(v: Seq<Task>) -> Seq<TaskRec> {
    v.map_values(|t: Task| t@)
}

/// The task for a row.
pub open spec fn task_of(r: FileRec) -> TaskRec {
    TaskRec { id: r.id, rel: r.rel_path, is_video: r.media_type is Video }
}

/// The next files of a stage.
pub open spec fn batch_of(files: Seq<FileRec>, stage: Stage) -> Seq<TaskRec> {
    limited(waiting(files, stage.pending()), BATCH as int).map_values(|r: FileRec| task_of(r))
}

/// Where the pass stands.
#[verifier::ext_equal]
pub struct Run {
    pub stage: Stage,
    /// The files that were taken from the index.
    pub batch: Seq<TaskRec>,
    /// How many of them are done.
    pub at: int,
    /// Whether one of them got what it waited for.
    pub progressed: bool,
    /// Whether the view has to be brought up to date first.
    pub refresh: bool,
}

/// The beginning: nothing is done.
pub open spec fn at_start() -> Run {
    Run { stage: Stage::Scan, batch: Seq::empty(), at: 0, progressed: false, refresh: false }
}

/// The first stage from `stage` on that has files to work on, with its files; at
/// the end the view is brought up to date once more.
pub open spec fn opened(stage: Stage, files: Seq<FileRec>) -> Run
    decreases stage.ahead(),
{
    if stage is Finished {
        Run { stage, batch: Seq::empty(), at: 0, progressed: false, refresh: true }
    } else if batch_of(files, stage).len() > 0 && !(stage is Scan) {
        Run { stage, batch: batch_of(files, stage), at: 0, progressed: false, refresh: false }
    } else {
        opened(stage.following(), files)
    }
}

/// Where the pass stands once a batch is done: at the next batch of its stage, or
/// in a later stage. A batch of hashes of which none could be taken ends its
/// stage, so that files that cannot be read do not keep it for ever; and so does a
/// batch of resolutions of which none could be written.
pub open spec fn after_batch(s: Run, files: Seq<FileRec>) -> Run {
    if (s.stage is Hashes || s.stage is Resolutions) && !s.progressed {
        opened(s.stage.following(), files)
    } else {
        opened(s.stage, files)
    }
}

/// Where the pass stands when it is asked what is next.
pub open spec fn ready(s: Run, files: Seq<FileRec>) -> Run {
    if s.refresh || s.stage is Scan || s.stage is Finished || s.at < s.batch.len() {
        s
    } else {
        after_batch(s, files)
    }
}

/// What has to be done next.
pub enum Job {
    /// Hold the media folder against the index.
    Scan,
    /// Bring the view up to date.
    Refresh,
    /// Make a thumbnail.
    Thumb(Task),
    /// Take the hash of the content.
    Hash(Task),
    /// Find the length of a video.
    Duration(Task),
    /// Find the width and the height.
    Resolution(Task),
    /// Nothing: the pass is over.
    Finished,
}

/// What a [`Job`] says.
pub enum JobRec {
    Scan,
    Refresh,
    Thumb(TaskRec),
    Hash(TaskRec),
    Duration(TaskRec),
    Resolution(TaskRec),
    Finished,
}

impl View for Job {
    type V = JobRec;

    open spec fn view(&self) -> JobRec {
        match self {
            Job::Scan => JobRec::Scan,
            Job::Refresh => JobRec::Refresh,
            Job::Thumb(t) => JobRec::Thumb(t@),
            Job::Hash(t) => JobRec::Hash(t@),
            Job::Duration(t) => JobRec::Duration(t@),
            Job::Resolution(t) => JobRec::Resolution(t@),
            Job::Finished => JobRec::Finished,
        }
    }
}

/// What has to be done where the pass stands.
pub open spec fn job_at(s: Run) -> JobRec {
    if s.refresh {
        JobRec::Refresh
    } else {
        match s.stage {
            Stage::Scan => JobRec::Scan,
            Stage::Thumbs => JobRec::Thumb(s.batch[s.at]),
            Stage::Hashes => JobRec::Hash(s.batch[s.at]),
            Stage::Durations => JobRec::Duration(s.batch[s.at]),
            Stage::Resolutions => JobRec::Resolution(s.batch[s.at]),
            Stage::Finished => JobRec::Finished,
        }
    }
}

/// What came of making a thumbnail: for a video its length and its size come with
/// it.
#[derive(Debug, Clone, Copy)]
pub struct ThumbFacts {
    pub duration_ms: Option<i64>,
    /// The width and the height.
    pub dims: Option<(i64, i64)>,
}

/// The files after a thumbnail was made, or could not be made.
pub open spec fn with_thumb(files: Seq<FileRec>, id: i64, made: Option<ThumbFacts>) -> Seq<FileRec> {
    updated(
        files,
        id,
        |r: FileRec|
            match made {
                None => FileRec { thumb_state: THUMB_ERR, ..r },
                Some(facts) => FileRec {
                    thumb_state: THUMB_OK,
                    duration_ms: if facts.duration_ms is Some {
                        facts.duration_ms
                    } else {
                        r.duration_ms
                    },
                    width: match facts.dims {
                        Some(d) => Some(d.0),
                        None => r.width,
                    },
                    height: match facts.dims {
                        Some(d) => Some(d.1),
                        None => r.height,
                    },
                    ..r
                },
            },
    )
}

/// The files after a hash was taken; where it could not be, they stay as they are.
pub open spec fn with_hash(files: Seq<FileRec>, id: i64, hash: Option<u64>) -> Seq<FileRec> {
    match hash {
        None => files,
        Some(h) => updated(files, id, |r: FileRec| FileRec { hash: Some(h as i64), ..r }),
    }
}

/// The files after a length was found; -1 stands for one that cannot be found.
pub open spec fn with_duration(files: Seq<FileRec>, id: i64, ms: Option<i64>) -> Seq<FileRec> {
    updated(
        files,
        id,
        |r: FileRec|
            FileRec {
                duration_ms: Some(
                    match ms {
                        Some(v) => v,
                        None => -1i64,
                    },
                ),
                ..r
            },
    )
}

/// The files after a width and a height were found; -1 stands for those that
/// cannot be found.
pub open spec fn with_dims(files: Seq<FileRec>, id: i64, dims: Option<(i64, i64)>) -> Seq<FileRec> {
    updated(
        files,
        id,
        |r: FileRec|
            match dims {
                Some(d) => FileRec { width: Some(d.0), height: Some(d.1), ..r },
                None => FileRec { width: Some(-1i64), height: Some(-1i64), ..r },
            },
    )
}

/// The pass after a task of it is done.
pub open spec fn task_done(s: Run, progressed: bool) -> Run {
    Run {
        at: s.at + 1,
        progressed: s.progressed || progressed,
        refresh: s.stage is Thumbs && s.at + 1 == s.batch.len(),
        ..s
    }
}

/// The pass over the whole library.
pub struct Reindex {
    stage: Stage,
    batch: Vec<Task>,
    at: usize,
    progressed: bool,
    refresh: bool,
}

impl View for Reindex {
    type V = Run;

    closed spec fn view(&self) -> Run {
        Run {
            stage: self.stage,
            batch: task_recs(self.batch@),
            at: self.at as int,
            progressed: self.progressed,
            refresh: self.refresh,
        }
    }
}

fn copy_task(t: &Task) -> (r: Task)
    ensures
        r@ == t@,
{
    Task { id: t.id, rel: t.rel.clone(), is_video: t.is_video }
}

/// The next files of a stage.
fn fetch(db: &Db, stage: Stage) -> (r: Vec<Task>)
    requires
        !(stage is Scan) && !(stage is Finished),
    ensures
        task_recs(r@) == batch_of(db@.files, stage),
{
    let p = match stage {
        Stage::Thumbs => Pending::Thumb,
        Stage::Hashes => Pending::Hash,
        Stage::Durations => Pending::Duration,
        _ => Pending::Resolution,
    };
    let ghost rows = limited(waiting(db@.files, stage.pending()), BATCH as int);
    let v = db.next_waiting(p, BATCH);
    let ghost seen = v@.map_values(|t: (i64, String, MediaType)| (t.0, t.1@, t.2));
    assert(seen.len() == v@.len());
    assert(id_path_kinds(rows).len() == rows.len());
    let mut out: Vec<Task> = Vec::new();
    let mut i: usize = 0;
    while i < v.len()
        invariant
            i <= v@.len() == rows.len(),
            out@.len() == i,
            seen == v@.map_values(|t: (i64, String, MediaType)| (t.0, t.1@, t.2)),
            seen == id_path_kinds(rows),
            forall|k: int| 0 <= k < i ==> (#[trigger] out@[k])@ == task_of(rows[k]),
        decreases v.len() - i,
    {
        let t = &v[i];
        assert(seen[i as int] == (t.0, t.1@, t.2));
        assert(id_path_kinds(rows)[i as int] == (rows[i as int].id, rows[i as int].rel_path, rows[i as int].media_type));
        out.push(Task { id: t.0, rel: t.1.clone(), is_video: t.2.is_video() });
        i += 1;
    }
    assert(task_recs(out@) =~= batch_of(db@.files, stage));
    out
}

impl Reindex {
    /// Begins a pass.
    pub fn start() -> (r: Reindex)
        ensures
            r@ == at_start(),
    {
        let r = Reindex { stage: Stage::Scan, batch: Vec::new(), at: 0, progressed: false, refresh: false };
        assert(r@ =~= at_start());
        r
    }

    /// Another pass that stands where this one does.
    pub fn copied(&self) -> (r: Reindex)
        ensures
            r@ == self@,
    {
        let mut batch: Vec<Task> = Vec::new();
        let mut i: usize = 0;
        while i < self.batch.len()
            invariant
                i <= self.batch@.len(),
                batch@.len() == i,
                forall|k: int| 0 <= k < i ==> (#[trigger] batch@[k])@ == self.batch@[k]@,
            decreases self.batch.len() - i,
        {
            batch.push(copy_task(&self.batch[i]));
            i += 1;
        }
        let r = Reindex { stage: self.stage, batch, at: self.at, progressed: self.progressed, refresh: self.refresh };
        assert(r@.batch =~= self@.batch);
        r
    }

    /// Goes to the first stage from `stage` on that has files to work on.
    fn open(&mut self, stage: Stage, db: &Db)
        requires
            !(stage is Scan),
        ensures
            final(self)@ == opened(stage, db@.files),
    {
        let mut s = stage;
        while s != Stage::Finished
            invariant
                !(s is Scan),
                opened(s, db@.files) == opened(stage, db@.files),
            decreases s.ahead(),
        {
            let batch = fetch(db, s);
            assert(task_recs(batch@).len() == batch@.len());
            if batch.len() > 0 {
                self.stage = s;
                self.batch = batch;
                self.at = 0;
                self.progressed = false;
                self.refresh = false;
                assert(self@ =~= opened(s, db@.files));
                return ;
            }
            s = s.next();
        }
        self.stage = s;
        self.batch = Vec::new();
        self.at = 0;
        self.progressed = false;
        self.refresh = true;
        assert(self@ =~= opened(s, db@.files));
    }

    /// What has to be done next. A scan, a task and the bringing up to date are
    /// asked for until they are reported as done.
    pub fn next_job(&mut self, db: &Db) -> (r: Job)
        ensures
            final(self)@ == ready(old(self)@, db@.files),
            r@ == job_at(final(self)@),
    {
        assert(self@.batch.len() == self.batch@.len());
        if !self.refresh && self.stage != Stage::Scan && self.stage != Stage::Finished && self.at >= self.batch.len() {
            let stuck = (self.stage == Stage::Hashes || self.stage == Stage::Resolutions) && !self.progressed;
            let from = if stuck {
                self.stage.next()
            } else {
                self.stage
            };
            self.open(from, db);
        }
        if self.refresh {
            return Job::Refresh;
        }
        match self.stage {
            Stage::Scan => Job::Scan,
            Stage::Finished => Job::Finished,
            _ => {
                proof {
                    lemma_ready_has_task(old(self)@, db@.files);
                    assert(self@.batch[self@.at] == self.batch@[self.at as int]@);
                }
                let t = copy_task(&self.batch[self.at]);
                match self.stage {
                    Stage::Thumbs => Job::Thumb(t),
                    Stage::Hashes => Job::Hash(t),
                    Stage::Durations => Job::Duration(t),
                    _ => Job::Resolution(t),
                }
            },
        }
    }

    /// The scan is over, well or not.
    pub fn scan_done(&mut self)
        requires
            old(self)@.stage is Scan,
        ensures
            final(self)@ == (Run { stage: Stage::Thumbs, refresh: true, ..old(self)@ }),
    {
        self.stage = Stage::Thumbs;
        self.refresh = true;
    }

    /// The view is up to date.
    pub fn refreshed(&mut self)
        ensures
            final(self)@ == (Run { refresh: false, ..old(self)@ }),
    {
        self.refresh = false;
    }

    fn step(&mut self, progressed: bool)
        requires
            old(self)@.at < old(self)@.batch.len(),
        ensures
            final(self)@ == task_done(old(self)@, progressed),
    {
        assert(self@.batch.len() == self.batch@.len());
        assert(self.at < self.batch.len());
        self.at = self.at + 1;
        self.progressed = self.progressed || progressed;
        self.refresh = self.stage == Stage::Thumbs && self.at == self.batch.len();
    }

    /// The thumbnail of the task was made, or could not be made.
    pub fn thumb_done(&mut self, db: &mut Db, made: Option<ThumbFacts>)
        requires
            old(db).wf(),
            old(self)@.stage is Thumbs,
            0 <= old(self)@.at < old(self)@.batch.len(),
        ensures
            final(db).wf(),
            final(self)@ == task_done(old(self)@, made is Some),
            final(db)@ == (Tables {
                files: with_thumb(old(db)@.files, old(self)@.batch[old(self)@.at].id, made),
                ..old(db)@
            }),
    {
        let ghost before = db@.files;
        let id: i64 = self.batch[self.at].id;
        assert(id == self@.batch[self@.at].id);
        match made {
            Some(facts) => {
                db.set_thumb_state(id, THUMB_OK);
                match facts.duration_ms {
                    Some(ms) => {
                        db.set_duration(id, ms);
                    },
                    None => {},
                }
                match facts.dims {
                    Some(d) => {
                        db.set_resolution(id, d.1, d.0);
                    },
                    None => {},
                }
            },
            None => {
                db.set_thumb_state(id, THUMB_ERR);
            },
        }
        assert(db@.files =~= with_thumb(before, id, made));
        self.step(made.is_some());
    }

    /// The hash of the content of the task was taken, or could not be taken.
    pub fn hash_done(&mut self, db: &mut Db, hash: Option<u64>)
        requires
            old(db).wf(),
            old(self)@.stage is Hashes,
            0 <= old(self)@.at < old(self)@.batch.len(),
        ensures
            final(db).wf(),
            final(self)@ == task_done(old(self)@, hash is Some),
            final(db)@ == (Tables {
                files: with_hash(old(db)@.files, old(self)@.batch[old(self)@.at].id, hash),
                ..old(db)@
            }),
    {
        let ghost before = db@.files;
        let id: i64 = self.batch[self.at].id;
        assert(id == self@.batch[self@.at].id);
        match hash {
            Some(h) => {
                db.set_hash(id, h);
            },
            None => {},
        }
        assert(db@.files =~= with_hash(before, id, hash));
        self.step(hash.is_some());
    }

    /// The length of the video of the task was found, or cannot be found.
    pub fn duration_done(&mut self, db: &mut Db, ms: Option<i64>)
        requires
            old(db).wf(),
            old(self)@.stage is Durations,
            0 <= old(self)@.at < old(self)@.batch.len(),
        ensures
            final(db).wf(),
            final(self)@ == task_done(old(self)@, true),
            final(db)@ == (Tables {
                files: with_duration(old(db)@.files, old(self)@.batch[old(self)@.at].id, ms),
                ..old(db)@
            }),
    {
        let ghost before = db@.files;
        let id: i64 = self.batch[self.at].id;
        assert(id == self@.batch[self@.at].id);
        let v: i64 = match ms {
            Some(v) => v,
            None => -1,
        };
        db.set_duration(id, v);
        assert(db@.files =~= with_duration(before, id, ms));
        self.step(true);
    }

    /// The width and the height of the task were found, or cannot be found.
    pub fn resolution_done(&mut self, db: &mut Db, dims: Option<(i64, i64)>)
        requires
            old(db).wf(),
            old(self)@.stage is Resolutions,
            0 <= old(self)@.at < old(self)@.batch.len(),
        ensures
            final(db).wf(),
            final(self)@ == task_done(old(self)@, true),
            final(db)@ == (Tables {
                files: with_dims(old(db)@.files, old(self)@.batch[old(self)@.at].id, dims),
                ..old(db)@
            }),
    {
        let ghost before = db@.files;
        let id: i64 = self.batch[self.at].id;
        assert(id == self@.batch[self@.at].id);
        let (w, h): (i64, i64) = match dims {
            Some(d) => d,
            None => (-1, -1),
        };
        db.set_resolution(id, h, w);
        assert(db@.files =~= with_dims(before, id, dims));
        self.step(true);
    }

    /// What came of the task could not be written. The pass goes on with the next
    /// one; a hash that was taken counts all the same.
    pub fn not_written(&mut self, hash_taken: bool)
        requires
            0 <= old(self)@.at < old(self)@.batch.len(),
        ensures
            final(self)@ == task_done(old(self)@, old(self)@.stage is Hashes && hash_taken),
    {
        let progressed = self.stage == Stage::Hashes && hash_taken;
        self.step(progressed);
    }
}

proof fn lemma_opened_has_task(stage: Stage, files: Seq<FileRec>)
    ensures
        ({
            let s = opened(stage, files);
            s.at == 0 && !(s.stage is Scan) && (s.stage is Finished || s.batch.len() > 0)
        }),
    decreases stage.ahead(),
{
    if !(stage is Finished) && !(batch_of(files, stage).len() > 0 && !(stage is Scan)) {
        lemma_opened_has_task(stage.following(), files);
    }
}

proof fn lemma_ready_has_task(s: Run, files: Seq<FileRec>)
    ensures
        ({
            let r = ready(s, files);
            r.refresh || r.stage is Scan || r.stage is Finished || r.at < r.batch.len()
        }),
{
    lemma_opened_has_task(s.stage, files);
    lemma_opened_has_task(s.stage.following(), files);
}

// ---------------------------------------------------------------------------
// Every task brings the pass nearer to its end.

proof fn lemma_nobody_waits(files: Seq<FileRec>, p: Pending)
    ensures
        waiting(files, p).len() == 0 <==> forall|i: int| 0 <= i < files.len() ==> !waits(p, #[trigger] files[i]),
{
    let keep = |r: FileRec| waits(p, r);
    lemma_filter_from(files, keep);
    let w = waiting(files, p);
    if w.len() == 0 {
        assert forall|i: int| 0 <= i < files.len() implies !waits(p, #[trigger] files[i]) by {
            assert(files.contains(files[i]));
            if waits(p, files[i]) {
                assert(w.contains(files[i]));
            }
        }
    } else {
        assert(w.contains(w[0]));
        let i = choose|i: int| 0 <= i < files.len() && files[i] == w[0];
        assert(waits(p, files[i]));
    }
}

proof fn lemma_one_less(
    files: Seq<FileRec>,
    id: i64,
    f: spec_fn(FileRec) -> FileRec,
    p: Pending,
    n: int,
)
    requires
        file_ids_grow(files),
        0 <= n <= files.len(),
        forall|r: FileRec| r.id == id ==> !waits(p, #[trigger] f(r)),
    ensures
        ({
            let now = updated(files, id, f).take(n);
            let had = exists|i: int| 0 <= i < n && (#[trigger] files[i]).id == id && waits(p, files[i]);
            waiting(now, p).len() + (if had {
                1int
            } else {
                0int
            }) == waiting(files.take(n), p).len()
        }),
    decreases n,
{
    let keep = |r: FileRec| waits(p, r);
    let all = updated(files, id, f);
    if n > 0 {
        lemma_one_less(files, id, f, p, n - 1);
        lemma_filter_step(files, n - 1, keep);
        lemma_filter_step(all, n - 1, keep);
        let r = files[n - 1];
        if r.id == id {
            assert forall|i: int| 0 <= i < n - 1 implies (#[trigger] files[i]).id != id by {
                assert(files[i].id < files[n - 1].id);
            }
            assert(all[n - 1] == f(r));
        } else {
            assert(all[n - 1] == r);
            if exists|i: int| 0 <= i < n && (#[trigger] files[i]).id == id && waits(p, files[i]) {
                let i = choose|i: int| 0 <= i < n && (#[trigger] files[i]).id == id && waits(p, files[i]);
                assert(i < n - 1);
                assert(files[i].id == id);
            }
        }
    } else {
        reveal(Seq::filter);
        assert(all.take(0).filter(keep).len() == 0);
        assert(files.take(0).filter(keep).len() == 0);
    }
}

/// Whether a row with the id waits.
pub open spec fn id_waits(files: Seq<FileRec>, p: Pending, id: i64) -> bool {
    exists|i: int| 0 <= i < files.len() && (#[trigger] files[i]).id == id && waits(p, files[i])
}

proof fn lemma_shrinks(files: Seq<FileRec>, id: i64, f: spec_fn(FileRec) -> FileRec, p: Pending)
    requires
        file_ids_grow(files),
        id_waits(files, p, id),
        forall|r: FileRec| r.id == id ==> !waits(p, #[trigger] f(r)),
    ensures
        waiting(updated(files, id, f), p).len() == waiting(files, p).len() - 1,
{
    let n = files.len() as int;
    lemma_one_less(files, id, f, p, n);
    assert(files.take(n) =~= files);
    assert(updated(files, id, f).take(n) =~= updated(files, id, f));
}

/// Every task that is done leaves one file less that waits: a thumbnail, a length
/// and a resolution whatever came of it, a hash where it could be taken.
pub proof fn law_task_shortens_queue(
    files: Seq<FileRec>,
    id: i64,
    made: Option<ThumbFacts>,
    hash: u64,
    ms: Option<i64>,
    dims: Option<(i64, i64)>,
)
    requires
        file_ids_grow(files),
    ensures
        id_waits(files, Pending::Thumb, id) ==> waiting(with_thumb(files, id, made), Pending::Thumb).len() == waiting(
            files,
            Pending::Thumb,
        ).len() - 1,
        id_waits(files, Pending::Hash, id) ==> waiting(with_hash(files, id, Some(hash)), Pending::Hash).len() == waiting(
            files,
            Pending::Hash,
        ).len() - 1,
        id_waits(files, Pending::Duration, id) ==> waiting(with_duration(files, id, ms), Pending::Duration).len()
            == waiting(files, Pending::Duration).len() - 1,
        id_waits(files, Pending::Resolution, id) ==> waiting(with_dims(files, id, dims), Pending::Resolution).len()
            == waiting(files, Pending::Resolution).len() - 1,
{
    if id_waits(files, Pending::Thumb, id) {
        let f = |r: FileRec|
            match made {
                None => FileRec { thumb_state: THUMB_ERR, ..r },
                Some(facts) => FileRec {
                    thumb_state: THUMB_OK,
                    duration_ms: if facts.duration_ms is Some {
                        facts.duration_ms
                    } else {
                        r.duration_ms
                    },
                    width: match facts.dims {
                        Some(d) => Some(d.0),
                        None => r.width,
                    },
                    height: match facts.dims {
                        Some(d) => Some(d.1),
                        None => r.height,
                    },
                    ..r
                },
            };
        lemma_shrinks(files, id, f, Pending::Thumb);
        assert(with_thumb(files, id, made) =~= updated(files, id, f));
    }
    if id_waits(files, Pending::Hash, id) {
        let f = |r: FileRec| FileRec { hash: Some(hash as i64), ..r };
        lemma_shrinks(files, id, f, Pending::Hash);
        assert(with_hash(files, id, Some(hash)) =~= updated(files, id, f));
    }
    if id_waits(files, Pending::Duration, id) {
        let f = |r: FileRec|
            FileRec {
                duration_ms: Some(
                    match ms {
                        Some(v) => v,
                        None => -1i64,
                    },
                ),
                ..r
            };
        lemma_shrinks(files, id, f, Pending::Duration);
        assert(with_duration(files, id, ms) =~= updated(files, id, f));
    }
    if id_waits(files, Pending::Resolution, id) {
        let f = |r: FileRec|
            match dims {
                Some(d) => FileRec { width: Some(d.0), height: Some(d.1), ..r },
                None => FileRec { width: Some(-1i64), height: Some(-1i64), ..r },
            };
        lemma_shrinks(files, id, f, Pending::Resolution);
        assert(with_dims(files, id, dims) =~= updated(files, id, f));
    }
}

/// Whether the stages that the pass has left behind have nothing to do: no file
/// waits for a thumbnail, a length or a resolution once its stage is over.
pub open spec fn settled(stage: Stage, files: Seq<FileRec>) -> bool {
    &&& stage.ahead() < Stage::Thumbs.ahead() ==> waiting(files, Pending::Thumb).len() == 0
    &&& stage.ahead() < Stage::Durations.ahead() ==> waiting(files, Pending::Duration).len() == 0
    &&& stage.ahead() < Stage::Resolutions.ahead() ==> waiting(files, Pending::Resolution).len() == 0
}

proof fn lemma_opened_settles(stage: Stage, files: Seq<FileRec>)
    requires
        settled(stage, files),
    ensures
        settled(opened(stage, files).stage, files),
    decreases stage.ahead(),
{
    if !(stage is Finished) && !(batch_of(files, stage).len() > 0 && !(stage is Scan)) {
        assert(batch_of(files, stage).len() == limited(waiting(files, stage.pending()), BATCH as int).len());
        lemma_opened_settles(stage.following(), files);
    }
}

/// A stage is left only when nothing waits for it; the hashes alone may be left
/// before, where files cannot be read. A batch of resolutions of which none could be
/// written is left out.
pub proof fn law_stage_is_left_when_settled(s: Run, files: Seq<FileRec>)
    requires
        settled(s.stage, files),
        s.stage is Resolutions && s.at >= s.batch.len() ==> s.progressed,
    ensures
        settled(ready(s, files).stage, files),
{
    lemma_opened_settles(s.stage, files);
    if s.stage is Hashes {
        lemma_opened_settles(s.stage.following(), files);
    }
}

/// The tasks of a stage give no work to the stages before it. So when a pass whose
/// results could be written is finished, no file waits for a thumbnail, a length or a
/// resolution.
pub proof fn law_tasks_keep_what_is_settled(
    files: Seq<FileRec>,
    id: i64,
    made: Option<ThumbFacts>,
    hash: Option<u64>,
    ms: Option<i64>,
    dims: Option<(i64, i64)>,
)
    ensures
        settled(Stage::Thumbs, files) ==> settled(Stage::Thumbs, with_thumb(files, id, made)),
        settled(Stage::Hashes, files) ==> settled(Stage::Hashes, with_hash(files, id, hash)),
        settled(Stage::Durations, files) ==> settled(Stage::Durations, with_duration(files, id, ms)),
        settled(Stage::Resolutions, files) ==> settled(Stage::Resolutions, with_dims(files, id, dims)),
{
    let a = with_hash(files, id, hash);
    let b = with_duration(files, id, ms);
    let c = with_dims(files, id, dims);
    lemma_nobody_waits(files, Pending::Thumb);
    lemma_nobody_waits(files, Pending::Duration);
    lemma_nobody_waits(a, Pending::Thumb);
    lemma_nobody_waits(b, Pending::Thumb);
    lemma_nobody_waits(c, Pending::Thumb);
    lemma_nobody_waits(c, Pending::Duration);
    if waiting(files, Pending::Thumb).len() == 0 {
        assert forall|i: int| 0 <= i < files.len() implies !waits(Pending::Thumb, #[trigger] a[i]) && !waits(
            Pending::Thumb,
            #[trigger] b[i],
        ) && !waits(Pending::Thumb, #[trigger] c[i]) by {
            assert(!waits(Pending::Thumb, files[i]));
        }
    }
    if waiting(files, Pending::Duration).len() == 0 {
        assert forall|i: int| 0 <= i < files.len() implies !waits(Pending::Duration, #[trigger] c[i]) by {
            assert(!waits(Pending::Duration, files[i]));
        }
    }
}

} // verus!
