//! Whole passes: how often the view is brought up to date, and how long a pass can
//! take.

use vstd::prelude::*;
use super::{at_start, batch_of, id_waits, job_at, law_task_shortens_queue, lemma_ready_has_task, opened, ready, task_done, with_dims, with_duration, with_hash, with_thumb, JobRec, Run, Stage, ThumbFacts, BATCH};
use crate::db::{file_ids_grow, limited, waiting, waits, FileRec, Pending};
use crate::order::increasing;
use crate::seqs::{lemma_filter_from, lemma_filter_increasing};

verus! {

/// What came of a job, where it could be written.
pub enum Outcome {
    /// The scan left these files.
    Scanned(Seq<FileRec>),
    Refreshed,
    Thumb(Option<ThumbFacts>),
    Hash(Option<u64>),
    Duration(Option<i64>),
    Resolution(Option<(i64, i64)>),
}

/// Where a pass stands, and the files of the index.
pub struct Pass {
    pub run: Run,
    pub files: Seq<FileRec>,
}

/// The job that is next.
pub open spec fn next_of(p: Pass) -> JobRec {
    job_at(ready(p.run, p.files))
}

/// Whether this can come of the job. The rows of a scan have ids that grow.
pub open spec fn can_come_of(j: JobRec, o: Outcome) -> bool {
    match (j, o) {
        (JobRec::Scan, Outcome::Scanned(files)) => file_ids_grow(files),
        (JobRec::Refresh, Outcome::Refreshed) => true,
        (JobRec::Thumb(_), Outcome::Thumb(_)) => true,
        (JobRec::Hash(_), Outcome::Hash(_)) => true,
        (JobRec::Duration(_), Outcome::Duration(_)) => true,
        (JobRec::Resolution(_), Outcome::Resolution(_)) => true,
        _ => false,
    }
}

/// The pass after its next job was done and reported.
pub open spec fn turned(p: Pass, o: Outcome) -> Pass {
    let s = ready(p.run, p.files);
    let id = s.batch[s.at].id;
    match o {
        Outcome::Scanned(files) => Pass { run: Run { stage: Stage::Thumbs, refresh: true, ..s }, files },
        Outcome::Refreshed => Pass { run: Run { refresh: false, ..s }, files: p.files },
        Outcome::Thumb(made) => Pass { run: task_done(s, made is Some), files: with_thumb(p.files, id, made) },
        Outcome::Hash(hash) => Pass { run: task_done(s, hash is Some), files: with_hash(p.files, id, hash) },
        Outcome::Duration(ms) => Pass { run: task_done(s, true), files: with_duration(p.files, id, ms) },
        Outcome::Resolution(dims) => Pass { run: task_done(s, true), files: with_dims(p.files, id, dims) },
    }
}

/// The pass after some jobs, from its beginning.
pub open spec fn pass_after(files: Seq<FileRec>, os: Seq<Outcome>) -> Pass
    decreases os.len(),
{
    if os.len() == 0 {
        Pass { run: at_start(), files }
    } else {
        turned(pass_after(files, os.drop_last()), os.last())
    }
}

/// Whether this can come of the jobs of a pass, from its beginning.
pub open spec fn can_happen(files: Seq<FileRec>, os: Seq<Outcome>) -> bool
    decreases os.len(),
{
    os.len() == 0 || (can_happen(files, os.drop_last()) && can_come_of(
        next_of(pass_after(files, os.drop_last())),
        os.last(),
    ))
}

/// How often the view was brought up to date.
pub open spec fn refreshes(os: Seq<Outcome>) -> nat {
    os.filter(|o: Outcome| o is Refreshed).len()
}

/// How many files wait.
pub open spec fn queue(files: Seq<FileRec>, p: Pending) -> int {
    waiting(files, p).len() as int
}

/// How many batches so many files make.
pub open spec fn batches(n: int) -> int {
    (n + BATCH - 1) / (BATCH as int)
}

/// How many jobs a pass has at most once a scan left these files: the thumbnails, the
/// lengths and the resolutions, each once; the view, after the scan, after each batch
/// of thumbnails and at the end; and the hashes. A batch of hashes that is followed by
/// another one has taken one hash at least.
pub open spec fn jobs_after_scan(files: Seq<FileRec>) -> int {
    2 + batches(queue(files, Pending::Thumb)) + queue(files, Pending::Thumb) + BATCH * (queue(files, Pending::Hash)
        + 1) + queue(files, Pending::Duration) + queue(files, Pending::Resolution)
}

// ---------------------------------------------------------------------------
// What is left of a pass.

/// How many times the view is still brought up to date.
spec fn refreshes_left(p: Pass) -> int {
    let s = p.run;
    let left = s.batch.len() - s.at;
    let n = queue(p.files, Pending::Thumb);
    (if s.refresh {
        1int
    } else {
        0int
    }) + match s.stage {
        Stage::Thumbs => if left > 0 {
            2 + batches(n - left)
        } else {
            1 + batches(n)
        },
        Stage::Finished => 0,
        _ => 1,
    }
}

/// How many tasks there are at most from the beginning of a stage on.
spec fn tasks_from(stage: Stage, files: Seq<FileRec>) -> int {
    let last = queue(files, Pending::Resolution);
    let later = queue(files, Pending::Duration) + last;
    let hashes = BATCH * (queue(files, Pending::Hash) + 1) + later;
    match stage {
        Stage::Scan => 0,
        Stage::Thumbs => queue(files, Pending::Thumb) + hashes,
        Stage::Hashes => hashes,
        Stage::Durations => later,
        Stage::Resolutions => last,
        Stage::Finished => 0,
    }
}

/// How many tasks there still are at most.
spec fn tasks_left(p: Pass) -> int {
    let s = p.run;
    if s.stage is Hashes {
        s.batch.len() - s.at + BATCH * queue(p.files, Pending::Hash) + (if s.progressed {
            BATCH as int
        } else {
            0
        }) + tasks_from(Stage::Durations, p.files)
    } else {
        tasks_from(s.stage, p.files)
    }
}

/// Whether a pass that has scanned is in order: the tasks of its batch that are not
/// done still wait, each for another file.
spec fn in_order(p: Pass) -> bool {
    let s = p.run;
    &&& file_ids_grow(p.files)
    &&& !(s.stage is Scan)
    &&& 0 <= s.at <= s.batch.len() <= BATCH
    &&& s.refresh ==> s.at == s.batch.len() && (s.stage is Thumbs || s.stage is Finished)
    &&& s.stage is Finished ==> s.at == s.batch.len()
    &&& forall|i: int|
        s.at <= i < s.batch.len() ==> id_waits(p.files, s.stage.pending(), (#[trigger] s.batch[i]).id)
    &&& forall|i: int, j: int| 0 <= i < j < s.batch.len() ==> (#[trigger] s.batch[i]).id < (#[trigger] s.batch[j]).id
}

proof fn lemma_batch(files: Seq<FileRec>, stage: Stage)
    requires
        file_ids_grow(files),
    ensures
        batch_of(files, stage).len() == if queue(files, stage.pending()) > BATCH {
            BATCH as int
        } else {
            queue(files, stage.pending())
        },
        forall|i: int|
            0 <= i < batch_of(files, stage).len() ==> id_waits(
                files,
                stage.pending(),
                (#[trigger] batch_of(files, stage)[i]).id,
            ),
        forall|i: int, j: int|
            0 <= i < j < batch_of(files, stage).len() ==> (#[trigger] batch_of(files, stage)[i]).id < (
            #[trigger] batch_of(files, stage)[j]).id,
{
    let p = stage.pending();
    let keep = |r: FileRec| waits(p, r);
    let lt = |a: FileRec, b: FileRec| a.id < b.id;
    let w = waiting(files, p);
    let b = batch_of(files, stage);
    assert(increasing(files, lt));
    lemma_filter_increasing(files, keep, lt);
    lemma_filter_from(files, keep);
    assert(b.len() == limited(w, BATCH as int).len());
    assert forall|i: int| 0 <= i < b.len() implies id_waits(files, p, (#[trigger] b[i]).id) by {
        assert(b[i].id == w[i].id);
        assert(w.contains(w[i]));
        let k = choose|k: int| 0 <= k < files.len() && files[k] == w[i];
        assert(files[k].id == b[i].id && waits(p, files[k]));
    }
    assert forall|i: int, j: int| 0 <= i < j < b.len() implies (#[trigger] b[i]).id < (#[trigger] b[j]).id by {
        assert(lt(w[i], w[j]));
    }
}

proof fn lemma_opened(stage: Stage, files: Seq<FileRec>)
    requires
        file_ids_grow(files),
        !(stage is Scan),
    ensures
        ({
            let p = Pass { run: opened(stage, files), files };
            &&& in_order(p)
            &&& refreshes_left(p) == 1 + (if stage is Thumbs {
                batches(queue(files, Pending::Thumb))
            } else {
                0
            })
            &&& tasks_left(p) <= tasks_from(stage, files)
        }),
    decreases stage.ahead(),
{
    if !(stage is Finished) {
        lemma_batch(files, stage);
        if batch_of(files, stage).len() == 0 {
            lemma_opened(stage.following(), files);
        }
    }
}

proof fn lemma_ready(p: Pass)
    requires
        in_order(p),
    ensures
        ({
            let q = Pass { run: ready(p.run, p.files), files: p.files };
            &&& in_order(q)
            &&& refreshes_left(q) == refreshes_left(p)
            &&& tasks_left(q) <= tasks_left(p)
        }),
{
    if !(p.run.stage is Finished) {
        lemma_opened(p.run.stage, p.files);
        lemma_opened(p.run.stage.following(), p.files);
    }
}

/// Where no row begins to wait, the queue does not grow.
proof fn lemma_no_longer(files: Seq<FileRec>, now: Seq<FileRec>, p: Pending)
    requires
        now.len() == files.len(),
        forall|i: int| 0 <= i < files.len() && waits(p, #[trigger] now[i]) ==> waits(p, files[i]),
    ensures
        queue(now, p) <= queue(files, p),
    decreases files.len(),
{
    reveal(Seq::filter);
    if files.len() > 0 {
        let a = files.drop_last();
        let b = now.drop_last();
        assert forall|i: int| 0 <= i < a.len() && waits(p, #[trigger] b[i]) implies waits(p, a[i]) by {
            assert(b[i] == now[i]);
        }
        lemma_no_longer(a, b, p);
        let n = files.len() - 1;
        assert(waits(p, now[n]) ==> waits(p, files[n]));
    }
}

/// What a task leaves: the ids, and the rows of other files.
spec fn changes_one(files: Seq<FileRec>, now: Seq<FileRec>, id: i64) -> bool {
    &&& now.len() == files.len()
    &&& forall|i: int| 0 <= i < files.len() ==> (#[trigger] now[i]).id == files[i].id
    &&& forall|i: int| 0 <= i < files.len() && files[i].id != id ==> #[trigger] now[i] == files[i]
}

proof fn lemma_task_keeps_order(p: Pass, progressed: bool, now: Seq<FileRec>)
    requires
        in_order(p),
        p.run.at < p.run.batch.len(),
        !p.run.refresh,
        changes_one(p.files, now, p.run.batch[p.run.at].id),
    ensures
        in_order(Pass { run: task_done(p.run, progressed), files: now }),
{
    let s = p.run;
    let t = task_done(s, progressed);
    assert forall|i: int, j: int| 0 <= i < j < now.len() implies (#[trigger] now[i]).id < (#[trigger] now[j]).id by {
        assert(p.files[i].id < p.files[j].id);
    }
    assert forall|i: int| t.at <= i < t.batch.len() implies id_waits(
        now,
        t.stage.pending(),
        (#[trigger] t.batch[i]).id,
    ) by {
        assert(s.batch[s.at].id < s.batch[i].id);
        assert(id_waits(p.files, s.stage.pending(), s.batch[i].id));
        let k = choose|k: int|
            0 <= k < p.files.len() && (#[trigger] p.files[k]).id == s.batch[i].id && waits(
                s.stage.pending(),
                p.files[k],
            );
        assert(now[k] == p.files[k]);
    }
}

/// A job that is done is one less, and so is a refresh.
proof fn lemma_turned(p: Pass, o: Outcome)
    requires
        in_order(p),
        can_come_of(next_of(p), o),
        !(o is Scanned),
    ensures
        ({
            let q = turned(p, o);
            &&& in_order(q)
            &&& refreshes_left(p) == refreshes_left(q) + (if o is Refreshed {
                1int
            } else {
                0int
            })
            &&& refreshes_left(q) + tasks_left(q) < refreshes_left(p) + tasks_left(p)
        }),
{
    lemma_ready(p);
    lemma_ready_has_task(p.run, p.files);
    let r = Pass { run: ready(p.run, p.files), files: p.files };
    let s = r.run;
    let q = turned(p, o);
    let id = s.batch[s.at].id;
    if !(o is Refreshed) {
        assert(id_waits(p.files, s.stage.pending(), id));
        assert(changes_one(p.files, q.files, id));
        match o {
            Outcome::Thumb(made) => {
                law_task_shortens_queue(p.files, id, made, 0, None, None);
                lemma_no_longer(p.files, q.files, Pending::Hash);
                lemma_no_longer(p.files, q.files, Pending::Duration);
                lemma_no_longer(p.files, q.files, Pending::Resolution);
                lemma_task_keeps_order(r, made is Some, q.files);
            },
            Outcome::Hash(hash) => {
                if hash is Some {
                    law_task_shortens_queue(p.files, id, None, hash->0, None, None);
                }
                lemma_no_longer(p.files, q.files, Pending::Duration);
                lemma_no_longer(p.files, q.files, Pending::Resolution);
                lemma_task_keeps_order(r, hash is Some, q.files);
            },
            Outcome::Duration(ms) => {
                law_task_shortens_queue(p.files, id, None, 0, ms, None);
                lemma_no_longer(p.files, q.files, Pending::Resolution);
                lemma_task_keeps_order(r, true, q.files);
            },
            Outcome::Resolution(dims) => {
                law_task_shortens_queue(p.files, id, None, 0, None, dims);
                lemma_task_keeps_order(r, true, q.files);
            },
            _ => {},
        }
    }
}

proof fn lemma_pass(files: Seq<FileRec>, os: Seq<Outcome>)
    requires
        can_happen(files, os),
        os.len() > 0,
    ensures
        os[0] is Scanned,
        ({
            let p = pass_after(files, os);
            let found = os[0]->Scanned_0;
            &&& in_order(p)
            &&& refreshes(os) + refreshes_left(p) == 2 + batches(queue(found, Pending::Thumb))
            &&& os.len() + refreshes_left(p) + tasks_left(p) <= 1 + jobs_after_scan(found)
        }),
    decreases os.len(),
{
    reveal(Seq::filter);
    let rest = os.drop_last();
    let o = os.last();
    let is_refresh = |o: Outcome| o is Refreshed;
    if rest.len() == 0 {
        assert(pass_after(files, rest) == Pass { run: at_start(), files });
        assert(os[0] == o);
        assert(rest.filter(is_refresh).len() == 0);
        assert(os.filter(is_refresh).len() == 0);
    } else {
        lemma_pass(files, rest);
        let p = pass_after(files, rest);
        lemma_ready(p);
        assert(!(o is Scanned));
        lemma_turned(p, o);
        assert(os[0] == rest[0]);
    }
}

/// A pass that is finished has brought the view up to date after the scan, after each
/// batch of thumbnails that the scan left to be made, and at its end.
pub proof fn law_view_is_refreshed_after_every_batch(files: Seq<FileRec>, os: Seq<Outcome>)
    requires
        can_happen(files, os),
        next_of(pass_after(files, os)) is Finished,
    ensures
        os.len() > 0,
        os[0] is Scanned,
        refreshes(os) == 2 + batches(queue(os[0]->Scanned_0, Pending::Thumb)),
{
    assert(os.len() > 0);
    lemma_pass(files, os);
    let p = pass_after(files, os);
    lemma_ready(p);
    lemma_ready_has_task(p.run, p.files);
    assert(ready(p.run, p.files).stage is Finished);
}

/// A pass whose results can be written ends: whatever comes of its jobs, there are only
/// so many of them.
pub proof fn law_pass_ends(files: Seq<FileRec>, os: Seq<Outcome>)
    requires
        can_happen(files, os),
        os.len() > 0,
    ensures
        os[0] is Scanned,
        os.len() <= 1 + jobs_after_scan(os[0]->Scanned_0),
{
    lemma_pass(files, os);
}

} // verus!
