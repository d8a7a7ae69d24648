//! The pass over the library: which work comes next, and for which file.

use vstd::prelude::*;
use crate::db::{file_ids_grow, limited, waiting, waits, FileRec, Pending};
use crate::media::MediaType;
use crate::seqs::lemma_filter_from;
use super::index::law_queue_goes_by_id;
use crate::workers::{at_start, batch_of, job_at, opened, ready, task_done, JobRec, Run, Stage, TaskRec};

verus! {

/// Whether no row waits for a kind of work.
pub open spec fn none_waits(files: Seq<FileRec>, p: Pending) -> bool {
    forall|k: int| 0 <= k < files.len() ==> !waits(p, #[trigger] files[k])
}

/// Whether a task is for the row at a position: it names its id, its path and its
/// kind.
pub open spec fn is_for(t: TaskRec, r: FileRec) -> bool {
    t.id == r.id && t.rel == r.rel_path && (t.is_video <==> r.media_type == MediaType::Video)
}

/// Whether a task is for the first row that waits for a kind of work.
pub open spec fn is_for_first(files: Seq<FileRec>, p: Pending, t: TaskRec) -> bool {
    exists|k: int|
        0 <= k < files.len() && #[trigger] is_for(t, files[k]) && waits(p, files[k]) && forall|j: int|
            0 <= j < k ==> !waits(p, #[trigger] files[j])
}

/// The pass begins with the scan.
pub proof fn law_scan_comes_first(files: Seq<FileRec>)
    ensures
        job_at(ready(at_start(), files)) is Scan,
{
}

/// No batch is empty where a row waits, and the first task of one is for the first
/// row that waits.
proof fn lemma_batch(files: Seq<FileRec>, stage: Stage)
    requires
        file_ids_grow(files),
    ensures
        batch_of(files, stage).len() == 0 ==> none_waits(files, stage.pending()),
        batch_of(files, stage).len() > 0 ==> is_for_first(files, stage.pending(), batch_of(files, stage)[0]),
{
    let p = stage.pending();
    let all = waiting(files, p);
    let next = limited(all, 16);
    let keep = |r: FileRec| waits(p, r);
    lemma_filter_from(files, keep);
    assert forall|r: FileRec| files.contains(r) && waits(p, r) implies all.contains(r) by {}
    if next.len() == 0 {
        assert forall|k: int| 0 <= k < files.len() implies !waits(p, #[trigger] files[k]) by {
            assert(files.contains(files[k]));
            if waits(p, files[k]) {
                assert(all.contains(files[k]));
            }
        }
    } else {
        let r = next[0];
        assert(next.contains(r));
        law_queue_goes_by_id(files, p, 16, r);
        let k = choose|k: int| 0 <= k < files.len() && files[k] == r;
        assert(is_for(batch_of(files, stage)[0], files[k]));
        assert forall|j: int| 0 <= j < k implies !waits(p, #[trigger] files[j]) by {
            if waits(p, files[j]) {
                assert(files.contains(files[j]));
                law_queue_goes_by_id(files, p, 16, files[j]);
                if next.contains(files[j]) {
                    let m = choose|m: int| 0 <= m < next.len() && next[m] == files[j];
                    assert(next[0].id <= next[m].id);
                }
            }
        }
    }
}

/// When a batch is done the next job is for the first row that waits for the kind
/// of work that the pass is at; a kind of work is left for the next one, in the
/// order of thumbnails, hashes, lengths and resolutions, only where no row waits
/// for it. At the end the view is brought up to date.
pub proof fn law_work_comes_in_order(files: Seq<FileRec>)
    requires
        file_ids_grow(files),
    ensures
        ({
            let j = job_at(opened(Stage::Thumbs, files));
            &&& !none_waits(files, Pending::Thumb) ==> j is Thumb && is_for_first(files, Pending::Thumb, j->Thumb_0)
            &&& none_waits(files, Pending::Thumb) ==> j == job_at(opened(Stage::Hashes, files))
        }),
        ({
            let j = job_at(opened(Stage::Hashes, files));
            &&& !none_waits(files, Pending::Hash) ==> j is Hash && is_for_first(files, Pending::Hash, j->Hash_0)
            &&& none_waits(files, Pending::Hash) ==> j == job_at(opened(Stage::Durations, files))
        }),
        ({
            let j = job_at(opened(Stage::Durations, files));
            &&& !none_waits(files, Pending::Duration) ==> j is Duration && is_for_first(
                files,
                Pending::Duration,
                j->Duration_0,
            )
            &&& none_waits(files, Pending::Duration) ==> j == job_at(opened(Stage::Resolutions, files))
        }),
        ({
            let j = job_at(opened(Stage::Resolutions, files));
            &&& !none_waits(files, Pending::Resolution) ==> j is Resolution && is_for_first(
                files,
                Pending::Resolution,
                j->Resolution_0,
            )
            &&& none_waits(files, Pending::Resolution) ==> j is Refresh
        }),
{
    lemma_batch(files, Stage::Thumbs);
    lemma_batch(files, Stage::Hashes);
    lemma_batch(files, Stage::Durations);
    lemma_batch(files, Stage::Resolutions);
    assert(opened(Stage::Finished, files).refresh);
    lemma_none(files, Stage::Thumbs);
    lemma_none(files, Stage::Hashes);
    lemma_none(files, Stage::Durations);
    lemma_none(files, Stage::Resolutions);
}

/// Where no row waits there is no batch.
proof fn lemma_none(files: Seq<FileRec>, stage: Stage)
    ensures
        none_waits(files, stage.pending()) ==> batch_of(files, stage).len() == 0,
{
    let p = stage.pending();
    let keep = |r: FileRec| waits(p, r);
    lemma_filter_from(files, keep);
    let all = waiting(files, p);
    if none_waits(files, p) && all.len() > 0 {
        assert(all.contains(all[0]));
    }
}

/// A batch that is done is followed by the next one of its kind, unless it was of
/// hashes or of resolutions and none of them was got: files that cannot be read do
/// not keep the pass for ever.
pub proof fn law_batch_is_followed(s: Run, files: Seq<FileRec>)
    requires
        !s.refresh,
        s.at >= s.batch.len(),
        !(s.stage is Scan),
        !(s.stage is Finished),
    ensures
        s.progressed || s.stage is Thumbs || s.stage is Durations ==> ready(s, files) == opened(s.stage, files),
        !s.progressed && s.stage is Hashes ==> ready(s, files) == opened(Stage::Durations, files),
        !s.progressed && s.stage is Resolutions ==> ready(s, files) == opened(Stage::Finished, files),
{
}

/// While a batch is not done its files come one after the other, each of them once,
/// with the work of its kind.
pub proof fn law_tasks_come_one_by_one(s: Run, files: Seq<FileRec>, progressed: bool)
    requires
        !s.refresh,
        0 <= s.at < s.batch.len(),
    ensures
        s.stage is Thumbs ==> job_at(ready(s, files)) == JobRec::Thumb(s.batch[s.at]),
        s.stage is Hashes ==> job_at(ready(s, files)) == JobRec::Hash(s.batch[s.at]),
        s.stage is Durations ==> job_at(ready(s, files)) == JobRec::Duration(s.batch[s.at]),
        s.stage is Resolutions ==> job_at(ready(s, files)) == JobRec::Resolution(s.batch[s.at]),
        task_done(s, progressed).at == s.at + 1,
        task_done(s, progressed).batch == s.batch,
        task_done(s, progressed).stage == s.stage,
        task_done(s, progressed).progressed <==> s.progressed || progressed,
        task_done(s, progressed).refresh <==> s.stage is Thumbs && s.at == s.batch.len() - 1,
{
}

/// A batch holds the first rows that wait, as many as there are up to sixteen.
pub proof fn law_batch_size(files: Seq<FileRec>, stage: Stage, k: int)
    ensures
        batch_of(files, stage).len() <= 16,
        batch_of(files, stage).len() <= waiting(files, stage.pending()).len(),
        batch_of(files, stage).len() < 16 ==> batch_of(files, stage).len() == waiting(files, stage.pending()).len(),
        0 <= k < batch_of(files, stage).len() ==> is_for(
            batch_of(files, stage)[k],
            waiting(files, stage.pending())[k],
        ),
{
}

} // verus!
