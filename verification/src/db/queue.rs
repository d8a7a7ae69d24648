//! What the passes over the index read: the live rows, the rows that still wait
//! for something, and single rows.

use vstd::prelude::*;
use super::{as_active, file_recs, limited, live, waiting, waits, ActiveFile, ActiveRec, Db, FileRec, Pending, has_file};
use crate::media::MediaType;
use crate::seqs::{lemma_filter_prefix, lemma_filter_step};

verus! {

broadcast use vstd::string::group_string_axioms;

/// What a vector of live rows says.
pub open spec fn active_recs(v: Seq<ActiveFile>) -> Seq<ActiveRec> {
    v.map_values(|a: ActiveFile| a@)
}

/// The live rows as a scan sees them.
pub open spec fn active(files: Seq<FileRec>) -> Seq<ActiveRec> {
    live(files).map_values(|r: FileRec| as_active(r))
}

/// Ids and paths of rows.
pub open spec fn id_paths(s: Seq<FileRec>) -> Seq<(i64, Seq<char>)> {
    s.map_values(|r: FileRec| (r.id, r.rel_path))
}

/// Ids, paths and kinds of rows.
pub open spec fn id_path_kinds(s: Seq<FileRec>) -> Seq<(i64, Seq<char>, MediaType)> {
    s.map_values(|r: FileRec| (r.id, r.rel_path, r.media_type))
}

/// Ids and paths of rows, and whether each is a video.
pub open spec fn id_path_videos(s: Seq<FileRec>) -> Seq<(i64, Seq<char>, bool)> {
    s.map_values(|r: FileRec| (r.id, r.rel_path, r.media_type is Video))
}

impl Db {
    /// The live rows, to be held against what is on disk.
    pub fn active_files(&self) -> (r: Vec<ActiveFile>)
        ensures
            active_recs(r@) == active(self@.files),
    {
        let ghost recs = file_recs(self.files@);
        let ghost keep = |r: FileRec| !r.is_deleted;
        let mut out: Vec<ActiveFile> = Vec::new();
        let mut i: usize = 0;
        proof {
            reveal(Seq::filter);
        }
        assert(active_recs(out@) =~= active(recs.take(0)));
        while i < self.files.len()
            invariant
                i <= self.files@.len(),
                recs == file_recs(self.files@),
                keep == (|r: FileRec| !r.is_deleted),
                active_recs(out@) == active(recs.take(i as int)),
            decreases self.files.len() - i,
        {
            let ghost out0 = out@;
            proof {
                lemma_filter_step(recs, i as int, keep);
            }
            if !self.files[i].is_deleted {
                let f = &self.files[i];
                let a = ActiveFile {
                    id: f.id,
                    rel_path: f.rel_path.clone(),
                    size: f.size,
                    mtime: f.mtime,
                    hash: f.hash,
                };
                assert(a@ == as_active(recs[i as int]));
                out.push(a);
                assert(active_recs(out@) =~= active_recs(out0).push(a@));
                assert(active(recs.take(i + 1)) =~= active(recs.take(i as int)).push(
                    as_active(recs[i as int]),
                ));
            }
            i += 1;
        }
        assert(recs.take(i as int) == recs);
        out
    }

    /// The number of live files.
    pub fn file_count(&self) -> (n: usize)
        ensures
            n == live(self@.files).len(),
    {
        let ghost recs = file_recs(self.files@);
        let ghost keep = |r: FileRec| !r.is_deleted;
        let mut n: usize = 0;
        let mut i: usize = 0;
        proof {
            reveal(Seq::filter);
        }
        while i < self.files.len()
            invariant
                n <= i <= self.files@.len(),
                recs == file_recs(self.files@),
                keep == (|r: FileRec| !r.is_deleted),
                n == recs.take(i as int).filter(keep).len(),
            decreases self.files.len() - i,
        {
            proof {
                lemma_filter_step(recs, i as int, keep);
            }
            if !self.files[i].is_deleted {
                n += 1;
            }
            i += 1;
        }
        assert(recs.take(i as int) == recs);
        n
    }

    /// The path and the kind of a file, whether it is live or deleted.
    pub fn file_info(&self, id: i64) -> (r: Option<(String, MediaType)>)
        requires
            self.wf(),
        ensures
            match r {
                Some((path, kind)) => exists|i: int|
                    0 <= i < self@.files.len() && (#[trigger] self@.files[i]).id == id
                        && self@.files[i].rel_path == path@ && self@.files[i].media_type == kind,
                None => !has_file(self@.files, id),
            },
    {
        match self.find(id) {
            Some(i) => {
                assert(self@.files[i as int] == self.files@[i as int]@);
                Some((self.files[i].rel_path.clone(), self.files[i].media_type))
            },
            None => None,
        }
    }

    fn row_waits(&self, p: Pending, i: usize) -> (r: bool)
        requires
            i < self.files@.len(),
        ensures
            r == waits(p, self.files@[i as int]@),
    {
        let f = &self.files[i];
        if f.is_deleted {
            return false;
        }
        match p {
            Pending::Thumb => f.thumb_state == 0 || f.thumb_state == 3,
            Pending::Hash => f.hash.is_none(),
            Pending::Duration => f.media_type.is_video() && f.duration_ms.is_none(),
            Pending::Resolution => f.height.is_none(),
        }
    }

    /// How many files wait for a pass.
    pub fn count_pending(&self, p: Pending) -> (n: usize)
        ensures
            n == waiting(self@.files, p).len(),
    {
        let ghost recs = file_recs(self.files@);
        let ghost keep = |r: FileRec| waits(p, r);
        let mut n: usize = 0;
        let mut i: usize = 0;
        proof {
            reveal(Seq::filter);
        }
        while i < self.files.len()
            invariant
                n <= i <= self.files@.len(),
                recs == file_recs(self.files@),
                keep == (|r: FileRec| waits(p, r)),
                n == recs.take(i as int).filter(keep).len(),
            decreases self.files.len() - i,
        {
            proof {
                lemma_filter_step(recs, i as int, keep);
            }
            if self.row_waits(p, i) {
                n += 1;
            }
            i += 1;
        }
        assert(recs.take(i as int) == recs);
        n
    }

    /// The positions of the first `limit` rows that wait for a pass.
    fn waiting_at(&self, p: Pending, limit: i64) -> (r: Vec<usize>)
        ensures
            forall|k: int| 0 <= k < r@.len() ==> #[trigger] r@[k] < self.files@.len(),
            r@.map_values(|i: usize| self.files@[i as int]@) == limited(
                waiting(self@.files, p),
                limit as int,
            ),
    {
        let ghost recs = file_recs(self.files@);
        let ghost keep = |r: FileRec| waits(p, r);
        let ghost all = recs.filter(keep);
        let ghost at = |i: usize| self.files@[i as int]@;
        let mut out: Vec<usize> = Vec::new();
        let mut i: usize = 0;
        proof {
            reveal(Seq::filter);
        }
        assert(out@.map_values(at) =~= recs.take(0).filter(keep));
        while i < self.files.len()
            invariant
                i <= self.files@.len(),
                recs == file_recs(self.files@),
                keep == (|r: FileRec| waits(p, r)),
                at == (|i: usize| self.files@[i as int]@),
                all == recs.filter(keep),
                forall|k: int| 0 <= k < out@.len() ==> #[trigger] out@[k] < self.files@.len(),
                out@.len() <= i,
                limit >= 0 ==> out@.len() <= limit,
                out@.map_values(at) == recs.take(i as int).filter(keep),
            decreases self.files.len() - i,
        {
            if limit >= 0 && out.len() as u64 == limit as u64 {
                proof {
                    lemma_filter_prefix(recs, i as int, keep);
                    assert(out@.map_values(at).len() == limit);
                    assert(all.take(limit as int) == out@.map_values(at));
                    if limit == all.len() {
                        assert(all.take(limit as int) == all);
                    }
                }
                return out;
            }
            proof {
                lemma_filter_step(recs, i as int, keep);
            }
            if self.row_waits(p, i) {
                let ghost out0 = out@;
                out.push(i);
                assert(out@.map_values(at) =~= out0.map_values(at).push(recs[i as int]));
            }
            i += 1;
        }
        assert(recs.take(i as int) == recs);
        assert(out@.map_values(at).len() == out@.len());
        out
    }

    /// The next live files without a content hash.
    pub fn files_without_hash(&self, limit: i64) -> (r: Vec<(i64, String)>)
        ensures
            r@.map_values(|t: (i64, String)| (t.0, t.1@)) == id_paths(
                limited(waiting(self@.files, Pending::Hash), limit as int),
            ),
    {
        self.paths_waiting(Pending::Hash, limit)
    }

    /// The next live videos without a length.
    pub fn videos_without_duration(&self, limit: i64) -> (r: Vec<(i64, String)>)
        ensures
            r@.map_values(|t: (i64, String)| (t.0, t.1@)) == id_paths(
                limited(waiting(self@.files, Pending::Duration), limit as int),
            ),
    {
        self.paths_waiting(Pending::Duration, limit)
    }

    fn paths_waiting(&self, p: Pending, limit: i64) -> (r: Vec<(i64, String)>)
        ensures
            r@.map_values(|t: (i64, String)| (t.0, t.1@)) == id_paths(
                limited(waiting(self@.files, p), limit as int),
            ),
    {
        let at = self.waiting_at(p, limit);
        let mut out: Vec<(i64, String)> = Vec::new();
        let ghost seen = |t: (i64, String)| (t.0, t.1@);
        let ghost rows = at@.map_values(|i: usize| self.files@[i as int]@);
        let mut k: usize = 0;
        while k < at.len()
            invariant
                k <= at@.len(),
                forall|j: int| 0 <= j < at@.len() ==> #[trigger] at@[j] < self.files@.len(),
                seen == (|t: (i64, String)| (t.0, t.1@)),
                rows == at@.map_values(|i: usize| self.files@[i as int]@),
                out@.len() == k,
                out@.map_values(seen) =~= id_paths(rows).take(k as int),
            decreases at.len() - k,
        {
            let f = &self.files[at[k]];
            assert(rows[k as int] == f@);
            out.push((f.id, f.rel_path.clone()));
            k += 1;
        }
        assert(id_paths(rows).take(k as int) == id_paths(rows));
        out
    }

    /// The next live files of which the resolution is not known, and whether each
    /// is a video.
    pub fn item_without_resolution(&self, limit: i64) -> (r: Vec<(i64, String, bool)>)
        ensures
            r@.map_values(|t: (i64, String, bool)| (t.0, t.1@, t.2)) == id_path_videos(
                limited(waiting(self@.files, Pending::Resolution), limit as int),
            ),
    {
        let at = self.waiting_at(Pending::Resolution, limit);
        let mut out: Vec<(i64, String, bool)> = Vec::new();
        let ghost seen = |t: (i64, String, bool)| (t.0, t.1@, t.2);
        let ghost rows = at@.map_values(|i: usize| self.files@[i as int]@);
        let mut k: usize = 0;
        while k < at.len()
            invariant
                k <= at@.len(),
                forall|j: int| 0 <= j < at@.len() ==> #[trigger] at@[j] < self.files@.len(),
                seen == (|t: (i64, String, bool)| (t.0, t.1@, t.2)),
                rows == at@.map_values(|i: usize| self.files@[i as int]@),
                out@.len() == k,
                out@.map_values(seen) =~= id_path_videos(rows).take(k as int),
            decreases at.len() - k,
        {
            let f = &self.files[at[k]];
            assert(rows[k as int] == f@);
            out.push((f.id, f.rel_path.clone(), f.media_type.is_video()));
            k += 1;
        }
        assert(id_path_videos(rows).take(k as int) == id_path_videos(rows));
        out
    }

    /// The next live files without a thumbnail, or with one that was put off.
    pub fn files_needing_thumb(&self, limit: i64) -> (r: Vec<(i64, String, MediaType)>)
        ensures
            r@.map_values(|t: (i64, String, MediaType)| (t.0, t.1@, t.2)) == id_path_kinds(
                limited(waiting(self@.files, Pending::Thumb), limit as int),
            ),
    {
        self.next_waiting(Pending::Thumb, limit)
    }

    /// The next live files that wait for a pass.
    pub fn next_waiting(&self, p: Pending, limit: i64) -> (r: Vec<(i64, String, MediaType)>)
        ensures
            r@.map_values(|t: (i64, String, MediaType)| (t.0, t.1@, t.2)) == id_path_kinds(
                limited(waiting(self@.files, p), limit as int),
            ),
    {
        let at = self.waiting_at(p, limit);
        let mut out: Vec<(i64, String, MediaType)> = Vec::new();
        let ghost seen = |t: (i64, String, MediaType)| (t.0, t.1@, t.2);
        let ghost rows = at@.map_values(|i: usize| self.files@[i as int]@);
        let mut k: usize = 0;
        while k < at.len()
            invariant
                k <= at@.len(),
                forall|j: int| 0 <= j < at@.len() ==> #[trigger] at@[j] < self.files@.len(),
                seen == (|t: (i64, String, MediaType)| (t.0, t.1@, t.2)),
                rows == at@.map_values(|i: usize| self.files@[i as int]@),
                out@.len() == k,
                out@.map_values(seen) =~= id_path_kinds(rows).take(k as int),
            decreases at.len() - k,
        {
            let f = &self.files[at[k]];
            assert(rows[k as int] == f@);
            out.push((f.id, f.rel_path.clone(), f.media_type));
            k += 1;
        }
        assert(id_path_kinds(rows).take(k as int) == id_path_kinds(rows));
        out
    }
}

} // verus!
