//! What the counts of a scan add up to.

use vstd::prelude::*;
use super::apply::{added, counts, file_matched, gone, is_pair_of, left_over, lemma_apart, lemma_missing, moved_to, renames};
use super::rematch::DiskRec;
use super::{appeared, by_rel, changed, ids_of, met, missing, rels_differ, ScanStats};
use crate::db::{file_ids_grow, live, live_paths_differ, path_live, FileRec};
use crate::order::{increasing, lemma_text_order};
use crate::seqs::{lemma_filter_from, lemma_filter_increasing};

verus! {

/// What is kept and what is not are all there is.
proof fn lemma_split<T>(s: Seq<T>, keep: spec_fn(T) -> bool, leave: spec_fn(T) -> bool)
    requires
        forall|x: T| #[trigger] leave(x) == !keep(x),
    ensures
        s.filter(keep).len() + s.filter(leave).len() == s.len(),
    decreases s.len(),
{
    reveal(Seq::filter);
    if s.len() > 0 {
        let x = s.last();
        assert(leave(x) == !keep(x));
        lemma_split(s.drop_last(), keep, leave);
    }
}

/// Sequences without repeats that hold the same have one length.
proof fn lemma_same_len<T>(a: Seq<T>, b: Seq<T>)
    requires
        a.no_duplicates(),
        b.no_duplicates(),
        forall|x: T| #[trigger] a.contains(x) <==> b.contains(x),
    ensures
        a.len() == b.len(),
{
    a.unique_seq_to_set();
    b.unique_seq_to_set();
    assert forall|x: T| a.to_set().contains(x) == b.to_set().contains(x) by {
        assert(a.contains(x) <==> b.contains(x));
    }
    assert(a.to_set() =~= b.to_set());
}

spec fn below(n: int) -> Set<int> {
    Set::new(|j: int| 0 <= j < n)
}

proof fn lemma_left_over_len(f: Seq<DiskRec>, pairs: Seq<(i64, int)>, taken: Set<int>, n: int)
    requires
        0 <= n,
        taken.finite(),
        forall|j: int| #[trigger] taken.contains(j) <==> file_matched(pairs, j),
    ensures
        left_over(f, pairs, n).len() + taken.intersect(below(n)).len() == n,
    decreases n,
{
    if n <= 0 {
        assert(taken.intersect(below(n)) =~= Set::empty());
    } else {
        lemma_left_over_len(f, pairs, taken, n - 1);
        let rest = taken.intersect(below(n - 1));
        assert(taken.contains(n - 1) <==> file_matched(pairs, n - 1));
        if file_matched(pairs, n - 1) {
            assert(taken.intersect(below(n)) =~= rest.insert(n - 1));
        } else {
            assert(taken.intersect(below(n)) =~= rest);
        }
    }
}

/// Every file without a row gets one: an old one, or a new one.
proof fn lemma_files_without_row(files: Seq<FileRec>, d: Seq<DiskRec>, hs: Seq<Option<u64>>)
    requires
        file_ids_grow(files),
        live_paths_differ(files),
    ensures
        renames(files, d, hs).len() + added(files, d, hs).len() == appeared(files, d).len(),
{
    let f = appeared(files, d);
    let pairs = renames(files, d, hs);
    lemma_missing(files, d);
    lemma_apart(missing(files, d), f, hs);
    let at = pairs.map_values(|p: (i64, int)| p.1);
    assert(at.no_duplicates()) by {
        assert forall|k: int, l: int| 0 <= k < at.len() && 0 <= l < at.len() && k != l implies at[k] != at[l] by {
            if k < l {
                assert(pairs[k].1 != pairs[l].1);
            } else {
                assert(pairs[l].1 != pairs[k].1);
            }
        }
    }
    at.unique_seq_to_set();
    let taken = at.to_set();
    assert forall|j: int| #[trigger] taken.contains(j) <==> file_matched(pairs, j) by {
        if taken.contains(j) {
            let k = choose|k: int| 0 <= k < at.len() && at[k] == j;
            assert(pairs[k].1 == j);
        }
        if file_matched(pairs, j) {
            let k = choose|k: int| 0 <= k < pairs.len() && (#[trigger] pairs[k]).1 == j;
            assert(at[k] == j);
        }
    }
    lemma_left_over_len(f, pairs, taken, f.len() as int);
    assert forall|j: int| taken.contains(j) implies below(f.len() as int).contains(j) by {
        let k = choose|k: int| 0 <= k < at.len() && at[k] == j;
        assert(0 <= pairs[k].1 < f.len());
    }
    assert(taken.intersect(below(f.len() as int)) =~= taken);
}

/// Every row without a file moves, or is marked as deleted.
proof fn lemma_rows_without_file(files: Seq<FileRec>, d: Seq<DiskRec>, hs: Seq<Option<u64>>)
    requires
        file_ids_grow(files),
        live_paths_differ(files),
    ensures
        renames(files, d, hs).len() + gone(files, d, hs).len() == missing(files, d).len(),
{
    let pairs = renames(files, d, hs);
    let ids = ids_of(missing(files, d));
    let moves = |id: i64| moved_to(pairs, id) is Some;
    let stays = |id: i64| moved_to(pairs, id) is None;
    let lt = |a: i64, b: i64| a < b;
    lemma_missing(files, d);
    lemma_apart(missing(files, d), appeared(files, d), hs);
    lemma_split(ids, moves, stays);
    lemma_filter_from(ids, moves);
    assert(increasing(ids, lt)) by {
        assert forall|i: int, j: int| 0 <= i < j < ids.len() implies lt(#[trigger] ids[i], #[trigger] ids[j]) by {
            assert(missing(files, d)[i].id < missing(files, d)[j].id);
        }
    }
    lemma_filter_increasing(ids, moves, lt);
    let a = ids.filter(moves);
    let b = pairs.map_values(|p: (i64, int)| p.0);
    assert(a.no_duplicates()) by {
        assert forall|k: int, l: int| 0 <= k < a.len() && 0 <= l < a.len() && k != l implies a[k] != a[l] by {
            if k < l {
                assert(lt(a[k], a[l]));
            } else {
                assert(lt(a[l], a[k]));
            }
        }
    }
    assert(b.no_duplicates()) by {
        assert forall|k: int, l: int| 0 <= k < b.len() && 0 <= l < b.len() && k != l implies b[k] != b[l] by {
            if k < l {
                assert(pairs[k].0 != pairs[l].0);
            } else {
                assert(pairs[l].0 != pairs[k].0);
            }
        }
    }
    assert forall|id: i64| #[trigger] a.contains(id) <==> b.contains(id) by {
        if a.contains(id) {
            assert(moves(id));
            let k = choose|k: int| is_pair_of(pairs, id, k);
            assert(b[k] == id);
        }
        if b.contains(id) {
            let k = choose|k: int| 0 <= k < b.len() && b[k] == id;
            assert(ids.contains(pairs[k].0));
            assert(is_pair_of(pairs, id, k));
            assert(moves(id));
        }
    }
    lemma_same_len(a, b);
}

/// The live rows whose files are in their places are as many as those files.
proof fn lemma_in_place(files: Seq<FileRec>, d: Seq<DiskRec>)
    requires
        live_paths_differ(files),
        rels_differ(d),
    ensures
        live(files).filter(|r: FileRec| met(d, r.rel_path)).len() == d.filter(
            |x: DiskRec| path_live(files, x.rel),
        ).len(),
{
    let alive = |r: FileRec| !r.is_deleted;
    let there = |r: FileRec| met(d, r.rel_path);
    let known = |x: DiskRec| path_live(files, x.rel);
    let row_lt = |r: FileRec, q: FileRec| r.is_deleted || q.is_deleted || r.rel_path != q.rel_path;
    let disk_lt = |x: DiskRec, y: DiskRec| x.rel != y.rel;
    assert(increasing(files, row_lt));
    lemma_filter_increasing(files, alive, row_lt);
    lemma_filter_increasing(live(files), there, row_lt);
    lemma_filter_from(files, alive);
    lemma_filter_from(live(files), there);
    lemma_filter_increasing(d, known, disk_lt);
    lemma_filter_from(d, known);
    let rows = live(files).filter(there);
    let found = d.filter(known);
    let a = rows.map_values(|r: FileRec| r.rel_path);
    let b = found.map_values(|x: DiskRec| x.rel);
    assert forall|k: int| 0 <= k < rows.len() implies files.contains(#[trigger] rows[k]) && !rows[k].is_deleted && met(
        d,
        rows[k].rel_path,
    ) by {
        assert(rows.contains(rows[k]));
        assert(live(files).contains(rows[k]));
    }
    assert forall|k: int| 0 <= k < found.len() implies d.contains(#[trigger] found[k]) && path_live(files, found[k].rel) by {
        assert(found.contains(found[k]));
    }
    assert(a.no_duplicates()) by {
        assert forall|k: int, l: int| 0 <= k < a.len() && 0 <= l < a.len() && k != l implies a[k] != a[l] by {
            if k < l {
                assert(row_lt(rows[k], rows[l]));
            } else {
                assert(row_lt(rows[l], rows[k]));
            }
        }
    }
    assert(b.no_duplicates()) by {
        assert forall|k: int, l: int| 0 <= k < b.len() && 0 <= l < b.len() && k != l implies b[k] != b[l] by {
            if k < l {
                assert(disk_lt(found[k], found[l]));
            } else {
                assert(disk_lt(found[l], found[k]));
            }
        }
    }
    assert forall|p: Seq<char>| #[trigger] a.contains(p) <==> b.contains(p) by {
        if a.contains(p) {
            let k = choose|k: int| 0 <= k < a.len() && a[k] == p;
            let i = choose|i: int| 0 <= i < files.len() && files[i] == rows[k];
            assert(!files[i].is_deleted);
            let j = choose|j: int| 0 <= j < d.len() && (#[trigger] d[j]).rel == p;
            assert(known(d[j]));
            assert(d.contains(d[j]));
            assert(found.contains(d[j]));
            let l = choose|l: int| 0 <= l < found.len() && found[l] == d[j];
            assert(b[l] == p);
        }
        if b.contains(p) {
            let l = choose|l: int| 0 <= l < b.len() && b[l] == p;
            let j = choose|j: int| 0 <= j < d.len() && d[j] == found[l];
            let i = choose|i: int| 0 <= i < files.len() && !(#[trigger] files[i]).is_deleted && files[i].rel_path == p;
            assert(files.contains(files[i]));
            assert(live(files).contains(files[i]));
            assert(met(d, p)) by {
                assert(d[j].rel == p);
            }
            assert(there(files[i]));
            assert(rows.contains(files[i]));
            let k = choose|k: int| 0 <= k < rows.len() && rows[k] == files[i];
            assert(a[k] == p);
        }
    }
    lemma_same_len(a, b);
}

/// Of what is kept under a narrower rule there is no more.
proof fn lemma_narrower<T>(s: Seq<T>, narrow: spec_fn(T) -> bool, wide: spec_fn(T) -> bool)
    requires
        forall|x: T| #[trigger] narrow(x) ==> wide(x),
    ensures
        s.filter(narrow).len() <= s.filter(wide).len(),
    decreases s.len(),
{
    reveal(Seq::filter);
    if s.len() > 0 {
        let x = s.last();
        assert(narrow(x) ==> wide(x));
        lemma_narrower(s.drop_last(), narrow, wide);
    }
}

/// A scan counts everything once: every file on disk was in its place, moved or is
/// new, and every row that was live had its file in its place, moved with it or was
/// marked as deleted. What changed was in its place.
pub proof fn law_scan_counts_everything(s: ScanStats, files: Seq<FileRec>, d: Seq<DiskRec>, hs: Seq<Option<u64>>)
    requires
        file_ids_grow(files),
        live_paths_differ(files),
        rels_differ(d),
        counts(s, files, d, hs),
    ensures
        s.seen + s.renamed + s.added == d.len(),
        s.seen + s.renamed + s.deleted == live(files).len(),
        s.updated <= s.seen,
{
    let known = |x: DiskRec| path_live(files, x.rel);
    let unknown = |x: DiskRec| !path_live(files, x.rel);
    let there = |r: FileRec| met(d, r.rel_path);
    let lost = |r: FileRec| !met(d, r.rel_path);
    lemma_split(d, known, unknown);
    lemma_split(live(files), there, lost);
    lemma_narrower(d, |x: DiskRec| changed(files, x), known);
    lemma_text_order(d.filter(unknown).map_values(|x: DiskRec| x.rel));
    assert(appeared(files, d).len() == by_rel(d.filter(unknown)).len());
    assert(missing(files, d).len() == live(files).filter(lost).len());
    lemma_files_without_row(files, d, hs);
    lemma_rows_without_file(files, d, hs);
    lemma_in_place(files, d);
}

} // verus!
