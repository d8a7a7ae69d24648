//! What a scan makes of the index.

use vstd::prelude::*;
use super::rematch::{asks, by_content, disk_recs, law_only_asked_hashes_matter, id_pairs, known, rematch, with_ids, DiskRec, MissingRec};
use super::{appeared, found, walked, DiskEntry, changed, changes, ids_of, lemma_live, lemma_live_path, lemma_met_step, met, met_as, missing, rels_differ, row_at, Scan, ScanStats};
use super::laws::law_match_is_one_to_one;
use crate::db::{deleted, file_ids_grow, live, live_paths_differ, moved, moved_all, next_file_id, path_live, path_taken, rename_recs, touched, updated, Db, DbError, FileRec, NewFile, RenameFile, RenameRec, Tables};
use crate::order::{increasing, key_lt, lemma_text_lt_irreflexive, lemma_text_order, text_order};
use crate::seqs::{lemma_filter_from, lemma_filter_increasing, lemma_filter_step};

verus! {

broadcast use vstd::string::group_string_axioms;

/// The rows that move, by id, with the positions of their files.
pub open spec fn renames(files: Seq<FileRec>, d: Seq<DiskRec>, hs: Seq<Option<u64>>) -> Seq<(i64, int)> {
    with_ids(missing(files, d), rematch(missing(files, d), appeared(files, d), hs))
}

/// Whether pair `k` is that of the row.
pub open spec fn is_pair_of(pairs: Seq<(i64, int)>, id: i64, k: int) -> bool {
    0 <= k < pairs.len() && pairs[k].0 == id
}

/// The file that a row moves to.
pub open spec fn moved_to(pairs: Seq<(i64, int)>, id: i64) -> Option<int> {
    if exists|k: int| is_pair_of(pairs, id, k) {
        Some(pairs[choose|k: int| is_pair_of(pairs, id, k)].1)
    } else {
        None
    }
}

/// A row whose file is in its place: where the size or the time is new, the hash
/// and the thumbnail have to be made again.
pub open spec fn touch_row(r: FileRec, size: i64, mtime: i64) -> FileRec {
    if r.size != size || r.mtime != mtime {
        FileRec { size, mtime, hash: None, thumb_state: 0, ..r }
    } else {
        r
    }
}

/// A row that moves with its file.
pub open spec fn move_row(r: FileRec, x: DiskRec) -> FileRec {
    FileRec {
        rel_path: x.rel,
        name: x.name,
        ext: x.ext,
        media_type: x.media_type,
        size: x.size,
        mtime: x.mtime,
        ..r
    }
}

/// The row of a file that is new.
pub open spec fn new_row(x: DiskRec, id: i64, now: i64) -> FileRec {
    FileRec {
        id,
        rel_path: x.rel,
        name: x.name,
        ext: x.ext,
        media_type: x.media_type,
        size: x.size,
        mtime: x.mtime,
        added_at: now,
        width: None,
        height: None,
        duration_ms: None,
        resume_ms: None,
        hash: None,
        thumb_state: 0,
        is_deleted: false,
    }
}

/// What becomes of a row: a deleted one stays as it is, one whose file is in its
/// place is touched, one whose file moved moves with it, and any other is marked
/// as deleted.
pub open spec fn fate(r: FileRec, d: Seq<DiskRec>, f: Seq<DiskRec>, pairs: Seq<(i64, int)>) -> FileRec {
    if r.is_deleted {
        r
    } else if met(d, r.rel_path) {
        touch_row(r, met_as(d, r.rel_path).size, met_as(d, r.rel_path).mtime)
    } else {
        match moved_to(pairs, r.id) {
            Some(fi) => move_row(r, f[fi]),
            None => FileRec { is_deleted: true, ..r },
        }
    }
}

/// Whether a row moves to the file.
pub open spec fn file_matched(pairs: Seq<(i64, int)>, fi: int) -> bool {
    exists|k: int| 0 <= k < pairs.len() && (#[trigger] pairs[k]).1 == fi
}

/// Those of the first `n` files that no row moves to.
pub open spec fn left_over(f: Seq<DiskRec>, pairs: Seq<(i64, int)>, n: int) -> Seq<DiskRec>
    decreases n,
{
    if n <= 0 {
        Seq::empty()
    } else if file_matched(pairs, n - 1) {
        left_over(f, pairs, n - 1)
    } else {
        left_over(f, pairs, n - 1).push(f[n - 1])
    }
}

/// The files that get a row.
pub open spec fn added(files: Seq<FileRec>, d: Seq<DiskRec>, hs: Seq<Option<u64>>) -> Seq<DiskRec> {
    left_over(appeared(files, d), renames(files, d, hs), appeared(files, d).len() as int)
}

/// The rows of new files, with the ids that follow those of the table.
pub open spec fn new_rows(files: Seq<FileRec>, new: Seq<DiskRec>, now: i64) -> Seq<FileRec> {
    Seq::new(new.len(), |i: int| new_row(new[i], (next_file_id(files) + i) as i64, now))
}

/// The files of the index after a scan: every row is still there, with what
/// became of it, and the new ones follow.
pub open spec fn scanned(files: Seq<FileRec>, d: Seq<DiskRec>, hs: Seq<Option<u64>>, now: i64) -> Seq<FileRec> {
    files.map_values(|r: FileRec| fate(r, d, appeared(files, d), renames(files, d, hs))) + new_rows(
        files,
        added(files, d, hs),
        now,
    )
}

/// The ids of the rows that are marked as deleted.
pub open spec fn gone(files: Seq<FileRec>, d: Seq<DiskRec>, hs: Seq<Option<u64>>) -> Seq<i64> {
    ids_of(missing(files, d)).filter(|id: i64| moved_to(renames(files, d, hs), id) is None)
}

/// What a scan counts.
pub open spec fn counts(s: ScanStats, files: Seq<FileRec>, d: Seq<DiskRec>, hs: Seq<Option<u64>>) -> bool {
    &&& s.seen == d.filter(|x: DiskRec| path_live(files, x.rel)).len()
    &&& s.updated == d.filter(|x: DiskRec| changed(files, x)).len()
    &&& s.renamed == renames(files, d, hs).len()
    &&& s.added == added(files, d, hs).len()
    &&& s.deleted == gone(files, d, hs).len()
}

// ---------------------------------------------------------------------------
// Touching.

spec fn touched_by(r: FileRec, t: Seq<(i64, i64, i64)>, n: int) -> FileRec
    decreases n,
{
    if n <= 0 {
        r
    } else {
        let q = touched_by(r, t, n - 1);
        if q.id == t[n - 1].0 {
            touch_row(q, t[n - 1].1, t[n - 1].2)
        } else {
            q
        }
    }
}

spec fn touched_all(files: Seq<FileRec>, t: Seq<(i64, i64, i64)>, n: int) -> Seq<FileRec> {
    files.map_values(|r: FileRec| touched_by(r, t, n))
}

proof fn lemma_touched_prefix(r: FileRec, t: Seq<(i64, i64, i64)>, x: (i64, i64, i64), n: int)
    requires
        n <= t.len(),
    ensures
        touched_by(r, t.push(x), n) == touched_by(r, t, n),
    decreases n,
{
    if n > 0 {
        lemma_touched_prefix(r, t, x, n - 1);
    }
}

proof fn lemma_touched_step(files: Seq<FileRec>, t: Seq<(i64, i64, i64)>, n: int)
    requires
        0 <= n < t.len(),
    ensures
        touched(touched_all(files, t, n), t[n].0, t[n].1, t[n].2) == touched_all(files, t, n + 1),
{
    assert(touched(touched_all(files, t, n), t[n].0, t[n].1, t[n].2) =~= touched_all(files, t, n + 1));
}

pub proof fn lemma_met_as(d: Seq<DiskRec>, i: int)
    requires
        rels_differ(d),
        0 <= i < d.len(),
    ensures
        met(d, d[i].rel),
        met_as(d, d[i].rel) == d[i],
{
    let path = d[i].rel;
    let c = choose|k: int| 0 <= k < d.len() && (#[trigger] d[k]).rel == path;
    let lt = |a: DiskRec, b: DiskRec| a.rel != b.rel;
    assert(d[i].rel == path);
    if c < i {
        assert(lt(d[c], d[i]));
    } else if i < c {
        assert(lt(d[i], d[c]));
    }
}

/// Touching what changed, one after the other, touches each row whose file is in
/// its place.
proof fn lemma_touched(files: Seq<FileRec>, d: Seq<DiskRec>, n: int, i: int)
    requires
        file_ids_grow(files),
        live_paths_differ(files),
        rels_differ(d),
        0 <= n <= d.len(),
        0 <= i < files.len(),
    ensures
        touched_by(files[i], changes(files, d, n), changes(files, d, n).len() as int) == if !files[i].is_deleted && met(
            d.take(n),
            files[i].rel_path,
        ) {
            touch_row(
                files[i],
                met_as(d, files[i].rel_path).size,
                met_as(d, files[i].rel_path).mtime,
            )
        } else {
            files[i]
        },
    decreases n,
{
    let r = files[i];
    if n > 0 {
        lemma_touched(files, d, n - 1, i);
        let t = changes(files, d, n - 1);
        let x = d[n - 1];
        lemma_met_step(d, n - 1, r.rel_path);
        let lt = |a: DiskRec, b: DiskRec| a.rel != b.rel;
        assert(!met(d.take(n - 1), x.rel)) by {
            let a = d.take(n - 1);
            if met(a, x.rel) {
                let k = choose|k: int| 0 <= k < a.len() && (#[trigger] a[k]).rel == x.rel;
                assert(lt(d[k], d[n - 1]));
            }
        }
        lemma_met_as(d, n - 1);
        if changed(files, x) {
            let e = (row_at(files, x.rel).id, x.size, x.mtime);
            lemma_touched_prefix(r, t, e, t.len() as int);
            assert(path_live(files, x.rel));
            lemma_live_path(files, x.rel);
            let o = row_at(files, x.rel);
            let j = choose|j: int| 0 <= j < files.len() && files[j] == o;
            if r.id == o.id {
                assert(i == j) by {
                    if i < j {
                        assert(files[i].id < files[j].id);
                    } else if j < i {
                        assert(files[j].id < files[i].id);
                    }
                }
            } else if !r.is_deleted && r.rel_path == x.rel {
                assert(!files[j].is_deleted && files[j].rel_path == x.rel);
                assert(i == j);
            }
        } else if !r.is_deleted && r.rel_path == x.rel {
            assert(r.size == x.size && r.mtime == x.mtime);
        }
    } else {
        assert(!met(d.take(0), r.rel_path));
    }
}

// ---------------------------------------------------------------------------
// Moving.

spec fn move_by(r: FileRec, m: RenameRec) -> FileRec {
    FileRec {
        rel_path: m.rel_path,
        name: m.name,
        ext: m.ext,
        media_type: m.media_type,
        size: m.size,
        mtime: m.mtime,
        ..r
    }
}

spec fn moved_by(r: FileRec, moves: Seq<RenameRec>, n: int) -> FileRec
    decreases n,
{
    if n <= 0 {
        r
    } else {
        let q = moved_by(r, moves, n - 1);
        if q.id == moves[n - 1].id {
            move_by(q, moves[n - 1])
        } else {
            q
        }
    }
}

spec fn rename_of(id: i64, x: DiskRec) -> RenameRec {
    RenameRec {
        id,
        rel_path: x.rel,
        name: x.name,
        ext: x.ext,
        media_type: x.media_type,
        size: x.size,
        mtime: x.mtime,
    }
}

spec fn moves_of(pairs: Seq<(i64, int)>, f: Seq<DiskRec>) -> Seq<RenameRec> {
    pairs.map_values(|p: (i64, int)| rename_of(p.0, f[p.1]))
}

/// Pairs whose ids differ, and whose files differ and are there.
pub open spec fn apart(pairs: Seq<(i64, int)>, f: Seq<DiskRec>) -> bool {
    &&& forall|k: int, l: int|
        0 <= k < l < pairs.len() ==> (#[trigger] pairs[k]).0 != (#[trigger] pairs[l]).0 && pairs[k].1 != pairs[l].1
    &&& forall|k: int| 0 <= k < pairs.len() ==> 0 <= (#[trigger] pairs[k]).1 < f.len()
}

proof fn lemma_moved_by(r: FileRec, pairs: Seq<(i64, int)>, f: Seq<DiskRec>, n: int)
    requires
        apart(pairs, f),
        0 <= n <= pairs.len(),
    ensures
        (forall|k: int| 0 <= k < n ==> (#[trigger] pairs[k]).0 != r.id) ==> moved_by(r, moves_of(pairs, f), n) == r,
        forall|k: int|
            0 <= k < n && (#[trigger] pairs[k]).0 == r.id ==> moved_by(r, moves_of(pairs, f), n) == move_row(
                r,
                f[pairs[k].1],
            ),
        moved_by(r, moves_of(pairs, f), n).id == r.id,
        moved_by(r, moves_of(pairs, f), n).is_deleted == r.is_deleted,
    decreases n,
{
    if n > 0 {
        lemma_moved_by(r, pairs, f, n - 1);
        let moves = moves_of(pairs, f);
        assert(moves[n - 1] == rename_of(pairs[n - 1].0, f[pairs[n - 1].1]));
        if exists|k: int| 0 <= k < n - 1 && (#[trigger] pairs[k]).0 == r.id {
            let k = choose|k: int| 0 <= k < n - 1 && (#[trigger] pairs[k]).0 == r.id;
            assert(pairs[k].0 != pairs[n - 1].0);
        } else {
            assert(moved_by(r, moves, n - 1) == r);
        }
    }
}

/// Whether a path belongs to none of the live rows.
pub open spec fn free_paths(files: Seq<FileRec>, f: Seq<DiskRec>) -> bool {
    forall|j: int| 0 <= j < f.len() ==> !path_live(files, (#[trigger] f[j]).rel)
}

/// After the first moves, the path of a file that they do not reach is free.
proof fn lemma_still_free(files: Seq<FileRec>, f: Seq<DiskRec>, pairs: Seq<(i64, int)>, n: int, j: int)
    requires
        apart(pairs, f),
        free_paths(files, f),
        rels_differ(f),
        0 <= n <= pairs.len(),
        0 <= j < f.len(),
        forall|k: int| 0 <= k < n ==> (#[trigger] pairs[k]).1 != j,
    ensures
        !path_live(files.map_values(|r: FileRec| moved_by(r, moves_of(pairs, f), n)), f[j].rel),
{
    let now = files.map_values(|r: FileRec| moved_by(r, moves_of(pairs, f), n));
    let lt = |a: DiskRec, b: DiskRec| a.rel != b.rel;
    assert(!path_live(files, f[j].rel));
    assert forall|i: int| 0 <= i < now.len() && !(#[trigger] now[i]).is_deleted implies now[i].rel_path != f[j].rel by {
        lemma_moved_by(files[i], pairs, f, n);
        if exists|k: int| 0 <= k < n && (#[trigger] pairs[k]).0 == files[i].id {
            let k = choose|k: int| 0 <= k < n && (#[trigger] pairs[k]).0 == files[i].id;
            assert(pairs[k].1 != j);
            if pairs[k].1 < j {
                assert(lt(f[pairs[k].1], f[j]));
            } else {
                assert(lt(f[j], f[pairs[k].1]));
            }
        } else {
            assert(now[i] == files[i]);
        }
    }
}

/// None of the moves conflicts, so all of them are made.
proof fn lemma_moves(files: Seq<FileRec>, f: Seq<DiskRec>, pairs: Seq<(i64, int)>, n: int)
    requires
        apart(pairs, f),
        free_paths(files, f),
        rels_differ(f),
        0 <= n <= pairs.len(),
    ensures
        moved_all(files, moves_of(pairs, f), n) == Some(
            files.map_values(|r: FileRec| moved_by(r, moves_of(pairs, f), n)),
        ),
    decreases n,
{
    let moves = moves_of(pairs, f);
    if n > 0 {
        lemma_moves(files, f, pairs, n - 1);
        let before = files.map_values(|r: FileRec| moved_by(r, moves, n - 1));
        assert forall|k: int| 0 <= k < n - 1 implies (#[trigger] pairs[k]).1 != pairs[n - 1].1 by {}
        lemma_still_free(files, f, pairs, n - 1, pairs[n - 1].1);
        assert(!path_taken(before, moves[n - 1].rel_path, moves[n - 1].id));
        assert(moved(before, moves[n - 1]) =~= files.map_values(|r: FileRec| moved_by(r, moves, n)));
    } else {
        assert(files =~= files.map_values(|r: FileRec| moved_by(r, moves, 0)));
    }
}

// ---------------------------------------------------------------------------
// What is known of the rows and the files of a match.

pub proof fn lemma_missing(files: Seq<FileRec>, d: Seq<DiskRec>)
    requires
        file_ids_grow(files),
        live_paths_differ(files),
    ensures
        forall|i: int, j: int|
            0 <= i < j < missing(files, d).len() ==> (#[trigger] missing(files, d)[i]).id < (#[trigger] missing(
                files,
                d,
            )[j]).id,
        forall|id: i64| #[trigger]
            ids_of(missing(files, d)).contains(id) <==> exists|i: int|
                0 <= i < files.len() && (#[trigger] files[i]).id == id && !files[i].is_deleted && !met(
                    d,
                    files[i].rel_path,
                ),
{
    lemma_live(files);
    let l = live(files);
    let keep = |r: FileRec| !met(d, r.rel_path);
    let lost = l.filter(keep);
    let m = missing(files, d);
    let by_id = |a: FileRec, b: FileRec| a.id < b.id;
    assert(increasing(l, by_id));
    lemma_filter_increasing(l, keep, by_id);
    lemma_filter_from(l, keep);
    assert forall|i: int, j: int| 0 <= i < j < m.len() implies (#[trigger] m[i]).id < (#[trigger] m[j]).id by {
        assert(by_id(lost[i], lost[j]));
    }
    assert forall|id: i64| #[trigger] ids_of(m).contains(id) <==> exists|i: int|
        0 <= i < files.len() && (#[trigger] files[i]).id == id && !files[i].is_deleted && !met(d, files[i].rel_path) by {
        if ids_of(m).contains(id) {
            let k = choose|k: int| 0 <= k < m.len() && ids_of(m)[k] == id;
            assert(lost.contains(lost[k]));
            let q = choose|q: int| 0 <= q < l.len() && l[q] == lost[k];
            let i = choose|i: int| 0 <= i < files.len() && files[i] == l[q];
            assert(files[i].id == id);
        }
        if exists|i: int|
            0 <= i < files.len() && (#[trigger] files[i]).id == id && !files[i].is_deleted && !met(d, files[i].rel_path) {
            let i = choose|i: int|
                0 <= i < files.len() && (#[trigger] files[i]).id == id && !files[i].is_deleted && !met(
                    d,
                    files[i].rel_path,
                );
            assert(l.contains(files[i]));
            assert(lost.contains(files[i]));
            let k = choose|k: int| 0 <= k < lost.len() && lost[k] == files[i];
            assert(ids_of(m)[k] == id);
        }
    }
}

pub proof fn lemma_appeared(files: Seq<FileRec>, d: Seq<DiskRec>)
    requires
        rels_differ(d),
    ensures
        rels_differ(appeared(files, d)),
        free_paths(files, appeared(files, d)),
{
    let keep = |x: DiskRec| !path_live(files, x.rel);
    let lt = |a: DiskRec, b: DiskRec| a.rel != b.rel;
    let n = d.filter(keep);
    lemma_filter_increasing(d, keep, lt);
    lemma_filter_from(d, keep);
    let keys = n.map_values(|x: DiskRec| x.rel);
    let p = text_order(keys);
    lemma_text_order(keys);
    let f = appeared(files, d);
    let before = key_lt(keys);
    assert forall|i: int, j: int| 0 <= i < j < f.len() implies lt(#[trigger] f[i], #[trigger] f[j]) by {
        assert(before(p[i], p[j]));
        assert(p.contains(p[i]) && p.contains(p[j]));
        lemma_text_lt_irreflexive(keys[p[i]]);
        if p[i] < p[j] {
            assert(lt(n[p[i]], n[p[j]]));
        } else if p[j] < p[i] {
            assert(lt(n[p[j]], n[p[i]]));
        }
    }
    assert forall|j: int| 0 <= j < f.len() implies !path_live(files, (#[trigger] f[j]).rel) by {
        assert(p.contains(p[j]));
        assert(n.contains(n[p[j]]));
    }
}

pub proof fn lemma_apart(m: Seq<MissingRec>, f: Seq<DiskRec>, hs: Seq<Option<u64>>)
    requires
        forall|i: int, j: int| 0 <= i < j < m.len() ==> (#[trigger] m[i]).id < (#[trigger] m[j]).id,
    ensures
        apart(with_ids(m, rematch(m, f, hs)), f),
        forall|k: int|
            0 <= k < rematch(m, f, hs).len() ==> ids_of(m).contains((#[trigger] with_ids(m, rematch(m, f, hs))[k]).0),
{
    let raw = rematch(m, f, hs);
    let pairs = with_ids(m, raw);
    law_match_is_one_to_one(m, f, hs);
    assert forall|k: int, l: int| 0 <= k < l < pairs.len() implies (#[trigger] pairs[k]).0 != (#[trigger] pairs[l]).0
        && pairs[k].1 != pairs[l].1 by {
        let a = raw[k].0;
        let b = raw[l].0;
        assert(a != b && raw[k].1 != raw[l].1);
        if a < b {
            assert(m[a].id < m[b].id);
        } else {
            assert(m[b].id < m[a].id);
        }
    }
    assert forall|k: int| 0 <= k < pairs.len() implies 0 <= (#[trigger] pairs[k]).1 < f.len() by {
        assert(0 <= raw[k].1 < f.len());
    }
    assert forall|k: int| 0 <= k < raw.len() implies ids_of(m).contains((#[trigger] pairs[k]).0) by {
        assert(ids_of(m)[raw[k].0] == pairs[k].0);
    }
}

proof fn lemma_changes_count(files: Seq<FileRec>, d: Seq<DiskRec>, n: int)
    requires
        0 <= n <= d.len(),
    ensures
        changes(files, d, n).len() == d.take(n).filter(|x: DiskRec| changed(files, x)).len(),
    decreases n,
{
    let keep = |x: DiskRec| changed(files, x);
    if n > 0 {
        lemma_changes_count(files, d, n - 1);
        lemma_filter_step(d, n - 1, keep);
    } else {
        reveal(Seq::filter);
        assert(d.take(0).filter(keep).len() == 0);
    }
}

/// The index between the moves and the marks: the rows that are there, and the
/// first `n` of the new ones.
spec fn with_new(files: Seq<FileRec>, kept: Seq<FileRec>, new: Seq<DiskRec>, now: i64, n: int) -> Seq<FileRec> {
    kept + new_rows(files, new, now).take(n)
}

proof fn lemma_insert_next(
    files: Seq<FileRec>,
    kept: Seq<FileRec>,
    f: Seq<DiskRec>,
    left: Seq<usize>,
    now: i64,
    n: int,
)
    requires
        kept.len() == files.len(),
        files.len() > 0 ==> kept.last().id == files.last().id,
        rels_differ(f),
        0 <= n < left.len(),
        next_file_id(files) + left.len() <= i64::MAX + 1,
        forall|a: int, b: int| 0 <= a < b < left.len() ==> (#[trigger] left[a]) < (#[trigger] left[b]),
        forall|a: int| 0 <= a < left.len() ==> (#[trigger] left[a]) < f.len(),
        forall|a: int| 0 <= a < left.len() ==> !path_live(kept, f[(#[trigger] left[a]) as int].rel),
    ensures
        ({
            let new = left.map_values(|j: usize| f[j as int]);
            let s = with_new(files, kept, new, now, n);
            &&& next_file_id(s) == next_file_id(files) + n
            &&& !path_live(s, new[n].rel)
            &&& s.push(new_row(new[n], next_file_id(s) as i64, now)) == with_new(files, kept, new, now, n + 1)
        }),
{
    let new = left.map_values(|j: usize| f[j as int]);
    let rows = new_rows(files, new, now);
    let s = with_new(files, kept, new, now, n);
    let lt = |a: DiskRec, b: DiskRec| a.rel != b.rel;
    if n > 0 {
        assert(s.last() == rows[n - 1]);
    } else {
        assert(s =~= kept);
    }
    assert(next_file_id(s) == next_file_id(files) + n);
    let x = f[left[n] as int];
    assert(!path_live(kept, x.rel));
    assert forall|i: int| 0 <= i < s.len() && !(#[trigger] s[i]).is_deleted implies s[i].rel_path != x.rel by {
        if i < kept.len() {
            assert(s[i] == kept[i]);
        } else {
            let q = i - kept.len();
            assert(s[i] == rows[q]);
            assert(left[q] < left[n]);
            assert(lt(f[left[q] as int], f[left[n] as int]));
        }
    }
    assert(s.push(new_row(new[n], next_file_id(s) as i64, now)) =~= with_new(files, kept, new, now, n + 1));
}

/// What the steps of a scan make of the index, put together.
proof fn lemma_scanned(
    files: Seq<FileRec>,
    d: Seq<DiskRec>,
    hs: Seq<Option<u64>>,
    now: i64,
    ids: Seq<i64>,
)
    requires
        file_ids_grow(files),
        live_paths_differ(files),
        rels_differ(d),
        ids == gone(files, d, hs),
        next_file_id(files) + added(files, d, hs).len() <= i64::MAX + 1,
    ensures
        ({
            let t = changes(files, d, d.len() as int);
            let moves = moves_of(renames(files, d, hs), appeared(files, d));
            let kept = touched_all(files, t, t.len() as int).map_values(
                |r: FileRec| moved_by(r, moves, moves.len() as int),
            );
            let new = added(files, d, hs);
            deleted(with_new(files, kept, new, now, new.len() as int), ids) == scanned(files, d, hs, now)
        }),
{
    let t = changes(files, d, d.len() as int);
    let m = missing(files, d);
    let f = appeared(files, d);
    let pairs = renames(files, d, hs);
    let moves = moves_of(pairs, f);
    let first = touched_all(files, t, t.len() as int);
    let kept = first.map_values(|r: FileRec| moved_by(r, moves, moves.len() as int));
    let new = added(files, d, hs);
    let rows = new_rows(files, new, now);
    let s = with_new(files, kept, new, now, new.len() as int);
    let all = deleted(s, ids);
    let keep = |id: i64| moved_to(pairs, id) is None;
    lemma_missing(files, d);
    lemma_apart(m, f, hs);
    lemma_filter_from(ids_of(m), keep);
    assert(d.take(d.len() as int) =~= d);
    assert(rows.take(new.len() as int) =~= rows);
    assert forall|i: int| 0 <= i < files.len() implies #[trigger] all[i] == fate(files[i], d, f, pairs) by {
        let r = files[i];
        lemma_touched(files, d, d.len() as int, i);
        lemma_moved_by(first[i], pairs, f, pairs.len() as int);
        assert(s[i] == kept[i]);
        assert(kept[i] == moved_by(first[i], moves, moves.len() as int));
        let lost = !r.is_deleted && !met(d, r.rel_path);
        assert(ids_of(m).contains(r.id) <==> lost) by {
            if ids_of(m).contains(r.id) {
                let j = choose|j: int|
                    0 <= j < files.len() && (#[trigger] files[j]).id == r.id && !files[j].is_deleted && !met(
                        d,
                        files[j].rel_path,
                    );
                if j < i {
                    assert(files[j].id < files[i].id);
                } else if i < j {
                    assert(files[i].id < files[j].id);
                }
            }
        }
        assert forall|k: int| 0 <= k < pairs.len() && (#[trigger] pairs[k]).0 == r.id implies is_pair_of(
            pairs,
            r.id,
            k,
        ) by {}
        if lost {
            if moved_to(pairs, r.id) is Some {
                assert(!ids.contains(r.id));
            } else {
                assert(ids.contains(r.id));
            }
        } else {
            assert(!ids.contains(r.id));
            assert forall|k: int| 0 <= k < pairs.len() implies (#[trigger] pairs[k]).0 != r.id by {
                assert(ids_of(m).contains(pairs[k].0));
            }
        }
    }
    assert forall|q: int| 0 <= q < rows.len() implies #[trigger] all[files.len() + q] == rows[q] by {
        assert(s[files.len() + q] == rows[q]);
        if ids.contains(rows[q].id) {
            assert(ids_of(m).contains(rows[q].id));
            let i = choose|i: int|
                0 <= i < files.len() && (#[trigger] files[i]).id == rows[q].id && !files[i].is_deleted && !met(
                    d,
                    files[i].rel_path,
                );
            if i < files.len() - 1 {
                assert(files[i].id < files[files.len() - 1].id);
            }
        }
    }
    let want = scanned(files, d, hs, now);
    assert forall|i: int| 0 <= i < want.len() implies all[i] == want[i] by {
        if i >= files.len() {
            let q = i - files.len();
            assert(all[files.len() + q] == rows[q]);
        }
    }
    assert(all =~= want);
}

impl Scan {
    /// Which files the pairs reach.
    fn reached(pairs: &Vec<(i64, usize)>, n: usize) -> (r: Vec<bool>)
        requires
            forall|k: int| 0 <= k < pairs@.len() ==> (#[trigger] pairs@[k]).1 < n,
        ensures
            r@.len() == n,
            forall|i: int| 0 <= i < n ==> (#[trigger] r@[i] <==> file_matched(id_pairs(pairs@), i)),
    {
        let ghost ps = id_pairs(pairs@);
        let mut taken: Vec<bool> = Vec::new();
        let mut i: usize = 0;
        while i < n
            invariant
                i <= n,
                taken@ =~= Seq::new(i as nat, |k: int| false),
            decreases n - i,
        {
            taken.push(false);
            i += 1;
        }
        let mut k: usize = 0;
        while k < pairs.len()
            invariant
                k <= pairs@.len(),
                taken@.len() == n,
                ps == id_pairs(pairs@),
                forall|k: int| 0 <= k < pairs@.len() ==> (#[trigger] pairs@[k]).1 < n,
                forall|i: int|
                    0 <= i < n ==> (#[trigger] taken@[i] <==> exists|q: int| 0 <= q < k && (#[trigger] ps[q]).1 == i),
            decreases pairs.len() - k,
        {
            let at: usize = pairs[k].1;
            let ghost before = taken@;
            taken.set(at, true);
            proof {
                assert(ps[k as int].1 == at);
                assert forall|i: int| 0 <= i < n implies (#[trigger] taken@[i] <==> exists|q: int|
                    0 <= q < k + 1 && (#[trigger] ps[q]).1 == i) by {
                    if before[i] {
                        let q = choose|q: int| 0 <= q < k && (#[trigger] ps[q]).1 == i;
                        assert(ps[q].1 == i);
                    }
                }
            }
            k += 1;
        }
        taken
    }

    /// The positions of the files that are not taken.
    fn untaken(taken: &Vec<bool>, Ghost(f): Ghost<Seq<DiskRec>>, Ghost(pairs): Ghost<Seq<(i64, int)>>) -> (r: Vec<usize>)
        requires
            taken@.len() == f.len(),
            forall|i: int| 0 <= i < f.len() ==> (#[trigger] taken@[i] <==> file_matched(pairs, i)),
        ensures
            forall|a: int, b: int| 0 <= a < b < r@.len() ==> (#[trigger] r@[a]) < (#[trigger] r@[b]),
            forall|a: int| 0 <= a < r@.len() ==> (#[trigger] r@[a]) < f.len() && !file_matched(pairs, r@[a] as int),
            r@.map_values(|j: usize| f[j as int]) == left_over(f, pairs, f.len() as int),
    {
        let mut out: Vec<usize> = Vec::new();
        let mut i: usize = 0;
        assert(out@.map_values(|j: usize| f[j as int]) =~= left_over(f, pairs, 0));
        while i < taken.len()
            invariant
                i <= taken@.len(),
                taken@.len() == f.len(),
                forall|i: int| 0 <= i < f.len() ==> (#[trigger] taken@[i] <==> file_matched(pairs, i)),
                forall|a: int, b: int| 0 <= a < b < out@.len() ==> (#[trigger] out@[a]) < (#[trigger] out@[b]),
                forall|a: int| 0 <= a < out@.len() ==> (#[trigger] out@[a]) < i && !file_matched(pairs, out@[a] as int),
                out@.map_values(|j: usize| f[j as int]) == left_over(f, pairs, i as int),
            decreases taken.len() - i,
        {
            if !taken[i] {
                let ghost out0 = out@;
                out.push(i);
                assert(out@.map_values(|j: usize| f[j as int]) =~= out0.map_values(|j: usize| f[j as int]).push(
                    f[i as int],
                ));
            }
            i += 1;
        }
        out
    }

    /// Those of the ids that are in none of the pairs.
    fn unpaired(ids: &Vec<i64>, pairs: &Vec<(i64, usize)>) -> (r: Vec<i64>)
        ensures
            r@ == ids@.filter(|id: i64| moved_to(id_pairs(pairs@), id) is None),
    {
        let ghost ps = id_pairs(pairs@);
        let ghost keep = |id: i64| moved_to(ps, id) is None;
        let mut out: Vec<i64> = Vec::new();
        let mut i: usize = 0;
        proof {
            reveal(Seq::filter);
            assert(out@ =~= ids@.take(0).filter(keep));
        }
        while i < ids.len()
            invariant
                i <= ids@.len(),
                ps == id_pairs(pairs@),
                keep == (|id: i64| moved_to(ps, id) is None),
                out@ == ids@.take(i as int).filter(keep),
            decreases ids.len() - i,
        {
            let id: i64 = ids[i];
            let mut hit = false;
            let mut k: usize = 0;
            while k < pairs.len() && !hit
                invariant
                    k <= pairs@.len(),
                    ps == id_pairs(pairs@),
                    hit ==> exists|q: int| is_pair_of(ps, id, q),
                    !hit ==> forall|q: int| 0 <= q < k ==> !is_pair_of(ps, id, q),
                decreases pairs.len() - k,
            {
                assert(ps[k as int].0 == pairs@[k as int].0);
                if pairs[k].0 == id {
                    assert(is_pair_of(ps, id, k as int));
                    hit = true;
                }
                k += 1;
            }
            proof {
                lemma_filter_step(ids@, i as int, keep);
            }
            if !hit {
                out.push(id);
            }
            i += 1;
        }
        assert(ids@.take(i as int) =~= ids@);
        out
    }

    /// Ends a scan: brings the index up to date.
    ///
    /// The scan has to belong to the index as it is, and every hash that it asked
    /// for has to be supplied.
    pub fn finish(self, now: i64, db: &mut Db) -> (r: Result<ScanStats, DbError>)
        requires
            old(db).wf(),
            self.wf(),
            self.index() == old(db)@.files,
            self.matching().done() == self.matching().file_recs().len(),
        ensures
            final(db).wf(),
            ({
                let files = old(db)@.files;
                let d = self.disk();
                let hs = known(self.matching().answers());
                let fits = next_file_id(files) + added(files, d, hs).len() <= i64::MAX + 1;
                match r {
                    Ok(s) => fits && counts(s, files, d, hs) && final(db)@ == (Tables {
                        files: scanned(files, d, hs, now),
                        ..old(db)@
                    }),
                    Err(e) => !fits && e == DbError::IdsExhausted && final(db)@ == old(db)@,
                }
            }),
    {
        let ghost before = db@;
        let ghost all = db@.files;
        let ghost d = self.disk();
        let ghost hs = known(self.matching().answers());
        let ghost m = missing(all, d);
        let ghost f = appeared(all, d);
        let ghost ps = renames(all, d, hs);
        let ghost t = changes(all, d, d.len() as int);
        let Scan { touches, seen, missing_ids, matching, index, disk } = self;
        let (pairs, files) = matching.finish();
        proof {
            lemma_missing(all, d);
            lemma_apart(m, f, hs);
            lemma_appeared(all, d);
            assert(id_pairs(pairs@) == ps);
            assert(disk_recs(files@) == f);
            assert(files@.len() == f.len());
            assert forall|k: int| 0 <= k < pairs@.len() implies (#[trigger] pairs@[k]).1 < files@.len() by {
                assert(ps[k].1 == pairs@[k].1);
            }
        }
        let n: usize = files.len();
        let taken = Self::reached(&pairs, n);
        let left = Self::untaken(&taken, Ghost(f), Ghost(ps));
        let lost = Self::unpaired(&missing_ids, &pairs);
        let ghost new = left@.map_values(|j: usize| f[j as int]);
        assert(new == added(all, d, hs));
        assert(new.len() == left@.len());
        if left.len() as u64 > db.ids_left() {
            return Err(DbError::IdsExhausted);
        }
        let mut k: usize = 0;
        assert(touched_all(all, t, 0) =~= all);
        while k < touches.len()
            invariant
                k <= touches@.len(),
                touches@ == t,
                db.wf(),
                db@ == (Tables { files: touched_all(all, t, k as int), ..before }),
            decreases touches.len() - k,
        {
            let c = touches[k];
            db.touch_file(c.0, c.1, c.2);
            proof {
                lemma_touched_step(all, t, k as int);
            }
            k += 1;
        }
        let ghost first = touched_all(all, t, t.len() as int);
        let mut moves: Vec<RenameFile> = Vec::new();
        let mut i: usize = 0;
        while i < pairs.len()
            invariant
                i <= pairs@.len(),
                id_pairs(pairs@) == ps,
                disk_recs(files@) == f,
                files@.len() == f.len(),
                forall|k: int| 0 <= k < pairs@.len() ==> (#[trigger] pairs@[k]).1 < files@.len(),
                moves@.len() == i,
                forall|k: int| 0 <= k < i ==> (#[trigger] moves@[k])@ == rename_of(ps[k].0, f[ps[k].1]),
            decreases pairs.len() - i,
        {
            let p = pairs[i];
            assert(ps[i as int] == (p.0, p.1 as int));
            let x = &files[p.1];
            assert(f[p.1 as int] == x@);
            moves.push(
                RenameFile {
                    id: p.0,
                    rel_path: x.rel.as_str(),
                    name: x.name.as_str(),
                    ext: x.ext.as_str(),
                    media_type: x.media_type,
                    size: x.size,
                    mtime: x.mtime,
                },
            );
            i += 1;
        }
        let ghost recs = moves_of(ps, f);
        let ghost kept = first.map_values(|r: FileRec| moved_by(r, recs, recs.len() as int));
        proof {
            assert(rename_recs(moves@) =~= recs);
            assert(free_paths(first, f)) by {
                assert forall|j: int| 0 <= j < f.len() implies !path_live(first, (#[trigger] f[j]).rel) by {
                    assert(!path_live(all, f[j].rel));
                    assert forall|i: int| 0 <= i < first.len() && !(#[trigger] first[i]).is_deleted implies first[i].rel_path
                        != f[j].rel by {
                        lemma_touched(all, d, d.len() as int, i);
                        assert(!all[i].is_deleted);
                    }
                }
            }
            lemma_moves(first, f, ps, ps.len() as int);
        }
        match db.apply_renames(&moves) {
            Ok(()) => {},
            Err(e) => {
                return Err(e);
            },
        }
        proof {
            assert(db@ == (Tables { files: kept, ..before }));
            assert forall|a: int| 0 <= a < left@.len() implies !path_live(kept, f[(#[trigger] left@[a]) as int].rel) by {
                assert(!file_matched(ps, left@[a] as int));
                assert forall|k: int| 0 <= k < ps.len() implies (#[trigger] ps[k]).1 != left@[a] by {}
                lemma_still_free(first, f, ps, ps.len() as int, left@[a] as int);
            }
            if all.len() > 0 {
                lemma_touched(all, d, d.len() as int, all.len() - 1);
                lemma_moved_by(first[all.len() - 1], ps, f, ps.len() as int);
            }
            assert(with_new(all, kept, new, now, 0) =~= kept);
        }
        let mut j: usize = 0;
        while j < left.len()
            invariant
                j <= left@.len(),
                db.wf(),
                db@ == (Tables { files: with_new(all, kept, new, now, j as int), ..before }),
                kept.len() == all.len(),
                all.len() > 0 ==> kept.last().id == all.last().id,
                rels_differ(f),
                disk_recs(files@) == f,
                files@.len() == f.len(),
                new == left@.map_values(|j: usize| f[j as int]),
                next_file_id(all) + left@.len() <= i64::MAX + 1,
                forall|a: int, b: int| 0 <= a < b < left@.len() ==> (#[trigger] left@[a]) < (#[trigger] left@[b]),
                forall|a: int| 0 <= a < left@.len() ==> (#[trigger] left@[a]) < f.len(),
                forall|a: int| 0 <= a < left@.len() ==> !path_live(kept, f[(#[trigger] left@[a]) as int].rel),
            decreases left.len() - j,
        {
            proof {
                lemma_insert_next(all, kept, f, left@, now, j as int);
            }
            let x = &files[left[j]];
            assert(x@ == new[j as int]);
            let nf = NewFile {
                rel_path: x.rel.as_str(),
                name: x.name.as_str(),
                ext: x.ext.as_str(),
                media_type: x.media_type,
                size: x.size,
                mtime: x.mtime,
                added_at: now,
            };
            let ghost s = db@.files;
            assert(nf.row(next_file_id(s) as i64) =~= new_row(new[j as int], next_file_id(s) as i64, now));
            match db.insert_file(&nf) {
                Ok(id) => {},
                Err(e) => {
                    return Err(e);
                },
            }
            j += 1;
        }
        db.mark_deleted(&lost);
        proof {
            lemma_scanned(all, d, hs, now, lost@);
            lemma_changes_count(all, d, d.len() as int);
            assert(d.take(d.len() as int) =~= d);
        }
        Ok(
            ScanStats {
                added: left.len(),
                updated: touches.len(),
                renamed: pairs.len(),
                deleted: lost.len(),
                seen,
            },
        )
    }
}

/// For each of the files, the hash of the entry that it comes from.
pub open spec fn hashes_of(f: Seq<DiskRec>, hs: Seq<Option<u64>>) -> Seq<Option<u64>> {
    f.map_values(|x: DiskRec| hs[x.source as int])
}

impl Scan {
    /// The entry of the walk whose content has to be read next, if there is one.
    pub fn next_to_hash(&mut self) -> (r: Option<usize>)
        requires
            old(self).wf(),
        ensures
            final(self).wf(),
            final(self).index() == old(self).index(),
            final(self).disk() == old(self).disk(),
            final(self).matching().answers() == old(self).matching().answers(),
            old(self).matching().done() <= final(self).matching().done(),
            match r {
                Some(at) => final(self).asking() && at == final(self).asked_file().source,
                None => final(self).matching().done() == final(self).matching().file_recs().len(),
            },
    {
        match self.matching.next_to_hash() {
            Some(fi) => Some(self.matching.source_of(fi)),
            None => None,
        }
    }

    /// The file whose hash the match waits for.
    pub open spec fn asked_file(&self) -> DiskRec {
        self.matching().file_recs()[self.matching().done()]
    }

    /// Whether the match waits for the hash of a file.
    pub open spec fn asking(&self) -> bool {
        &&& 0 <= self.matching().done() < self.matching().file_recs().len()
        &&& asks(
            self.matching().row_recs(),
            self.matching().file_recs(),
            self.matching().state(),
            self.matching().done(),
        )
    }

    /// Takes the hash of the entry that was asked for; `None` where it cannot be
    /// read.
    pub fn supply(&mut self, hash: Option<u64>)
        requires
            old(self).wf(),
            old(self).asking(),
        ensures
            final(self).wf(),
            final(self).index() == old(self).index(),
            final(self).disk() == old(self).disk(),
            final(self).matching().done() == old(self).matching().done() + 1,
            final(self).matching().answers() == old(self).matching().answers().update(
                old(self).matching().done(),
                Some(hash),
            ),
    {
        self.matching.supply(hash);
    }
}

proof fn lemma_sources(entries: Seq<DiskEntry>, n: int)
    requires
        0 <= n <= entries.len() <= usize::MAX,
    ensures
        forall|i: int| 0 <= i < found(entries, n).len() ==> (#[trigger] found(entries, n)[i]).source < entries.len(),
    decreases n,
{
    if n > 0 {
        lemma_sources(entries, n - 1);
    }
}

pub proof fn lemma_appeared_from(files: Seq<FileRec>, d: Seq<DiskRec>)
    ensures
        forall|j: int| 0 <= j < appeared(files, d).len() ==> d.contains(#[trigger] appeared(files, d)[j]),
        forall|x: DiskRec|
            d.contains(x) && !path_live(files, x.rel) ==> #[trigger] appeared(files, d).contains(x),
{
    let keep = |x: DiskRec| !path_live(files, x.rel);
    let n = d.filter(keep);
    lemma_filter_from(d, keep);
    let keys = n.map_values(|x: DiskRec| x.rel);
    let p = text_order(keys);
    lemma_text_order(keys);
    let f = appeared(files, d);
    assert forall|j: int| 0 <= j < f.len() implies d.contains(#[trigger] f[j]) by {
        assert(p.contains(p[j]));
        assert(n.contains(n[p[j]]));
    }
    assert forall|x: DiskRec| d.contains(x) && !path_live(files, x.rel) implies #[trigger] f.contains(x) by {
        assert(n.contains(x));
        let k = choose|k: int| 0 <= k < n.len() && n[k] == x;
        assert(p.contains(k));
        let j = choose|j: int| 0 <= j < p.len() && p[j] == k;
        assert(f[j] == x);
    }
}

/// A whole scan: holds the entries of a walk over the media folder against the
/// index and brings the index up to date. `hashes` holds for each entry the hash
/// of its content, `None` where it cannot be read; of those, only the ones that
/// the match asks for matter.
pub fn scan(entries: &Vec<DiskEntry>, hashes: &Vec<Option<u64>>, now: i64, db: &mut Db) -> (r: Result<
    ScanStats,
    DbError,
>)
    requires
        old(db).wf(),
        hashes@.len() == entries@.len(),
    ensures
        final(db).wf(),
        ({
            let files = old(db)@.files;
            let d = walked(entries@);
            let hs = hashes_of(appeared(files, d), hashes@);
            let fits = next_file_id(files) + added(files, d, hs).len() <= i64::MAX + 1;
            match r {
                Ok(s) => rels_differ(d) && fits && counts(s, files, d, hs) && final(db)@ == (Tables {
                    files: scanned(files, d, hs, now),
                    ..old(db)@
                }),
                Err(e) => final(db)@ == old(db)@ && e == if !rels_differ(d) {
                    DbError::Conflict
                } else {
                    DbError::IdsExhausted
                } && (!rels_differ(d) || !fits),
            }
        }),
{
    let ghost files = db@.files;
    let ghost d = walked(entries@);
    let ghost f = appeared(files, d);
    let ghost m = missing(files, d);
    let ghost hs = hashes_of(f, hashes@);
    let mut s = match Scan::begin(entries, db) {
        Ok(s) => s,
        Err(e) => {
            return Err(e);
        },
    };
    proof {
        s.lemma_recs();
        lemma_appeared_from(files, d);
        assert(entries.len() <= usize::MAX);
        lemma_sources(entries@, entries@.len() as int);
        assert forall|j: int| 0 <= j < f.len() implies (#[trigger] f[j]).source < entries@.len() by {
            assert(d.contains(f[j]));
        }
        s.matching().lemma_answers_start();
    }
    let mut asked = s.next_to_hash();
    while asked.is_some()
        invariant
            s.wf(),
            s.index() == files,
            s.disk() == d,
            s.matching().row_recs() == m,
            s.matching().file_recs() == f,
            s.matching().wf(),
            hashes@.len() == entries@.len(),
            hs == hashes_of(f, hashes@),
            forall|j: int| 0 <= j < f.len() ==> (#[trigger] f[j]).source < entries@.len(),
            forall|i: int|
                0 <= i < f.len() && (#[trigger] s.matching().answers()[i]) is Some ==> s.matching().answers()[i] == Some(
                    hs[i],
                ),
            match asked {
                Some(at) => s.asking() && at == f[s.matching().done()].source,
                None => s.matching().done() == f.len(),
            },
        decreases f.len() - s.matching().done(),
    {
        match asked {
            Some(at) => {
                let ghost before = s.matching().answers();
                let ghost fi = s.matching().done();
                assert(at == f[fi].source);
                assert(hs[fi] == hashes@[at as int]);
                s.supply(hashes[at]);
                assert forall|i: int| 0 <= i < f.len() && (#[trigger] s.matching().answers()[i]) is Some implies s.matching().answers()[i]
                    == Some(hs[i]) by {
                    if i != fi {
                        assert(s.matching().answers()[i] == before[i]);
                    }
                }
                proof {
                    s.lemma_recs();
                }
                asked = s.next_to_hash();
                proof {
                    s.lemma_recs();
                }
            },
            None => {},
        }
    }
    proof {
        let got = known(s.matching().answers());
        assert forall|i: int| 0 <= i < f.len() && asks(m, f, #[trigger] by_content(m, f, got, i), i) implies got[i]
            == hs[i] by {
            assert(s.matching().answers()[i] is Some);
        }
        law_only_asked_hashes_matter(m, f, got, hs);
        assert(renames(files, d, got) == renames(files, d, hs));
    }
    s.finish(now, db)
}

} // verus!
