//! What holds of the index after every scan.

use vstd::prelude::*;
use super::apply::{added, fate, file_matched, is_pair_of, lemma_appeared, lemma_appeared_from, lemma_apart, lemma_met_as, lemma_missing, left_over, move_row, moved_to, new_rows, renames, scanned};
use super::laws::law_match_is_one_to_one;
use super::rematch::{rematch, DiskRec};
use super::{appeared, changed, ids_of, met, met_as, missing, rels_differ};
use crate::db::{file_ids_grow, live_paths_differ, next_file_id, path_live, FileRec};
use crate::seqs::lemma_filter_from;

verus! {

/// Whether the live rows are the files on disk: every file has its path, and
/// every live row has the size and the time of the file with its path.
pub open spec fn mirrors(files: Seq<FileRec>, d: Seq<DiskRec>) -> bool {
    &&& forall|j: int| 0 <= j < d.len() ==> path_live(files, (#[trigger] d[j]).rel)
    &&& forall|i: int|
        0 <= i < files.len() && !(#[trigger] files[i]).is_deleted ==> met(d, files[i].rel_path) && files[i].size
            == met_as(d, files[i].rel_path).size && files[i].mtime == met_as(d, files[i].rel_path).mtime
}

/// What is left over are files without a row that moves to them.
pub proof fn lemma_left_over(f: Seq<DiskRec>, pairs: Seq<(i64, int)>, n: int)
    requires
        0 <= n <= f.len(),
    ensures
        forall|j: int| 0 <= j < n && !#[trigger] file_matched(pairs, j) ==> left_over(f, pairs, n).contains(f[j]),
        forall|q: int|
            0 <= q < left_over(f, pairs, n).len() ==> f.contains(#[trigger] left_over(f, pairs, n)[q]),
    decreases n,
{
    if n > 0 {
        lemma_left_over(f, pairs, n - 1);
        let rest = left_over(f, pairs, n - 1);
        let now = left_over(f, pairs, n);
        assert forall|j: int| 0 <= j < n && !#[trigger] file_matched(pairs, j) implies now.contains(f[j]) by {
            if j < n - 1 {
                assert(rest.contains(f[j]));
                let q = choose|q: int| 0 <= q < rest.len() && rest[q] == f[j];
                assert(now[q] == f[j]);
            } else {
                assert(now[now.len() - 1] == f[j]);
            }
        }
        assert forall|q: int| 0 <= q < now.len() implies f.contains(#[trigger] now[q]) by {
            if q < rest.len() {
                assert(now[q] == rest[q]);
            } else {
                assert(f[n - 1] == now[q]);
            }
        }
    }
}

pub proof fn lemma_moved_to(pairs: Seq<(i64, int)>, id: i64)
    ensures
        moved_to(pairs, id) is Some <==> exists|k: int| is_pair_of(pairs, id, k),
        moved_to(pairs, id) is Some ==> exists|k: int|
            #[trigger] is_pair_of(pairs, id, k) && pairs[k].1 == moved_to(pairs, id)->0,
{
}

/// After a scan the live rows are the files on disk, with their sizes and times.
pub proof fn law_scan_mirrors_disk(files: Seq<FileRec>, d: Seq<DiskRec>, hs: Seq<Option<u64>>, now: i64)
    requires
        file_ids_grow(files),
        live_paths_differ(files),
        rels_differ(d),
    ensures
        mirrors(scanned(files, d, hs, now), d),
{
    let f = appeared(files, d);
    let m = missing(files, d);
    let pairs = renames(files, d, hs);
    let all = scanned(files, d, hs, now);
    let new = added(files, d, hs);
    let rows = new_rows(files, new, now);
    lemma_missing(files, d);
    lemma_apart(m, f, hs);
    lemma_appeared_from(files, d);
    lemma_left_over(f, pairs, f.len() as int);
    assert forall|i: int| 0 <= i < files.len() implies all[i] == fate(files[i], d, f, pairs) by {}
    assert forall|q: int| 0 <= q < rows.len() implies #[trigger] all[files.len() + q] == rows[q] by {}
    assert forall|i: int| 0 <= i < all.len() && !(#[trigger] all[i]).is_deleted implies met(d, all[i].rel_path)
        && all[i].size == met_as(d, all[i].rel_path).size && all[i].mtime == met_as(d, all[i].rel_path).mtime by {
        if i < files.len() {
            let r = files[i];
            if !met(d, r.rel_path) {
                lemma_moved_to(pairs, r.id);
                let k = choose|k: int| #[trigger]
                    is_pair_of(pairs, r.id, k) && pairs[k].1 == moved_to(pairs, r.id)->0;
                assert(d.contains(f[pairs[k].1]));
                let j = choose|j: int| 0 <= j < d.len() && d[j] == f[pairs[k].1];
                lemma_met_as(d, j);
            }
        } else {
            let q = i - files.len();
            assert(all[files.len() + q] == rows[q]);
            assert(f.contains(new[q]));
            let a = choose|a: int| 0 <= a < f.len() && f[a] == new[q];
            assert(d.contains(f[a]));
            let j = choose|j: int| 0 <= j < d.len() && d[j] == new[q];
            lemma_met_as(d, j);
        }
    }
    assert forall|j: int| 0 <= j < d.len() implies path_live(all, (#[trigger] d[j]).rel) by {
        let x = d[j];
        lemma_met_as(d, j);
        if path_live(files, x.rel) {
            let i = choose|i: int|
                0 <= i < files.len() && !(#[trigger] files[i]).is_deleted && files[i].rel_path == x.rel;
            assert(!all[i].is_deleted && all[i].rel_path == x.rel);
        } else {
            assert(d.contains(x));
            assert(f.contains(x));
            let a = choose|a: int| 0 <= a < f.len() && f[a] == x;
            if file_matched(pairs, a) {
                let k = choose|k: int| 0 <= k < pairs.len() && (#[trigger] pairs[k]).1 == a;
                let id = pairs[k].0;
                assert(ids_of(m).contains(id));
                let i = choose|i: int|
                    0 <= i < files.len() && (#[trigger] files[i]).id == id && !files[i].is_deleted && !met(
                        d,
                        files[i].rel_path,
                    );
                lemma_moved_to(pairs, id);
                assert(is_pair_of(pairs, id, k));
                let l = choose|l: int| #[trigger]
                    is_pair_of(pairs, id, l) && pairs[l].1 == moved_to(pairs, id)->0;
                assert(k == l);
                assert(all[i] == move_row(files[i], x));
                assert(!all[i].is_deleted && all[i].rel_path == x.rel);
            } else {
                assert(new.contains(x));
                let q = choose|q: int| 0 <= q < new.len() && new[q] == x;
                assert(all[files.len() + q] == rows[q]);
                assert(!all[files.len() + q].is_deleted && all[files.len() + q].rel_path == x.rel);
            }
        }
    }
}

/// A scan of a disk that the index mirrors changes nothing.
pub proof fn law_scan_of_mirror_is_idle(files: Seq<FileRec>, d: Seq<DiskRec>, hs: Seq<Option<u64>>, now: i64)
    requires
        file_ids_grow(files),
        live_paths_differ(files),
        rels_differ(d),
        mirrors(files, d),
    ensures
        scanned(files, d, hs, now) == files,
        renames(files, d, hs).len() == 0,
        added(files, d, hs).len() == 0,
        missing(files, d).len() == 0,
        forall|j: int| 0 <= j < d.len() ==> !changed(files, #[trigger] d[j]),
{
    let f = appeared(files, d);
    let m = missing(files, d);
    let pairs = renames(files, d, hs);
    lemma_missing(files, d);
    lemma_apart(m, f, hs);
    lemma_appeared_from(files, d);
    assert(f.len() == 0) by {
        if f.len() > 0 {
            assert(d.contains(f[0]));
            let keep = |x: DiskRec| !path_live(files, x.rel);
            lemma_filter_from(d, keep);
            lemma_appeared(files, d);
            let j = choose|j: int| 0 <= j < d.len() && d[j] == f[0];
            assert(path_live(files, d[j].rel));
            assert(!path_live(files, f[0].rel));
        }
    }
    assert(m.len() == 0) by {
        if m.len() > 0 {
            assert(ids_of(m)[0] == m[0].id);
            assert(ids_of(m).contains(m[0].id));
            let i = choose|i: int|
                0 <= i < files.len() && (#[trigger] files[i]).id == m[0].id && !files[i].is_deleted && !met(
                    d,
                    files[i].rel_path,
                );
            assert(met(d, files[i].rel_path));
        }
    }
    law_match_is_one_to_one(m, f, hs);
    assert(pairs.len() == 0) by {
        if pairs.len() > 0 {
            assert(0 <= rematch(m, f, hs)[0].0 < m.len());
        }
    }
    assert(added(files, d, hs).len() == 0);
    let all = scanned(files, d, hs, now);
    assert forall|i: int| 0 <= i < files.len() implies all[i] == files[i] by {
        assert(all[i] == fate(files[i], d, f, pairs));
        if !files[i].is_deleted {
            assert(met(d, files[i].rel_path));
        }
    }
    assert(all =~= files);
    assert forall|j: int| 0 <= j < d.len() implies !changed(files, #[trigger] d[j]) by {
        lemma_met_as(d, j);
    }
}

/// A scan takes no row out: the rows stand where they stood, with their ids, their
/// dates and their positions of playback, and what is deleted stays as it is.
pub proof fn law_scan_keeps_rows(
    files: Seq<FileRec>,
    d: Seq<DiskRec>,
    hs: Seq<Option<u64>>,
    now: i64,
    i: int,
)
    requires
        0 <= i < files.len(),
    ensures
        i < scanned(files, d, hs, now).len(),
        scanned(files, d, hs, now)[i].id == files[i].id,
        scanned(files, d, hs, now)[i].added_at == files[i].added_at,
        scanned(files, d, hs, now)[i].resume_ms == files[i].resume_ms,
        scanned(files, d, hs, now)[i].duration_ms == files[i].duration_ms,
        scanned(files, d, hs, now)[i].width == files[i].width,
        scanned(files, d, hs, now)[i].height == files[i].height,
        files[i].is_deleted ==> scanned(files, d, hs, now)[i] == files[i],
{
}

/// A row that moves with its file keeps its hash and its thumbnail; one whose
/// file is in its place, with its size and its time, stays as it is.
pub proof fn law_move_keeps_hash_and_thumbnail(
    files: Seq<FileRec>,
    d: Seq<DiskRec>,
    hs: Seq<Option<u64>>,
    now: i64,
    i: int,
)
    requires
        0 <= i < files.len(),
        !files[i].is_deleted,
    ensures
        !met(d, files[i].rel_path) ==> scanned(files, d, hs, now)[i].hash == files[i].hash && scanned(
            files,
            d,
            hs,
            now,
        )[i].thumb_state == files[i].thumb_state,
        met(d, files[i].rel_path) ==> scanned(files, d, hs, now)[i].rel_path == files[i].rel_path && (files[i].size
            == met_as(d, files[i].rel_path).size && files[i].mtime == met_as(d, files[i].rel_path).mtime ==> scanned(
            files,
            d,
            hs,
            now,
        )[i] == files[i]),
{
}

/// The files that are left over come in the order of the files, each once.
pub proof fn lemma_left_over_at(f: Seq<DiskRec>, pairs: Seq<(i64, int)>, n: int) -> (at: Seq<int>)
    requires
        0 <= n <= f.len(),
    ensures
        at.len() == left_over(f, pairs, n).len(),
        forall|q: int|
            0 <= q < at.len() ==> 0 <= (#[trigger] at[q]) < n && left_over(f, pairs, n)[q] == f[at[q]]
                && !file_matched(pairs, at[q]),
        forall|p: int, q: int| 0 <= p < q < at.len() ==> (#[trigger] at[p]) < (#[trigger] at[q]),
    decreases n,
{
    if n <= 0 {
        Seq::empty()
    } else {
        let rest = lemma_left_over_at(f, pairs, n - 1);
        if file_matched(pairs, n - 1) {
            rest
        } else {
            let at = rest.push(n - 1);
            assert forall|q: int| 0 <= q < at.len() implies 0 <= (#[trigger] at[q]) < n && left_over(f, pairs, n)[q]
                == f[at[q]] && !file_matched(pairs, at[q]) by {
                if q < rest.len() {
                    assert(at[q] == rest[q]);
                }
            }
            at
        }
    }
}

/// The rules of the table hold after a scan: the ids grow, and no two live rows
/// have one path.
pub proof fn law_scan_keeps_rules(files: Seq<FileRec>, d: Seq<DiskRec>, hs: Seq<Option<u64>>, now: i64)
    requires
        file_ids_grow(files),
        live_paths_differ(files),
        rels_differ(d),
        next_file_id(files) + added(files, d, hs).len() <= i64::MAX + 1,
    ensures
        file_ids_grow(scanned(files, d, hs, now)),
        live_paths_differ(scanned(files, d, hs, now)),
{
    let f = appeared(files, d);
    let m = missing(files, d);
    let pairs = renames(files, d, hs);
    let all = scanned(files, d, hs, now);
    let new = added(files, d, hs);
    let rows = new_rows(files, new, now);
    let n = files.len() as int;
    lemma_missing(files, d);
    lemma_apart(m, f, hs);
    lemma_appeared(files, d);
    let at = lemma_left_over_at(f, pairs, f.len() as int);
    assert forall|i: int| 0 <= i < n implies all[i] == fate(files[i], d, f, pairs) by {}
    assert forall|i: int| n <= i < all.len() implies #[trigger] all[i] == rows[i - n] by {}
    assert forall|i: int, j: int| 0 <= i < j < all.len() implies (#[trigger] all[i]).id < (#[trigger] all[j]).id by {
        if j < n {
            assert(files[i].id < files[j].id);
        } else if i < n {
            assert(files[i].id <= files.last().id) by {
                if i < n - 1 {
                    assert(files[i].id < files[n - 1].id);
                }
            }
            assert(all[j].id == next_file_id(files) + (j - n));
        } else {
            assert(all[i].id == next_file_id(files) + (i - n));
            assert(all[j].id == next_file_id(files) + (j - n));
        }
    }
    // Where the path of a live row comes from: its own place (-1), or a file.
    let src = |i: int|
        if i >= n {
            at[i - n]
        } else if met(d, files[i].rel_path) {
            -1
        } else {
            moved_to(pairs, files[i].id)->0
        };
    assert forall|i: int| 0 <= i < all.len() && !(#[trigger] all[i]).is_deleted implies (src(i) < 0 && i < n
        && !files[i].is_deleted && all[i].rel_path == files[i].rel_path) || (0 <= src(i) < f.len() && all[i].rel_path
        == f[src(i)].rel) by {
        if i < n {
            if !met(d, files[i].rel_path) {
                lemma_moved_to(pairs, files[i].id);
                let k = choose|k: int| #[trigger]
                    is_pair_of(pairs, files[i].id, k) && pairs[k].1 == moved_to(pairs, files[i].id)->0;
                assert(0 <= pairs[k].1 < f.len());
            }
        } else {
            assert(new[i - n] == f[at[i - n]]);
        }
    }
    assert forall|i: int, j: int|
        0 <= i < j < all.len() && !(#[trigger] all[i]).is_deleted && !(#[trigger] all[j]).is_deleted implies all[i].rel_path
        != all[j].rel_path by {
        let a = src(i);
        let b = src(j);
        let lt = |x: DiskRec, y: DiskRec| x.rel != y.rel;
        if a < 0 && b < 0 {
            assert(files[i].rel_path != files[j].rel_path);
        } else if a < 0 {
            assert(!path_live(files, f[b].rel));
            assert(!files[i].is_deleted);
        } else if b < 0 {
            assert(!path_live(files, f[a].rel));
            assert(!files[j].is_deleted);
        } else {
            assert(a != b) by {
                if i >= n {
                    assert(at[i - n] < at[j - n]);
                } else {
                    lemma_moved_to(pairs, files[i].id);
                    let k = choose|k: int| #[trigger]
                        is_pair_of(pairs, files[i].id, k) && pairs[k].1 == a;
                    if j >= n {
                        assert(!file_matched(pairs, at[j - n]));
                        assert(pairs[k].1 == a);
                    } else {
                        lemma_moved_to(pairs, files[j].id);
                        let l = choose|l: int| #[trigger]
                            is_pair_of(pairs, files[j].id, l) && pairs[l].1 == b;
                        assert(files[i].id < files[j].id);
                        if k < l {
                            assert(pairs[k].1 != pairs[l].1);
                        } else {
                            assert(pairs[l].1 != pairs[k].1);
                        }
                    }
                }
            }
            if a < b {
                assert(lt(f[a], f[b]));
            } else {
                assert(lt(f[b], f[a]));
            }
        }
    }
}

/// A second scan of the same disk changes nothing.
pub proof fn law_second_scan_is_idle(
    files: Seq<FileRec>,
    d: Seq<DiskRec>,
    hs: Seq<Option<u64>>,
    now: i64,
    later_hs: Seq<Option<u64>>,
    later: i64,
)
    requires
        file_ids_grow(files),
        live_paths_differ(files),
        rels_differ(d),
        next_file_id(files) + added(files, d, hs).len() <= i64::MAX + 1,
    ensures
        scanned(scanned(files, d, hs, now), d, later_hs, later) == scanned(files, d, hs, now),
{
    law_scan_mirrors_disk(files, d, hs, now);
    law_scan_keeps_rules(files, d, hs, now);
    law_scan_of_mirror_is_idle(scanned(files, d, hs, now), d, later_hs, later);
}

} // verus!
