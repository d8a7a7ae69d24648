//! The match of rows with files: which row a file gets where there are several.

use vstd::prelude::*;
use crate::names::parent;
use crate::scanner::laws::{file_paired, justified, law_match_is_justified, lemma_content_sound, lemma_looks_sound, lemma_names_sound, row_paired, same_content, sound};
use crate::scanner::rematch::{asks, by_content, by_looks, by_names, claimed, guess, hash_ranks, is_least, least, name_ranks, only_row, rematch, rival, row_alike, same_name, DiskRec, Matched, MissingRec};

verus! {

/// Whether a row and a file have one name, one extension and one size.
pub open spec fn called_alike(r: MissingRec, f: DiskRec) -> bool {
    r.name == f.name && r.ext == f.ext && r.size == f.size
}

/// Whether the file is not empty, and its content has the hash and the size of the row.
pub open spec fn filled_alike(r: MissingRec, f: DiskRec, h: Option<u64>) -> bool {
    h is Some && f.size != 0 && r.size == f.size && r.hash is Some && r.hash->0 == h->0 as i64
}

/// Whether a row and a file have one size, one extension and one time.
pub open spec fn looks_alike(r: MissingRec, f: DiskRec) -> bool {
    r.size == f.size && r.ext == f.ext && r.mtime == f.mtime
}

/// Whether a row may get a file though another one could: the other one is not of the
/// time of the file where the row is not, and has the larger id where neither or both are.
pub open spec fn may_go_by_time(row: MissingRec, other: MissingRec, f: DiskRec) -> bool {
    &&& other.mtime == f.mtime ==> row.mtime == f.mtime
    &&& (other.mtime == f.mtime <==> row.mtime == f.mtime) ==> row.id <= other.id
}

/// Whether a row may get a file of its name though another one could: the other one is
/// not from the folder of the file where the row is not, and time and id decide where
/// neither or both are.
pub open spec fn may_go_by_folder(row: MissingRec, other: MissingRec, f: DiskRec) -> bool {
    &&& other.parent == parent(f.rel) ==> row.parent == parent(f.rel)
    &&& (other.parent == parent(f.rel) <==> row.parent == parent(f.rel)) ==> may_go_by_time(row, other, f)
}

/// Whether the row of a pair may have gone to its file before another row that was free:
/// a name counts for more than a content, and a content for more than looks.
pub open spec fn goes_before(row: MissingRec, other: MissingRec, f: DiskRec, h: Option<u64>) -> bool {
    if called_alike(other, f) {
        called_alike(row, f) && may_go_by_folder(row, other, f)
    } else if filled_alike(other, f, h) {
        called_alike(row, f) || (filled_alike(row, f, h) && may_go_by_time(row, other, f))
    } else {
        true
    }
}

/// Whether the row of pair `k` went before all rows that were free when it was made.
pub open spec fn goes_first(
    m: Seq<MissingRec>,
    f: Seq<DiskRec>,
    hs: Seq<Option<u64>>,
    pairs: Seq<(int, int)>,
    k: int,
) -> bool {
    forall|i: int|
        0 <= i < m.len() && !#[trigger] row_paired(pairs, k, i) ==> goes_before(
            m[pairs[k].0],
            m[i],
            f[pairs[k].1],
            hs[pairs[k].1],
        )
}

proof fn lemma_claimed(
    m: Seq<MissingRec>,
    f: Seq<DiskRec>,
    hs: Seq<Option<u64>>,
    st: Matched,
    mi: int,
    fi: int,
)
    requires
        sound(m, f, hs, st),
        forall|k: int| 0 <= k < st.pairs.len() ==> #[trigger] goes_first(m, f, hs, st.pairs, k),
        forall|i: int| 0 <= i < m.len() && !#[trigger] st.rows[i] ==> goes_before(m[mi], m[i], f[fi], hs[fi]),
    ensures
        forall|k: int|
            0 <= k < claimed(st, Some(mi), fi).pairs.len() ==> #[trigger] goes_first(
                m,
                f,
                hs,
                claimed(st, Some(mi), fi).pairs,
                k,
            ),
{
    let now = claimed(st, Some(mi), fi).pairs;
    let n = st.pairs.len() as int;
    assert forall|k: int, i: int| 0 <= k <= n implies #[trigger] row_paired(now, k, i) == row_paired(st.pairs, k, i) by {
        if row_paired(now, k, i) {
            let l = choose|l: int| 0 <= l < k && (#[trigger] now[l]).0 == i;
            assert(st.pairs[l].0 == i);
        }
        if row_paired(st.pairs, k, i) {
            let l = choose|l: int| 0 <= l < k && (#[trigger] st.pairs[l]).0 == i;
            assert(now[l].0 == i);
        }
    }
    assert forall|k: int| 0 <= k < now.len() implies #[trigger] goes_first(m, f, hs, now, k) by {
        if k < n {
            assert(goes_first(m, f, hs, st.pairs, k));
            assert(now[k] == st.pairs[k]);
        } else {
            assert(now[n] == (mi, fi));
            assert forall|i: int| 0 <= i < m.len() && !#[trigger] row_paired(now, n, i) implies goes_before(
                m[mi],
                m[i],
                f[fi],
                hs[fi],
            ) by {
                assert(!st.rows[i]);
            }
        }
    }
}

proof fn lemma_by_names(m: Seq<MissingRec>, f: Seq<DiskRec>, hs: Seq<Option<u64>>, n: int)
    requires
        0 <= n <= f.len(),
    ensures
        forall|k: int|
            0 <= k < by_names(m, f, n).pairs.len() ==> #[trigger] goes_first(m, f, hs, by_names(m, f, n).pairs, k),
    decreases n,
{
    if n > 0 {
        lemma_by_names(m, f, hs, n - 1);
        lemma_names_sound(m, f, hs, n - 1);
        let st = by_names(m, f, n - 1);
        let ranks = name_ranks(m, f[n - 1], st.rows);
        if let Some(mi) = least(ranks) {
            assert(is_least(ranks, mi));
            assert(ranks[mi] is Some);
            assert forall|i: int| 0 <= i < m.len() && !#[trigger] st.rows[i] implies goes_before(
                m[mi],
                m[i],
                f[n - 1],
                hs[n - 1],
            ) by {
                if called_alike(m[i], f[n - 1]) {
                    assert(ranks[i] is Some);
                }
            }
            lemma_claimed(m, f, hs, st, mi, n - 1);
        }
    }
}

proof fn lemma_by_content(m: Seq<MissingRec>, f: Seq<DiskRec>, hs: Seq<Option<u64>>, n: int)
    requires
        0 <= n <= f.len(),
    ensures
        forall|k: int|
            0 <= k < by_content(m, f, hs, n).pairs.len() ==> #[trigger] goes_first(
                m,
                f,
                hs,
                by_content(m, f, hs, n).pairs,
                k,
            ),
    decreases n,
{
    if n > 0 {
        lemma_by_content(m, f, hs, n - 1);
        lemma_content_sound(m, f, hs, n - 1);
        let st = by_content(m, f, hs, n - 1);
        let fi = n - 1;
        if asks(m, f, st, fi) && hs[fi] is Some {
            let h = hs[fi]->0;
            let ranks = hash_ranks(m, f[fi], st.rows, h as i64);
            if let Some(mi) = least(ranks) {
                assert(is_least(ranks, mi));
                assert(ranks[mi] is Some);
                assert forall|i: int| 0 <= i < m.len() && !#[trigger] st.rows[i] implies goes_before(
                    m[mi],
                    m[i],
                    f[fi],
                    hs[fi],
                ) by {
                    assert(!same_name(m[i], f[fi]));
                    if filled_alike(m[i], f[fi], hs[fi]) {
                        assert(ranks[i] is Some);
                    }
                }
                lemma_claimed(m, f, hs, st, mi, fi);
            }
        }
    } else {
        lemma_by_names(m, f, hs, f.len() as int);
    }
}

proof fn lemma_by_looks(m: Seq<MissingRec>, f: Seq<DiskRec>, hs: Seq<Option<u64>>, n: int)
    requires
        0 <= n <= f.len(),
    ensures
        forall|k: int|
            0 <= k < by_looks(m, f, hs, n).pairs.len() ==> #[trigger] goes_first(
                m,
                f,
                hs,
                by_looks(m, f, hs, n).pairs,
                k,
            ),
    decreases n,
{
    if n > 0 {
        lemma_by_looks(m, f, hs, n - 1);
        lemma_looks_sound(m, f, hs, n - 1);
        let st = by_looks(m, f, hs, n - 1);
        let fi = n - 1;
        if let Some(mi) = guess(m, f, st, fi) {
            assert forall|i: int| 0 <= i < m.len() && !#[trigger] st.rows[i] implies goes_before(
                m[mi],
                m[i],
                f[fi],
                hs[fi],
            ) by {
                assert(!same_name(m[i], f[fi]));
                assert(!same_content(m[i], f[fi], hs[fi]));
            }
            lemma_claimed(m, f, hs, st, mi, fi);
        }
    } else {
        lemma_by_content(m, f, hs, f.len() as int);
    }
}

/// Of several rows that a file could belong to it gets the one that fits best: one of its
/// name before one of its content, and that before one that only looks like it. Of those
/// of its name one from its folder comes first; next one of its time; last the one with
/// the smallest id.
pub proof fn law_best_row_goes_first(m: Seq<MissingRec>, f: Seq<DiskRec>, hs: Seq<Option<u64>>, k: int)
    requires
        0 <= k < rematch(m, f, hs).len(),
    ensures
        goes_first(m, f, hs, rematch(m, f, hs), k),
{
    lemma_by_looks(m, f, hs, f.len() as int);
}

/// Looks alone bring a row and a file together only where nothing is known of the content,
/// and where no other row and no other file of these looks was left.
pub proof fn law_looks_must_be_unmistakable(m: Seq<MissingRec>, f: Seq<DiskRec>, hs: Seq<Option<u64>>, k: int)
    requires
        0 <= k < rematch(m, f, hs).len(),
    ensures
        ({
            let pairs = rematch(m, f, hs);
            let row = m[pairs[k].0];
            let file = f[pairs[k].1];
            !called_alike(row, file) && !filled_alike(row, file, hs[pairs[k].1]) ==> {
                &&& row.hash is None && looks_alike(row, file) && file.size != 0
                &&& forall|i: int|
                    0 <= i < m.len() && i != pairs[k].0 && looks_alike(#[trigger] m[i], file) ==> row_paired(pairs, k, i)
                &&& forall|j: int|
                    0 <= j < f.len() && j != pairs[k].1 && (#[trigger] f[j]).size == file.size && f[j].ext == file.ext
                        && f[j].mtime == file.mtime ==> file_paired(pairs, k, j)
            }
        }),
{
    law_match_is_justified(m, f, hs);
    assert(justified(m, f, hs, rematch(m, f, hs), k));
}

/// Whether another row than `i` is free and looks like a file.
pub open spec fn other_row(m: Seq<MissingRec>, f: DiskRec, rows: Seq<bool>, i: int, x: int) -> bool {
    0 <= x < m.len() && x != i && !rows[x] && looks_alike(m[x], f)
}

/// Whether another file than `j` is free and looks like it.
pub open spec fn other_file(f: Seq<DiskRec>, files: Seq<bool>, j: int, y: int) -> bool {
    0 <= y < f.len() && y != j && !files[y] && f[y].size == f[j].size && f[y].ext == f[j].ext && f[y].mtime
        == f[j].mtime
}

proof fn lemma_looks_left(m: Seq<MissingRec>, f: Seq<DiskRec>, hs: Seq<Option<u64>>, n: int, i: int, j: int)
    requires
        0 <= n <= f.len(),
        0 <= i < m.len(),
        0 <= j < n,
        looks_alike(m[i], f[j]),
        m[i].hash is None,
        f[j].size != 0,
        !by_looks(m, f, hs, n).rows[i],
        !by_looks(m, f, hs, n).files[j],
    ensures
        (exists|x: int| #[trigger] other_row(m, f[j], by_looks(m, f, hs, n).rows, i, x)) || (exists|y: int| #[trigger]
            other_file(f, by_looks(m, f, hs, n).files, j, y)),
    decreases n,
{
    lemma_looks_sound(m, f, hs, n - 1);
    let st = by_looks(m, f, hs, n - 1);
    let now = by_looks(m, f, hs, n);
    let fi = n - 1;
    let pick = guess(m, f, st, fi);
    if pick is Some {
        let mi = pick->0;
        assert(only_row(m, f[fi], st.rows, mi));
        assert(row_alike(m, f[fi], st.rows, mi));
        assert(0 <= mi < m.len());
    }
    assert(!st.rows[i]);
    assert(!st.files[j]);
    if j < fi {
        lemma_looks_left(m, f, hs, n - 1, i, j);
        if exists|x: int| #[trigger] other_row(m, f[j], st.rows, i, x) {
            let x = choose|x: int| #[trigger] other_row(m, f[j], st.rows, i, x);
            if pick == Some(x) {
                assert(rival(f, st.files, fi, j));
            }
            assert(other_row(m, f[j], now.rows, i, x));
        } else {
            let y = choose|y: int| #[trigger] other_file(f, st.files, j, y);
            if pick is Some && y == fi {
                assert(rival(f, st.files, fi, j));
            }
            assert(other_file(f, now.files, j, y));
        }
    } else {
        assert(pick is None);
        assert(row_alike(m, f[j], st.rows, i));
        if exists|x: int| only_row(m, f[j], st.rows, x) {
            let x = choose|x: int| only_row(m, f[j], st.rows, x);
            assert(x == i);
            assert(exists|y: int| rival(f, st.files, fi, y));
            let y = choose|y: int| rival(f, st.files, fi, y);
            assert(other_file(f, now.files, j, y));
        } else {
            assert(!only_row(m, f[j], st.rows, i));
            let x = choose|x: int| #[trigger] row_alike(m, f[j], st.rows, x) && x != i;
            assert(other_row(m, f[j], now.rows, i, x));
        }
    }
}

/// A row without a hash and a file that look alike are both left over only where another
/// row or another file of these looks is left over with them.
pub proof fn law_looks_decide_where_nothing_else_does(
    m: Seq<MissingRec>,
    f: Seq<DiskRec>,
    hs: Seq<Option<u64>>,
    i: int,
    j: int,
)
    requires
        0 <= i < m.len(),
        0 <= j < f.len(),
        looks_alike(m[i], f[j]),
        m[i].hash is None,
        f[j].size != 0,
    ensures
        ({
            let pairs = rematch(m, f, hs);
            let n = pairs.len() as int;
            ||| row_paired(pairs, n, i)
            ||| file_paired(pairs, n, j)
            ||| exists|x: int|
                0 <= x < m.len() && x != i && looks_alike(#[trigger] m[x], f[j]) && !row_paired(pairs, n, x)
            ||| exists|y: int|
                0 <= y < f.len() && y != j && (#[trigger] f[y]).size == f[j].size && f[y].ext == f[j].ext && f[y].mtime
                    == f[j].mtime && !file_paired(pairs, n, y)
        }),
{
    let st = by_looks(m, f, hs, f.len() as int);
    lemma_looks_sound(m, f, hs, f.len() as int);
    if !st.rows[i] && !st.files[j] {
        lemma_looks_left(m, f, hs, f.len() as int, i, j);
        if exists|x: int| #[trigger] other_row(m, f[j], st.rows, i, x) {
            let x = choose|x: int| #[trigger] other_row(m, f[j], st.rows, i, x);
            assert(looks_alike(m[x], f[j]) && !row_paired(st.pairs, st.pairs.len() as int, x));
        } else {
            let y = choose|y: int| #[trigger] other_file(f, st.files, j, y);
            assert(f[y].size == f[j].size && !file_paired(st.pairs, st.pairs.len() as int, y));
        }
    }
}

} // verus!
