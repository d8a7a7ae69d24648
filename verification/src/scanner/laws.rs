//! What holds of every match of rows with files.

use vstd::prelude::*;
use super::rematch::{asks, by_content, by_looks, by_names, claimed, fits, guess, hash_fits, hash_ranks, is_least, least, look_alike, name_ranks, only_row, rematch, rival, row_alike, same_name, unmatched, DiskRec, Matched, MissingRec};

verus! {

/// Whether one of the first `n` pairs has the row.
pub open spec fn row_paired(pairs: Seq<(int, int)>, n: int, i: int) -> bool {
    exists|k: int| 0 <= k < n && (#[trigger] pairs[k]).0 == i
}

/// Whether one of the first `n` pairs has the file.
pub open spec fn file_paired(pairs: Seq<(int, int)>, n: int, j: int) -> bool {
    exists|k: int| 0 <= k < n && (#[trigger] pairs[k]).1 == j
}

/// Whether the content of the file has the hash of the row.
pub open spec fn same_content(r: MissingRec, f: DiskRec, h: Option<u64>) -> bool {
    h is Some && r.hash == Some(h->0 as i64) && r.size == f.size && f.size != 0
}

/// Whether the row looks like the file, and nothing could be known of its
/// content.
pub open spec fn same_looks(r: MissingRec, f: DiskRec) -> bool {
    r.hash is None && look_alike(r.size, r.ext, r.mtime, f) && f.size != 0
}

/// Whether, when pair `k` was made, its row and its file were the only free ones
/// of their looks.
pub open spec fn unmistakable(m: Seq<MissingRec>, f: Seq<DiskRec>, pairs: Seq<(int, int)>, k: int) -> bool {
    let file = f[pairs[k].1];
    &&& forall|i: int|
        0 <= i < m.len() && i != pairs[k].0 && look_alike((#[trigger] m[i]).size, m[i].ext, m[i].mtime, file)
            ==> row_paired(pairs, k, i)
    &&& forall|j: int|
        0 <= j < f.len() && j != pairs[k].1 && look_alike((#[trigger] f[j]).size, f[j].ext, f[j].mtime, file)
            ==> file_paired(pairs, k, j)
}

/// Why a row and a file belong together.
pub open spec fn justified(
    m: Seq<MissingRec>,
    f: Seq<DiskRec>,
    hs: Seq<Option<u64>>,
    pairs: Seq<(int, int)>,
    k: int,
) -> bool {
    let row = m[pairs[k].0];
    let file = f[pairs[k].1];
    ||| same_name(row, file)
    ||| same_content(row, file, hs[pairs[k].1])
    ||| (same_looks(row, file) && unmistakable(m, f, pairs, k))
}

/// Whether the pairs are one to one.
pub open spec fn one_to_one(pairs: Seq<(int, int)>) -> bool {
    forall|k: int, l: int|
        0 <= k < l < pairs.len() ==> (#[trigger] pairs[k]).0 != (#[trigger] pairs[l]).0 && pairs[k].1 != pairs[l].1
}

/// Whether a match is one to one, justified, and knows what is taken.
pub open spec fn sound(m: Seq<MissingRec>, f: Seq<DiskRec>, hs: Seq<Option<u64>>, st: Matched) -> bool {
    &&& fits(m, f, st)
    &&& one_to_one(st.pairs)
    &&& forall|i: int|
        0 <= i < m.len() ==> (#[trigger] st.rows[i] <==> row_paired(st.pairs, st.pairs.len() as int, i))
    &&& forall|j: int|
        0 <= j < f.len() ==> (#[trigger] st.files[j] <==> file_paired(st.pairs, st.pairs.len() as int, j))
    &&& forall|k: int| 0 <= k < st.pairs.len() ==> #[trigger] justified(m, f, hs, st.pairs, k)
}

proof fn lemma_claim_sound(
    m: Seq<MissingRec>,
    f: Seq<DiskRec>,
    hs: Seq<Option<u64>>,
    st: Matched,
    mi: int,
    fi: int,
)
    requires
        sound(m, f, hs, st),
        0 <= mi < m.len(),
        0 <= fi < f.len(),
        !st.rows[mi],
        !st.files[fi],
        same_name(m[mi], f[fi]) || same_content(m[mi], f[fi], hs[fi]) || (same_looks(m[mi], f[fi]) && only_row(
            m,
            f[fi],
            st.rows,
            mi,
        ) && !(exists|j: int| rival(f, st.files, fi, j))),
    ensures
        sound(m, f, hs, claimed(st, Some(mi), fi)),
{
    let now = claimed(st, Some(mi), fi);
    let n = st.pairs.len() as int;
    assert(now.pairs[n] == (mi, fi));
    assert forall|k: int| 0 <= k < n implies now.pairs[k] == st.pairs[k] by {}
    assert forall|k: int| 0 <= k < now.pairs.len() implies 0 <= (#[trigger] now.pairs[k]).0 < m.len() && 0
        <= now.pairs[k].1 < f.len() by {
        if k < n {
            assert(now.pairs[k] == st.pairs[k]);
        }
    }
    assert forall|x: int, k: int| 0 <= k <= n implies (#[trigger] row_paired(now.pairs, k, x) == row_paired(
        st.pairs,
        k,
        x,
    )) by {
        if row_paired(now.pairs, k, x) {
            let l = choose|l: int| 0 <= l < k && (#[trigger] now.pairs[l]).0 == x;
            assert(st.pairs[l].0 == x);
        }
        if row_paired(st.pairs, k, x) {
            let l = choose|l: int| 0 <= l < k && (#[trigger] st.pairs[l]).0 == x;
            assert(now.pairs[l].0 == x);
        }
    }
    assert forall|x: int, k: int| 0 <= k <= n implies (#[trigger] file_paired(now.pairs, k, x) == file_paired(
        st.pairs,
        k,
        x,
    )) by {
        if file_paired(now.pairs, k, x) {
            let l = choose|l: int| 0 <= l < k && (#[trigger] now.pairs[l]).1 == x;
            assert(st.pairs[l].1 == x);
        }
        if file_paired(st.pairs, k, x) {
            let l = choose|l: int| 0 <= l < k && (#[trigger] st.pairs[l]).1 == x;
            assert(now.pairs[l].1 == x);
        }
    }
    assert forall|i: int| 0 <= i < m.len() implies (#[trigger] now.rows[i] <==> row_paired(now.pairs, n + 1, i)) by {
        if row_paired(now.pairs, n + 1, i) {
            let l = choose|l: int| 0 <= l < n + 1 && (#[trigger] now.pairs[l]).0 == i;
            if l < n {
                assert(row_paired(now.pairs, n, i));
                assert(st.rows[i]);
            }
        }
        if now.rows[i] {
            if i == mi {
                assert(now.pairs[n].0 == i);
            } else {
                assert(st.rows[i]);
                assert(row_paired(now.pairs, n, i));
                let l = choose|l: int| 0 <= l < n && (#[trigger] now.pairs[l]).0 == i;
                assert(now.pairs[l].0 == i);
            }
        }
    }
    assert forall|j: int| 0 <= j < f.len() implies (#[trigger] now.files[j] <==> file_paired(now.pairs, n + 1, j)) by {
        if file_paired(now.pairs, n + 1, j) {
            let l = choose|l: int| 0 <= l < n + 1 && (#[trigger] now.pairs[l]).1 == j;
            if l < n {
                assert(file_paired(now.pairs, n, j));
                assert(st.files[j]);
            }
        }
        if now.files[j] {
            if j == fi {
                assert(now.pairs[n].1 == j);
            } else {
                assert(st.files[j]);
                assert(file_paired(now.pairs, n, j));
                let l = choose|l: int| 0 <= l < n && (#[trigger] now.pairs[l]).1 == j;
                assert(now.pairs[l].1 == j);
            }
        }
    }
    assert forall|k: int, l: int| 0 <= k < l < now.pairs.len() implies (#[trigger] now.pairs[k]).0 != (
    #[trigger] now.pairs[l]).0 && now.pairs[k].1 != now.pairs[l].1 by {
        assert(now.pairs[k] == st.pairs[k]);
        if l == n {
            if st.pairs[k].0 == mi {
                assert(row_paired(st.pairs, n, mi));
            }
            if st.pairs[k].1 == fi {
                assert(file_paired(st.pairs, n, fi));
            }
        } else {
            assert(now.pairs[l] == st.pairs[l]);
        }
    }
    assert forall|k: int| 0 <= k < now.pairs.len() implies #[trigger] justified(m, f, hs, now.pairs, k) by {
        if k < n {
            assert(justified(m, f, hs, st.pairs, k));
            assert(now.pairs[k] == st.pairs[k]);
        } else if same_name(m[mi], f[fi]) || same_content(m[mi], f[fi], hs[fi]) {
        } else {
            assert forall|i: int|
                0 <= i < m.len() && i != mi && look_alike((#[trigger] m[i]).size, m[i].ext, m[i].mtime, f[fi]) implies row_paired(
                now.pairs,
                n,
                i,
            ) by {
                assert(row_alike(m, f[fi], st.rows, i) ==> i == mi);
                assert(st.rows[i]);
            }
            assert forall|j: int|
                0 <= j < f.len() && j != fi && look_alike((#[trigger] f[j]).size, f[j].ext, f[j].mtime, f[fi]) implies file_paired(
                now.pairs,
                n,
                j,
            ) by {
                assert(!rival(f, st.files, fi, j));
                assert(st.files[j]);
            }
            assert(unmistakable(m, f, now.pairs, n));
        }
    }
}

/// What is matched by name is sound, and leaves no row and file of one name.
pub proof fn lemma_names_sound(m: Seq<MissingRec>, f: Seq<DiskRec>, hs: Seq<Option<u64>>, n: int)
    requires
        0 <= n <= f.len(),
    ensures
        sound(m, f, hs, by_names(m, f, n)),
        forall|j: int| n <= j < f.len() ==> !#[trigger] by_names(m, f, n).files[j],
        forall|i: int, j: int|
            0 <= i < m.len() && 0 <= j < n && #[trigger] same_name(m[i], f[j]) ==> by_names(m, f, n).rows[i]
                || by_names(m, f, n).files[j],
    decreases n,
{
    if n > 0 {
        lemma_names_sound(m, f, hs, n - 1);
        let st = by_names(m, f, n - 1);
        let ranks = name_ranks(m, f[n - 1], st.rows);
        let now = by_names(m, f, n);
        match least(ranks) {
            Some(mi) => {
                assert(is_least(ranks, mi));
                assert(ranks[mi] is Some);
                lemma_claim_sound(m, f, hs, st, mi, n - 1);
            },
            None => {
                lemma_least_exists(ranks);
                assert forall|i: int| 0 <= i < m.len() && #[trigger] same_name(m[i], f[n - 1]) implies st.rows[i] by {
                    assert(ranks[i] is None);
                }
            },
        }
    } else {
        assert(sound(m, f, hs, unmatched(m, f)));
    }
}

/// Where there is a rank, there is a least one.
proof fn lemma_least_exists(ranks: Seq<Option<(bool, bool, i64)>>)
    ensures
        least(ranks) is None ==> forall|j: int| 0 <= j < ranks.len() ==> (#[trigger] ranks[j]) is None,
    decreases ranks.len(),
{
    if ranks.len() > 0 {
        let n = ranks.len() - 1;
        let rest = ranks.drop_last();
        lemma_least_exists(rest);
        match least(rest) {
            None => {
                if ranks[n] is Some {
                    assert forall|j: int| 0 <= j < n implies (#[trigger] ranks[j]) is None by {
                        assert(rest[j] is None);
                    }
                    assert(is_least(ranks, n));
                } else {
                    assert forall|j: int| 0 <= j < ranks.len() implies (#[trigger] ranks[j]) is None by {
                        if j < n {
                            assert(rest[j] is None);
                        }
                    }
                }
            },
            Some(b) => {
                assert(is_least(rest, b));
                assert forall|j: int| 0 <= j < n implies ranks[j] == rest[j] by {}
                if ranks[n] is Some && super::rematch::rank_lt(ranks[n]->0, ranks[b]->0) {
                    assert(is_least(ranks, n));
                } else {
                    assert(is_least(ranks, b));
                }
            },
        }
    }
}

/// What is matched by content is sound, and leaves no row and file of one content.
pub proof fn lemma_content_sound(m: Seq<MissingRec>, f: Seq<DiskRec>, hs: Seq<Option<u64>>, n: int)
    requires
        0 <= n <= f.len(),
    ensures
        sound(m, f, hs, by_content(m, f, hs, n)),
        forall|i: int, j: int|
            0 <= i < m.len() && 0 <= j < f.len() && #[trigger] same_name(m[i], f[j]) ==> by_content(
                m,
                f,
                hs,
                n,
            ).rows[i] || by_content(m, f, hs, n).files[j],
        forall|i: int, j: int|
            0 <= i < m.len() && 0 <= j < n && #[trigger] same_content(m[i], f[j], hs[j]) ==> by_content(
                m,
                f,
                hs,
                n,
            ).rows[i] || by_content(m, f, hs, n).files[j],
    decreases n,
{
    if n > 0 {
        lemma_content_sound(m, f, hs, n - 1);
        let st = by_content(m, f, hs, n - 1);
        let fi = n - 1;
        if asks(m, f, st, fi) && hs[fi] is Some {
            let h = hs[fi]->0;
            let ranks = hash_ranks(m, f[fi], st.rows, h as i64);
            match least(ranks) {
                Some(mi) => {
                    assert(is_least(ranks, mi));
                    assert(ranks[mi] is Some);
                    assert(same_content(m[mi], f[fi], hs[fi]));
                    lemma_claim_sound(m, f, hs, st, mi, fi);
                },
                None => {
                    lemma_least_exists(ranks);
                    assert forall|i: int| 0 <= i < m.len() && #[trigger] same_content(m[i], f[fi], hs[fi]) implies st.rows[i] by {
                        assert(ranks[i] is None);
                    }
                },
            }
        } else {
            assert forall|i: int| 0 <= i < m.len() && #[trigger] same_content(m[i], f[fi], hs[fi]) implies st.rows[i]
                || st.files[fi] by {
                assert(hash_fits(m[i], f[fi]));
            }
        }
    } else {
        lemma_names_sound(m, f, hs, f.len() as int);
    }
}

/// What is matched by looks is sound.
pub proof fn lemma_looks_sound(m: Seq<MissingRec>, f: Seq<DiskRec>, hs: Seq<Option<u64>>, n: int)
    requires
        0 <= n <= f.len(),
    ensures
        sound(m, f, hs, by_looks(m, f, hs, n)),
        forall|i: int, j: int|
            0 <= i < m.len() && 0 <= j < f.len() && #[trigger] same_name(m[i], f[j]) ==> by_looks(
                m,
                f,
                hs,
                n,
            ).rows[i] || by_looks(m, f, hs, n).files[j],
        forall|i: int, j: int|
            0 <= i < m.len() && 0 <= j < f.len() && #[trigger] same_content(m[i], f[j], hs[j]) ==> by_looks(
                m,
                f,
                hs,
                n,
            ).rows[i] || by_looks(m, f, hs, n).files[j],
    decreases n,
{
    if n > 0 {
        lemma_looks_sound(m, f, hs, n - 1);
        let st = by_looks(m, f, hs, n - 1);
        match guess(m, f, st, n - 1) {
            Some(mi) => {
                assert(only_row(m, f[n - 1], st.rows, mi));
                assert(row_alike(m, f[n - 1], st.rows, mi));
                lemma_claim_sound(m, f, hs, st, mi, n - 1);
            },
            None => {},
        }
    } else {
        lemma_content_sound(m, f, hs, f.len() as int);
    }
}

/// No row gets two files, and no file gets two rows.
pub proof fn law_match_is_one_to_one(m: Seq<MissingRec>, f: Seq<DiskRec>, hs: Seq<Option<u64>>)
    ensures
        one_to_one(rematch(m, f, hs)),
        forall|k: int|
            0 <= k < rematch(m, f, hs).len() ==> 0 <= (#[trigger] rematch(m, f, hs)[k]).0 < m.len() && 0 <= rematch(
                m,
                f,
                hs,
            )[k].1 < f.len(),
{
    lemma_looks_sound(m, f, hs, f.len() as int);
}

/// A row and a file are matched only where they have one name, where the content
/// has the hash of the row, or where nothing is known of the content and both are
/// unmistakable by their looks.
pub proof fn law_match_is_justified(m: Seq<MissingRec>, f: Seq<DiskRec>, hs: Seq<Option<u64>>)
    ensures
        forall|k: int| 0 <= k < rematch(m, f, hs).len() ==> #[trigger] justified(m, f, hs, rematch(m, f, hs), k),
{
    lemma_looks_sound(m, f, hs, f.len() as int);
}

/// What is matched has one size. A row with a hash goes to a file of another
/// name only where the content of the file has that hash, and an empty file is
/// matched by its name or not at all.
pub proof fn law_match_keeps_content(m: Seq<MissingRec>, f: Seq<DiskRec>, hs: Seq<Option<u64>>, k: int)
    requires
        0 <= k < rematch(m, f, hs).len(),
    ensures
        ({
            let row = m[rematch(m, f, hs)[k].0];
            let file = f[rematch(m, f, hs)[k].1];
            let h = hs[rematch(m, f, hs)[k].1];
            &&& row.size == file.size
            &&& row.hash is Some && !same_name(row, file) ==> h is Some && row.hash == Some(h->0 as i64)
            &&& file.size == 0 ==> same_name(row, file)
        }),
{
    law_match_is_justified(m, f, hs);
    assert(justified(m, f, hs, rematch(m, f, hs), k));
}

/// A row and a file of one name, size and extension are never both left over:
/// where a folder is moved, its files keep their rows.
pub proof fn law_same_name_is_not_left_over(
    m: Seq<MissingRec>,
    f: Seq<DiskRec>,
    hs: Seq<Option<u64>>,
    i: int,
    j: int,
)
    requires
        0 <= i < m.len(),
        0 <= j < f.len(),
        same_name(m[i], f[j]),
    ensures
        row_paired(rematch(m, f, hs), rematch(m, f, hs).len() as int, i) || file_paired(
            rematch(m, f, hs),
            rematch(m, f, hs).len() as int,
            j,
        ),
{
    lemma_looks_sound(m, f, hs, f.len() as int);
    let st = by_looks(m, f, hs, f.len() as int);
    assert(st.rows[i] || st.files[j]);
}

/// A row and a file whose content has its hash are never both left over.
pub proof fn law_same_content_is_not_left_over(
    m: Seq<MissingRec>,
    f: Seq<DiskRec>,
    hs: Seq<Option<u64>>,
    i: int,
    j: int,
)
    requires
        0 <= i < m.len(),
        0 <= j < f.len(),
        same_content(m[i], f[j], hs[j]),
    ensures
        row_paired(rematch(m, f, hs), rematch(m, f, hs).len() as int, i) || file_paired(
            rematch(m, f, hs),
            rematch(m, f, hs).len() as int,
            j,
        ),
{
    lemma_looks_sound(m, f, hs, f.len() as int);
    let st = by_looks(m, f, hs, f.len() as int);
    assert(st.rows[i] || st.files[j]);
}

} // verus!
