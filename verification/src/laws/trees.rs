//! The tree: where its rows stand, what they show, and which of them can be seen.

use vstd::prelude::*;
use crate::db::query::GalleryRec;
use crate::names::{base_name, law_path_splits, parent};
use crate::order::{in_text_order, text_lt};
use crate::seqs::{lemma_filter_from, lemma_filter_increasing};
use crate::text::lemma_last_at;
use crate::tree::{descendants_of, file_node, file_nodes, files_in, folder_node, folder_rows, folders, ids_below, law_folder_stands_for_files_below, lemma_folders, lemma_ids_below, lemma_subfolder, longest, paths_ok, rows_below, subfolders, NodeRec};

verus! {

/// How many slashes a text holds.
pub open spec fn slashes(s: Seq<char>) -> int
    decreases s.len(),
{
    if s.len() == 0 {
        0
    } else if s.last() == '/' {
        slashes(s.drop_last()) + 1
    } else {
        slashes(s.drop_last())
    }
}

/// Whether a path lies below a folder: the folder, a slash, and something.
pub open spec fn under(path: Seq<char>, q: Seq<char>) -> bool {
    path.len() > q.len() && path.take(q.len() as int) == q && path[q.len() as int] == '/'
}

proof fn lemma_slashes(a: Seq<char>, b: Seq<char>)
    ensures
        slashes(a + b) == slashes(a) + slashes(b),
        !b.contains('/') ==> slashes(b) == 0,
    decreases b.len(),
{
    if b.len() > 0 {
        assert((a + b).last() == b.last());
        assert((a + b).drop_last() =~= a + b.drop_last());
        lemma_slashes(a, b.drop_last());
        if !b.contains('/') {
            assert(b.contains(b[b.len() - 1]));
            assert forall|i: int| 0 <= i < b.drop_last().len() implies b.drop_last()[i] != '/' by {
                assert(b.contains(b[i]));
            }
        }
    } else {
        assert(a + b =~= a);
    }
}

/// How deep what lies right in a folder stands.
spec fn level(p: Seq<char>) -> int {
    if p.len() == 0 {
        0
    } else {
        slashes(p) + 1
    }
}

proof fn lemma_level(path: Seq<char>)
    requires
        path.len() > 0 ==> path[0] != '/',
    ensures
        slashes(path) == level(parent(path)),
        parent(path).len() > 0 ==> under(path, parent(path)),
{
    law_path_splits(path);
    lemma_last_at(path, '/');
    let p = parent(path);
    let b = base_name(path);
    if crate::text::last_at(path, '/') >= 0 {
        lemma_slashes(p + seq!['/'], b);
        lemma_slashes(p, seq!['/']);
        let one = seq!['/'];
        assert(one.drop_last() =~= Seq::<char>::empty());
        assert(one.last() == '/');
        reveal_with_fuel(slashes, 2);
        assert(slashes(one) == 1);
        assert(path.take(p.len() as int) =~= p);
    } else {
        lemma_slashes(Seq::empty(), path);
    }
}

proof fn lemma_no_slash_first(files: Seq<GalleryRec>, p: Seq<char>, n: int)
    requires
        paths_ok(files),
        0 <= n < subfolders(files, p).len(),
    ensures
        subfolders(files, p)[n].len() > 0,
        subfolders(files, p)[n][0] != '/',
{
    lemma_subfolder(files, p, n);
    let q = subfolders(files, p)[n];
    let (i, k) = choose|i: int, k: int|
        0 <= i < files.len() && #[trigger] crate::tree::leads_through(files[i].rel_path, k, q);
    assert(q.len() == k);
    assert(q[0] == files[i].rel_path[0]);
}

/// What a row says by itself.
spec fn row_ok(files: Seq<GalleryRec>, expanded: Set<Seq<char>>, row: NodeRec) -> bool {
    &&& row.depth == slashes(row.path)
    &&& row.is_folder ==> row.label == base_name(row.path) && row.expanded == expanded.contains(row.path)
        && !row.is_video && crate::tree::is_folder(files, row.path) && row.descendants == descendants_of(files, row.path)
    &&& !row.is_folder ==> row.descendants.len() == 0
    &&& !row.is_folder ==> exists|i: int|
        0 <= i < files.len() && (#[trigger] files[i]).id == row.file_id && files[i].rel_path == row.path && files[i].name
            == row.label && files[i].is_video == row.is_video
}

proof fn lemma_file_rows_ok(
    files: Seq<GalleryRec>,
    p: Seq<char>,
    expanded: Set<Seq<char>>,
    selected: Set<i64>,
    k: int,
)
    requires
        paths_ok(files),
        0 <= k < file_nodes(files, p, level(p), selected).len(),
    ensures
        row_ok(files, expanded, file_nodes(files, p, level(p), selected)[k]),
{
    let f = files_in(files, p)[k];
    lemma_filter_from(files, |f: GalleryRec| parent(f.rel_path) == p);
    assert(files_in(files, p).contains(f));
    let i = choose|i: int| 0 <= i < files.len() && files[i] == f;
    assert(files[i].id == f.id);
    lemma_level(f.rel_path);
    assert(file_nodes(files, p, level(p), selected)[k] == file_node(f, level(p), selected));
}

proof fn lemma_folder_rows_ok(
    files: Seq<GalleryRec>,
    p: Seq<char>,
    n: int,
    expanded: Set<Seq<char>>,
    selected: Set<i64>,
    k: int,
)
    requires
        paths_ok(files),
        0 <= n <= subfolders(files, p).len(),
        0 <= k < folder_rows(files, p, n, level(p), expanded, selected).len(),
    ensures
        row_ok(files, expanded, folder_rows(files, p, n, level(p), expanded, selected)[k]),
    decreases longest(files) - p.len(), n,
{
    if n > 0 {
        let q = subfolders(files, p)[n - 1];
        lemma_subfolder(files, p, n - 1);
        lemma_no_slash_first(files, p, n - 1);
        lemma_level(q);
        let a = folder_rows(files, p, n - 1, level(p), expanded, selected);
        let all = folder_rows(files, p, n, level(p), expanded, selected);
        assert(level(q) == level(p) + 1);
        if k < a.len() {
            lemma_folder_rows_ok(files, p, n - 1, expanded, selected, k);
            assert(all[k] == a[k]);
        } else if k == a.len() {
            assert(all[k] == folder_node(files, q, level(p), expanded, selected));
        } else {
            let m = subfolders(files, q).len() as int;
            let b = folder_rows(files, q, m, level(q), expanded, selected);
            let j = k - a.len() - 1;
            if j < b.len() {
                lemma_folder_rows_ok(files, q, m, expanded, selected, j);
                assert(all[k] == b[j]);
            } else {
                lemma_file_rows_ok(files, q, expanded, selected, j - b.len());
                assert(all[k] == file_nodes(files, q, level(q), selected)[j - b.len()]);
            }
        }
    }
}

proof fn lemma_rows_ok(files: Seq<GalleryRec>, expanded: Set<Seq<char>>, selected: Set<i64>, k: int)
    requires
        paths_ok(files),
        0 <= k < rows_below(files, Seq::empty(), 0, expanded, selected).len(),
    ensures
        row_ok(files, expanded, rows_below(files, Seq::empty(), 0, expanded, selected)[k]),
{
    let top = Seq::<char>::empty();
    let n = subfolders(files, top).len() as int;
    let a = folder_rows(files, top, n, 0, expanded, selected);
    let all = rows_below(files, top, 0, expanded, selected);
    if k < a.len() {
        lemma_folder_rows_ok(files, top, n, expanded, selected, k);
        assert(all[k] == a[k]);
    } else {
        lemma_file_rows_ok(files, top, expanded, selected, k - a.len());
        assert(all[k] == file_nodes(files, top, 0, selected)[k - a.len()]);
    }
}

/// The depth of a row is the number of slashes in its path.
pub proof fn law_depth_counts_slashes(files: Seq<GalleryRec>, expanded: Set<Seq<char>>, selected: Set<i64>, k: int)
    requires
        paths_ok(files),
        0 <= k < rows_below(files, Seq::empty(), 0, expanded, selected).len(),
    ensures
        ({
            let row = rows_below(files, Seq::empty(), 0, expanded, selected)[k];
            row.depth == slashes(row.path)
        }),
{
    lemma_rows_ok(files, expanded, selected, k);
}

/// A row shows what it stands for: a folder the last part of its path, and whether it is
/// expanded; a file its name and its kind.
pub proof fn law_row_shows_its_file_or_folder(
    files: Seq<GalleryRec>,
    expanded: Set<Seq<char>>,
    selected: Set<i64>,
    k: int,
)
    requires
        paths_ok(files),
        0 <= k < rows_below(files, Seq::empty(), 0, expanded, selected).len(),
    ensures
        ({
            let row = rows_below(files, Seq::empty(), 0, expanded, selected)[k];
            &&& row.is_folder ==> !row.label.contains('/') && (row.path == row.label || exists|p: Seq<char>|
                row.path == #[trigger] (p + seq!['/'] + row.label))
            &&& row.is_folder ==> row.expanded == expanded.contains(row.path) && !row.is_video
            &&& row.is_folder ==> exists|i: int| 0 <= i < files.len() && under((#[trigger] files[i]).rel_path, row.path)
            &&& !row.is_folder ==> exists|i: int|
                0 <= i < files.len() && (#[trigger] files[i]).id == row.file_id && files[i].rel_path == row.path
                    && files[i].name == row.label && files[i].is_video == row.is_video
        }),
{
    lemma_rows_ok(files, expanded, selected, k);
    let row = rows_below(files, Seq::empty(), 0, expanded, selected)[k];
    law_path_splits(row.path);
    if row.is_folder {
        if crate::text::last_at(row.path, '/') >= 0 {
            assert(row.path == parent(row.path) + seq!['/'] + row.label);
        }
        let (i, j) = choose|i: int, j: int|
            0 <= i < files.len() && #[trigger] crate::tree::leads_through(files[i].rel_path, j, row.path);
        assert(row.path.len() == j);
        assert(under(files[i].rel_path, row.path));
    }
}

/// The row of a folder stands for the files below it, at whatever depth, and for no
/// others; the row of a file for the file alone.
pub proof fn law_folder_row_stands_for_files_below(
    files: Seq<GalleryRec>,
    expanded: Set<Seq<char>>,
    selected: Set<i64>,
    k: int,
    id: i64,
)
    requires
        paths_ok(files),
        0 <= k < rows_below(files, Seq::empty(), 0, expanded, selected).len(),
    ensures
        ({
            let row = rows_below(files, Seq::empty(), 0, expanded, selected)[k];
            &&& row.is_folder ==> (row.descendants.contains(id) <==> exists|i: int|
                0 <= i < files.len() && (#[trigger] files[i]).id == id && under(files[i].rel_path, row.path))
            &&& !row.is_folder ==> row.descendants.len() == 0
        }),
{
    lemma_rows_ok(files, expanded, selected, k);
    let row = rows_below(files, Seq::empty(), 0, expanded, selected)[k];
    if row.is_folder {
        law_folder_stands_for_files_below(files, row.path, id);
        let (i, j) = choose|i: int, j: int|
            0 <= i < files.len() && #[trigger] crate::tree::leads_through(files[i].rel_path, j, row.path);
        assert(j > 0);
        assert forall|i: int| 0 <= i < files.len() implies (crate::tree::is_below((#[trigger] files[i]).rel_path, row.path)
            <==> under(files[i].rel_path, row.path)) by {}
    }
}

// ---------------------------------------------------------------------------
// The order of the rows.

/// Whether a row shows a file.
pub open spec fn shows_file(a: NodeRec, f: GalleryRec) -> bool {
    !a.is_folder && a.file_id == f.id && a.path == f.rel_path
}

/// Whether the files of two rows stand in the list one before the other.
pub open spec fn listed_before(files: Seq<GalleryRec>, a: NodeRec, b: NodeRec) -> bool {
    exists|i: int, j: int|
        0 <= i < j < files.len() && #[trigger] shows_file(a, files[i]) && #[trigger] shows_file(b, files[j])
}

/// Whether a row may stand above another one that lies in the same folder: folders stand
/// above files, folders by path, and files as they are listed.
pub open spec fn may_stand_above(files: Seq<GalleryRec>, a: NodeRec, b: NodeRec) -> bool {
    &&& b.is_folder ==> a.is_folder
    &&& a.is_folder && b.is_folder ==> text_lt(a.path, b.path)
    &&& !a.is_folder && !b.is_folder ==> listed_before(files, a, b)
}

spec fn siblings_ok(files: Seq<GalleryRec>, rows: Seq<NodeRec>) -> bool {
    forall|k: int, l: int|
        0 <= k < l < rows.len() && parent((#[trigger] rows[k]).path) == parent((#[trigger] rows[l]).path)
            ==> may_stand_above(files, rows[k], rows[l])
}

/// Whether what lies in a folder stands right below its row, with nothing else in between.
pub open spec fn stands_together(rows: Seq<NodeRec>, k: int, m: int) -> bool {
    rows[k].is_folder && under(rows[m].path, rows[k].path) ==> k < m && forall|l: int|
        k < l < m ==> under((#[trigger] rows[l]).path, rows[k].path)
}

spec fn blocks_ok(rows: Seq<NodeRec>) -> bool {
    forall|k: int, m: int| 0 <= k < rows.len() && 0 <= m < rows.len() ==> #[trigger] stands_together(rows, k, m)
}

/// What a list lets through keeps its order.
proof fn lemma_filter_positions(files: Seq<GalleryRec>, keep: spec_fn(GalleryRec) -> bool, x: int, y: int) -> (r: (
    int,
    int,
))
    requires
        0 <= x < y < files.filter(keep).len(),
    ensures
        0 <= r.0 < r.1 < files.len(),
        files[r.0] == files.filter(keep)[x],
        files[r.1] == files.filter(keep)[y],
    decreases files.len(),
{
    reveal(Seq::filter);
    let rest = files.drop_last();
    let f = files.filter(keep);
    let g = rest.filter(keep);
    if y < g.len() {
        let r = lemma_filter_positions(rest, keep, x, y);
        assert(f[x] == g[x] && f[y] == g[y]);
        r
    } else {
        assert(f == g.push(files.last()));
        assert(f[x] == g[x]);
        assert(g.contains(g[x]));
        lemma_filter_from(rest, keep);
        assert(rest.contains(g[x]));
        let i = choose|i: int| 0 <= i < rest.len() && rest[i] == g[x];
        (i, files.len() - 1)
    }
}

/// Whether a row belongs to one of the first `n` subfolders.
spec fn in_block(files: Seq<GalleryRec>, p: Seq<char>, n: int, row: NodeRec) -> bool {
    exists|m: int|
        0 <= m < n && ((row.path == (#[trigger] subfolders(files, p)[m]) && row.is_folder) || under(
            row.path,
            subfolders(files, p)[m],
        ))
}

proof fn lemma_under(path: Seq<char>, q: Seq<char>)
    requires
        under(path, q),
        q.len() > 0,
    ensures
        parent(path) == q || under(parent(path), q),
        parent(path).len() >= q.len(),
{
    lemma_last_at(path, '/');
    let p = parent(path);
    let n = q.len() as int;
    let last = crate::text::last_at(path, '/');
    assert(last >= n) by {
        if last < n {
            assert(path[n] == '/');
        }
    }
    assert(p.take(n) =~= q) by {
        assert forall|i: int| 0 <= i < n implies p[i] == q[i] by {
            assert(path.take(n)[i] == path[i]);
        }
    }
    if last == n {
        assert(p =~= q) by {
            assert(p.take(n) =~= p);
        }
    } else {
        assert(p[n] == path[n]);
    }
}

proof fn lemma_under_transitive(a: Seq<char>, b: Seq<char>, c: Seq<char>)
    requires
        under(a, b),
        under(b, c),
    ensures
        under(a, c),
{
    let n = c.len() as int;
    assert(a.take(n) =~= c) by {
        assert forall|i: int| 0 <= i < n implies a[i] == c[i] by {
            assert(a.take(b.len() as int)[i] == a[i]);
            assert(b.take(n)[i] == b[i]);
        }
    }
    assert(a.take(b.len() as int)[n] == a[n]);
}

/// Two folders of one folder do not share what lies in them.
proof fn lemma_apart(s: Seq<char>, a: Seq<char>, b: Seq<char>)
    requires
        s == a || under(s, a),
        s == b || under(s, b),
        parent(a) == parent(b),
        a.len() > 0,
        b.len() > 0,
    ensures
        a == b,
{
    lemma_not_shorter(s, a, b);
    lemma_not_shorter(s, b, a);
    assert(s.take(a.len() as int) == a) by {
        if s == a {
            assert(s.take(a.len() as int) =~= a);
        }
    }
    assert(s.take(b.len() as int) == b) by {
        if s == b {
            assert(s.take(b.len() as int) =~= b);
        }
    }
}

proof fn lemma_not_shorter(s: Seq<char>, a: Seq<char>, b: Seq<char>)
    requires
        s == a || under(s, a),
        s == b || under(s, b),
        parent(a) == parent(b),
        a.len() > 0,
        b.len() > 0,
    ensures
        a.len() >= b.len(),
{
    if a.len() < b.len() {
        let n = a.len() as int;
        assert(s.len() >= b.len());
        assert(under(s, a));
        assert(b[n] == '/') by {
            if s != b {
                assert(s.take(b.len() as int)[n] == s[n]);
            }
        }
        assert(b.take(n) =~= a) by {
            assert forall|i: int| 0 <= i < n implies b[i] == a[i] by {
                assert(s.take(n)[i] == s[i]);
                if s != b {
                    assert(s.take(b.len() as int)[i] == s[i]);
                }
            }
        }
        lemma_under(b, a);
        lemma_last_at(a, '/');
        assert(parent(a).len() < a.len());
    }
}

proof fn lemma_files_in_order(files: Seq<GalleryRec>, p: Seq<char>, depth: int, selected: Set<i64>)
    ensures
        forall|k: int|
            0 <= k < file_nodes(files, p, depth, selected).len() ==> !(#[trigger] file_nodes(
                files,
                p,
                depth,
                selected,
            )[k]).is_folder && parent(file_nodes(files, p, depth, selected)[k].path) == p,
        forall|k: int, l: int|
            0 <= k < l < file_nodes(files, p, depth, selected).len() ==> listed_before(
                files,
                #[trigger] file_nodes(files, p, depth, selected)[k],
                #[trigger] file_nodes(files, p, depth, selected)[l],
            ),
{
    lemma_filter_from(files, |f: GalleryRec| parent(f.rel_path) == p);
    let ns = file_nodes(files, p, depth, selected);
    assert forall|k: int, l: int| 0 <= k < l < ns.len() implies listed_before(
        files,
        #[trigger] ns[k],
        #[trigger] ns[l],
    ) by {
        let keep = |f: GalleryRec| parent(f.rel_path) == p;
        let (i, j) = lemma_filter_positions(files, keep, k, l);
        assert(shows_file(ns[k], files[i]) && shows_file(ns[l], files[j]));
    }
    assert forall|k: int| 0 <= k < file_nodes(files, p, depth, selected).len() implies !(#[trigger] file_nodes(
        files,
        p,
        depth,
        selected,
    )[k]).is_folder && parent(file_nodes(files, p, depth, selected)[k].path) == p by {
        let f = files_in(files, p)[k];
        assert(files_in(files, p).contains(f));
        assert(file_nodes(files, p, depth, selected)[k] == file_node(f, depth, selected));
    }
}

/// The rows that a folder opens to.
spec fn rows_in(
    files: Seq<GalleryRec>,
    q: Seq<char>,
    depth: int,
    expanded: Set<Seq<char>>,
    selected: Set<i64>,
) -> Seq<NodeRec> {
    if expanded.contains(q) {
        rows_below(files, q, depth, expanded, selected)
    } else {
        Seq::empty()
    }
}

proof fn lemma_blocks(
    files: Seq<GalleryRec>,
    p: Seq<char>,
    n: int,
    depth: int,
    expanded: Set<Seq<char>>,
    selected: Set<i64>,
)
    requires
        paths_ok(files),
        0 <= n <= subfolders(files, p).len(),
    ensures
        siblings_ok(files, folder_rows(files, p, n, depth, expanded, selected)),
        blocks_ok(folder_rows(files, p, n, depth, expanded, selected)),
        forall|k: int|
            0 <= k < folder_rows(files, p, n, depth, expanded, selected).len() ==> in_block(
                files,
                p,
                n,
                #[trigger] folder_rows(files, p, n, depth, expanded, selected)[k],
            ),
    decreases longest(files) - p.len(), n, 0int,
{
    if n > 0 {
        let ss = subfolders(files, p);
        let q = ss[n - 1];
        lemma_subfolder(files, p, n - 1);
        lemma_no_slash_first(files, p, n - 1);
        lemma_blocks(files, p, n - 1, depth, expanded, selected);
        let a = folder_rows(files, p, n - 1, depth, expanded, selected);
        let node = folder_node(files, q, depth, expanded, selected);
        let inner = rows_in(files, q, depth + 1, expanded, selected);
        let all = folder_rows(files, p, n, depth, expanded, selected);
        assert(all =~= a.push(node) + inner);
        if expanded.contains(q) {
            lemma_rows_of(files, q, depth + 1, expanded, selected);
        }
        assert forall|k: int| 0 <= k < inner.len() implies under((#[trigger] inner[k]).path, q) by {}
        assert forall|k: int| 0 <= k < all.len() implies in_block(files, p, n, #[trigger] all[k]) by {
            if k < a.len() {
                assert(all[k] == a[k]);
                assert(in_block(files, p, n - 1, a[k]));
                let m = choose|m: int|
                    0 <= m < n - 1 && ((a[k].path == (#[trigger] ss[m]) && a[k].is_folder) || under(a[k].path, ss[m]));
                assert(a[k].path == ss[m] || under(a[k].path, ss[m]));
            } else if k == a.len() {
                assert(all[k] == node);
                assert(node.path == ss[n - 1]);
            } else {
                assert(all[k] == inner[k - a.len() - 1]);
                assert(under(all[k].path, ss[n - 1]));
            }
        }
        assert forall|k: int, l: int|
            0 <= k < l < all.len() && parent((#[trigger] all[k]).path) == parent((#[trigger] all[l]).path) implies may_stand_above(
            files,
            all[k],
            all[l],
        ) by {
            if l < a.len() {
                assert(all[k] == a[k] && all[l] == a[l]);
            } else if k < a.len() {
                assert(all[k] == a[k]);
                assert(in_block(files, p, n - 1, a[k]));
                let m = choose|m: int|
                    0 <= m < n - 1 && ((a[k].path == (#[trigger] ss[m]) && a[k].is_folder) || under(a[k].path, ss[m]));
                lemma_subfolder(files, p, m);
                lemma_no_slash_first(files, p, m);
                if under(a[k].path, ss[m]) {
                    lemma_under(a[k].path, ss[m]);
                }
                if l == a.len() {
                    assert(all[l] == node);
                    if a[k].path == ss[m] && a[k].is_folder {
                        lemma_subfolders_grow(files, p, m, n - 1);
                    } else {
                        assert(parent(node.path) == p);
                    }
                } else {
                    assert(all[l] == inner[l - a.len() - 1]);
                    lemma_under(all[l].path, q);
                    if a[k].path == ss[m] && a[k].is_folder {
                        assert(parent(a[k].path) == p);
                    } else {
                        lemma_apart(parent(all[k].path), ss[m], q);
                        lemma_subfolders_grow(files, p, m, n - 1);
                        crate::order::lemma_text_lt_irreflexive(q);
                    }
                }
            } else if k == a.len() {
                assert(all[k] == node);
                assert(all[l] == inner[l - a.len() - 1]);
                lemma_under(all[l].path, q);
            } else {
                assert(all[k] == inner[k - a.len() - 1]);
                assert(all[l] == inner[l - a.len() - 1]);
            }
        }
        assert forall|k: int, m: int| 0 <= k < all.len() && 0 <= m < all.len() implies #[trigger] stands_together(
            all,
            k,
            m,
        ) by {
            if all[k].is_folder && under(all[m].path, all[k].path) {
                lemma_block_apart(files, p, n, all[k], all[m], k < a.len(), m < a.len());
                if k < a.len() {
                    assert(all[k] == a[k] && all[m] == a[m]);
                    assert(stands_together(a, k, m));
                    assert forall|l: int| k < l < m implies under((#[trigger] all[l]).path, all[k].path) by {
                        assert(all[l] == a[l]);
                    }
                } else if k == a.len() {
                    assert(all[k] == node);
                    assert forall|l: int| k < l < m implies under((#[trigger] all[l]).path, all[k].path) by {
                        assert(all[l] == inner[l - a.len() - 1]);
                    }
                } else {
                    let x = k - a.len() - 1;
                    let y = m - a.len() - 1;
                    assert(all[k] == inner[x]);
                    if m == a.len() {
                        assert(all[m] == node);
                        assert(inner[x].path.len() > q.len());
                    }
                    assert(all[m] == inner[y]);
                    assert(stands_together(inner, x, y));
                    assert forall|l: int| k < l < m implies under((#[trigger] all[l]).path, all[k].path) by {
                        assert(all[l] == inner[l - a.len() - 1]);
                    }
                }
            }
        }
    }
}

/// What belongs to the last of the first `n` subfolders does not lie in what belongs to the
/// ones before it, nor the other way round.
proof fn lemma_block_apart(
    files: Seq<GalleryRec>,
    p: Seq<char>,
    n: int,
    row: NodeRec,
    below: NodeRec,
    row_before: bool,
    below_before: bool,
)
    requires
        paths_ok(files),
        0 < n <= subfolders(files, p).len(),
        under(below.path, row.path),
        row_before ==> in_block(files, p, n - 1, row),
        !row_before ==> row.path == subfolders(files, p)[n - 1] || under(row.path, subfolders(files, p)[n - 1]),
        below_before ==> in_block(files, p, n - 1, below),
        !below_before ==> below.path == subfolders(files, p)[n - 1] || under(below.path, subfolders(files, p)[n - 1]),
    ensures
        row_before == below_before,
{
    let ss = subfolders(files, p);
    let q = ss[n - 1];
    lemma_subfolder(files, p, n - 1);
    lemma_no_slash_first(files, p, n - 1);
    if row_before != below_before {
        let other = if row_before {
            row
        } else {
            below
        };
        let m = choose|m: int|
            0 <= m < n - 1 && ((other.path == (#[trigger] ss[m]) && other.is_folder) || under(other.path, ss[m]));
        lemma_subfolder(files, p, m);
        lemma_no_slash_first(files, p, m);
        lemma_subfolders_grow(files, p, m, n - 1);
        let top = if row_before {
            ss[m]
        } else {
            q
        };
        if row.path != top {
            lemma_under_transitive(below.path, row.path, top);
        }
        lemma_apart(below.path, ss[m], q);
        crate::order::lemma_text_lt_irreflexive(q);
    }
}

proof fn lemma_subfolders_grow(files: Seq<GalleryRec>, p: Seq<char>, i: int, j: int)
    requires
        0 <= i < j < subfolders(files, p).len(),
    ensures
        text_lt(subfolders(files, p)[i], subfolders(files, p)[j]),
{
    let lt = in_text_order();
    lemma_folders(files);
    lemma_filter_increasing(folders(files), |q: Seq<char>| parent(q) == p, lt);
    assert(lt(subfolders(files, p)[i], subfolders(files, p)[j]));
}

/// The rows below a folder that is not the top lie below it.
proof fn lemma_rows_of(files: Seq<GalleryRec>, q: Seq<char>, depth: int, expanded: Set<Seq<char>>, selected: Set<i64>)
    requires
        paths_ok(files),
    ensures
        siblings_ok(files, rows_below(files, q, depth, expanded, selected)),
        blocks_ok(rows_below(files, q, depth, expanded, selected)),
        q.len() > 0 ==> forall|k: int|
            0 <= k < rows_below(files, q, depth, expanded, selected).len() ==> under(
                (#[trigger] rows_below(files, q, depth, expanded, selected)[k]).path,
                q,
            ),
    decreases longest(files) - q.len(), subfolders(files, q).len(), 1int,
{
    let ss = subfolders(files, q);
    let n = ss.len() as int;
    let a = folder_rows(files, q, n, depth, expanded, selected);
    let b = file_nodes(files, q, depth, selected);
    let all = rows_below(files, q, depth, expanded, selected);
    lemma_blocks(files, q, n, depth, expanded, selected);
    lemma_files_in_order(files, q, depth, selected);
    assert(all =~= a + b);
    assert forall|m: int| 0 <= m < n && q.len() > 0 implies under(#[trigger] ss[m], q) by {
        lemma_subfolder(files, q, m);
        lemma_no_slash_first(files, q, m);
        lemma_level(ss[m]);
    }
    if q.len() > 0 {
        assert forall|k: int| 0 <= k < all.len() implies under((#[trigger] all[k]).path, q) by {
            if k < a.len() {
                assert(all[k] == a[k]);
                assert(in_block(files, q, n, a[k]));
                let m = choose|m: int|
                    0 <= m < n && ((a[k].path == (#[trigger] ss[m]) && a[k].is_folder) || under(a[k].path, ss[m]));
                assert(under(ss[m], q));
                if a[k].path != ss[m] {
                    lemma_under_transitive(a[k].path, ss[m], q);
                }
            } else {
                assert(all[k] == b[k - a.len()]);
                law_path_splits(all[k].path);
                assert(all[k].path.take(q.len() as int) =~= q);
            }
        }
    }
    assert forall|k: int, l: int|
        0 <= k < l < all.len() && parent((#[trigger] all[k]).path) == parent((#[trigger] all[l]).path) implies may_stand_above(
        files,
        all[k],
        all[l],
    ) by {
        if l < a.len() {
            assert(all[k] == a[k] && all[l] == a[l]);
        } else {
            assert(all[l] == b[l - a.len()]);
            if k >= a.len() {
                assert(all[k] == b[k - a.len()]);
            } else if !all[k].is_folder {
                assert(all[k] == a[k]);
                lemma_deeper(files, q, n, a[k]);
            }
        }
    }
    assert forall|k: int, m: int| 0 <= k < all.len() && 0 <= m < all.len() implies #[trigger] stands_together(
        all,
        k,
        m,
    ) by {
        if all[k].is_folder && under(all[m].path, all[k].path) {
            if k >= a.len() {
                assert(all[k] == b[k - a.len()]);
            }
            assert(all[k] == a[k]);
            if m >= a.len() {
                assert(all[m] == b[m - a.len()]);
                assert(in_block(files, q, n, a[k]));
                let j = choose|j: int|
                    0 <= j < n && ((a[k].path == (#[trigger] ss[j]) && a[k].is_folder) || under(a[k].path, ss[j]));
                if a[k].path != ss[j] {
                    lemma_under_transitive(all[m].path, a[k].path, ss[j]);
                }
                lemma_subfolder(files, q, j);
                lemma_no_slash_first(files, q, j);
                lemma_under(all[m].path, ss[j]);
                lemma_last_at(ss[j], '/');
            }
            assert(all[m] == a[m]);
            assert(stands_together(a, k, m));
            assert forall|l: int| k < l < m implies under((#[trigger] all[l]).path, all[k].path) by {
                assert(all[l] == a[l]);
            }
        }
    }
}

/// A file below a subfolder lies in another folder than the one of the subfolder.
proof fn lemma_deeper(files: Seq<GalleryRec>, q: Seq<char>, n: int, row: NodeRec)
    requires
        paths_ok(files),
        0 <= n <= subfolders(files, q).len(),
        in_block(files, q, n, row),
        !row.is_folder,
    ensures
        parent(row.path) != q,
{
    let ss = subfolders(files, q);
    let m = choose|m: int|
        0 <= m < n && ((row.path == (#[trigger] ss[m]) && row.is_folder) || under(row.path, ss[m]));
    lemma_subfolder(files, q, m);
    lemma_no_slash_first(files, q, m);
    lemma_under(row.path, ss[m]);
    lemma_last_at(ss[m], '/');
}

/// Of what lies in one folder the folders stand above the files, the folders stand by
/// path, and the files as they are listed.
pub proof fn law_folders_stand_above_files(
    files: Seq<GalleryRec>,
    expanded: Set<Seq<char>>,
    selected: Set<i64>,
    k: int,
    l: int,
)
    requires
        paths_ok(files),
        0 <= k < l < rows_below(files, Seq::empty(), 0, expanded, selected).len(),
        parent(rows_below(files, Seq::empty(), 0, expanded, selected)[k].path) == parent(
            rows_below(files, Seq::empty(), 0, expanded, selected)[l].path,
        ),
    ensures
        may_stand_above(
            files,
            rows_below(files, Seq::empty(), 0, expanded, selected)[k],
            rows_below(files, Seq::empty(), 0, expanded, selected)[l],
        ),
{
    lemma_rows_of(files, Seq::empty(), 0, expanded, selected);
}

/// What lies in a folder, at whatever depth, stands right below its row, with nothing else
/// in between.
pub proof fn law_folder_stands_above_what_lies_in_it(
    files: Seq<GalleryRec>,
    expanded: Set<Seq<char>>,
    selected: Set<i64>,
    k: int,
    m: int,
)
    requires
        paths_ok(files),
        0 <= k < rows_below(files, Seq::empty(), 0, expanded, selected).len(),
        0 <= m < rows_below(files, Seq::empty(), 0, expanded, selected).len(),
    ensures
        stands_together(rows_below(files, Seq::empty(), 0, expanded, selected), k, m),
{
    lemma_rows_of(files, Seq::empty(), 0, expanded, selected);
}

proof fn lemma_own_first(files: Seq<GalleryRec>, p: Seq<char>, n: int)
    requires
        paths_ok(files),
        0 <= n <= subfolders(files, p).len(),
    ensures
        ids_below(files, p, n).len() >= files_in(files, p).len(),
        ids_below(files, p, n).take(files_in(files, p).len() as int) == files_in(files, p).map_values(
            |f: GalleryRec| f.id,
        ),
    decreases n,
{
    let own = files_in(files, p).map_values(|f: GalleryRec| f.id);
    let k = own.len() as int;
    if n > 0 {
        lemma_own_first(files, p, n - 1);
        let q = subfolders(files, p)[n - 1];
        let a = ids_below(files, p, n - 1);
        let b = ids_below(files, q, subfolders(files, q).len() as int);
        assert((a + b).take(k) =~= a.take(k));
    } else {
        assert(own.take(k) =~= own);
    }
}

/// Of the files that a folder stands for those that lie right in it come first, as they are
/// listed.
pub proof fn law_files_right_in_a_folder_come_first(
    files: Seq<GalleryRec>,
    expanded: Set<Seq<char>>,
    selected: Set<i64>,
    k: int,
)
    requires
        paths_ok(files),
        0 <= k < rows_below(files, Seq::empty(), 0, expanded, selected).len(),
        rows_below(files, Seq::empty(), 0, expanded, selected)[k].is_folder,
    ensures
        ({
            let row = rows_below(files, Seq::empty(), 0, expanded, selected)[k];
            let own = files.filter(|f: GalleryRec| parent(f.rel_path) == row.path).map_values(|f: GalleryRec| f.id);
            own.len() <= row.descendants.len() && row.descendants.take(own.len() as int) == own
        }),
{
    lemma_rows_ok(files, expanded, selected, k);
    let row = rows_below(files, Seq::empty(), 0, expanded, selected)[k];
    lemma_own_first(files, row.path, subfolders(files, row.path).len() as int);
}

/// No two files have one id.
pub open spec fn ids_differ(files: Seq<GalleryRec>) -> bool {
    forall|i: int, j: int| 0 <= i < j < files.len() ==> (#[trigger] files[i]).id != (#[trigger] files[j]).id
}

proof fn lemma_once(files: Seq<GalleryRec>, p: Seq<char>, n: int)
    requires
        paths_ok(files),
        ids_differ(files),
        0 <= n <= subfolders(files, p).len(),
    ensures
        ids_below(files, p, n).no_duplicates(),
    decreases longest(files) - p.len(), n,
{
    let ss = subfolders(files, p);
    let own = files_in(files, p);
    if n > 0 {
        let q = ss[n - 1];
        lemma_subfolder(files, p, n - 1);
        lemma_no_slash_first(files, p, n - 1);
        lemma_once(files, p, n - 1);
        lemma_once(files, q, subfolders(files, q).len() as int);
        let a = ids_below(files, p, n - 1);
        let b = descendants_of(files, q);
        assert forall|x: int, y: int| 0 <= x < a.len() && 0 <= y < b.len() implies a[x] != b[y] by {
            let id = a[x];
            if id == b[y] {
                assert(a.contains(id) && b.contains(id));
                lemma_ids_below(files, p, n - 1, id);
                law_folder_stands_for_files_below(files, q, id);
                let i = choose|i: int|
                    0 <= i < files.len() && (#[trigger] files[i]).id == id && (parent(files[i].rel_path) == p || exists|
                        j: int,
                    |
                        0 <= j < n - 1 && crate::tree::is_below(files[i].rel_path, #[trigger] ss[j]));
                let k = choose|k: int|
                    0 <= k < files.len() && (#[trigger] files[k]).id == id && crate::tree::is_below(
                        files[k].rel_path,
                        q,
                    );
                assert(i == k);
                let path = files[i].rel_path;
                assert(under(path, q));
                if parent(path) == p {
                    lemma_under(path, q);
                } else {
                    let j = choose|j: int| 0 <= j < n - 1 && crate::tree::is_below(path, #[trigger] ss[j]);
                    lemma_subfolder(files, p, j);
                    lemma_no_slash_first(files, p, j);
                    lemma_apart(path, ss[j], q);
                    lemma_subfolders_grow(files, p, j, n - 1);
                    crate::order::lemma_text_lt_irreflexive(q);
                }
            }
        }
        let c = a + b;
        assert forall|x: int, y: int| 0 <= x < c.len() && 0 <= y < c.len() && x != y implies c[x] != c[y] by {
            let la = a.len() as int;
            if x >= la && y >= la {
                assert(b[x - la] != b[y - la]);
            } else if x < la && y >= la {
                assert(a[x] != b[y - la]);
            } else if x >= la && y < la {
                assert(a[y] != b[x - la]);
            }
        }
    } else {
        let ids = own.map_values(|f: GalleryRec| f.id);
        assert forall|x: int, y: int| 0 <= x < ids.len() && 0 <= y < ids.len() && x != y implies ids[x] != ids[y] by {
            let keep = |f: GalleryRec| parent(f.rel_path) == p;
            if x < y {
                let (i, j) = lemma_filter_positions(files, keep, x, y);
                assert(files[i].id != files[j].id);
            } else {
                let (i, j) = lemma_filter_positions(files, keep, y, x);
                assert(files[i].id != files[j].id);
            }
        }
    }
}

/// A folder stands for each file below it once.
pub proof fn law_folder_stands_for_each_file_once(
    files: Seq<GalleryRec>,
    expanded: Set<Seq<char>>,
    selected: Set<i64>,
    k: int,
)
    requires
        paths_ok(files),
        ids_differ(files),
        0 <= k < rows_below(files, Seq::empty(), 0, expanded, selected).len(),
    ensures
        rows_below(files, Seq::empty(), 0, expanded, selected)[k].descendants.no_duplicates(),
{
    lemma_rows_ok(files, expanded, selected, k);
    let row = rows_below(files, Seq::empty(), 0, expanded, selected)[k];
    if row.is_folder {
        lemma_once(files, row.path, subfolders(files, row.path).len() as int);
    }
}

// ---------------------------------------------------------------------------
// Which rows can be seen.

/// Whether every folder on the way to a path is expanded.
pub open spec fn way_is_open(path: Seq<char>, from: int, expanded: Set<Seq<char>>) -> bool {
    forall|j: int| from < j < path.len() && #[trigger] path[j] == '/' ==> expanded.contains(path.take(j))
}

/// Whether a row shows the folder with the path, or the file with the path and the id.
pub open spec fn shows(row: NodeRec, dir: bool, path: Seq<char>, id: i64) -> bool {
    row.is_folder == dir && row.path == path && (dir || row.file_id == id)
}

/// Whether one of the rows does.
pub open spec fn is_shown(rows: Seq<NodeRec>, dir: bool, path: Seq<char>, id: i64) -> bool {
    exists|k: int| 0 <= k < rows.len() && shows(#[trigger] rows[k], dir, path, id)
}

/// Whether there is such a folder or such a file.
pub open spec fn is_there(files: Seq<GalleryRec>, dir: bool, path: Seq<char>, id: i64) -> bool {
    if dir {
        crate::tree::is_folder(files, path)
    } else {
        exists|i: int| 0 <= i < files.len() && (#[trigger] files[i]).rel_path == path && files[i].id == id
    }
}

proof fn lemma_block_rows(
    files: Seq<GalleryRec>,
    p: Seq<char>,
    n: int,
    depth: int,
    expanded: Set<Seq<char>>,
    selected: Set<i64>,
)
    requires
        paths_ok(files),
        0 <= n <= subfolders(files, p).len(),
    ensures
        forall|row: NodeRec| #[trigger]
            folder_rows(files, p, n, depth, expanded, selected).contains(row) <==> exists|m: int|
                0 <= m < n && (row == folder_node(files, #[trigger] subfolders(files, p)[m], depth, expanded, selected)
                    || rows_in(files, subfolders(files, p)[m], depth + 1, expanded, selected).contains(row)),
    decreases n,
{
    let ss = subfolders(files, p);
    let all = folder_rows(files, p, n, depth, expanded, selected);
    if n > 0 {
        lemma_block_rows(files, p, n - 1, depth, expanded, selected);
        let a = folder_rows(files, p, n - 1, depth, expanded, selected);
        let q = ss[n - 1];
        let node = folder_node(files, q, depth, expanded, selected);
        let inner = rows_in(files, q, depth + 1, expanded, selected);
        assert(all =~= a.push(node) + inner);
        assert forall|row: NodeRec| #[trigger] all.contains(row) <==> exists|m: int|
            0 <= m < n && (row == folder_node(files, #[trigger] ss[m], depth, expanded, selected) || rows_in(
                files,
                ss[m],
                depth + 1,
                expanded,
                selected,
            ).contains(row)) by {
            if all.contains(row) {
                let k = choose|k: int| 0 <= k < all.len() && all[k] == row;
                if k < a.len() {
                    assert(a[k] == row);
                    assert(a.contains(row));
                    let m = choose|m: int|
                        0 <= m < n - 1 && (row == folder_node(files, #[trigger] ss[m], depth, expanded, selected)
                            || rows_in(files, ss[m], depth + 1, expanded, selected).contains(row));
                    assert(ss[m] == ss[m]);
                } else if k == a.len() {
                    assert(row == folder_node(files, ss[n - 1], depth, expanded, selected));
                } else {
                    assert(inner[k - a.len() - 1] == row);
                    assert(rows_in(files, ss[n - 1], depth + 1, expanded, selected).contains(row));
                }
            }
            if exists|m: int|
                0 <= m < n && (row == folder_node(files, #[trigger] ss[m], depth, expanded, selected) || rows_in(
                    files,
                    ss[m],
                    depth + 1,
                    expanded,
                    selected,
                ).contains(row)) {
                let m = choose|m: int|
                    0 <= m < n && (row == folder_node(files, #[trigger] ss[m], depth, expanded, selected) || rows_in(
                        files,
                        ss[m],
                        depth + 1,
                        expanded,
                        selected,
                    ).contains(row));
                if m < n - 1 {
                    assert(a.contains(row)) by {
                        assert(ss[m] == ss[m]);
                    }
                    let k = choose|k: int| 0 <= k < a.len() && a[k] == row;
                    assert(all[k] == row);
                } else if row == node {
                    assert(all[a.len() as int] == row);
                } else {
                    let k = choose|k: int| 0 <= k < inner.len() && inner[k] == row;
                    assert(all[a.len() + 1 + k] == row);
                }
            }
        }
    }
}

/// The next folder on the way from a folder to what lies below it, but not right in it.
proof fn lemma_next_folder(files: Seq<GalleryRec>, p: Seq<char>, dir: bool, path: Seq<char>, id: i64) -> (n: int)
    requires
        paths_ok(files),
        is_there(files, dir, path, id),
        p.len() == 0 || under(path, p),
        parent(path) != p,
    ensures
        0 <= n < subfolders(files, p).len(),
        under(path, subfolders(files, p)[n]),
{
    if dir {
        let (i, k) = choose|i: int, k: int|
            0 <= i < files.len() && #[trigger] crate::tree::leads_through(files[i].rel_path, k, path);
        let rel = files[i].rel_path;
        assert(path.len() == k);
        assert(under(rel, path));
        if p.len() > 0 {
            lemma_under_transitive(rel, path, p);
        }
        lemma_last_at(rel, '/');
        lemma_under_top(rel, path);
        if parent(rel) == p {
            // The last slash of the file ends its folder.
            if path.len() > 0 {
                lemma_under(rel, path);
            }
            lemma_parent_shorter(path);
        }
        let n = crate::tree::lemma_step_down(files, p, i);
        let q = subfolders(files, p)[n];
        lemma_subfolder(files, p, n);
        lemma_no_slash_first(files, p, n);
        assert(under(rel, q));
        if q.len() < path.len() {
            let m = q.len() as int;
            assert(path.take(m) =~= q) by {
                assert forall|j: int| 0 <= j < m implies path[j] == q[j] by {
                    assert(rel.take(m)[j] == rel[j]);
                    assert(rel.take(k)[j] == rel[j]);
                }
            }
            assert(rel.take(k)[m] == rel[m]);
        } else if q.len() == path.len() {
            assert(q == path);
        } else {
            let m = path.len() as int;
            assert(q.take(m) =~= path) by {
                assert forall|j: int| 0 <= j < m implies path[j] == q[j] by {
                    assert(rel.take(m)[j] == rel[j]);
                    assert(rel.take(q.len() as int)[j] == rel[j]);
                }
            }
            assert(rel.take(q.len() as int)[m] == rel[m]);
            assert(under(q, path));
            if path.len() > 0 {
                lemma_under(q, path);
            }
        }
        n
    } else {
        let i = choose|i: int| 0 <= i < files.len() && (#[trigger] files[i]).rel_path == path && files[i].id == id;
        let n = crate::tree::lemma_step_down(files, p, i);
        let q = subfolders(files, p)[n];
        lemma_no_slash_first(files, p, n);
        assert(under(path, q));
        n
    }
}

proof fn lemma_parent_shorter(path: Seq<char>)
    ensures
        path.len() > 0 ==> parent(path).len() < path.len(),
        path.len() == 0 ==> parent(path) == path,
{
    lemma_last_at(path, '/');
}

proof fn lemma_under_top(rel: Seq<char>, path: Seq<char>)
    requires
        under(rel, path),
    ensures
        parent(rel).len() >= path.len(),
{
    lemma_last_at(rel, '/');
    assert(rel[path.len() as int] == '/');
    assert(crate::text::last_at(rel, '/') >= path.len());
}

proof fn lemma_visible(
    files: Seq<GalleryRec>,
    p: Seq<char>,
    depth: int,
    expanded: Set<Seq<char>>,
    selected: Set<i64>,
    dir: bool,
    path: Seq<char>,
    id: i64,
)
    requires
        paths_ok(files),
        is_there(files, dir, path, id),
        path.len() > 0 ==> path[0] != '/',
        dir ==> path.len() > 0,
        p.len() == 0 || under(path, p),
    ensures
        is_shown(rows_below(files, p, depth, expanded, selected), dir, path, id) <==> way_is_open(
            path,
            p.len() as int,
            expanded,
        ),
    decreases longest(files) - p.len(),
{
    let ss = subfolders(files, p);
    let n = ss.len() as int;
    let a = folder_rows(files, p, n, depth, expanded, selected);
    let b = file_nodes(files, p, depth, selected);
    let all = rows_below(files, p, depth, expanded, selected);
    lemma_block_rows(files, p, n, depth, expanded, selected);
    lemma_files_in_order(files, p, depth, selected);
    lemma_last_at(path, '/');
    assert(all =~= a + b);
    if parent(path) == p {
        assert(way_is_open(path, p.len() as int, expanded));
        if dir {
            lemma_folders(files);
            let keep = |q: Seq<char>| parent(q) == p;
            lemma_filter_from(folders(files), keep);
            assert(keep(path));
            assert(ss.contains(path));
            let m = choose|m: int| 0 <= m < ss.len() && ss[m] == path;
            let node = folder_node(files, ss[m], depth, expanded, selected);
            assert(a.contains(node));
            let k = choose|k: int| 0 <= k < a.len() && a[k] == node;
            assert(shows(all[k], dir, path, id));
        } else {
            let i = choose|i: int|
                0 <= i < files.len() && (#[trigger] files[i]).rel_path == path && files[i].id == id;
            let keep = |f: GalleryRec| parent(f.rel_path) == p;
            lemma_filter_from(files, keep);
            assert(files.contains(files[i]) && keep(files[i]));
            assert(files_in(files, p).contains(files[i]));
            let k = choose|k: int| 0 <= k < files_in(files, p).len() && files_in(files, p)[k] == files[i];
            assert(b[k] == file_node(files[i], depth, selected));
            assert(all[a.len() + k] == b[k]);
            assert(shows(all[a.len() + k], dir, path, id));
        }
    } else {
        let m = lemma_next_folder(files, p, dir, path, id);
        let q = ss[m];
        lemma_subfolder(files, p, m);
        lemma_no_slash_first(files, p, m);
        lemma_visible(files, q, depth + 1, expanded, selected, dir, path, id);
        let inner = rows_below(files, q, depth + 1, expanded, selected);
        let c = q.len() as int;
        assert(path.take(c) == q && path[c] == '/');
        // Between the two folders there is no slash but the one that ends the second.
        assert forall|j: int| p.len() < j < c implies path[j] != '/' by {
            lemma_last_at(q, '/');
            assert(path.take(c)[j] == path[j]);
        }
        assert(way_is_open(path, p.len() as int, expanded) <==> expanded.contains(q) && way_is_open(
            path,
            c,
            expanded,
        )) by {
            if way_is_open(path, p.len() as int, expanded) {
                assert(path[c] == '/');
            }
        }
        if is_shown(all, dir, path, id) {
            let k = choose|k: int| 0 <= k < all.len() && shows(#[trigger] all[k], dir, path, id);
            if k >= a.len() {
                assert(all[k] == b[k - a.len()]);
            }
            assert(all[k] == a[k]);
            assert(a.contains(a[k]));
            let l = choose|l: int|
                0 <= l < n && (a[k] == folder_node(files, #[trigger] ss[l], depth, expanded, selected) || rows_in(
                    files,
                    ss[l],
                    depth + 1,
                    expanded,
                    selected,
                ).contains(a[k]));
            lemma_subfolder(files, p, l);
            lemma_no_slash_first(files, p, l);
            let there = rows_in(files, ss[l], depth + 1, expanded, selected);
            assert(there.contains(a[k]));
            lemma_rows_of(files, ss[l], depth + 1, expanded, selected);
            let x = choose|x: int| 0 <= x < there.len() && there[x] == a[k];
            assert(expanded.contains(ss[l]));
            assert(under(path, ss[l]));
            lemma_apart(path, ss[l], q);
            assert(inner[x] == a[k]);
            assert(shows(inner[x], dir, path, id));
        }
        if expanded.contains(q) && is_shown(inner, dir, path, id) {
            let x = choose|x: int| 0 <= x < inner.len() && shows(#[trigger] inner[x], dir, path, id);
            assert(rows_in(files, ss[m], depth + 1, expanded, selected).contains(inner[x]));
            assert(a.contains(inner[x]));
            let k = choose|k: int| 0 <= k < a.len() && a[k] == inner[x];
            assert(all[k] == inner[x]);
            assert(shows(all[k], dir, path, id));
        }
    }
}

/// A file, or a folder, has a row exactly where every folder on the way to it is
/// expanded.
pub proof fn law_rows_are_seen_where_the_way_is_open(
    files: Seq<GalleryRec>,
    expanded: Set<Seq<char>>,
    selected: Set<i64>,
    dir: bool,
    path: Seq<char>,
    id: i64,
)
    requires
        paths_ok(files),
        is_there(files, dir, path, id),
        dir ==> path.len() > 0,
    ensures
        is_shown(rows_below(files, Seq::empty(), 0, expanded, selected), dir, path, id) <==> way_is_open(
            path,
            0,
            expanded,
        ),
{
    if dir {
        let (i, k) = choose|i: int, k: int|
            0 <= i < files.len() && #[trigger] crate::tree::leads_through(files[i].rel_path, k, path);
        assert(path.len() == k);
        assert(path[0] == files[i].rel_path[0]);
    }
    lemma_visible(files, Seq::empty(), 0, expanded, selected, dir, path, id);
}

} // verus!
