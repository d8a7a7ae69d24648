//! The gallery as a tree of folders.
//!
//! Folders are not stored: they are what comes before a slash in the path of a
//! file. To select a folder is to select all files below it.

use std::collections::HashSet;
use vstd::prelude::*;
use vstd::hash_set::StringHashSet;
use crate::db::query::{gallery_recs, GalleryFile, GalleryRec};
use crate::names::{base_name, basename, parent, parent_of};
use crate::order::{in_text_order, increasing, lemma_increasing_unique, lemma_push_contains, lemma_text_lt_irreflexive, lemma_text_lt_total, lemma_text_lt_transitive, asymmetric, same_text, sorted_once, text_lt};
use crate::seqs::{lemma_filter_from, lemma_filter_step};
use crate::text::{chars_of, last_at, lemma_last_at, string_of, texts};

verus! {

broadcast use {vstd::string::group_string_axioms, vstd::std_specs::hash::group_hash_axioms};

/// A row of the tree that can be seen.
pub struct TreeNode {
    pub label: String,
    pub depth: i32,
    pub is_folder: bool,
    pub is_video: bool,
    pub expanded: bool,
    /// 0 not selected, 1 selected, 2 selected in part.
    pub sel_state: i32,
    /// The id of a file, -1 for a folder.
    pub file_id: i64,
    /// The path of the folder or of the file.
    pub path: String,
    /// For a folder the ids of all files below it.
    pub descendants: Vec<i64>,
}

/// What a [`TreeNode`] says.
#[verifier::ext_equal]
pub struct NodeRec {
    pub label: Seq<char>,
    pub depth: int,
    pub is_folder: bool,
    pub is_video: bool,
    pub expanded: bool,
    pub sel_state: int,
    pub file_id: i64,
    pub path: Seq<char>,
    pub descendants: Seq<i64>,
}

impl View for TreeNode {
    type V = NodeRec;

    open spec fn view(&self) -> NodeRec {
        NodeRec {
            label: self.label@,
            depth: self.depth as int,
            is_folder: self.is_folder,
            is_video: self.is_video,
            expanded: self.expanded,
            sel_state: self.sel_state as int,
            file_id: self.file_id,
            path: self.path@,
            descendants: self.descendants@,
        }
    }
}

/// What the rows of a tree say.
pub open spec fn node_recs(v: Seq<TreeNode>) -> Seq<NodeRec> {
    v.map_values(|n: TreeNode| n@)
}

// ---------------------------------------------------------------------------
// Folders.

/// Whether the path of a file leads through the folder: the folder is what comes
/// before the slash at `k`.
pub open spec fn leads_through(rel: Seq<char>, k: int, p: Seq<char>) -> bool {
    0 <= k < rel.len() && rel[k] == '/' && p == rel.take(k)
}

/// Whether one of the files is somewhere below the folder.
pub open spec fn is_folder(files: Seq<GalleryRec>, p: Seq<char>) -> bool {
    exists|i: int, k: int| 0 <= i < files.len() && #[trigger] leads_through(files[i].rel_path, k, p)
}

/// Whether `s` lists the folders of the files, in the order of their paths.
pub open spec fn lists_folders(files: Seq<GalleryRec>, s: Seq<Seq<char>>) -> bool {
    &&& increasing(s, in_text_order())
    &&& forall|p: Seq<char>| #[trigger] s.contains(p) <==> is_folder(files, p)
}

/// The folders of the files, in the order of their paths.
pub open spec fn folders(files: Seq<GalleryRec>) -> Seq<Seq<char>> {
    choose|s: Seq<Seq<char>>| lists_folders(files, s)
}

/// The folders right below a folder, in the order of their paths.
pub open spec fn subfolders(files: Seq<GalleryRec>, p: Seq<char>) -> Seq<Seq<char>> {
    folders(files).filter(|q: Seq<char>| parent(q) == p)
}

/// The files right in a folder, in their order.
pub open spec fn files_in(files: Seq<GalleryRec>, p: Seq<char>) -> Seq<GalleryRec> {
    files.filter(|f: GalleryRec| parent(f.rel_path) == p)
}

/// No path begins with a slash.
pub open spec fn paths_ok(files: Seq<GalleryRec>) -> bool {
    forall|i: int|
        0 <= i < files.len() && (#[trigger] files[i]).rel_path.len() > 0 ==> files[i].rel_path[0] != '/'
}

/// The length of the longest path.
pub open spec fn longest(files: Seq<GalleryRec>) -> int
    decreases files.len(),
{
    if files.len() == 0 {
        0
    } else {
        let rest = longest(files.drop_last());
        let n = files.last().rel_path.len() as int;
        if rest < n {
            n
        } else {
            rest
        }
    }
}

/// The ids of the files in a folder and below its first `n` subfolders.
pub open spec fn ids_below(files: Seq<GalleryRec>, p: Seq<char>, n: int) -> Seq<i64>
    decreases longest(files) - p.len(), n,
    when paths_ok(files)
    via ids_below_decreases
{
    if n <= 0 || n > subfolders(files, p).len() {
        files_in(files, p).map_values(|f: GalleryRec| f.id)
    } else {
        let q = subfolders(files, p)[n - 1];
        ids_below(files, p, n - 1) + ids_below(files, q, subfolders(files, q).len() as int)
    }
}

/// The ids of the files in a folder and below it: first its own, and those below
/// its subfolders one after the other.
pub open spec fn descendants_of(files: Seq<GalleryRec>, p: Seq<char>) -> Seq<i64> {
    ids_below(files, p, subfolders(files, p).len() as int)
}

#[via_fn]
proof fn ids_below_decreases(files: Seq<GalleryRec>, p: Seq<char>, n: int) {
    if !(n <= 0 || n > subfolders(files, p).len()) {
        lemma_subfolder(files, p, n - 1);
    }
}

// ---------------------------------------------------------------------------
// The rows.

/// How much of a selection a list of ids is: nothing of it, all of it, or a part.
pub open spec fn state_of(ids: Seq<i64>, selected: Set<i64>) -> int {
    if forall|i: int| 0 <= i < ids.len() ==> !selected.contains(#[trigger] ids[i]) {
        0
    } else if forall|i: int| 0 <= i < ids.len() ==> selected.contains(#[trigger] ids[i]) {
        1
    } else {
        2
    }
}

/// The state of a row.
pub open spec fn node_state(n: NodeRec, selected: Set<i64>) -> int {
    if n.is_folder {
        state_of(n.descendants, selected)
    } else if selected.contains(n.file_id) {
        1
    } else {
        0
    }
}

/// The row of a folder.
pub open spec fn folder_node(
    files: Seq<GalleryRec>,
    p: Seq<char>,
    depth: int,
    expanded: Set<Seq<char>>,
    selected: Set<i64>,
) -> NodeRec {
    NodeRec {
        label: base_name(p),
        depth,
        is_folder: true,
        is_video: false,
        expanded: expanded.contains(p),
        sel_state: state_of(descendants_of(files, p), selected),
        file_id: -1i64,
        path: p,
        descendants: descendants_of(files, p),
    }
}

/// The row of a file.
pub open spec fn file_node(f: GalleryRec, depth: int, selected: Set<i64>) -> NodeRec {
    NodeRec {
        label: f.name,
        depth,
        is_folder: false,
        is_video: f.is_video,
        expanded: false,
        sel_state: if selected.contains(f.id) {
            1
        } else {
            0
        },
        file_id: f.id,
        path: f.rel_path,
        descendants: Seq::empty(),
    }
}

/// The rows of the files in a folder.
pub open spec fn file_nodes(files: Seq<GalleryRec>, p: Seq<char>, depth: int, selected: Set<i64>) -> Seq<NodeRec> {
    files_in(files, p).map_values(|f: GalleryRec| file_node(f, depth, selected))
}

/// The rows of the first `n` subfolders of a folder, each with what is in it where
/// it is expanded.
pub open spec fn folder_rows(
    files: Seq<GalleryRec>,
    p: Seq<char>,
    n: int,
    depth: int,
    expanded: Set<Seq<char>>,
    selected: Set<i64>,
) -> Seq<NodeRec>
    decreases longest(files) - p.len(), n,
    when paths_ok(files)
    via folder_rows_decreases
{
    if n <= 0 || n > subfolders(files, p).len() {
        Seq::empty()
    } else {
        let q = subfolders(files, p)[n - 1];
        folder_rows(files, p, n - 1, depth, expanded, selected).push(
            folder_node(files, q, depth, expanded, selected),
        ) + if expanded.contains(q) {
            folder_rows(files, q, subfolders(files, q).len() as int, depth + 1, expanded, selected) + file_nodes(
                files,
                q,
                depth + 1,
                selected,
            )
        } else {
            Seq::empty()
        }
    }
}

#[via_fn]
proof fn folder_rows_decreases(
    files: Seq<GalleryRec>,
    p: Seq<char>,
    n: int,
    depth: int,
    expanded: Set<Seq<char>>,
    selected: Set<i64>,
) {
    if !(n <= 0 || n > subfolders(files, p).len()) {
        lemma_subfolder(files, p, n - 1);
    }
}

/// The rows below a folder: those of its subfolders, and those of its files.
pub open spec fn rows_below(
    files: Seq<GalleryRec>,
    p: Seq<char>,
    depth: int,
    expanded: Set<Seq<char>>,
    selected: Set<i64>,
) -> Seq<NodeRec> {
    folder_rows(files, p, subfolders(files, p).len() as int, depth, expanded, selected) + file_nodes(
        files,
        p,
        depth,
        selected,
    )
}

// ---------------------------------------------------------------------------
// What is known of the folders.

proof fn lemma_longest(files: Seq<GalleryRec>, i: int)
    requires
        0 <= i < files.len(),
    ensures
        files[i].rel_path.len() <= longest(files),
        0 <= longest(files),
    decreases files.len(),
{
    if i < files.len() - 1 {
        lemma_longest(files.drop_last(), i);
        assert(files.drop_last()[i] == files[i]);
    } else if files.len() > 1 {
        lemma_longest(files.drop_last(), 0);
    }
}

proof fn lemma_insert_text(s: Seq<Seq<char>>, x: Seq<char>) -> (t: Seq<Seq<char>>)
    requires
        increasing(s, in_text_order()),
    ensures
        increasing(t, in_text_order()),
        forall|p: Seq<char>| #[trigger] t.contains(p) <==> s.contains(p) || p == x,
    decreases s.len(),
{
    let lt = in_text_order();
    if s.contains(x) {
        s
    } else if s.len() == 0 {
        let t = seq![x];
        assert(t[0] == x);
        t
    } else {
        let last = s.last();
        let rest = s.drop_last();
        assert(s[s.len() - 1] == last);
        assert(s =~= rest.push(last));
        assert forall|i: int, j: int| 0 <= i < j < rest.len() implies lt(#[trigger] rest[i], #[trigger] rest[j]) by {
            assert(lt(s[i], s[j]));
        }
        lemma_text_lt_total(last, x);
        if text_lt(last, x) {
            let t = s.push(x);
            assert forall|i: int, j: int| 0 <= i < j < t.len() implies lt(#[trigger] t[i], #[trigger] t[j]) by {
                if j < s.len() {
                    assert(lt(s[i], s[j]));
                } else if i < s.len() - 1 {
                    assert(lt(s[i], s[s.len() - 1]));
                    lemma_text_lt_transitive(s[i], last, x);
                }
            }
            assert forall|p: Seq<char>| #[trigger] t.contains(p) <==> s.contains(p) || p == x by {
                lemma_push_contains(s, x, p);
            }
            t
        } else {
            assert(last != x);
            let r = lemma_insert_text(rest, x);
            let t = r.push(last);
            assert forall|i: int, j: int| 0 <= i < j < t.len() implies lt(#[trigger] t[i], #[trigger] t[j]) by {
                if j < r.len() {
                    assert(lt(r[i], r[j]));
                } else {
                    assert(r.contains(r[i]));
                    if r[i] != x {
                        let k = choose|k: int| 0 <= k < rest.len() && rest[k] == r[i];
                        assert(lt(s[k], s[s.len() - 1]));
                    }
                }
            }
            assert forall|p: Seq<char>| #[trigger] t.contains(p) <==> s.contains(p) || p == x by {
                lemma_push_contains(r, last, p);
                lemma_push_contains(rest, last, p);
            }
            t
        }
    }
}

proof fn lemma_lists_exist(files: Seq<GalleryRec>, n: int, k: int) -> (s: Seq<Seq<char>>)
    requires
        0 <= n <= files.len(),
        n < files.len() ==> 0 <= k <= files[n].rel_path.len(),
        n == files.len() ==> k == 0,
    ensures
        increasing(s, in_text_order()),
        forall|p: Seq<char>| #[trigger] s.contains(p) <==> exists|i: int, j: int|
            0 <= i < files.len() && (i < n || (i == n && j < k)) && #[trigger] leads_through(files[i].rel_path, j, p),
    decreases n, k,
{
    if k > 0 {
        let s = lemma_lists_exist(files, n, k - 1);
        let rel = files[n].rel_path;
        let t = if rel[k - 1] == '/' {
            lemma_insert_text(s, rel.take(k - 1))
        } else {
            s
        };
        assert forall|p: Seq<char>| #[trigger] t.contains(p) <==> exists|i: int, j: int|
            0 <= i < files.len() && (i < n || (i == n && j < k)) && #[trigger] leads_through(files[i].rel_path, j, p) by {
            if s.contains(p) {
                let (i, j) = choose|i: int, j: int|
                    0 <= i < files.len() && (i < n || (i == n && j < k - 1)) && #[trigger] leads_through(
                        files[i].rel_path,
                        j,
                        p,
                    );
                assert(leads_through(files[i].rel_path, j, p));
            }
            if rel[k - 1] == '/' && p == rel.take(k - 1) {
                assert(leads_through(files[n].rel_path, k - 1, p));
            }
            if exists|i: int, j: int|
                0 <= i < files.len() && (i < n || (i == n && j < k)) && #[trigger] leads_through(files[i].rel_path, j, p) {
                let (i, j) = choose|i: int, j: int|
                    0 <= i < files.len() && (i < n || (i == n && j < k)) && #[trigger] leads_through(
                        files[i].rel_path,
                        j,
                        p,
                    );
                if i == n && j == k - 1 {
                    assert(t.contains(p));
                } else {
                    assert(s.contains(p));
                }
            }
        }
        t
    } else if n > 0 {
        let s = lemma_lists_exist(files, n - 1, files[n - 1].rel_path.len() as int);
        assert forall|p: Seq<char>| #[trigger] s.contains(p) <==> exists|i: int, j: int|
            0 <= i < files.len() && (i < n || (i == n && j < k)) && #[trigger] leads_through(files[i].rel_path, j, p) by {
            if exists|i: int, j: int|
                0 <= i < files.len() && (i < n || (i == n && j < k)) && #[trigger] leads_through(files[i].rel_path, j, p) {
                let (i, j) = choose|i: int, j: int|
                    0 <= i < files.len() && (i < n || (i == n && j < k)) && #[trigger] leads_through(
                        files[i].rel_path,
                        j,
                        p,
                    );
                assert(0 <= j);
                assert(i < n);
                assert(leads_through(files[i].rel_path, j, p));
            }
        }
        s
    } else {
        Seq::empty()
    }
}

/// The list of the folders is what it should be.
pub proof fn lemma_folders(files: Seq<GalleryRec>)
    ensures
        lists_folders(files, folders(files)),
{
    let s = lemma_lists_exist(files, files.len() as int, 0);
    assert forall|p: Seq<char>| #[trigger] s.contains(p) <==> is_folder(files, p) by {
        if is_folder(files, p) {
            let (i, k) = choose|i: int, k: int|
                0 <= i < files.len() && #[trigger] leads_through(files[i].rel_path, k, p);
            assert(leads_through(files[i].rel_path, k, p));
        }
    }
    assert(lists_folders(files, s));
}

/// A folder right below another is longer than it, and shorter than some path.
pub proof fn lemma_subfolder(files: Seq<GalleryRec>, p: Seq<char>, n: int)
    requires
        paths_ok(files),
        0 <= n < subfolders(files, p).len(),
    ensures
        parent(subfolders(files, p)[n]) == p,
        is_folder(files, subfolders(files, p)[n]),
        p.len() < subfolders(files, p)[n].len() < longest(files),
{
    let keep = |q: Seq<char>| parent(q) == p;
    lemma_folders(files);
    lemma_filter_from(folders(files), keep);
    let q = subfolders(files, p)[n];
    assert(subfolders(files, p).contains(q));
    let (i, k) = choose|i: int, k: int| 0 <= i < files.len() && #[trigger] leads_through(files[i].rel_path, k, q);
    lemma_longest(files, i);
    lemma_last_at(q, '/');
    assert(q.len() == k);
    assert(k > 0) by {
        assert(files[i].rel_path[k] == '/');
    }
}

// ---------------------------------------------------------------------------
// Building the tree.

struct Tree<'a> {
    files: &'a Vec<GalleryFile>,
    parents: Vec<String>,
    folders: Vec<String>,
    folder_parents: Vec<String>,
}

impl<'a> Tree<'a> {
    spec fn recs(&self) -> Seq<GalleryRec> {
        gallery_recs(self.files@)
    }

    spec fn wf(&self) -> bool {
        &&& paths_ok(self.recs())
        &&& self.parents@.len() == self.files@.len()
        &&& forall|i: int|
            0 <= i < self.files@.len() ==> (#[trigger] self.parents@[i])@ == parent(self.files@[i].rel_path@)
        &&& texts(self.folders@) == folders(self.recs())
        &&& self.folder_parents@.len() == self.folders@.len()
        &&& forall|i: int|
            0 <= i < self.folders@.len() ==> (#[trigger] self.folder_parents@[i])@ == parent(self.folders@[i]@)
    }

    /// The positions of the subfolders of a folder.
    fn subs(&self, p: &str) -> (r: Vec<usize>)
        requires
            self.wf(),
        ensures
            forall|k: int| 0 <= k < r@.len() ==> #[trigger] r@[k] < self.folders@.len(),
            r@.map_values(|i: usize| self.folders@[i as int]@) == subfolders(self.recs(), p@),
    {
        let ghost fs = folders(self.recs());
        let ghost keep = |q: Seq<char>| parent(q) == p@;
        let ghost at = |i: usize| self.folders@[i as int]@;
        let mut out: Vec<usize> = Vec::new();
        let mut i: usize = 0;
        proof {
            reveal(Seq::filter);
        }
        assert(out@.map_values(at) =~= fs.take(0).filter(keep));
        while i < self.folders.len()
            invariant
                i <= self.folders@.len(),
                self.wf(),
                fs == folders(self.recs()),
                keep == (|q: Seq<char>| parent(q) == p@),
                at == (|i: usize| self.folders@[i as int]@),
                forall|k: int| 0 <= k < out@.len() ==> #[trigger] out@[k] < self.folders@.len(),
                out@.map_values(at) == fs.take(i as int).filter(keep),
            decreases self.folders.len() - i,
        {
            proof {
                assert(texts(self.folders@)[i as int] == self.folders@[i as int]@);
                lemma_filter_step(fs, i as int, keep);
            }
            if same_text(self.folder_parents[i].as_str(), p) {
                let ghost out0 = out@;
                out.push(i);
                assert(out@.map_values(at) =~= out0.map_values(at).push(fs[i as int]));
            }
            i += 1;
        }
        assert(fs.len() == self.folders@.len()) by {
            assert(texts(self.folders@).len() == self.folders@.len());
        }
        assert(fs.take(i as int) =~= fs);
        out
    }

    /// The positions of the files right in a folder.
    fn own(&self, p: &str) -> (r: Vec<usize>)
        requires
            self.wf(),
        ensures
            forall|k: int| 0 <= k < r@.len() ==> #[trigger] r@[k] < self.files@.len(),
            r@.map_values(|i: usize| self.files@[i as int]@) == files_in(self.recs(), p@),
    {
        let ghost fs = self.recs();
        let ghost keep = |f: GalleryRec| parent(f.rel_path) == p@;
        let ghost at = |i: usize| self.files@[i as int]@;
        let mut out: Vec<usize> = Vec::new();
        let mut i: usize = 0;
        proof {
            reveal(Seq::filter);
        }
        assert(out@.map_values(at) =~= fs.take(0).filter(keep));
        while i < self.files.len()
            invariant
                i <= self.files@.len(),
                self.wf(),
                fs == self.recs(),
                keep == (|f: GalleryRec| parent(f.rel_path) == p@),
                at == (|i: usize| self.files@[i as int]@),
                forall|k: int| 0 <= k < out@.len() ==> #[trigger] out@[k] < self.files@.len(),
                out@.map_values(at) == fs.take(i as int).filter(keep),
            decreases self.files.len() - i,
        {
            proof {
                assert(fs[i as int] == self.files@[i as int]@);
                lemma_filter_step(fs, i as int, keep);
            }
            if same_text(self.parents[i].as_str(), p) {
                let ghost out0 = out@;
                out.push(i);
                assert(out@.map_values(at) =~= out0.map_values(at).push(fs[i as int]));
            }
            i += 1;
        }
        assert(fs.take(i as int) =~= fs);
        out
    }

    /// The ids of the files in a folder and below it.
    fn descendants(&self, p: &str) -> (r: Vec<i64>)
        requires
            self.wf(),
            p@.len() <= longest(self.recs()),
        ensures
            r@ == descendants_of(self.recs(), p@),
        decreases longest(self.recs()) - p@.len(),
    {
        let ghost fs = self.recs();
        let ghost ss = subfolders(fs, p@);
        let ghost id_of = |f: GalleryRec| f.id;
        let own = self.own(p);
        let subs = self.subs(p);
        let ghost mine = files_in(fs, p@);
        let mut out: Vec<i64> = Vec::new();
        let mut i: usize = 0;
        while i < own.len()
            invariant
                i <= own@.len(),
                forall|k: int| 0 <= k < own@.len() ==> #[trigger] own@[k] < self.files@.len(),
                own@.map_values(|i: usize| self.files@[i as int]@) == mine,
                id_of == (|f: GalleryRec| f.id),
                out@ =~= mine.map_values(id_of).take(i as int),
            decreases own.len() - i,
        {
            assert(mine[i as int] == self.files@[own@[i as int] as int]@);
            out.push(self.files[own[i]].id);
            i += 1;
        }
        assert(mine.len() == own@.len());
        assert(out@ =~= mine.map_values(id_of));
        let mut j: usize = 0;
        assert(out@ == ids_below(fs, p@, 0));
        while j < subs.len()
            invariant
                j <= subs@.len(),
                self.wf(),
                fs == self.recs(),
                ss == subfolders(fs, p@),
                forall|k: int| 0 <= k < subs@.len() ==> #[trigger] subs@[k] < self.folders@.len(),
                subs@.map_values(|i: usize| self.folders@[i as int]@) == ss,
                p@.len() <= longest(fs),
                out@ == ids_below(fs, p@, j as int),
            decreases subs.len() - j,
        {
            assert(ss[j as int] == self.folders@[subs@[j as int] as int]@);
            assert(ss.len() == subs@.len());
            proof {
                lemma_subfolder(fs, p@, j as int);
            }
            let mut more = self.descendants(self.folders[subs[j]].as_str());
            let ghost out0 = out@;
            let ghost more0 = more@;
            out.append(&mut more);
            assert(out@ =~= out0 + more0);
            j += 1;
        }
        assert(ss.len() == subs@.len());
        out
    }

    /// Adds the rows below a folder.
    fn walk(
        &self,
        p: &str,
        depth: i32,
        expanded: &StringHashSet,
        selected: &HashSet<i64>,
        out: &mut Vec<TreeNode>,
    )
        requires
            self.wf(),
            p@.len() <= longest(self.recs()) <= i32::MAX,
            0 <= depth <= p@.len(),
        ensures
            node_recs(final(out)@) == node_recs(old(out)@) + rows_below(
                self.recs(),
                p@,
                depth as int,
                expanded@,
                selected@,
            ),
        decreases longest(self.recs()) - p@.len(),
    {
        let ghost fs = self.recs();
        let ghost ss = subfolders(fs, p@);
        let ghost start = node_recs(out@);
        let own = self.own(p);
        let subs = self.subs(p);
        let mut j: usize = 0;
        assert(start + folder_rows(fs, p@, 0, depth as int, expanded@, selected@) =~= start);
        while j < subs.len()
            invariant
                j <= subs@.len(),
                self.wf(),
                fs == self.recs(),
                ss == subfolders(fs, p@),
                forall|k: int| 0 <= k < subs@.len() ==> #[trigger] subs@[k] < self.folders@.len(),
                subs@.map_values(|i: usize| self.folders@[i as int]@) == ss,
                p@.len() <= longest(fs) <= i32::MAX,
                0 <= depth <= p@.len(),
                node_recs(out@) == start + folder_rows(fs, p@, j as int, depth as int, expanded@, selected@),
            decreases subs.len() - j,
        {
            assert(ss[j as int] == self.folders@[subs@[j as int] as int]@);
            assert(ss.len() == subs@.len());
            proof {
                lemma_subfolder(fs, p@, j as int);
            }
            let ghost q = ss[j as int];
            let sub = &self.folders[subs[j]];
            let desc = self.descendants(sub.as_str());
            let state: i32 = state_of_ids(&desc, selected);
            let exp = expanded.contains(sub.as_str());
            let node = TreeNode {
                label: last_component(sub.as_str()),
                depth,
                is_folder: true,
                is_video: false,
                expanded: exp,
                sel_state: state,
                file_id: -1,
                path: sub.clone(),
                descendants: desc,
            };
            let ghost out0 = node_recs(out@);
            let ghost rec = node@;
            assert(rec =~= folder_node(fs, q, depth as int, expanded@, selected@));
            out.push(node);
            assert(node_recs(out@) =~= out0.push(rec));
            let ghost before = folder_rows(fs, p@, j as int, depth as int, expanded@, selected@);
            if exp {
                self.walk(sub.as_str(), depth + 1, expanded, selected, out);
                assert(node_recs(out@) =~= start + (before.push(rec) + rows_below(
                    fs,
                    q,
                    depth + 1,
                    expanded@,
                    selected@,
                )));
            } else {
                assert(node_recs(out@) =~= start + (before.push(rec) + Seq::<NodeRec>::empty()));
            }
            j += 1;
        }
        assert(ss.len() == subs@.len());
        let ghost mine = files_in(fs, p@);
        let ghost rows = file_nodes(fs, p@, depth as int, selected@);
        let ghost mid = node_recs(out@);
        let mut i: usize = 0;
        assert(mid + rows.take(0) =~= mid);
        while i < own.len()
            invariant
                i <= own@.len(),
                forall|k: int| 0 <= k < own@.len() ==> #[trigger] own@[k] < self.files@.len(),
                own@.map_values(|i: usize| self.files@[i as int]@) == mine,
                mine == files_in(fs, p@),
                rows == file_nodes(fs, p@, depth as int, selected@),
                node_recs(out@) == mid + rows.take(i as int),
            decreases own.len() - i,
        {
            assert(mine[i as int] == self.files@[own@[i as int] as int]@);
            assert(mine.len() == own@.len());
            let f = &self.files[own[i]];
            let state: i32 = if selected.contains(&f.id) {
                1
            } else {
                0
            };
            let node = TreeNode {
                label: f.name.clone(),
                depth,
                is_folder: false,
                is_video: f.is_video,
                expanded: false,
                sel_state: state,
                file_id: f.id,
                path: f.rel_path.clone(),
                descendants: Vec::new(),
            };
            let ghost out0 = node_recs(out@);
            let ghost rec = node@;
            assert(rec =~= rows[i as int]);
            out.push(node);
            assert(node_recs(out@) =~= out0.push(rec));
            assert(rows.take(i + 1) =~= rows.take(i as int).push(rec));
            assert(node_recs(out@) =~= mid + rows.take(i + 1));
            i += 1;
        }
        assert(mine.len() == own@.len());
        assert(rows.take(i as int) =~= rows);
        assert(node_recs(out@) =~= start + rows_below(fs, p@, depth as int, expanded@, selected@));
    }
}

/// The last part of a path.
fn last_component(path: &str) -> (r: String)
    ensures
        r@ == base_name(path@),
{
    basename(path)
}

fn state_of_ids(ids: &Vec<i64>, selected: &HashSet<i64>) -> (r: i32)
    ensures
        r == state_of(ids@, selected@),
{
    let mut none = true;
    let mut all = true;
    let mut i: usize = 0;
    while i < ids.len()
        invariant
            i <= ids@.len(),
            none == (forall|k: int| 0 <= k < i ==> !selected@.contains(#[trigger] ids@[k])),
            all == (forall|k: int| 0 <= k < i ==> selected@.contains(#[trigger] ids@[k])),
        decreases ids.len() - i,
    {
        let id: i64 = ids[i];
        assert(ids@[i as int] == id);
        if selected.contains(&id) {
            none = false;
        } else {
            all = false;
        }
        i += 1;
    }
    if none {
        0
    } else if all {
        1
    } else {
        2
    }
}

/// The state of a row in a selection: 0 not selected, 1 selected, 2 selected in
/// part.
pub fn sel_state(node: &TreeNode, selected: &HashSet<i64>) -> (r: i32)
    ensures
        r == node_state(node@, selected@),
{
    if node.is_folder {
        state_of_ids(&node.descendants, selected)
    } else if selected.contains(&node.file_id) {
        1
    } else {
        0
    }
}

/// The folders that the paths lead through, with repetitions.
fn all_folders(files: &Vec<GalleryFile>) -> (r: Vec<String>)
    ensures
        forall|p: Seq<char>| #[trigger] texts(r@).contains(p) <==> is_folder(gallery_recs(files@), p),
{
    let ghost fs = gallery_recs(files@);
    let mut out: Vec<String> = Vec::new();
    let mut i: usize = 0;
    while i < files.len()
        invariant
            i <= files@.len(),
            fs == gallery_recs(files@),
            forall|p: Seq<char>| #[trigger] texts(out@).contains(p) <==> exists|a: int, k: int|
                0 <= a < i && #[trigger] leads_through(fs[a].rel_path, k, p),
        decreases files.len() - i,
    {
        let v = chars_of(files[i].rel_path.as_str());
        assert(v@ == fs[i as int].rel_path);
        let mut j: usize = 0;
        while j < v.len()
            invariant
                i < files@.len(),
                j <= v@.len(),
                fs == gallery_recs(files@),
                v@ == fs[i as int].rel_path,
                forall|p: Seq<char>| #[trigger] texts(out@).contains(p) <==> exists|a: int, k: int|
                    0 <= a <= i && (a < i || k < j) && #[trigger] leads_through(fs[a].rel_path, k, p),
            decreases v.len() - j,
        {
            let ghost out0 = texts(out@);
            if v[j] == '/' {
                let s = string_of(&v, 0, j);
                let ghost t = s@;
                assert(t =~= v@.take(j as int));
                out.push(s);
                assert(texts(out@) =~= out0.push(t));
                assert forall|p: Seq<char>| #[trigger] texts(out@).contains(p) <==> exists|a: int, k: int|
                    0 <= a <= i && (a < i || k < j + 1) && #[trigger] leads_through(fs[a].rel_path, k, p) by {
                    lemma_push_contains(out0, t, p);
                    if out0.contains(p) {
                        let (a, k) = choose|a: int, k: int|
                            0 <= a <= i && (a < i || k < j) && #[trigger] leads_through(fs[a].rel_path, k, p);
                        assert(leads_through(fs[a].rel_path, k, p));
                    }
                    if p == t {
                        assert(leads_through(fs[i as int].rel_path, j as int, p));
                    }
                    if exists|a: int, k: int|
                        0 <= a <= i && (a < i || k < j + 1) && #[trigger] leads_through(fs[a].rel_path, k, p) {
                        let (a, k) = choose|a: int, k: int|
                            0 <= a <= i && (a < i || k < j + 1) && #[trigger] leads_through(fs[a].rel_path, k, p);
                        if a == i && k == j {
                            assert(p == t);
                        } else {
                            assert(out0.contains(p));
                        }
                    }
                }
            } else {
                assert forall|p: Seq<char>| #[trigger] texts(out@).contains(p) <==> exists|a: int, k: int|
                    0 <= a <= i && (a < i || k < j + 1) && #[trigger] leads_through(fs[a].rel_path, k, p) by {
                    if out0.contains(p) {
                        let (a, k) = choose|a: int, k: int|
                            0 <= a <= i && (a < i || k < j) && #[trigger] leads_through(fs[a].rel_path, k, p);
                        assert(leads_through(fs[a].rel_path, k, p));
                    }
                    if exists|a: int, k: int|
                        0 <= a <= i && (a < i || k < j + 1) && #[trigger] leads_through(fs[a].rel_path, k, p) {
                        let (a, k) = choose|a: int, k: int|
                            0 <= a <= i && (a < i || k < j + 1) && #[trigger] leads_through(fs[a].rel_path, k, p);
                        assert(!(a == i && k == j));
                        assert(out0.contains(p));
                    }
                }
            }
            j += 1;
        }
        assert forall|p: Seq<char>| #[trigger] texts(out@).contains(p) <==> exists|a: int, k: int|
            0 <= a < i + 1 && #[trigger] leads_through(fs[a].rel_path, k, p) by {
            if texts(out@).contains(p) {
                let (a, k) = choose|a: int, k: int|
                    0 <= a <= i && (a < i || k < j) && #[trigger] leads_through(fs[a].rel_path, k, p);
                assert(leads_through(fs[a].rel_path, k, p));
            }
            if exists|a: int, k: int| 0 <= a < i + 1 && #[trigger] leads_through(fs[a].rel_path, k, p) {
                let (a, k) = choose|a: int, k: int| 0 <= a < i + 1 && #[trigger] leads_through(fs[a].rel_path, k, p);
                assert(0 <= a <= i && (a < i || k < j));
            }
        }
        i += 1;
    }
    assert forall|p: Seq<char>| #[trigger] texts(out@).contains(p) <==> is_folder(fs, p) by {
        if texts(out@).contains(p) {
            let (a, k) = choose|a: int, k: int| 0 <= a < i && #[trigger] leads_through(fs[a].rel_path, k, p);
            assert(leads_through(fs[a].rel_path, k, p));
        }
    }
    out
}

proof fn lemma_folders_unique(files: Seq<GalleryRec>, s: Seq<Seq<char>>)
    requires
        lists_folders(files, s),
    ensures
        s == folders(files),
{
    lemma_folders(files);
    let lt = in_text_order();
    assert(asymmetric(lt)) by {
        assert forall|a: Seq<char>, b: Seq<char>| #[trigger] lt(a, b) implies !lt(b, a) by {
            if text_lt(b, a) {
                lemma_text_lt_transitive(a, b, a);
            }
            lemma_text_lt_irreflexive(a);
        }
    }
    let f = folders(files);
    assert forall|p: Seq<char>| s.contains(p) <==> f.contains(p) by {
        assert(s.contains(p) <==> is_folder(files, p));
    }
    lemma_increasing_unique(s, f, lt);
}

/// Whether the rows of the tree can be made: no path begins with a slash, and none is
/// too long to count its folders.
pub fn can_build(files: &Vec<GalleryFile>) -> (r: bool)
    ensures
        r == (paths_ok(gallery_recs(files@)) && longest(gallery_recs(files@)) <= i32::MAX),
{
    let ghost fs = gallery_recs(files@);
    let mut i: usize = 0;
    while i < files.len()
        invariant
            i <= files@.len(),
            fs == gallery_recs(files@),
            paths_ok(fs.take(i as int)),
            longest(fs.take(i as int)) <= i32::MAX,
        decreases files.len() - i,
    {
        let path = chars_of(files[i].rel_path.as_str());
        assert(fs[i as int].rel_path == path@);
        assert(fs.take(i + 1).drop_last() =~= fs.take(i as int));
        assert(fs.take(i + 1).last() == fs[i as int]);
        proof {
            lemma_longest(fs, i as int);
        }
        if path.len() > 0 && path[0] == '/' {
            return false;
        }
        if path.len() > 0x7fff_ffff {
            return false;
        }
        assert forall|k: int|
            0 <= k < fs.take(i + 1).len() && (#[trigger] fs.take(i + 1)[k]).rel_path.len() > 0 implies fs.take(
            i + 1,
        )[k].rel_path[0] != '/' by {
            if k < i {
                assert(fs.take(i as int)[k] == fs[k]);
            }
        }
        i += 1;
    }
    assert(fs.take(i as int) =~= fs);
    true
}

/// The rows of the tree that can be seen: folders before files, and what is in a
/// folder only where it is expanded.
pub fn build(files: &Vec<GalleryFile>, expanded: &StringHashSet, selected: &HashSet<i64>) -> (r: Vec<TreeNode>)
    requires
        paths_ok(gallery_recs(files@)),
        longest(gallery_recs(files@)) <= i32::MAX,
    ensures
        node_recs(r@) == rows_below(gallery_recs(files@), Seq::empty(), 0, expanded@, selected@),
{
    let ghost fs = gallery_recs(files@);
    let raw = all_folders(files);
    let folders = sorted_once(&raw);
    let mut folder_parents: Vec<String> = Vec::new();
    let mut i: usize = 0;
    while i < folders.len()
        invariant
            i <= folders@.len(),
            folder_parents@.len() == i,
            forall|k: int| 0 <= k < i ==> (#[trigger] folder_parents@[k])@ == parent(folders@[k]@),
        decreases folders.len() - i,
    {
        folder_parents.push(parent_of(folders[i].as_str()));
        i += 1;
    }
    let mut parents: Vec<String> = Vec::new();
    let mut j: usize = 0;
    while j < files.len()
        invariant
            j <= files@.len(),
            parents@.len() == j,
            forall|k: int| 0 <= k < j ==> (#[trigger] parents@[k])@ == parent(files@[k].rel_path@),
        decreases files.len() - j,
    {
        parents.push(parent_of(files[j].rel_path.as_str()));
        j += 1;
    }
    proof {
        assert(lists_folders(fs, texts(folders@)));
        lemma_folders_unique(fs, texts(folders@));
        if fs.len() > 0 {
            lemma_longest(fs, 0);
        }
        reveal_strlit("");
    }
    let tree = Tree { files, parents, folders, folder_parents };
    let mut out: Vec<TreeNode> = Vec::new();
    assert(""@ =~= Seq::<char>::empty());
    tree.walk("", 0, expanded, selected, &mut out);
    assert(node_recs(out@) =~= rows_below(fs, Seq::empty(), 0, expanded@, selected@));
    out
}

// ---------------------------------------------------------------------------
// What holds of every tree.

/// Whether the file with the path is somewhere below the folder; every file is
/// below the top.
pub open spec fn is_below(rel: Seq<char>, p: Seq<char>) -> bool {
    p.len() == 0 || leads_through(rel, p.len() as int, p)
}

/// The first slash at or after a position, before the last slash or at it.
proof fn lemma_next_slash(rel: Seq<char>, from: int, to: int) -> (k: int)
    requires
        0 <= from <= to < rel.len(),
        rel[to] == '/',
    ensures
        from <= k <= to,
        rel[k] == '/',
        forall|j: int| from <= j < k ==> rel[j] != '/',
    decreases to - from,
{
    if rel[from] == '/' {
        from
    } else {
        lemma_next_slash(rel, from + 1, to)
    }
}

proof fn lemma_last_at_is(s: Seq<char>, c: char, k: int)
    requires
        -1 <= k < s.len(),
        k >= 0 ==> s[k] == c,
        forall|j: int| k < j < s.len() ==> s[j] != c,
    ensures
        last_at(s, c) == k,
{
    lemma_last_at(s, c);
}

/// A file below a folder is right in it or below one of its subfolders.
pub proof fn lemma_step_down(files: Seq<GalleryRec>, p: Seq<char>, i: int) -> (n: int)
    requires
        paths_ok(files),
        0 <= i < files.len(),
        is_below(files[i].rel_path, p),
        parent(files[i].rel_path) != p,
    ensures
        0 <= n < subfolders(files, p).len(),
        is_below(files[i].rel_path, subfolders(files, p)[n]),
{
    let rel = files[i].rel_path;
    lemma_last_at(rel, '/');
    let last = last_at(rel, '/');
    let from = if p.len() == 0 {
        0int
    } else {
        p.len() as int + 1
    };
    assert(from <= last) by {
        if p.len() == 0 {
            assert(p =~= Seq::<char>::empty());
        } else {
            assert(rel[p.len() as int] == '/');
            assert(last >= p.len());
            if last == p.len() {
                assert(rel.take(last) =~= p);
            }
        }
    }
    let k = lemma_next_slash(rel, from, last);
    let q = rel.take(k);
    assert(leads_through(rel, k, q));
    assert(is_folder(files, q));
    assert(parent(q) == p) by {
        if p.len() == 0 {
            lemma_last_at_is(q, '/', -1);
            assert(parent(q) =~= p);
        } else {
            assert(q[p.len() as int] == '/');
            lemma_last_at_is(q, '/', p.len() as int);
            assert(q.take(p.len() as int) =~= p);
        }
    }
    let keep = |x: Seq<char>| parent(x) == p;
    lemma_folders(files);
    lemma_filter_from(folders(files), keep);
    assert(folders(files).contains(q));
    assert(subfolders(files, p).contains(q));
    let n = choose|n: int| 0 <= n < subfolders(files, p).len() && subfolders(files, p)[n] == q;
    assert(q.len() == k);
    n
}

/// What is right in a folder, or below a subfolder of it, is below the folder.
proof fn lemma_step_up(rel: Seq<char>, p: Seq<char>, q: Seq<char>)
    requires
        parent(q) == p,
        q.len() > 0,
        is_below(rel, q),
    ensures
        is_below(rel, p),
{
    lemma_last_at(q, '/');
    if p.len() > 0 {
        let k = last_at(q, '/');
        assert(k == p.len());
        assert(q[k] == '/');
        assert(rel[k] == q[k]);
        assert(rel.take(k) =~= q.take(k));
    }
}

/// What is listed are the files right in a folder and those below its first `n` subfolders.
pub proof fn lemma_ids_below(files: Seq<GalleryRec>, p: Seq<char>, n: int, id: i64)
    requires
        paths_ok(files),
        0 <= n <= subfolders(files, p).len(),
    ensures
        ids_below(files, p, n).contains(id) <==> exists|i: int|
            0 <= i < files.len() && (#[trigger] files[i]).id == id && (parent(files[i].rel_path) == p || exists|j: int|
                0 <= j < n && is_below(files[i].rel_path, #[trigger] subfolders(files, p)[j])),
    decreases longest(files) - p.len(), n,
{
    let ss = subfolders(files, p);
    if n == 0 {
        let keep = |f: GalleryRec| parent(f.rel_path) == p;
        let own = files_in(files, p);
        let ids = own.map_values(|f: GalleryRec| f.id);
        lemma_filter_from(files, keep);
        if ids.contains(id) {
            let k = choose|k: int| 0 <= k < ids.len() && ids[k] == id;
            assert(own.contains(own[k]));
            let i = choose|i: int| 0 <= i < files.len() && files[i] == own[k];
            assert(files[i].id == id);
        }
        if exists|i: int| 0 <= i < files.len() && (#[trigger] files[i]).id == id && parent(files[i].rel_path) == p {
            let i = choose|i: int|
                0 <= i < files.len() && (#[trigger] files[i]).id == id && parent(files[i].rel_path) == p;
            assert(files.contains(files[i]));
            assert(own.contains(files[i]));
            let k = choose|k: int| 0 <= k < own.len() && own[k] == files[i];
            assert(ids[k] == id);
        }
    } else {
        let q = ss[n - 1];
        lemma_subfolder(files, p, n - 1);
        lemma_ids_below(files, p, n - 1, id);
        lemma_descendants(files, q, id);
        let a = ids_below(files, p, n - 1);
        let b = descendants_of(files, q);
        let c = ids_below(files, p, n);
        assert(c == a + b);
        assert(c.contains(id) <==> a.contains(id) || b.contains(id)) by {
            if c.contains(id) {
                let k = choose|k: int| 0 <= k < c.len() && c[k] == id;
                if k < a.len() {
                    assert(a[k] == id);
                } else {
                    assert(b[k - a.len()] == id);
                }
            }
            if a.contains(id) {
                let k = choose|k: int| 0 <= k < a.len() && a[k] == id;
                assert(c[k] == id);
            }
            if b.contains(id) {
                let k = choose|k: int| 0 <= k < b.len() && b[k] == id;
                assert(c[a.len() + k] == id);
            }
        }
        if b.contains(id) {
            let i = choose|i: int| 0 <= i < files.len() && (#[trigger] files[i]).id == id && is_below(files[i].rel_path, q);
            assert(is_below(files[i].rel_path, ss[n - 1]));
            assert(files[i].id == id);
        }
        if a.contains(id) {
            let i = choose|i: int|
                0 <= i < files.len() && (#[trigger] files[i]).id == id && (parent(files[i].rel_path) == p || exists|j: int|
                    0 <= j < n - 1 && is_below(files[i].rel_path, #[trigger] ss[j]));
            if parent(files[i].rel_path) != p {
                let j = choose|j: int| 0 <= j < n - 1 && is_below(files[i].rel_path, #[trigger] ss[j]);
                assert(is_below(files[i].rel_path, ss[j]));
            }
            assert(files[i].id == id);
        }
        if exists|i: int|
            0 <= i < files.len() && (#[trigger] files[i]).id == id && (parent(files[i].rel_path) == p || exists|j: int|
                0 <= j < n && is_below(files[i].rel_path, #[trigger] ss[j])) {
            let i = choose|i: int|
                0 <= i < files.len() && (#[trigger] files[i]).id == id && (parent(files[i].rel_path) == p || exists|j: int|
                    0 <= j < n && is_below(files[i].rel_path, #[trigger] ss[j]));
            if parent(files[i].rel_path) == p {
                assert(a.contains(id));
            } else {
                let j = choose|j: int| 0 <= j < n && is_below(files[i].rel_path, #[trigger] ss[j]);
                if j < n - 1 {
                    assert(a.contains(id));
                } else {
                    assert(b.contains(id));
                }
            }
        }
    }
}

proof fn lemma_descendants(files: Seq<GalleryRec>, p: Seq<char>, id: i64)
    requires
        paths_ok(files),
    ensures
        descendants_of(files, p).contains(id) <==> exists|i: int|
            0 <= i < files.len() && (#[trigger] files[i]).id == id && (is_below(files[i].rel_path, p) || parent(
                files[i].rel_path,
            ) == p),
        is_folder(files, p) || p.len() == 0 ==> (descendants_of(files, p).contains(id) <==> exists|i: int|
            0 <= i < files.len() && (#[trigger] files[i]).id == id && is_below(files[i].rel_path, p)),
    decreases longest(files) - p.len(), subfolders(files, p).len() + 1,
{
    let ss = subfolders(files, p);
    let d = descendants_of(files, p);
    lemma_ids_below(files, p, ss.len() as int, id);
    assert forall|i: int| 0 <= i < files.len() && p.len() > 0 && parent((#[trigger] files[i]).rel_path) == p implies is_below(
        files[i].rel_path,
        p,
    ) by {
        lemma_last_at(files[i].rel_path, '/');
    }
    if d.contains(id) {
        let i = choose|i: int|
            0 <= i < files.len() && (#[trigger] files[i]).id == id && (parent(files[i].rel_path) == p || exists|j: int|
                0 <= j < ss.len() && is_below(files[i].rel_path, #[trigger] ss[j]));
        if parent(files[i].rel_path) != p {
            let j = choose|j: int| 0 <= j < ss.len() && is_below(files[i].rel_path, #[trigger] ss[j]);
            lemma_subfolder(files, p, j);
            lemma_step_up(files[i].rel_path, p, ss[j]);
        }
        assert(files[i].id == id);
        assert(is_below(files[i].rel_path, p));
    }
    if exists|i: int|
        0 <= i < files.len() && (#[trigger] files[i]).id == id && (is_below(files[i].rel_path, p) || parent(
            files[i].rel_path,
        ) == p) {
        let i = choose|i: int|
            0 <= i < files.len() && (#[trigger] files[i]).id == id && (is_below(files[i].rel_path, p) || parent(
                files[i].rel_path,
            ) == p);
        if parent(files[i].rel_path) != p {
            let n = lemma_step_down(files, p, i);
            assert(is_below(files[i].rel_path, ss[n]));
        }
        assert(files[i].id == id);
        assert(d.contains(id));
    }
}

/// A folder stands for the files below it, at any depth, and for no others.
pub proof fn law_folder_stands_for_files_below(files: Seq<GalleryRec>, p: Seq<char>, id: i64)
    requires
        paths_ok(files),
        is_folder(files, p) || p.len() == 0,
    ensures
        descendants_of(files, p).contains(id) <==> exists|i: int|
            0 <= i < files.len() && (#[trigger] files[i]).id == id && is_below(files[i].rel_path, p),
{
    lemma_descendants(files, p, id);
}

/// A folder is selected where all files below it are, and in part where some are.
pub proof fn law_folder_state(files: Seq<GalleryRec>, p: Seq<char>, selected: Set<i64>)
    requires
        paths_ok(files),
        is_folder(files, p),
    ensures
        state_of(descendants_of(files, p), selected) == 0 <==> forall|i: int|
            0 <= i < files.len() && is_below((#[trigger] files[i]).rel_path, p) ==> !selected.contains(files[i].id),
        state_of(descendants_of(files, p), selected) == 1 <==> forall|i: int|
            0 <= i < files.len() && is_below((#[trigger] files[i]).rel_path, p) ==> selected.contains(files[i].id),
{
    let d = descendants_of(files, p);
    let (a, k) = choose|a: int, k: int| 0 <= a < files.len() && #[trigger] leads_through(files[a].rel_path, k, p);
    assert(p.len() == k);
    assert(is_below(files[a].rel_path, p));
    assert forall|i: int| 0 <= i < files.len() && is_below((#[trigger] files[i]).rel_path, p) implies d.contains(
        files[i].id,
    ) by {
        law_folder_stands_for_files_below(files, p, files[i].id);
    }
    assert forall|n: int| 0 <= n < d.len() implies exists|i: int|
        0 <= i < files.len() && (#[trigger] files[i]).id == #[trigger] d[n] && is_below(files[i].rel_path, p) by {
        law_folder_stands_for_files_below(files, p, d[n]);
        assert(d.contains(d[n]));
    }
    let none = forall|i: int| 0 <= i < d.len() ==> !selected.contains(#[trigger] d[i]);
    let all = forall|i: int| 0 <= i < d.len() ==> selected.contains(#[trigger] d[i]);
    assert(d.contains(files[a].id));
    if none {
        assert forall|i: int| 0 <= i < files.len() && is_below((#[trigger] files[i]).rel_path, p) implies !selected.contains(
            files[i].id,
        ) by {
            let n = choose|n: int| 0 <= n < d.len() && d[n] == files[i].id;
            assert(!selected.contains(d[n]));
        }
    }
    if all {
        assert forall|i: int| 0 <= i < files.len() && is_below((#[trigger] files[i]).rel_path, p) implies selected.contains(
            files[i].id,
        ) by {
            let n = choose|n: int| 0 <= n < d.len() && d[n] == files[i].id;
            assert(selected.contains(d[n]));
        }
    }
}

proof fn lemma_folder_row_states(
    files: Seq<GalleryRec>,
    p: Seq<char>,
    n: int,
    depth: int,
    expanded: Set<Seq<char>>,
    selected: Set<i64>,
    k: int,
)
    requires
        paths_ok(files),
        0 <= n <= subfolders(files, p).len(),
        0 <= k < folder_rows(files, p, n, depth, expanded, selected).len(),
    ensures
        ({
            let row = folder_rows(files, p, n, depth, expanded, selected)[k];
            row.sel_state == node_state(row, selected)
        }),
    decreases longest(files) - p.len(), n,
{
    if n > 0 {
        let q = subfolders(files, p)[n - 1];
        lemma_subfolder(files, p, n - 1);
        let a = folder_rows(files, p, n - 1, depth, expanded, selected);
        let all = folder_rows(files, p, n, depth, expanded, selected);
        if k < a.len() {
            lemma_folder_row_states(files, p, n - 1, depth, expanded, selected, k);
            assert(all[k] == a[k]);
        } else if k == a.len() {
            assert(all[k] == folder_node(files, q, depth, expanded, selected));
        } else {
            let m = subfolders(files, q).len() as int;
            let b = folder_rows(files, q, m, depth + 1, expanded, selected);
            let j = k - a.len() - 1;
            if j < b.len() {
                lemma_folder_row_states(files, q, m, depth + 1, expanded, selected, j);
                assert(all[k] == b[j]);
            } else {
                let own = files_in(files, q);
                assert(all[k] == file_node(own[j - b.len()], depth + 1, selected));
            }
        }
    }
}

/// Every row of the tree shows the state that the selection gives it.
pub proof fn law_rows_show_the_selection(
    files: Seq<GalleryRec>,
    expanded: Set<Seq<char>>,
    selected: Set<i64>,
    k: int,
)
    requires
        paths_ok(files),
        0 <= k < rows_below(files, Seq::empty(), 0, expanded, selected).len(),
    ensures
        ({
            let row = rows_below(files, Seq::empty(), 0, expanded, selected)[k];
            row.sel_state == node_state(row, selected)
        }),
{
    let top = Seq::<char>::empty();
    let n = subfolders(files, top).len() as int;
    let a = folder_rows(files, top, n, 0, expanded, selected);
    let all = rows_below(files, top, 0, expanded, selected);
    if k < a.len() {
        lemma_folder_row_states(files, top, n, 0, expanded, selected, k);
        assert(all[k] == a[k]);
    } else {
        assert(all[k] == file_node(files_in(files, top)[k - a.len()], 0, selected));
    }
}

/// A row, with the state that a selection gives it.
pub open spec fn reselected(row: NodeRec, selected: Set<i64>) -> NodeRec {
    NodeRec { sel_state: node_state(row, selected), ..row }
}

proof fn lemma_file_rows_reselected(
    files: Seq<GalleryRec>,
    p: Seq<char>,
    depth: int,
    before: Set<i64>,
    after: Set<i64>,
)
    ensures
        file_nodes(files, p, depth, after) == file_nodes(files, p, depth, before).map_values(
            |row: NodeRec| reselected(row, after),
        ),
{
    let a = file_nodes(files, p, depth, before).map_values(|row: NodeRec| reselected(row, after));
    let b = file_nodes(files, p, depth, after);
    assert(a.len() == b.len());
    assert forall|k: int| 0 <= k < a.len() implies a[k] == b[k] by {
        assert(a[k] == reselected(file_node(files_in(files, p)[k], depth, before), after));
    }
    assert(a =~= b);
}

proof fn lemma_folder_rows_reselected(
    files: Seq<GalleryRec>,
    p: Seq<char>,
    n: int,
    depth: int,
    expanded: Set<Seq<char>>,
    before: Set<i64>,
    after: Set<i64>,
)
    requires
        paths_ok(files),
        0 <= n <= subfolders(files, p).len(),
    ensures
        folder_rows(files, p, n, depth, expanded, after) == folder_rows(files, p, n, depth, expanded, before).map_values(
            |row: NodeRec| reselected(row, after),
        ),
    decreases longest(files) - p.len(), n,
{
    let f = |row: NodeRec| reselected(row, after);
    let x = folder_rows(files, p, n, depth, expanded, before);
    let y = folder_rows(files, p, n, depth, expanded, after);
    if n > 0 {
        let q = subfolders(files, p)[n - 1];
        let m = subfolders(files, q).len() as int;
        lemma_subfolder(files, p, n - 1);
        lemma_folder_rows_reselected(files, p, n - 1, depth, expanded, before, after);
        lemma_folder_rows_reselected(files, q, m, depth + 1, expanded, before, after);
        lemma_file_rows_reselected(files, q, depth + 1, before, after);
        assert(f(folder_node(files, q, depth, expanded, before)) == folder_node(files, q, depth, expanded, after));
    }
    assert(y =~= x.map_values(f));
}

/// Where the selection changes, the rows need not be made anew: they are the same but
/// for their states, and their states are those that the new selection gives to the
/// old rows.
pub proof fn law_rows_are_refreshed_in_place(
    files: Seq<GalleryRec>,
    expanded: Set<Seq<char>>,
    before: Set<i64>,
    after: Set<i64>,
)
    requires
        paths_ok(files),
    ensures
        ({
            let old_rows = rows_below(files, Seq::empty(), 0, expanded, before);
            let new_rows = rows_below(files, Seq::empty(), 0, expanded, after);
            &&& new_rows.len() == old_rows.len()
            &&& forall|k: int|
                0 <= k < new_rows.len() ==> #[trigger] new_rows[k] == (NodeRec {
                    sel_state: node_state(old_rows[k], after),
                    ..old_rows[k]
                })
        }),
{
    let top = Seq::<char>::empty();
    let n = subfolders(files, top).len() as int;
    lemma_folder_rows_reselected(files, top, n, 0, expanded, before, after);
    lemma_file_rows_reselected(files, top, 0, before, after);
    let old_rows = rows_below(files, top, 0, expanded, before);
    let new_rows = rows_below(files, top, 0, expanded, after);
    assert(new_rows =~= old_rows.map_values(|row: NodeRec| reselected(row, after)));
}

} // verus!
