//! What is selected and what is expanded in the tree, and what clicks do to it.
//!
//! A click selects at once. A double click comes as two clicks and the double
//! click, so what was selected before the first of them is kept, and a double click
//! goes back to it.

use std::collections::HashSet;
use vstd::prelude::*;
use vstd::hash_set::StringHashSet;
use crate::tree::{node_recs, node_state, NodeRec, TreeNode};

verus! {

broadcast use {vstd::string::group_string_axioms, vstd::std_specs::hash::group_hash_axioms};

/// How long after a click a second one makes a pair with it, in milliseconds.
pub const PAIR_MS: u64 = 500;

/// The same ids in a set of its own.
fn copy_ids(s: &HashSet<i64>) -> (r: HashSet<i64>)
    ensures
        r@ == s@,
{
    let mut out: HashSet<i64> = HashSet::new();
    for x in it: s.iter()
        invariant
            it.seq().unref().to_set() == s@,
            forall|v: i64| #[trigger] out@.contains(v) <==> exists|k: int|
                0 <= k < it.index() && #[trigger] it.seq().unref()[k] == v,
    {
        let ghost n = it.index();
        let ghost all = it.seq().unref();
        let ghost out0 = out@;
        out.insert(*x);
        assert(all[n] == *x);
        assert forall|v: i64| #[trigger] out@.contains(v) <==> exists|k: int|
            0 <= k < n + 1 && #[trigger] all[k] == v by {
            if out0.contains(v) {
                let k = choose|k: int| 0 <= k < n && #[trigger] all[k] == v;
                assert(all[k] == v);
            }
        }
    }
    assert(out@ =~= s@);
    out
}

/// The ids of a set, each once, in no particular order.
fn list_ids(s: &HashSet<i64>) -> (r: Vec<i64>)
    ensures
        r@.to_set() == s@,
        r@.no_duplicates(),
{
    let mut out: Vec<i64> = Vec::new();
    for x in it: s.iter()
        invariant
            it.seq().unref().to_set() == s@,
            it.seq().no_duplicates(),
            out@ == it.seq().unref().take(it.index() as int),
            out@.no_duplicates(),
            it.index() == it.seq().len() ==> out@.to_set() == s@,
    {
        let ghost n = it.index();
        let ghost all = it.seq().unref();
        assert(all[n] == *x);
        assert forall|k: int| 0 <= k < n implies all[k] != *x by {
            assert(it.seq()[k] != it.seq()[n]);
        }
        out.push(*x);
        assert(out@ =~= all.take(n + 1));
        assert(n + 1 == all.len() ==> all.take(n + 1) =~= all);
    }
    out
}

/// What is selected and what is expanded.
#[verifier::ext_equal]
pub struct SelRec {
    pub selected: Set<i64>,
    pub expanded: Set<Seq<char>>,
    /// What was selected before the first click of a pair.
    pub snapshot: Set<i64>,
    /// The row of the last click, and when it came.
    pub last_click: Option<(i32, u64)>,
}

/// What is selected and what is expanded in the tree.
pub struct Selection {
    selected: HashSet<i64>,
    expanded: StringHashSet,
    snapshot: HashSet<i64>,
    last_click: Option<(i32, u64)>,
}

impl View for Selection {
    type V = SelRec;

    closed spec fn view(&self) -> SelRec {
        SelRec {
            selected: self.selected@,
            expanded: self.expanded@,
            snapshot: self.snapshot@,
            last_click: self.last_click,
        }
    }
}

/// Whether a row has the number.
pub open spec fn is_row(rows: Seq<NodeRec>, idx: i32) -> bool {
    0 <= idx < rows.len()
}

/// Whether all files of a folder are selected.
pub open spec fn all_selected(selected: Set<i64>, ids: Seq<i64>) -> bool {
    ids.len() > 0 && forall|i: int| 0 <= i < ids.len() ==> selected.contains(#[trigger] ids[i])
}

/// What is selected after a click on a row: for a folder all files below it or,
/// where they were all selected, none; for a file the other of the two.
pub open spec fn toggled(selected: Set<i64>, row: NodeRec) -> Set<i64> {
    if row.is_folder {
        if all_selected(selected, row.descendants) {
            selected.difference(row.descendants.to_set())
        } else {
            selected.union(row.descendants.to_set())
        }
    } else if selected.contains(row.file_id) {
        selected.remove(row.file_id)
    } else {
        selected.insert(row.file_id)
    }
}

/// Whether a click is the second of a pair.
pub open spec fn is_second(s: SelRec, idx: i32, now: u64) -> bool {
    s.last_click matches Some(c) && c.0 == idx && now - c.1 < PAIR_MS
}

/// The state after a click.
pub open spec fn clicked(s: SelRec, rows: Seq<NodeRec>, idx: i32, now: u64) -> SelRec {
    SelRec {
        selected: if is_row(rows, idx) {
            toggled(s.selected, rows[idx as int])
        } else {
            s.selected
        },
        snapshot: if is_second(s, idx, now) {
            s.snapshot
        } else {
            s.selected
        },
        last_click: Some((idx, now)),
        ..s
    }
}

/// The folders that are expanded after one of them was opened or closed.
pub open spec fn expanded_after(expanded: Set<Seq<char>>, row: NodeRec) -> Set<Seq<char>> {
    if expanded.contains(row.path) {
        expanded.remove(row.path)
    } else {
        expanded.insert(row.path)
    }
}

/// The state after a click on the mark of a folder.
pub open spec fn opened_or_closed(s: SelRec, rows: Seq<NodeRec>, idx: i32) -> SelRec {
    if is_row(rows, idx) && rows[idx as int].is_folder {
        SelRec { expanded: expanded_after(s.expanded, rows[idx as int]), ..s }
    } else {
        s
    }
}

/// The state after a double click: what the two clicks selected is taken back.
pub open spec fn double_clicked(s: SelRec, rows: Seq<NodeRec>, idx: i32) -> SelRec {
    opened_or_closed(SelRec { selected: s.snapshot, last_click: None, ..s }, rows, idx)
}

/// What a double click asks for.
#[derive(Debug, Clone, Copy, PartialEq, Eq, Structural)]
pub enum DoubleAction {
    /// There is no such row.
    Nothing,
    /// A folder was opened or closed: the rows have to be made anew.
    Rebuild,
    /// A file is to be shown.
    Open(i64),
}

/// The files that an action on a row is for: all selected ones where the row is
/// among them, else those of the row alone.
pub open spec fn is_target_list(s: SelRec, rows: Seq<NodeRec>, idx: i32, ids: Seq<i64>) -> bool {
    if !is_row(rows, idx) {
        ids.len() == 0
    } else {
        let row = rows[idx as int];
        if row.is_folder && !all_selected(s.selected, row.descendants) {
            ids == row.descendants
        } else if !row.is_folder && !s.selected.contains(row.file_id) {
            ids == seq![row.file_id]
        } else {
            ids.to_set() == s.selected && ids.no_duplicates()
        }
    }
}

impl Selection {
    /// Nothing is selected and nothing expanded.
    pub fn new() -> (r: Selection)
        ensures
            r@ == (SelRec {
                selected: Set::empty(),
                expanded: Set::empty(),
                snapshot: Set::empty(),
                last_click: None,
            }),
    {
        Selection {
            selected: HashSet::new(),
            expanded: StringHashSet::new(),
            snapshot: HashSet::new(),
            last_click: None,
        }
    }

    /// The ids that are selected.
    pub fn selected(&self) -> (r: &HashSet<i64>)
        ensures
            r@ == self@.selected,
    {
        &self.selected
    }

    /// The folders that are expanded.
    pub fn expanded(&self) -> (r: &StringHashSet)
        ensures
            r@ == self@.expanded,
    {
        &self.expanded
    }

    fn has_all(&self, ids: &Vec<i64>) -> (r: bool)
        ensures
            r == all_selected(self@.selected, ids@),
    {
        let mut i: usize = 0;
        while i < ids.len()
            invariant
                i <= ids@.len(),
                forall|k: int| 0 <= k < i ==> self.selected@.contains(#[trigger] ids@[k]),
            decreases ids.len() - i,
        {
            let id: i64 = ids[i];
            if !self.selected.contains(&id) {
                assert(!self.selected@.contains(ids@[i as int]));
                return false;
            }
            i += 1;
        }
        ids.len() > 0
    }

    /// A click on a row, `now` milliseconds after some beginning.
    pub fn click(&mut self, rows: &Vec<TreeNode>, idx: i32, now: u64)
        ensures
            final(self)@ == clicked(old(self)@, node_recs(rows@), idx, now),
    {
        let second = match self.last_click {
            Some(c) => c.0 == idx && (now < c.1 || now - c.1 < PAIR_MS),
            None => false,
        };
        self.last_click = Some((idx, now));
        if !second {
            self.snapshot = copy_ids(&self.selected);
        }
        let ghost before = self.selected@;
        if idx < 0 || idx as usize >= rows.len() {
            return ;
        }
        let row = &rows[idx as usize];
        assert(node_recs(rows@)[idx as int] == row@);
        if row.is_folder {
            let all = self.has_all(&row.descendants);
            let mut i: usize = 0;
            while i < row.descendants.len()
                invariant
                    i <= row.descendants@.len(),
                    self.expanded == old(self).expanded,
                    self.snapshot@ == (if second {
                        old(self).snapshot@
                    } else {
                        old(self).selected@
                    }),
                    self.last_click == Some((idx, now)),
                    forall|v: i64| #[trigger]
                        self.selected@.contains(v) <==> {
                            let among = row.descendants@.take(i as int).contains(v);
                            if all {
                                before.contains(v) && !among
                            } else {
                                before.contains(v) || among
                            }
                        },
                decreases row.descendants.len() - i,
            {
                let id: i64 = row.descendants[i];
                let ghost t = row.descendants@.take(i as int);
                assert(row.descendants@.take(i + 1) =~= t.push(id));
                assert forall|v: i64| row.descendants@.take(i + 1).contains(v) <==> t.contains(v) || v == id by {
                    crate::order::lemma_push_contains(t, id, v);
                }
                if all {
                    self.selected.remove(&id);
                } else {
                    self.selected.insert(id);
                }
                i += 1;
            }
            proof {
                assert(row.descendants@.take(i as int) =~= row.descendants@);
                assert(self.selected@ =~= toggled(before, row@));
            }
        } else {
            let id: i64 = row.file_id;
            if self.selected.contains(&id) {
                self.selected.remove(&id);
            } else {
                self.selected.insert(id);
            }
        }
    }

    fn flip(&mut self, path: &String)
        ensures
            final(self)@ == (SelRec {
                expanded: if old(self)@.expanded.contains(path@) {
                    old(self)@.expanded.remove(path@)
                } else {
                    old(self)@.expanded.insert(path@)
                },
                ..old(self)@
            }),
    {
        if self.expanded.contains(path.as_str()) {
            self.expanded.remove(path.as_str());
        } else {
            self.expanded.insert(path.clone());
        }
    }

    /// A click on the mark of a folder. Says whether the rows have to be made anew.
    pub fn expand(&mut self, rows: &Vec<TreeNode>, idx: i32) -> (r: bool)
        ensures
            final(self)@ == opened_or_closed(old(self)@, node_recs(rows@), idx),
            r == (is_row(node_recs(rows@), idx) && node_recs(rows@)[idx as int].is_folder),
    {
        if idx < 0 || idx as usize >= rows.len() {
            return false;
        }
        let row = &rows[idx as usize];
        assert(node_recs(rows@)[idx as int] == row@);
        if !row.is_folder {
            return false;
        }
        self.flip(&row.path);
        true
    }

    /// A double click on a row.
    pub fn double_click(&mut self, rows: &Vec<TreeNode>, idx: i32) -> (r: DoubleAction)
        ensures
            final(self)@ == double_clicked(old(self)@, node_recs(rows@), idx),
            r == if !is_row(node_recs(rows@), idx) {
                DoubleAction::Nothing
            } else if node_recs(rows@)[idx as int].is_folder {
                DoubleAction::Rebuild
            } else {
                DoubleAction::Open(node_recs(rows@)[idx as int].file_id)
            },
    {
        self.selected = copy_ids(&self.snapshot);
        self.last_click = None;
        if idx < 0 || idx as usize >= rows.len() {
            return DoubleAction::Nothing;
        }
        let row = &rows[idx as usize];
        assert(node_recs(rows@)[idx as int] == row@);
        if row.is_folder {
            self.flip(&row.path);
            DoubleAction::Rebuild
        } else {
            DoubleAction::Open(row.file_id)
        }
    }

    /// The files that an action on a row is for.
    pub fn compute_targets(&self, rows: &Vec<TreeNode>, idx: i32) -> (r: Vec<i64>)
        ensures
            is_target_list(self@, node_recs(rows@), idx, r@),
    {
        if idx < 0 || idx as usize >= rows.len() {
            return Vec::new();
        }
        let row = &rows[idx as usize];
        assert(node_recs(rows@)[idx as int] == row@);
        if row.is_folder {
            if self.has_all(&row.descendants) {
                list_ids(&self.selected)
            } else {
                let mut out: Vec<i64> = Vec::new();
                let mut i: usize = 0;
                while i < row.descendants.len()
                    invariant
                        i <= row.descendants@.len(),
                        out@ =~= row.descendants@.take(i as int),
                    decreases row.descendants.len() - i,
                {
                    out.push(row.descendants[i]);
                    i += 1;
                }
                assert(out@ =~= row.descendants@);
                out
            }
        } else {
            let id: i64 = row.file_id;
            if self.selected.contains(&id) {
                list_ids(&self.selected)
            } else {
                let mut out: Vec<i64> = Vec::new();
                out.push(id);
                assert(out@ =~= seq![id]);
                out
            }
        }
    }

    /// Takes files out of the selection: they are gone.
    pub fn forget(&mut self, ids: &Vec<i64>)
        ensures
            final(self)@ == (SelRec { selected: old(self)@.selected.difference(ids@.to_set()), ..old(self)@ }),
    {
        let ghost before = self.selected@;
        let mut i: usize = 0;
        while i < ids.len()
            invariant
                i <= ids@.len(),
                self.expanded == old(self).expanded,
                self.snapshot == old(self).snapshot,
                self.last_click == old(self).last_click,
                forall|v: i64| #[trigger]
                    self.selected@.contains(v) <==> before.contains(v) && !ids@.take(i as int).contains(v),
            decreases ids.len() - i,
        {
            let id: i64 = ids[i];
            let ghost t = ids@.take(i as int);
            assert(ids@.take(i + 1) =~= t.push(id));
            assert forall|v: i64| ids@.take(i + 1).contains(v) <==> t.contains(v) || v == id by {
                crate::order::lemma_push_contains(t, id, v);
            }
            self.selected.remove(&id);
            i += 1;
        }
        assert(ids@.take(i as int) =~= ids@);
        assert(self.selected@ =~= before.difference(ids@.to_set()));
    }
}

/// A double click leaves the selection as it was before its first click.
pub proof fn law_double_click_keeps_selection(s: SelRec, rows: Seq<NodeRec>, idx: i32, first: u64, second: u64)
    requires
        !is_second(s, idx, first),
        second - first < PAIR_MS,
    ensures
        double_clicked(clicked(clicked(s, rows, idx, first), rows, idx, second), rows, idx).selected == s.selected,
{
}

/// A click on a folder selects all files below it, or none of them.
pub proof fn law_click_on_folder_is_all_or_nothing(selected: Set<i64>, row: NodeRec)
    requires
        row.is_folder,
        row.descendants.len() > 0,
    ensures
        node_state(row, toggled(selected, row)) == if all_selected(selected, row.descendants) {
            0int
        } else {
            1int
        },
{
    let ids = row.descendants;
    let now = toggled(selected, row);
    assert forall|i: int| 0 <= i < ids.len() implies ids.to_set().contains(#[trigger] ids[i]) by {
        assert(ids.contains(ids[i]));
    }
    if !all_selected(selected, ids) {
        assert(now.contains(ids[0]));
    }
}

/// Two clicks on a file leave the selection as it was.
pub proof fn law_two_clicks_on_file_undo_each_other(selected: Set<i64>, row: NodeRec)
    requires
        !row.is_folder,
    ensures
        toggled(toggled(selected, row), row) == selected,
{
    assert(toggled(toggled(selected, row), row) =~= selected);
}

} // verus!
