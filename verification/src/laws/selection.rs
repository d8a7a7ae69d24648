//! The selection: what a click does to it, and what an action on a row is for.

use vstd::prelude::*;
use crate::selection::{all_selected, clicked, double_clicked, is_target_list, opened_or_closed, toggled, SelRec};
use crate::tree::{node_state, NodeRec};

verus! {

/// A click on a file turns it over: it is selected afterwards where it was not
/// before. No other file is touched.
pub proof fn law_click_turns_a_file_over(selected: Set<i64>, row: NodeRec, x: i64)
    requires
        !row.is_folder,
    ensures
        x != row.file_id ==> (toggled(selected, row).contains(x) <==> selected.contains(x)),
        x == row.file_id ==> (toggled(selected, row).contains(x) <==> !selected.contains(x)),
{
}

/// A click on a folder selects all files below it where one of them was not
/// selected, and none of them where all were. No other file is touched.
pub proof fn law_click_on_a_folder(selected: Set<i64>, row: NodeRec, x: i64)
    requires
        row.is_folder,
    ensures
        !row.descendants.contains(x) ==> (toggled(selected, row).contains(x) <==> selected.contains(x)),
        row.descendants.contains(x) ==> (toggled(selected, row).contains(x) <==> exists|y: i64|
            row.descendants.contains(y) && !#[trigger] selected.contains(y)),
{
    let ids = row.descendants;
    if exists|y: i64| ids.contains(y) && !#[trigger] selected.contains(y) {
        let y = choose|y: i64| ids.contains(y) && !#[trigger] selected.contains(y);
        let i = choose|i: int| 0 <= i < ids.len() && ids[i] == y;
        assert(!selected.contains(ids[i]));
    } else {
        assert forall|i: int| 0 <= i < ids.len() implies selected.contains(#[trigger] ids[i]) by {
            assert(ids.contains(ids[i]));
        }
    }
}

/// A click selects by its row alone; one beside the rows selects nothing. What is
/// expanded stays.
pub proof fn law_click_is_for_its_row(s: SelRec, rows: Seq<NodeRec>, idx: i32, now: u64)
    ensures
        clicked(s, rows, idx, now).expanded == s.expanded,
        !(0 <= idx < rows.len()) ==> clicked(s, rows, idx, now).selected == s.selected,
        0 <= idx < rows.len() ==> clicked(s, rows, idx, now).selected == toggled(s.selected, rows[idx as int]),
{
}

/// A click on the mark of a folder opens it where it was closed and closes it where
/// it was open. Other folders, and what is selected, stay; a file has no mark.
pub proof fn law_mark_opens_and_closes(s: SelRec, rows: Seq<NodeRec>, idx: i32, p: Seq<char>)
    ensures
        opened_or_closed(s, rows, idx).selected == s.selected,
        !(0 <= idx < rows.len()) || !rows[idx as int].is_folder ==> opened_or_closed(s, rows, idx) == s,
        0 <= idx < rows.len() && rows[idx as int].is_folder && p == rows[idx as int].path ==> (opened_or_closed(
            s,
            rows,
            idx,
        ).expanded.contains(p) <==> !s.expanded.contains(p)),
        0 <= idx < rows.len() && p != rows[idx as int].path ==> (opened_or_closed(s, rows, idx).expanded.contains(p)
            <==> s.expanded.contains(p)),
{
}

/// A double click on a folder opens or closes it as a click on its mark does; on a
/// file it leaves the folders alone.
pub proof fn law_double_click_opens_and_closes(s: SelRec, rows: Seq<NodeRec>, idx: i32)
    ensures
        double_clicked(s, rows, idx).expanded == opened_or_closed(s, rows, idx).expanded,
        double_clicked(s, rows, idx).last_click is None,
{
}

/// Two clicks on the mark of a folder leave it as it was.
pub proof fn law_mark_undoes_itself(s: SelRec, rows: Seq<NodeRec>, idx: i32)
    ensures
        opened_or_closed(opened_or_closed(s, rows, idx), rows, idx).expanded =~= s.expanded,
{
}

/// The files of a row: those below a folder, or the file itself.
pub open spec fn own_files(row: NodeRec) -> Seq<i64> {
    if row.is_folder {
        row.descendants
    } else {
        seq![row.file_id]
    }
}

/// Whether every one of some ids is selected.
pub open spec fn is_whole(ids: Seq<i64>, selected: Set<i64>) -> bool {
    forall|y: i64| #[trigger] ids.contains(y) ==> selected.contains(y)
}

/// An action on a row that is not selected is for its own files alone; on one that
/// is, for all that is selected, each file once.
pub proof fn law_action_is_for_its_row_or_the_selection(s: SelRec, rows: Seq<NodeRec>, idx: i32, ids: Seq<i64>)
    requires
        is_target_list(s, rows, idx, ids),
        0 <= idx < rows.len(),
        own_files(rows[idx as int]).len() > 0,
    ensures
        !is_whole(own_files(rows[idx as int]), s.selected) ==> ids == own_files(rows[idx as int]),
        is_whole(own_files(rows[idx as int]), s.selected) ==> ids.no_duplicates() && forall|x: i64| #[trigger]
            ids.contains(x) <==> s.selected.contains(x),
{
    let row = rows[idx as int];
    let own = own_files(row);
    assert(!row.is_folder ==> own[0] == row.file_id && own.contains(row.file_id));
    if is_whole(own, s.selected) {
        assert forall|i: int| 0 <= i < own.len() implies s.selected.contains(#[trigger] own[i]) by {
            assert(own.contains(own[i]));
        }
        assert forall|x: i64| #[trigger] ids.contains(x) <==> s.selected.contains(x) by {
            assert(ids.to_set().contains(x) <==> ids.contains(x));
        }
    } else {
        let y = choose|y: i64| #[trigger] own.contains(y) && !s.selected.contains(y);
        let i = choose|i: int| 0 <= i < own.len() && own[i] == y;
        assert(!s.selected.contains(own[i]));
        assert(row.is_folder ==> !all_selected(s.selected, row.descendants));
    }
}

/// An action beside the rows is for nothing.
pub proof fn law_action_beside_the_rows(s: SelRec, rows: Seq<NodeRec>, idx: i32, ids: Seq<i64>)
    requires
        is_target_list(s, rows, idx, ids),
        !(0 <= idx < rows.len()),
    ensures
        ids.len() == 0,
{
}

/// Whether none of some ids is selected.
pub open spec fn is_bare(ids: Seq<i64>, selected: Set<i64>) -> bool {
    forall|y: i64| #[trigger] ids.contains(y) ==> !selected.contains(y)
}

/// The mark of a row tells what of it is selected: nothing, all of it, or a part.
pub proof fn law_mark_tells_the_selection(n: NodeRec, selected: Set<i64>)
    ensures
        is_bare(own_files(n), selected) ==> node_state(n, selected) == 0,
        own_files(n).len() > 0 && is_whole(own_files(n), selected) ==> node_state(n, selected) == 1,
        !is_bare(own_files(n), selected) && !is_whole(own_files(n), selected) ==> node_state(n, selected) == 2,
{
    let own = own_files(n);
    assert(!n.is_folder ==> own[0] == n.file_id && own.contains(n.file_id));
    assert(own.len() > 0 ==> own.contains(own[0]));
    if is_bare(own, selected) {
        assert forall|i: int| 0 <= i < own.len() implies !selected.contains(#[trigger] own[i]) by {
            assert(own.contains(own[i]));
        }
    } else {
        let y = choose|y: i64| #[trigger] own.contains(y) && selected.contains(y);
        let i = choose|i: int| 0 <= i < own.len() && own[i] == y;
        assert(selected.contains(own[i]));
    }
    if is_whole(own, selected) {
        assert forall|i: int| 0 <= i < own.len() implies selected.contains(#[trigger] own[i]) by {
            assert(own.contains(own[i]));
        }
        if own.len() > 0 {
            assert(selected.contains(own[0]));
        }
    } else {
        let y = choose|y: i64| #[trigger] own.contains(y) && !selected.contains(y);
        let i = choose|i: int| 0 <= i < own.len() && own[i] == y;
        assert(!selected.contains(own[i]));
    }
}

/// Two clicks make a pair where they are on one row, less than half a second apart. What
/// was selected before the first of them is kept through the second.
pub proof fn law_pairs_of_clicks(s: SelRec, rows: Seq<NodeRec>, idx: i32, now: u64, next_idx: i32, next_now: u64)
    ensures
        ({
            let a = clicked(s, rows, idx, now);
            let b = clicked(a, rows, next_idx, next_now);
            &&& next_idx == idx && next_now - now < 500 ==> b.snapshot == a.snapshot
            &&& next_idx != idx || next_now - now >= 500 ==> b.snapshot == a.selected
        }),
        s.last_click is None ==> clicked(s, rows, idx, now).snapshot == s.selected,
{
}

} // verus!
