use std::collections::HashSet;

use micromedia::db::GalleryFile;
use micromedia::selection::{DoubleAction, Selection};
use micromedia::tree::{build, can_build, sel_state, TreeNode};

fn file(id: i64, rel: &str) -> GalleryFile {
    GalleryFile {
        id,
        name: rel.rsplit('/').next().unwrap().to_string(),
        is_video: rel.ends_with(".mp4"),
        rel_path: rel.to_string(),
        height: None,
        width: None,
    }
}

fn files() -> Vec<GalleryFile> {
    vec![file(1, "b.jpg"), file(2, "d/x.mp4"), file(3, "d/e/y.jpg"), file(4, "a/z.jpg"), file(5, "a.jpg")]
}

fn rows(s: &Selection) -> Vec<TreeNode> {
    build(&files(), s.expanded(), s.selected())
}

fn labels(rows: &[TreeNode]) -> Vec<String> {
    rows.iter().map(|r| format!("{}{}", " ".repeat(r.depth as usize), r.label)).collect()
}

fn sorted(v: &HashSet<i64>) -> Vec<i64> {
    let mut v: Vec<i64> = v.iter().copied().collect();
    v.sort();
    v
}

#[test]
fn folders_come_first_and_are_closed() {
    let s = Selection::new();
    let r = rows(&s);
    assert_eq!(labels(&r), vec!["a", "d", "b.jpg", "a.jpg"]);
    assert_eq!((r[1].is_folder, r[1].file_id, r[1].path.as_str()), (true, -1, "d"));
    let mut d = r[1].descendants.clone();
    d.sort();
    assert_eq!(d, vec![2, 3]);
    assert_eq!((r[2].is_folder, r[2].file_id, r[2].is_video), (false, 1, false));
}

#[test]
fn expanded_folders_show_what_is_in_them() {
    let mut s = Selection::new();
    let r = rows(&s);
    assert!(s.expand(&r, 1));
    let r = rows(&s);
    assert_eq!(labels(&r), vec!["a", "d", " e", " x.mp4", "b.jpg", "a.jpg"]);
    assert!(r[1].expanded && r[3].is_video);
    assert!(!s.expand(&r, 3));
    assert!(!s.expand(&r, 99));
    assert!(s.expand(&r, 1));
    assert_eq!(rows(&s).len(), 4);
}

#[test]
fn folders_show_how_much_is_selected() {
    let mut s = Selection::new();
    let r = rows(&s);
    s.expand(&r, 1);
    let r = rows(&s);
    s.click(&r, 3, 0);
    assert_eq!(sorted(s.selected()), vec![2]);
    let r = rows(&s);
    assert_eq!((r[1].sel_state, r[2].sel_state, r[3].sel_state), (2, 0, 1));
    s.click(&r, 1, 10_000);
    assert_eq!(sorted(s.selected()), vec![2, 3]);
    assert_eq!(sel_state(&r[1], s.selected()), 1);
    s.click(&r, 1, 20_000);
    assert!(s.selected().is_empty());
    assert_eq!(sel_state(&r[1], s.selected()), 0);
}

#[test]
fn a_double_click_takes_its_clicks_back() {
    let mut s = Selection::new();
    let r = rows(&s);
    s.click(&r, 2, 0);
    s.click(&r, 1, 5_000);
    s.click(&r, 1, 5_200);
    assert_eq!(s.double_click(&r, 1), DoubleAction::Rebuild);
    assert_eq!(sorted(s.selected()), vec![1]);
    assert_eq!(rows(&s).len(), 6);
    s.click(&r, 3, 9_000);
    s.click(&r, 3, 9_100);
    assert_eq!(s.double_click(&r, 3), DoubleAction::Open(5));
    assert_eq!(sorted(s.selected()), vec![1]);
    assert_eq!(s.double_click(&r, -1), DoubleAction::Nothing);
}

#[test]
fn slow_clicks_are_no_pair() {
    let mut s = Selection::new();
    let r = rows(&s);
    s.click(&r, 2, 0);
    s.click(&r, 2, 500);
    s.double_click(&r, 2);
    assert_eq!(sorted(s.selected()), vec![1]);
}

#[test]
fn two_clicks_on_a_file_undo_each_other() {
    let mut s = Selection::new();
    let r = rows(&s);
    s.click(&r, 2, 0);
    s.click(&r, 2, 100);
    assert!(s.selected().is_empty());
}

#[test]
fn actions_are_for_the_selection_or_the_row() {
    let mut s = Selection::new();
    let r = rows(&s);
    s.click(&r, 2, 0);
    s.click(&r, 3, 1_000);
    let mut t = s.compute_targets(&r, 2);
    t.sort();
    assert_eq!(t, vec![1, 5]);
    assert_eq!(s.compute_targets(&r, 0), vec![4]);
    assert!(s.compute_targets(&r, 50).is_empty());
    s.click(&r, 0, 2_000);
    let mut t = s.compute_targets(&r, 0);
    t.sort();
    assert_eq!(t, vec![1, 4, 5]);
    s.forget(&vec![1, 4]);
    assert_eq!(sorted(s.selected()), vec![5]);
}

#[test]
fn paths_that_begin_with_a_slash_have_no_tree() {
    assert!(can_build(&files()));
    assert!(can_build(&Vec::new()));
    assert!(!can_build(&vec![file(1, "a.jpg"), file(2, "/b.jpg")]));
}

#[test]
fn rows_are_refreshed_in_place() {
    let mut s = Selection::new();
    let r = rows(&s);
    s.expand(&r, 1);
    let old = rows(&s);
    s.click(&old, 3, 0);
    s.click(&old, 4, 5000);
    let new = rows(&s);
    assert_eq!(old.len(), new.len());
    for (a, b) in old.iter().zip(&new) {
        assert_eq!(
            (&a.label, a.depth, a.is_folder, a.is_video, a.expanded, a.file_id, &a.path, &a.descendants),
            (&b.label, b.depth, b.is_folder, b.is_video, b.expanded, b.file_id, &b.path, &b.descendants),
        );
        assert_eq!(b.sel_state, sel_state(a, s.selected()));
    }
    assert_eq!((new[1].sel_state, new[3].sel_state, new[4].sel_state), (2, 1, 1));
}
