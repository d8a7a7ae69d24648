use micromedia::db::{Db, NewFile, SortKey, Tag};
use micromedia::filter::{
    drop_words, join_words, last_token_query, name_to_id, names_of, parse_filter, replace_last_token,
    set_filter_token, split_sign, suggest, suggest_from, TokenOp,
};
use micromedia::media::MediaType;
use micromedia::tagging::{assign_by_name, bulk_apply, gallery_files, toggle_file_tag, BulkMode};

fn tags(names: &[&str]) -> Vec<Tag> {
    names.iter().enumerate().map(|(i, n)| Tag { id: i as i64 + 1, name: n.to_string() }).collect()
}

fn strings(v: &[&str]) -> Vec<String> {
    v.iter().map(|s| s.to_string()).collect()
}

#[test]
fn filters_ask_for_tags_and_rule_them_out() {
    let ids = name_to_id(&tags(&["Cats", "ПЁС"]));
    let f = parse_filter(" cATs -пёс - ", &ids);
    assert_eq!((f.want, f.unwanted, f.impossible), (vec![1], vec![2], false));
    assert!(parse_filter("birds", &ids).impossible);
    assert!(!parse_filter("-birds", &ids).impossible);
}

#[test]
fn signs() {
    assert_eq!(split_sign("-a"), (true, "a".to_string()));
    assert_eq!(split_sign("a-"), (false, "a-".to_string()));
    assert_eq!(split_sign("--a"), (true, "-a".to_string()));
}

#[test]
fn the_word_that_is_being_written() {
    assert_eq!(last_token_query("one two"), "two");
    assert_eq!(last_token_query("one --two"), "two");
    assert_eq!(last_token_query("one "), "");
    assert_eq!(last_token_query(""), "");
    assert_eq!(replace_last_token("one -tw", "twenty"), "one -twenty ");
    assert_eq!(replace_last_token("one ", "two"), "one two ");
    assert_eq!(last_token_query(&replace_last_token("o", "one")), "");
}

#[test]
fn tags_are_set_in_the_filter() {
    assert_eq!(set_filter_token("a  -B c", "b", TokenOp::Include), "a c b");
    assert_eq!(set_filter_token("a b", "B", TokenOp::Exclude), "a -B");
    assert_eq!(set_filter_token("a b -b", "b", TokenOp::Remove), "a");
    assert_eq!(set_filter_token("", "x", TokenOp::Include), "x");
}

#[test]
fn words_join_and_drop() {
    assert_eq!(join_words(&strings(&["a", "b"])), "a b");
    assert_eq!(join_words(&Vec::new()), "");
    assert_eq!(drop_words(&strings(&["A", "b"]), &strings(&["a", "b"]), "a"), vec!["b"]);
}

#[test]
fn suggestions_hold_the_query() {
    let names = strings(&["Alpha", "beta", "ALPINE", "x"]);
    let none = names_of(&Vec::new());
    assert_eq!(suggest("alp", &names, &none), vec!["Alpha", "ALPINE"]);
    assert!(suggest("", &names, &none).is_empty());
    assert_eq!(suggest("alp", &names, &names_of(&tags(&["Alpha"]))), vec!["ALPINE"]);
    let many: Vec<String> = (0..20).map(|i| format!("t{i}")).collect();
    assert_eq!(suggest("T", &many, &none).len(), 8);
    assert_eq!(suggest_from("q", &strings(&["q"]), &strings(&["shown"]), &none), vec!["shown"]);
}

fn library() -> Db {
    let mut db = Db::empty();
    for rel in ["a.jpg", "b.jpg"] {
        db.insert_file(&NewFile {
            rel_path: rel,
            name: rel,
            ext: "jpg",
            media_type: MediaType::Image,
            size: 1,
            mtime: 1,
            added_at: 1,
        })
        .unwrap();
    }
    db
}

fn shown(db: &Db, filter: &str) -> Vec<i64> {
    gallery_files(db, filter, "", 0, SortKey::NameAsc).into_iter().map(|g| g.id).collect()
}

#[test]
fn tags_by_name_and_the_gallery() {
    let mut db = library();
    assert!(assign_by_name(&mut db, 1, "  Trip ", 7));
    assert!(!assign_by_name(&mut db, 1, "  ", 7));
    assert!(!assign_by_name(&mut db, -1, "Trip", 7));
    assert_eq!(db.tags()[0].name, "Trip");
    assert_eq!(shown(&db, "trip"), vec![1]);
    assert_eq!(shown(&db, "-TRIP"), vec![2]);
    assert_eq!(shown(&db, "trip Trip"), vec![1]);
    assert_eq!(shown(&db, "trip nope"), Vec::<i64>::new());
    assert!(toggle_file_tag(&mut db, 1, 1));
    assert!(db.tags().is_empty());
    assert!(!toggle_file_tag(&mut db, -1, 1));
}

#[test]
fn untagging_undoes_tagging() {
    let mut db = library();
    db.create_tag("old", 0).unwrap();
    db.assign_tag(2, 1).unwrap();
    assign_by_name(&mut db, 1, "new", 1);
    let id = db.find_tag_named("new").unwrap();
    toggle_file_tag(&mut db, 1, id);
    assert_eq!(db.tags().len(), 1);
    assert_eq!(db.links(), &vec![(2, 1)]);
}

#[test]
fn many_files_at_once() {
    let mut db = library();
    bulk_apply(&mut db, &vec![1, 2, 77], " x ", BulkMode::Add, 0);
    assert_eq!(db.links().len(), 2);
    bulk_apply(&mut db, &vec![1], "X", BulkMode::Remove, 0);
    assert_eq!(db.links().len(), 1);
    bulk_apply(&mut db, &vec![1, 2], "x", BulkMode::Remove, 0);
    assert!(db.tags().is_empty());
    bulk_apply(&mut db, &Vec::new(), "y", BulkMode::Add, 0);
    bulk_apply(&mut db, &vec![1], "  ", BulkMode::Add, 0);
    assert!(db.tags().is_empty());
}

#[test]
fn tags_in_the_filter_count() {
    let ids = name_to_id(&tags(&["Cats", "dogs"]));
    let f = parse_filter(&set_filter_token("dogs -cats", "CATS", TokenOp::Include), &ids);
    assert_eq!((f.want, f.unwanted), (vec![2, 1], vec![]));
    let f = parse_filter(&set_filter_token("dogs cats", "Cats", TokenOp::Exclude), &ids);
    assert_eq!((f.want, f.unwanted), (vec![2], vec![1]));
}

#[test]
fn wide_white_space_before_the_last_word() {
    assert_eq!(last_token_query("cat\u{a0}-do"), "do");
    assert_eq!(last_token_query("a\u{2003}b"), "b");
    assert_eq!(last_token_query("a b\u{2003}"), "");
    assert_eq!(replace_last_token("cat\u{a0}-do", "dog"), "cat\u{a0}-dog ");
    assert_eq!(replace_last_token("a\u{2003}b", "bird"), "a\u{2003}bird ");
}
