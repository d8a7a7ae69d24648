use micromedia::db::schema::{migrate, SCHEMA_VERSION};
use micromedia::db::{Db, DbError, FileRow, NewFile, Pending, RenameFile, SortKey, Tag, TagRow};
use micromedia::media::MediaType;

fn new_file<'a>(rel: &'a str, name: &'a str, kind: MediaType, size: i64, mtime: i64, added_at: i64) -> NewFile<'a> {
    NewFile { rel_path: rel, name, ext: "x", media_type: kind, size, mtime, added_at }
}

fn put(db: &mut Db, rel: &str, kind: MediaType) -> i64 {
    db.insert_file(&new_file(rel, rel, kind, 1, 1, 1)).unwrap()
}

fn names(db: &Db, sort: SortKey) -> Vec<String> {
    db.query_files(&Vec::new(), &Vec::new(), true, "", 0, sort).into_iter().map(|g| g.name).collect()
}

#[test]
fn ids_grow_and_paths_are_unique() {
    let mut db = Db::empty();
    assert_eq!(put(&mut db, "a", MediaType::Image), 1);
    assert_eq!(put(&mut db, "b", MediaType::Image), 2);
    assert_eq!(db.insert_file(&new_file("a", "a", MediaType::Image, 1, 1, 1)), Err(DbError::Conflict));
    db.mark_deleted(&vec![1]);
    assert_eq!(put(&mut db, "a", MediaType::Image), 3);
    assert_eq!(db.file_count(), 2);
}

#[test]
fn touching_forgets_hash_and_thumbnail() {
    let mut db = Db::empty();
    let id = put(&mut db, "a", MediaType::Image);
    db.set_hash(id, u64::MAX);
    db.set_thumb_state(id, 1);
    assert_eq!(db.files()[0].hash, Some(-1));
    db.touch_file(id, 9, 8);
    let f = &db.files()[0];
    assert_eq!((f.size, f.mtime, f.hash, f.thumb_state), (9, 8, None, 0));
}

#[test]
fn renames_are_all_or_none() {
    let mut db = Db::empty();
    let a = put(&mut db, "a", MediaType::Image);
    let b = put(&mut db, "b", MediaType::Image);
    let mv = |id: i64, rel: &'static str| RenameFile {
        id,
        rel_path: rel,
        name: rel,
        ext: "y",
        media_type: MediaType::Video,
        size: 4,
        mtime: 5,
    };
    assert_eq!(db.apply_renames(&vec![mv(a, "c"), mv(b, "c")]), Err(DbError::Conflict));
    assert_eq!(db.file_info(a), Some(("a".to_string(), MediaType::Image)));
    assert_eq!(db.apply_renames(&vec![mv(a, "c"), mv(b, "d")]), Ok(()));
    assert_eq!(db.file_info(a), Some(("c".to_string(), MediaType::Video)));
    assert_eq!(db.file_info(99), None);
}

#[test]
fn queues_hand_out_what_waits() {
    let mut db = Db::empty();
    let a = put(&mut db, "a", MediaType::Image);
    let v = put(&mut db, "v", MediaType::Video);
    assert_eq!(db.files_without_hash(10).len(), 2);
    assert_eq!(db.files_without_hash(1), vec![(a, "a".to_string())]);
    assert_eq!(db.videos_without_duration(10), vec![(v, "v".to_string())]);
    assert_eq!(db.item_without_resolution(10).len(), 2);
    assert_eq!(db.files_needing_thumb(10)[1], (v, "v".to_string(), MediaType::Video));
    db.set_hash(a, 1);
    db.set_duration(v, -1);
    db.set_resolution(a, 48, 64);
    assert_eq!((db.files()[0].height, db.files()[0].width), (Some(48), Some(64)));
    assert_eq!(db.count_pending(Pending::Hash), 1);
    assert_eq!(db.count_pending(Pending::Duration), 0);
    assert_eq!(db.count_pending(Pending::Resolution), 1);
    assert_eq!(db.count_pending(Pending::Thumb), 2);
    db.mark_deleted(&vec![v]);
    assert_eq!(db.count_pending(Pending::Thumb), 1);
}

#[test]
fn tags_are_made_once_whatever_their_case() {
    let mut db = Db::empty();
    let t = db.create_tag("Cats", 3).unwrap();
    assert_eq!(db.create_tag("cATS", 9), Ok(t));
    assert_eq!(db.tags().len(), 1);
    assert_eq!(db.tags()[0].created_at, 3);
    let d = db.create_tag("dogs", 4).unwrap();
    assert_eq!(db.rename_tag(d, "CATS"), Err(DbError::Conflict));
    assert_eq!(db.rename_tag(d, "DOGS"), Ok(()));
    assert_eq!(db.find_tag_named("dogs"), Some(d));
    assert_eq!(db.find_tag_named("birds"), None);
    assert_eq!(db.list_tags().into_iter().map(|t: Tag| t.name).collect::<Vec<String>>(), vec!["Cats", "DOGS"]);
}

#[test]
fn links_need_both_ends_and_go_with_the_tag() {
    let mut db = Db::empty();
    let f = put(&mut db, "a", MediaType::Image);
    let t = db.create_tag("x", 0).unwrap();
    assert_eq!(db.assign_tag(f, 99), Err(DbError::NoSuchRow));
    assert_eq!(db.assign_tag(99, t), Err(DbError::NoSuchRow));
    assert_eq!(db.assign_tag(f, t), Ok(()));
    assert_eq!(db.assign_tag(f, t), Ok(()));
    assert_eq!(db.tags_for_file(f).len(), 1);
    assert!(!db.delete_tag_if_orphan(t));
    db.unassign_tag(f, t);
    assert!(db.delete_tag_if_orphan(t));
    let t = db.create_tag("y", 0).unwrap();
    db.assign_tag(f, t).unwrap();
    db.delete_tag(t);
    assert!(db.tags_for_file(f).is_empty());
    assert!(db.links().is_empty());
}

#[test]
fn rows_from_storage_are_held_to_the_rules() {
    let tag = |id: i64, name: &str| TagRow { id, name: name.to_string(), created_at: 0 };
    assert!(Db::from_rows(Vec::new(), vec![tag(1, "a"), tag(2, "b")], Vec::new()).is_some());
    assert!(Db::from_rows(Vec::new(), vec![tag(1, "a"), tag(2, "A")], Vec::new()).is_none());
    assert!(Db::from_rows(Vec::new(), vec![tag(2, "a"), tag(1, "b")], Vec::new()).is_none());
    assert!(Db::from_rows(Vec::new(), vec![tag(1, "a")], vec![(7, 1)]).is_none());
    let mut db = Db::empty();
    put(&mut db, "p", MediaType::Image);
    let copy = |f: &FileRow, id: i64| FileRow {
        id,
        rel_path: f.rel_path.clone(),
        name: f.name.clone(),
        ext: f.ext.clone(),
        media_type: f.media_type,
        size: f.size,
        mtime: f.mtime,
        added_at: f.added_at,
        width: f.width,
        height: f.height,
        duration_ms: f.duration_ms,
        resume_ms: f.resume_ms,
        hash: f.hash,
        thumb_state: f.thumb_state,
        is_deleted: f.is_deleted,
    };
    let f = &db.files()[0];
    assert!(Db::from_rows(vec![copy(f, 1)], vec![tag(4, "a")], vec![(1, 4)]).is_some());
    assert!(Db::from_rows(vec![copy(f, 1), copy(f, 2)], Vec::new(), Vec::new()).is_none());
}

#[test]
fn the_last_id_is_the_end() {
    let tag = TagRow { id: i64::MAX, name: "a".to_string(), created_at: 0 };
    let mut db = Db::from_rows(Vec::new(), vec![tag], Vec::new()).unwrap();
    assert_eq!(db.create_tag("b", 0), Err(DbError::IdsExhausted));
    assert_eq!(db.create_tag("A", 0), Ok(i64::MAX));
}

#[test]
fn the_gallery_in_every_order() {
    let mut db = Db::empty();
    let b = db.insert_file(&new_file("1", "b", MediaType::Video, 10, 300, 3)).unwrap();
    let a = db.insert_file(&new_file("2", "A", MediaType::Image, 30, 200, 1)).unwrap();
    let c = db.insert_file(&new_file("3", "c", MediaType::Video, 20, 100, 2)).unwrap();
    db.set_duration(b, 500);
    db.set_duration(c, -1);
    let _ = a;
    assert_eq!(names(&db, SortKey::NameAsc), vec!["A", "b", "c"]);
    assert_eq!(names(&db, SortKey::NameDesc), vec!["c", "b", "A"]);
    assert_eq!(names(&db, SortKey::AddedAsc), vec!["A", "c", "b"]);
    assert_eq!(names(&db, SortKey::AddedDesc), vec!["b", "c", "A"]);
    assert_eq!(names(&db, SortKey::MtimeAsc), vec!["c", "A", "b"]);
    assert_eq!(names(&db, SortKey::SizeDesc), vec!["A", "c", "b"]);
    assert_eq!(names(&db, SortKey::DurationAsc), vec!["b", "A", "c"]);
    assert_eq!(names(&db, SortKey::TypeAsc), vec!["A", "b", "c"]);
    assert_eq!(names(&db, SortKey::TypeDesc), vec!["b", "c", "A"]);
}

#[test]
fn the_gallery_by_tags_names_and_kinds() {
    let mut db = Db::empty();
    let p = put(&mut db, "Photo.jpg", MediaType::Image);
    let q = put(&mut db, "clip.mp4", MediaType::Video);
    let x = db.create_tag("x", 0).unwrap();
    let y = db.create_tag("y", 0).unwrap();
    db.assign_tag(p, x).unwrap();
    db.assign_tag(p, y).unwrap();
    db.assign_tag(q, x).unwrap();
    let run = |want: Vec<i64>, unwanted: Vec<i64>, all: bool, query: &str, kind: i32| -> Vec<i64> {
        db.query_files(&want, &unwanted, all, query, kind, SortKey::NameAsc).into_iter().map(|g| g.id).collect()
    };
    assert_eq!(run(vec![x, y], vec![], true, "", 0), vec![p]);
    assert_eq!(run(vec![x, y], vec![], false, "", 0), vec![q, p]);
    assert_eq!(run(vec![x, x], vec![], true, "", 0), vec![q, p]);
    assert_eq!(run(vec![y, x, y], vec![], true, "", 0), vec![p]);
    assert_eq!(run(vec![], vec![y], true, "", 0), vec![q]);
    assert_eq!(run(vec![], vec![], true, "  PHOTO ", 0), vec![p]);
    assert_eq!(run(vec![], vec![], true, "", 1), vec![p]);
    assert_eq!(run(vec![], vec![], true, "", 2), vec![q]);
    assert_eq!(run(vec![], vec![], true, "", 3), vec![q, p]);
}

#[test]
fn sort_keys_by_place_in_the_menu() {
    assert_eq!(SortKey::from_index(0), SortKey::NameAsc);
    assert_eq!(SortKey::from_index(9), SortKey::DurationDesc);
    assert_eq!(SortKey::from_index(11), SortKey::TypeDesc);
    assert_eq!(SortKey::from_index(12), SortKey::NameAsc);
    assert_eq!(SortKey::from_index(-1), SortKey::NameAsc);
}

#[test]
fn kinds_by_number() {
    assert_eq!(MediaType::from_i64(0), Some(MediaType::Image));
    assert_eq!(MediaType::from_i64(1), Some(MediaType::Video));
    assert_eq!(MediaType::from_i64(2), None);
}

#[test]
fn versions_of_the_schema() {
    let m = migrate(None);
    assert_eq!((m.from, m.create, m.record), (0, true, true));
    let m = migrate(Some("1"));
    assert_eq!((m.from, m.create, m.record), (SCHEMA_VERSION, false, false));
    let m = migrate(Some("junk"));
    assert_eq!((m.from, m.create, m.record), (0, true, true));
    let m = migrate(Some("2"));
    assert_eq!((m.create, m.record), (false, true));
}

#[test]
fn every_order_shows_every_file_once() {
    let mut db = Db::empty();
    for rel in ["x", "X", "y", "z"] {
        put(&mut db, rel, MediaType::Image);
    }
    for i in 0..12 {
        let mut ids: Vec<i64> = db
            .query_files(&Vec::new(), &Vec::new(), true, "", 0, SortKey::from_index(i))
            .into_iter()
            .map(|g| g.id)
            .collect();
        ids.sort();
        assert_eq!(ids, vec![1, 2, 3, 4]);
    }
}
