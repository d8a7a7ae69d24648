use std::collections::BTreeMap;

use micromedia::db::{Db, DbError, FileRow};
use micromedia::hash::hash_bytes;
use micromedia::media::MediaType;
use micromedia::scanner::rematch::{match_renames, DiskFile, MissingRow};
use micromedia::scanner::{scan, walk_files, DiskEntry, Scan, ScanStats};

/// A media folder and an index, both in memory.
struct Sandbox {
    disk: BTreeMap<String, (Vec<u8>, u64)>,
    db: Db,
}

impl Sandbox {
    fn new() -> Sandbox {
        Sandbox { disk: BTreeMap::new(), db: Db::empty() }
    }

    fn put(&mut self, rel: &str, content: &str, mtime: u64) {
        self.disk.insert(rel.to_string(), (content.as_bytes().to_vec(), mtime));
    }

    fn mv(&mut self, from: &str, to: &str) {
        let f = self.disk.remove(from).unwrap();
        self.disk.insert(to.to_string(), f);
    }

    fn entries(&self) -> Vec<DiskEntry> {
        self.disk
            .iter()
            .map(|(rel, (content, mtime))| DiskEntry {
                parts: rel.split('/').map(|p| Some(p.to_string())).collect(),
                len: content.len() as u64,
                mtime_secs: Some(*mtime),
            })
            .collect()
    }

    fn hashes(&self) -> Vec<Option<u64>> {
        self.disk.values().map(|(content, _)| Some(hash_bytes(content))).collect()
    }

    fn scan(&mut self) -> ScanStats {
        let (entries, hashes) = (self.entries(), self.hashes());
        scan(&entries, &hashes, 0, &mut self.db).unwrap()
    }

    /// Scans step by step. Gives the paths of the files whose content was asked for.
    fn scan_counting(&mut self) -> (ScanStats, Vec<String>) {
        let entries = self.entries();
        let rels: Vec<String> = self.disk.keys().cloned().collect();
        let hashes = self.hashes();
        let mut asked = Vec::new();
        let mut s = Scan::begin(&entries, &self.db).unwrap();
        while let Some(at) = s.next_to_hash() {
            asked.push(rels[at].clone());
            s.supply(hashes[at]);
        }
        (s.finish(0, &mut self.db).unwrap(), asked)
    }

    fn hash_all(&mut self) {
        for (id, rel) in self.db.files_without_hash(1000) {
            let h = hash_bytes(&self.disk[&rel].0);
            self.db.set_hash(id, h);
        }
    }

    fn id_of(&self, rel: &str) -> Option<i64> {
        self.db.active_files().into_iter().find(|a| a.rel_path == rel).map(|a| a.id)
    }
}

#[test]
fn rename_with_hash_keeps_identity() {
    let mut s = Sandbox::new();
    s.put("a.jpg", "content-a", 1000);
    s.scan();
    s.hash_all();

    let id = s.id_of("a.jpg").unwrap();
    let tag = s.db.create_tag("отпуск", 0).unwrap();
    s.db.assign_tag(id, tag).unwrap();

    s.mv("a.jpg", "b.jpg");
    let st = s.scan();

    assert_eq!((st.renamed, st.added, st.deleted), (1, 0, 0));
    assert_eq!(s.id_of("b.jpg"), Some(id), "id должен сохраниться");
    assert_eq!(s.db.tags_for_file(id).len(), 1, "тег на месте");
}

#[test]
fn move_to_other_folder_without_hash() {
    let mut s = Sandbox::new();
    s.put("a.jpg", "content-a", 1000);
    s.scan();
    let id = s.id_of("a.jpg").unwrap();

    s.mv("a.jpg", "sub/a.jpg");
    let st = s.scan();

    assert_eq!((st.renamed, st.added, st.deleted), (1, 0, 0));
    assert_eq!(s.id_of("sub/a.jpg"), Some(id));
}

#[test]
fn rename_without_hash_unique_candidate() {
    let mut s = Sandbox::new();
    s.put("a.jpg", "content-a", 1000);
    s.scan();
    let id = s.id_of("a.jpg").unwrap();

    s.mv("a.jpg", "renamed.jpg");
    let st = s.scan();

    assert_eq!((st.renamed, st.added, st.deleted), (1, 0, 0));
    assert_eq!(s.id_of("renamed.jpg"), Some(id));
}

#[test]
fn rename_without_hash_ambiguous_is_not_matched() {
    let mut s = Sandbox::new();
    s.put("a.jpg", "aaaaaaaaa", 1000);
    s.put("b.jpg", "bbbbbbbbb", 1000);
    s.scan();

    s.mv("a.jpg", "x.jpg");
    s.mv("b.jpg", "y.jpg");
    let st = s.scan();

    assert_eq!((st.renamed, st.added, st.deleted), (0, 2, 2));
}

#[test]
fn rename_ambiguous_resolved_by_hash() {
    let mut s = Sandbox::new();
    s.put("a.jpg", "aaaaaaaaa", 1000);
    s.put("b.jpg", "bbbbbbbbb", 1000);
    s.scan();
    s.hash_all();
    let (ida, idb) = (s.id_of("a.jpg").unwrap(), s.id_of("b.jpg").unwrap());

    s.mv("a.jpg", "x.jpg");
    s.mv("b.jpg", "y.jpg");
    let st = s.scan();

    assert_eq!((st.renamed, st.added, st.deleted), (2, 0, 0));
    assert_eq!(s.id_of("x.jpg"), Some(ida));
    assert_eq!(s.id_of("y.jpg"), Some(idb));
}

#[test]
fn copy_is_a_new_record() {
    let mut s = Sandbox::new();
    s.put("a.jpg", "content-a", 1000);
    s.scan();
    s.hash_all();
    let id = s.id_of("a.jpg").unwrap();

    s.put("copy.jpg", "content-a", 1000);
    let st = s.scan();

    assert_eq!((st.renamed, st.added, st.deleted), (0, 1, 0));
    assert_eq!(s.id_of("a.jpg"), Some(id));
    assert!(s.id_of("copy.jpg").is_some());
}

#[test]
fn rename_with_edited_content_is_not_matched() {
    let mut s = Sandbox::new();
    s.put("a.jpg", "content-a", 1000);
    s.scan();
    s.hash_all();

    s.mv("a.jpg", "b.jpg");
    s.put("b.jpg", "totally-different-content", 2000);
    let st = s.scan();

    assert_eq!((st.renamed, st.added, st.deleted), (0, 1, 1));
}

#[test]
fn rename_keeps_thumbnail() {
    let mut s = Sandbox::new();
    s.put("a.jpg", "content-a", 1000);
    s.scan();
    s.hash_all();
    let id = s.id_of("a.jpg").unwrap();
    s.db.set_thumb_state(id, 1);

    s.mv("a.jpg", "b.jpg");
    s.scan();

    assert!(
        s.db.files_needing_thumb(10).is_empty(),
        "переезд не должен ставить файл обратно в очередь на превью"
    );
}

#[test]
fn plain_delete_still_marks_deleted() {
    let mut s = Sandbox::new();
    s.put("a.jpg", "content-a", 1000);
    s.put("b.jpg", "content-bbbb", 2000);
    s.scan();
    s.hash_all();

    s.disk.remove("a.jpg").unwrap();
    let st = s.scan();

    assert_eq!((st.renamed, st.added, st.deleted), (0, 0, 1));
    assert_eq!(s.db.file_count(), 1);
}

#[test]
fn empty_files_are_not_guessed() {
    let mut s = Sandbox::new();
    s.put("a.jpg", "", 1000);
    s.scan();

    s.mv("a.jpg", "b.jpg");
    let st = s.scan();
    assert_eq!((st.renamed, st.added, st.deleted), (0, 1, 1));

    s.mv("b.jpg", "sub/b.jpg");
    let st = s.scan();
    assert_eq!((st.renamed, st.added, st.deleted), (1, 0, 0));
}

#[test]
fn folder_move_keeps_all_ids() {
    let mut s = Sandbox::new();
    for i in 0..5u64 {
        s.put(&format!("old/{i}.jpg"), &format!("content-{i}"), 1000 + i);
    }
    s.scan();
    let ids: Vec<Option<i64>> = (0..5).map(|i| s.id_of(&format!("old/{i}.jpg"))).collect();

    for i in 0..5 {
        s.mv(&format!("old/{i}.jpg"), &format!("new/{i}.jpg"));
    }
    let (st, asked) = s.scan_counting();

    assert_eq!((st.renamed, st.added, st.deleted), (5, 0, 0));
    for i in 0..5 {
        assert_eq!(s.id_of(&format!("new/{i}.jpg")), ids[i as usize]);
    }
    assert!(asked.is_empty());
}

#[test]
fn rename_changing_extension_updates_type() {
    let mut s = Sandbox::new();
    s.put("clip.mp4", "video-bytes", 1000);
    s.scan();
    s.hash_all();
    let id = s.id_of("clip.mp4").unwrap();

    s.mv("clip.mp4", "clip.mkv");
    let st = s.scan();

    assert_eq!(st.renamed, 1);
    let (rel, mt) = s.db.file_info(id).unwrap();
    assert_eq!(rel, "clip.mkv");
    assert_eq!(mt, MediaType::Video);
}

#[test]
fn first_scan_counts_and_fills_rows() {
    let mut s = Sandbox::new();
    s.put("b/Pic.JPG", "12345", 77);
    s.put("notes.txt", "no media", 77);
    s.put("clip.mp4", "v", 78);
    let st = s.scan();
    assert_eq!(st, ScanStats { added: 2, updated: 0, renamed: 0, deleted: 0, seen: 0 });
    let f = &s.db.files()[0];
    assert_eq!((f.id, f.rel_path.as_str(), f.name.as_str(), f.ext.as_str()), (1, "b/Pic.JPG", "Pic.JPG", "jpg"));
    assert_eq!((f.size, f.mtime, f.media_type), (5, 77, MediaType::Image));
    assert_eq!((f.hash, f.width, f.duration_ms, f.thumb_state, f.is_deleted), (None, None, None, 0, false));
}

#[test]
fn second_scan_is_idle() {
    let mut s = Sandbox::new();
    s.put("a.jpg", "aa", 5);
    s.put("b.jpg", "bb", 6);
    s.scan();
    let st = s.scan();
    assert_eq!(st, ScanStats { added: 0, updated: 0, renamed: 0, deleted: 0, seen: 2 });
}

#[test]
fn a_changed_file_is_touched_and_loses_what_was_found() {
    let mut s = Sandbox::new();
    s.put("a.jpg", "aa", 5);
    s.scan();
    s.hash_all();
    let id = s.id_of("a.jpg").unwrap();
    s.db.set_thumb_state(id, 1);
    s.put("a.jpg", "aaaa", 9);
    let st = s.scan();
    assert_eq!((st.updated, st.seen), (1, 1));
    let f = &s.db.files()[0];
    assert_eq!((f.size, f.mtime, f.hash, f.thumb_state), (4, 9, None, 0));
}

#[test]
fn the_index_mirrors_the_disk() {
    let mut s = Sandbox::new();
    s.put("a.jpg", "1", 1);
    s.put("x/b.mp4", "2", 2);
    s.scan();
    s.mv("a.jpg", "x/c.png");
    s.put("d.gif", "4", 4);
    s.disk.remove("x/b.mp4").unwrap();
    s.scan();
    let mut live: Vec<String> = s.db.active_files().into_iter().map(|a| a.rel_path).collect();
    live.sort();
    assert_eq!(live, s.disk.keys().cloned().collect::<Vec<String>>());
}

#[test]
fn only_files_with_a_hashed_lookalike_are_read() {
    let mut s = Sandbox::new();
    s.put("a.jpg", "content-a", 1000);
    s.put("z.jpg", "zz", 1000);
    s.scan();
    s.hash_all();
    s.mv("a.jpg", "b.jpg");
    s.put("long.jpg", "longer than the others", 1000);
    let (st, asked) = s.scan_counting();
    assert_eq!((st.renamed, st.added), (1, 1));
    assert_eq!(asked, vec!["b.jpg".to_string()]);
}

#[test]
fn unreadable_files_are_not_matched_by_content() {
    let mut s = Sandbox::new();
    s.put("a.jpg", "content-a", 1000);
    s.scan();
    s.hash_all();
    s.mv("a.jpg", "b.jpg");
    let entries = s.entries();
    let st = scan(&entries, &vec![None], 0, &mut s.db).unwrap();
    assert_eq!((st.renamed, st.added, st.deleted), (0, 1, 1));
}

#[test]
fn two_files_with_one_path_are_refused() {
    let mut s = Sandbox::new();
    s.put("a.jpg", "aa", 5);
    let mut entries = s.entries();
    entries.extend(s.entries());
    assert_eq!(scan(&entries, &vec![None, None], 0, &mut s.db), Err(DbError::Conflict));
    assert_eq!(s.db.file_count(), 0);
}

#[test]
fn a_full_id_space_is_refused() {
    let row = FileRow {
        id: i64::MAX,
        rel_path: "old.jpg".to_string(),
        name: "old.jpg".to_string(),
        ext: "jpg".to_string(),
        media_type: MediaType::Image,
        size: 1,
        mtime: 1,
        added_at: 1,
        width: None,
        height: None,
        duration_ms: None,
        resume_ms: None,
        hash: None,
        thumb_state: 0,
        is_deleted: true,
    };
    let mut db = Db::from_rows(vec![row], Vec::new(), Vec::new()).unwrap();
    let mut s = Sandbox::new();
    s.put("a.jpg", "aa", 5);
    assert_eq!(scan(&s.entries(), &s.hashes(), 0, &mut db), Err(DbError::IdsExhausted));
    assert_eq!(db.file_count(), 0);
}

#[test]
fn entries_without_text_or_kind_are_passed_over() {
    let entries = vec![
        DiskEntry { parts: vec![Some("a".to_string()), None], len: 1, mtime_secs: Some(1) },
        DiskEntry { parts: vec![Some("README".to_string())], len: 1, mtime_secs: Some(1) },
        DiskEntry { parts: vec![Some("d".to_string()), Some("x.PnG".to_string())], len: 3, mtime_secs: None },
    ];
    let files = walk_files(&entries);
    assert_eq!(files.len(), 1);
    assert_eq!((files[0].rel.as_str(), files[0].ext.as_str(), files[0].size, files[0].mtime), ("d/x.PnG", "png", 3, 0));
    assert_eq!(files[0].source, 2);
}

#[test]
fn matches_are_one_to_one() {
    let row = |id: i64, name: &str| MissingRow {
        id,
        size: 9,
        mtime: 1,
        hash: Some(7),
        name: name.to_string(),
        ext: "jpg".to_string(),
        parent: String::new(),
    };
    let file = |rel: &str, source: usize| DiskFile {
        rel: rel.to_string(),
        name: rel.to_string(),
        ext: "jpg".to_string(),
        media_type: MediaType::Image,
        size: 9,
        mtime: 1,
        source,
    };
    let (pairs, files) = match_renames(
        vec![row(1, "a.jpg"), row(2, "b.jpg")],
        vec![file("x.jpg", 0), file("y.jpg", 1), file("z.jpg", 2)],
        &vec![Some(7), Some(7), Some(7)],
    );
    assert_eq!(files.len(), 3);
    assert_eq!(pairs.len(), 2);
    assert_ne!(pairs[0].0, pairs[1].0);
    assert_ne!(pairs[0].1, pairs[1].1);
}

#[test]
fn the_counts_add_up() {
    let mut s = Sandbox::new();
    s.put("stays.jpg", "one", 1);
    s.put("changes.jpg", "two", 1);
    s.put("moves.jpg", "three", 1);
    s.put("goes.jpg", "sixteen", 1);
    s.scan();
    s.put("changes.jpg", "two!", 2);
    s.mv("moves.jpg", "there/moves.jpg");
    s.disk.remove("goes.jpg");
    s.put("comes.mp4", "a film of some length", 3);
    let st = s.scan();
    assert_eq!((st.seen, st.updated, st.renamed, st.added, st.deleted), (2, 1, 1, 1, 1));
    assert_eq!(st.seen + st.renamed + st.added, s.disk.len());
    assert_eq!(st.seen + st.renamed + st.deleted, 4);
}
