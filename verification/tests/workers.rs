use std::collections::BTreeMap;
use std::io::Cursor;

use micromedia::db::{Db, Pending};
use micromedia::hash::hash_bytes;
use micromedia::scanner::{scan, DiskEntry};
use micromedia::thumbs::{image_dims, make_image_thumb, thumb_filename};
use micromedia::workers::{Job, Reindex, ThumbFacts, THUMB_ERR, THUMB_MAX, THUMB_OK};

fn png(width: u32, height: u32) -> Vec<u8> {
    let mut out = Cursor::new(Vec::new());
    image::RgbImage::new(width, height).write_to(&mut out, image::ImageFormat::Png).unwrap();
    out.into_inner()
}

fn ext(rel: &str) -> &str {
    rel.rsplit('.').next().unwrap()
}

/// A pass over files in memory, of which the unreadable ones are given. Gives the
/// thumbnails by name, and the jobs in their order.
fn reindex(
    disk: &BTreeMap<String, Vec<u8>>,
    unreadable: &[&str],
    db: &mut Db,
) -> (BTreeMap<String, Vec<u8>>, Vec<String>) {
    let mut thumbs = BTreeMap::new();
    let mut jobs = Vec::new();
    let mut pass = Reindex::start();
    loop {
        match pass.next_job(db) {
            Job::Scan => {
                jobs.push("scan".to_string());
                let entries: Vec<DiskEntry> = disk
                    .iter()
                    .map(|(rel, bytes)| DiskEntry {
                        parts: rel.split('/').map(|p| Some(p.to_string())).collect(),
                        len: bytes.len() as u64,
                        mtime_secs: Some(1),
                    })
                    .collect();
                let none = vec![None; entries.len()];
                scan(&entries, &none, 0, db).unwrap();
                pass.scan_done();
            }
            Job::Refresh => {
                jobs.push("refresh".to_string());
                pass.refreshed();
            }
            Job::Thumb(t) => {
                jobs.push(format!("thumb {}", t.rel));
                let made = if t.is_video {
                    Some(ThumbFacts { duration_ms: Some(1500), dims: Some((640, 360)) })
                } else {
                    match make_image_thumb(&disk[&t.rel], ext(&t.rel), THUMB_MAX) {
                        Ok(jpeg) => {
                            thumbs.insert(thumb_filename(t.id), jpeg);
                            Some(ThumbFacts { duration_ms: None, dims: None })
                        }
                        Err(_) => None,
                    }
                };
                pass.thumb_done(db, made);
            }
            Job::Hash(t) => {
                jobs.push(format!("hash {}", t.rel));
                let hash = if unreadable.contains(&t.rel.as_str()) { None } else { Some(hash_bytes(&disk[&t.rel])) };
                pass.hash_done(db, hash);
            }
            Job::Duration(t) => {
                jobs.push(format!("duration {}", t.rel));
                pass.duration_done(db, None);
            }
            Job::Resolution(t) => {
                jobs.push(format!("resolution {}", t.rel));
                let dims = if t.is_video { None } else { image_dims(&disk[&t.rel], ext(&t.rel)) };
                pass.resolution_done(db, dims);
            }
            Job::Finished => break,
        }
    }
    (thumbs, jobs)
}

#[test]
fn reindex_processes_an_image_end_to_end() {
    let mut disk = BTreeMap::new();
    disk.insert("pic.png".to_string(), png(64, 48));
    let mut db = Db::empty();
    let (thumbs, _) = reindex(&disk, &[], &mut db);

    assert_eq!(db.file_count(), 1);
    assert_eq!(db.count_pending(Pending::Hash), 0, "хэш посчитан");
    assert_eq!(db.count_pending(Pending::Thumb), 0, "превью есть");
    assert_eq!(db.count_pending(Pending::Resolution), 0);
    let id = db.active_files()[0].id;
    assert!(thumbs.contains_key(&format!("{id}.jpg")));

    let f = &db.files()[0];
    assert_eq!((f.width, f.height), (Some(64), Some(48)));
    assert_eq!(f.hash, Some(hash_bytes(&disk["pic.png"]) as i64));
}

#[test]
fn stages_come_in_order_and_the_view_is_refreshed() {
    let mut disk = BTreeMap::new();
    disk.insert("a.png".to_string(), png(8, 8));
    disk.insert("v.mp4".to_string(), b"video".to_vec());
    let mut db = Db::empty();
    let (_, jobs) = reindex(&disk, &[], &mut db);
    assert_eq!(
        jobs,
        vec![
            "scan",
            "refresh",
            "thumb a.png",
            "thumb v.mp4",
            "refresh",
            "hash a.png",
            "hash v.mp4",
            "resolution a.png",
            "refresh",
        ]
    );
    let v = &db.files()[1];
    assert_eq!((v.duration_ms, v.width, v.height, v.thumb_state), (Some(1500), Some(640), Some(360), THUMB_OK));
}

#[test]
fn broken_images_are_marked_and_not_tried_again() {
    let mut disk = BTreeMap::new();
    disk.insert("bad.png".to_string(), b"no picture".to_vec());
    let mut db = Db::empty();
    let (thumbs, jobs) = reindex(&disk, &[], &mut db);
    assert!(thumbs.is_empty());
    let f = &db.files()[0];
    assert_eq!((f.thumb_state, f.width, f.height), (THUMB_ERR, Some(-1), Some(-1)));
    assert_eq!(jobs.iter().filter(|j| j.starts_with("thumb")).count(), 1);
    assert_eq!(jobs.iter().filter(|j| j.starts_with("resolution")).count(), 1);
}

#[test]
fn files_that_cannot_be_read_do_not_keep_the_pass() {
    let mut disk = BTreeMap::new();
    disk.insert("a.png".to_string(), png(4, 4));
    let mut db = Db::empty();
    let (_, jobs) = reindex(&disk, &["a.png"], &mut db);
    assert_eq!(jobs.iter().filter(|j| j.starts_with("hash")).count(), 1);
    assert_eq!(db.count_pending(Pending::Hash), 1);
    assert_eq!(jobs.last().unwrap(), "refresh");
}

#[test]
fn more_files_than_a_batch_are_all_done() {
    let mut disk = BTreeMap::new();
    for i in 0..40 {
        disk.insert(format!("{i:02}.png"), png(2, 2));
    }
    let mut db = Db::empty();
    let (thumbs, jobs) = reindex(&disk, &[], &mut db);
    assert_eq!(thumbs.len(), 40);
    assert_eq!(jobs.iter().filter(|j| j.starts_with("hash")).count(), 40);
    assert_eq!(jobs.iter().filter(|j| *j == "refresh").count(), 2 + 3);
    assert!(jobs.len() <= 1 + (2 + 3) + 40 + 16 * 41 + 40);
}

#[test]
fn a_settled_library_has_nothing_to_do() {
    let mut disk = BTreeMap::new();
    disk.insert("a.png".to_string(), png(4, 4));
    let mut db = Db::empty();
    reindex(&disk, &[], &mut db);
    let (_, jobs) = reindex(&disk, &[], &mut db);
    assert_eq!(jobs, vec!["scan", "refresh", "refresh"]);
}

#[test]
fn results_that_cannot_be_written_do_not_keep_the_pass() {
    let mut db = Db::empty();
    let entries: Vec<DiskEntry> = ["a.png", "b.png"]
        .iter()
        .map(|rel| DiskEntry { parts: vec![Some(rel.to_string())], len: 1, mtime_secs: Some(1) })
        .collect();
    scan(&entries, &vec![None; 2], 0, &mut db).unwrap();
    let mut pass = Reindex::start();
    let mut jobs = Vec::new();
    loop {
        pass = pass.copied();
        match pass.next_job(&db) {
            Job::Scan => pass.scan_done(),
            Job::Refresh => pass.refreshed(),
            Job::Thumb(_) => pass.thumb_done(&mut db, None),
            Job::Hash(t) => {
                jobs.push(format!("hash {}", t.rel));
                pass.not_written(false);
            }
            Job::Duration(_) => unreachable!(),
            Job::Resolution(t) => {
                jobs.push(format!("resolution {}", t.rel));
                pass.not_written(true);
            }
            Job::Finished => break,
        }
    }
    assert_eq!(jobs, vec!["hash a.png", "hash b.png", "resolution a.png", "resolution b.png"]);
    assert_eq!((db.count_pending(Pending::Hash), db.count_pending(Pending::Resolution)), (2, 2));
}
