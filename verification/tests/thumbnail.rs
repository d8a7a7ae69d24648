use micromedia::media::MediaType;
use micromedia::thumbnail::{
    ffmpeg_binary_name, ffmpeg_call, find_ffmpeg, MediaFile, ThumbTry, ThumbnailResult, ThumbnailWorker,
};

fn file(id: i64, thumb: Option<&str>) -> MediaFile {
    MediaFile {
        id,
        path: format!("{id}.mp4"),
        filename: format!("{id}.mp4"),
        media_type: MediaType::Video,
        file_size: None,
        created_at: 0,
        thumbnail_path: thumb.map(|s| s.to_string()),
        custom_thumbnail: false,
    }
}

#[test]
fn the_worker_takes_files_in_turn() {
    let mut w = ThumbnailWorker::start("media".to_string(), 320);
    assert_eq!((w.media_root().as_str(), w.thumbnail_width()), ("media", 320));
    assert!(!w.busy());
    w.queue(file(1, None));
    w.queue(file(2, Some("2.jpg")));
    w.queue(file(3, None));
    assert!(w.busy());
    assert!(w.try_recv().is_none());
    let a = w.next().unwrap();
    let b = w.next().unwrap();
    assert_eq!((a.id, b.id), (1, 3));
    assert!(w.next().is_none());
    w.finish(ThumbnailResult { media_id: b.id, thumb_filename: None });
    w.finish(ThumbTry::Made.result(a.id));
    let r = w.try_recv().unwrap();
    assert_eq!((r.media_id, r.thumb_filename), (3, None));
    assert!(w.busy());
    let r = w.try_recv().unwrap();
    assert_eq!((r.media_id, r.thumb_filename.as_deref()), (1, Some("1.jpg")));
    assert!(!w.busy());
    assert_eq!((w.media_root().as_str(), w.thumbnail_width()), ("media", 320));
}

#[test]
fn ffmpeg_is_called_at_most_twice() {
    let t = ThumbTry::first();
    assert_eq!(t, ThumbTry::At(5));
    assert_eq!(t.after(true, true), ThumbTry::Made);
    let t = t.after(true, false);
    assert_eq!(t, ThumbTry::At(0));
    assert_eq!(t.after(true, true), ThumbTry::Made);
    assert_eq!(t.after(false, true), ThumbTry::Failed);
    assert_eq!(ThumbTry::Failed.result(4).thumb_filename, None);
}

#[test]
fn the_call_of_ffmpeg() {
    let c = ffmpeg_call(5, 320);
    assert_eq!(c.before, vec!["-y", "-ss", "5", "-i"]);
    assert_eq!(c.after, vec!["-frames:v", "1", "-vf", "scale=320:-1"]);
    assert_eq!(ffmpeg_binary_name(true), "ffmpeg.exe");
    assert_eq!(find_ffmpeg(true, false), "libs/ffmpeg");
    assert_eq!(find_ffmpeg(false, true), "ffmpeg.exe");
}

#[test]
fn copies_say_the_same() {
    let f = file(9, Some("9.jpg"));
    let g = f.copied();
    assert_eq!((g.id, g.path, g.thumbnail_path), (9, "9.mp4".to_string(), Some("9.jpg".to_string())));
}
