use micromedia::media::MediaType;
use micromedia::overlay::{choose_opening, Opening, Overlay, HIDE_AFTER_MS};

fn info(rel: &str, kind: MediaType) -> Option<(String, MediaType)> {
    Some((rel.to_string(), kind))
}

#[test]
fn files_open_by_kind() {
    let mut v = Overlay::new(0);
    assert_eq!(v.open_file(1, &None, true), (Opening::Unknown, None));
    assert!(!v.open);
    let (how, name) = v.open_file(2, &info("d/pic.jpg", MediaType::Image), true);
    assert_eq!((how, name.as_deref()), (Opening::Picture, Some("pic.jpg")));
    assert!(v.open && !v.is_video && v.current == 2);
    let (how, _) = v.open_file(3, &info("v.mp4", MediaType::Video), true);
    assert_eq!(how, Opening::Played { looped: false });
    assert!(v.render_video && !v.looping);
    let (how, _) = v.open_file(4, &info("A.GIF", MediaType::Image), true);
    assert_eq!(how, Opening::Played { looped: true });
    assert!(v.looping);
}

#[test]
fn without_a_player_gifs_are_pictures_and_videos_stay_shut() {
    assert_eq!(choose_opening(MediaType::Image, true, false), Opening::Picture);
    let mut v = Overlay::new(0);
    let (how, _) = v.open_file(5, &info("v.mp4", MediaType::Video), false);
    assert_eq!(how, Opening::NoPlayer);
    assert!(!v.open && v.current == 5);
}

#[test]
fn closing_leaves_the_settings() {
    let mut v = Overlay::new(0);
    v.open_file(1, &info("v.mp4", MediaType::Video), true);
    assert!(v.toggle_mute());
    assert!(v.toggle_fullscreen(10));
    assert!(v.close());
    assert_eq!((v.current, v.open, v.fullscreen, v.render_video, v.muted), (-1, false, false, false, true));
    assert!(!v.close());
}

#[test]
fn speeds_come_round() {
    let mut v = Overlay::new(0);
    assert_eq!(v.speed, 2);
    let seen: Vec<usize> = (0..6).map(|_| v.cycle_speed()).collect();
    assert_eq!(seen, vec![3, 4, 5, 0, 1, 2]);
}

#[test]
fn loops() {
    let mut v = Overlay::new(0);
    assert!(v.toggle_loop());
    assert!(!v.toggle_loop());
}

#[test]
fn controls_hide_in_the_full_screen_only() {
    let mut v = Overlay::new(0);
    assert!(!v.tick(99_999));
    v.open_file(1, &info("v.mp4", MediaType::Video), true);
    assert!(v.tick(99_999));
    assert!(v.controls_visible);
    v.toggle_fullscreen(1000);
    v.tick(1000 + HIDE_AFTER_MS);
    assert!(v.controls_visible);
    v.tick(1001 + HIDE_AFTER_MS);
    assert!(!v.controls_visible);
    v.activity(9000);
    assert!(v.controls_visible);
    v.tick(20_000);
    v.toggle_fullscreen(20_001);
    assert!(v.controls_visible);
}

#[test]
fn frames_become_thumbnails() {
    let mut v = Overlay::new(0);
    assert_eq!(v.thumbnail_files(true), None);
    v.open_file(7, &info("v.mp4", MediaType::Video), true);
    assert_eq!(v.thumbnail_files(true), Some(("7.cap.png".to_string(), "7.jpg".to_string())));
    assert_eq!(v.thumbnail_files(false), None);
    assert!(v.moves_video(true) && !v.moves_video(false));
}
