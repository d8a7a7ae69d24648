use micromedia::app::listing::{extensions, fits_lower, last_part_of, list_files, sort_by_lower, sort_files};
use micromedia::app::{AppOrder, AppView, MediaManagerApp, Phase};
use micromedia::db::Tag;
use micromedia::media::MediaType;
use micromedia::thumbnail::{MediaFile, ThumbnailResult};
use micromedia::ui::gallery::GalleryAction;
use micromedia::ui::sidebar::{SidebarAction, SidebarState, SortMode};
use micromedia::ui::tag_editor::TagEditorAction;
use micromedia::ui::viewer::ViewerAction;

fn file(id: i64, name: &str, size: Option<i64>, created_at: i64) -> MediaFile {
    MediaFile {
        id,
        path: name.to_string(),
        filename: name.to_string(),
        media_type: if name.ends_with("mp4") { MediaType::Video } else { MediaType::Image },
        file_size: size,
        created_at,
        thumbnail_path: None,
        custom_thumbnail: false,
    }
}

fn files() -> Vec<MediaFile> {
    vec![
        file(1, "b.PNG", Some(30), 5),
        file(2, "A.mp4", None, 9),
        file(3, "c.jpg", Some(10), 7),
        file(4, "ä.png", Some(30), 1),
    ]
}

fn ids(v: &[MediaFile]) -> Vec<i64> {
    v.iter().map(|f| f.id).collect()
}

#[test]
fn files_in_every_order() {
    let by = |m: SortMode| ids(&sort_files(m, &files()));
    assert_eq!(by(SortMode::Name), vec![2, 1, 3, 4]);
    assert_eq!(by(SortMode::NameDesc), vec![4, 3, 1, 2]);
    assert_eq!(by(SortMode::Size), vec![2, 3, 1, 4]);
    assert_eq!(by(SortMode::SizeDesc), vec![1, 4, 3, 2]);
    assert_eq!(by(SortMode::Type), vec![1, 3, 4, 2]);
    assert_eq!(by(SortMode::DateAdded), vec![4, 1, 3, 2]);
    assert_eq!(by(SortMode::DateAddedDesc), vec![2, 3, 1, 4]);
    let lower = vec!["z".to_string(), "y".to_string(), "x".to_string(), "w".to_string()];
    assert_eq!(ids(&sort_by_lower(SortMode::Name, &files(), &lower)), vec![4, 3, 2, 1]);
}

#[test]
fn searches_and_extensions() {
    let mut s = SidebarState::default();
    assert_eq!(list_files(&s, &files()).len(), 4);
    s.search_query = "Ä".to_string();
    assert_eq!(ids(&list_files(&s, &files())), vec![4]);
    s.search_query = String::new();
    s.extension_filter = "png".to_string();
    assert_eq!(ids(&list_files(&s, &files())), vec![1, 4]);
    assert!(fits_lower("abc", "b", "x.JPG", "jpg"));
    assert!(!fits_lower("abc", "d", "x.jpg", ""));
    assert_eq!(last_part_of("noext"), "noext");
    assert_eq!(last_part_of("a.b.C"), "C");
    assert_eq!(extensions(&files()), vec!["jpg", "mp4", "png"]);
}

#[test]
fn a_scan_is_followed() {
    let mut app = MediaManagerApp::new(4, files());
    assert!(app.scanning && app.status == "Scanning...");
    let mut poll = app.begin_poll().unwrap();
    assert!(poll.wants_more());
    app.poll_new_file(&mut poll, Some(file(9, "0.jpg", None, 0)));
    app.poll_new_file(&mut poll, None);
    app.poll_empty(&mut poll);
    assert!(!poll.wants_more());
    assert!(app.end_poll(&poll));
    assert_eq!(ids(&app.media_files), vec![9, 2, 1, 3, 4]);
    assert_eq!(app.status, "Scanning... 5 files so far");
    let mut poll = app.begin_poll().unwrap();
    assert!(app.poll_finished(&mut poll, 5, 1, 2));
    assert!(!app.end_poll(&poll));
    assert_eq!(app.status, "Scan complete: 5 files (1 new, 2 removed)");
    assert!(!app.scanning && app.begin_poll().is_none());
}

#[test]
fn messages_are_capped() {
    let mut app = MediaManagerApp::new(4, Vec::new());
    let mut poll = app.begin_poll().unwrap();
    let mut n = 0;
    while poll.wants_more() {
        app.poll_new_file(&mut poll, None);
        n += 1;
    }
    assert_eq!(n, 64);
    let mut poll = app.begin_poll().unwrap();
    app.poll_disconnected(&mut poll);
    assert!(!app.end_poll(&poll));
    assert_eq!(app.status, "Scan finished");
}

#[test]
fn requests_of_the_panel() {
    let mut app = MediaManagerApp::new(4, files());
    assert!(matches!(app.on_sidebar(SidebarAction::Rescan), AppOrder::Nothing));
    app.scanning = false;
    assert!(matches!(app.on_sidebar(SidebarAction::Rescan), AppOrder::StartScan));
    assert!(app.scanning);
    app.sidebar_state.included_tags = vec![3, 4];
    app.sidebar_state.excluded_tags = vec![5];
    assert!(matches!(app.on_sidebar(SidebarAction::DeleteTag(3)), AppOrder::DeleteTag(3)));
    assert_eq!(app.sidebar_state.included_tags, vec![4]);
    app.sidebar_state.sort_mode = SortMode::NameDesc;
    assert!(matches!(app.on_sidebar(SidebarAction::SortChanged), AppOrder::Nothing));
    assert_eq!(ids(&app.media_files), vec![4, 3, 1, 2]);
    assert!(matches!(app.on_sidebar(SidebarAction::FilterChanged), AppOrder::Refresh));
    assert!(matches!(app.on_sidebar(SidebarAction::CreateTag("t".to_string())), AppOrder::CreateTag(n) if n == "t"));
    app.sidebar_state.extension_filter = "JPG".to_string();
    let all = files();
    app.refresh_media_list(&all, &all);
    assert_eq!(ids(&app.media_files), vec![3]);
    assert_eq!(app.sidebar_state.available_extensions, vec!["jpg", "mp4", "png"]);
}

#[test]
fn requests_of_the_grid_and_the_viewer() {
    let mut app = MediaManagerApp::new(4, files());
    assert!(matches!(app.on_gallery(GalleryAction::OpenMedia(99)), AppOrder::Nothing));
    assert_eq!(app.view, AppView::Gallery);
    app.on_gallery(GalleryAction::OpenMedia(2));
    assert_eq!((app.view, app.viewer_state.current), (AppView::Viewer, Some((2, MediaType::Video))));
    assert!(matches!(app.on_gallery(GalleryAction::EditTags(1)), AppOrder::ReadTags(1)));
    app.viewer_state.fullscreen = true;
    assert!(app.video_fullscreen());
    match app.on_viewer(ViewerAction::SetAsThumbnail) {
        AppOrder::Capture(id, name) => {
            assert_eq!((id, name.as_str()), (2, "2.png"));
            app.captured(id, &name, true);
        }
        _ => panic!("no capture"),
    }
    let f = app.media_files.iter().find(|f| f.id == 2).unwrap();
    assert_eq!((f.thumbnail_path.as_deref(), f.custom_thumbnail), (Some("2.png"), true));
    assert_eq!(app.status, "Thumbnail set from current frame");
    app.captured(2, "2.png", false);
    assert_eq!(app.status, "Failed to capture screenshot");
    assert!(matches!(app.on_viewer(ViewerAction::Close), AppOrder::StopPlayer));
    assert!(!app.video_fullscreen() && app.viewer_state.drop_video_texture);
    assert_eq!(app.view, AppView::Gallery);
}

#[test]
fn requests_of_the_tag_editor() {
    let mut app = MediaManagerApp::new(4, files());
    app.open_tag_editor(3, vec![Tag { id: 1, name: "a".to_string() }]);
    assert!(app.tag_editor_state.is_open);
    assert!(matches!(app.on_editor(TagEditorAction::AddTag(3, "x".to_string())), AppOrder::Link(3, n) if n == "x"));
    assert!(matches!(app.on_editor(TagEditorAction::RemoveTag(3, 1)), AppOrder::Unlink(3, 1)));
    app.set_media_tags(Vec::new());
    assert!(app.tag_editor_state.media_tags.is_empty());
    app.on_editor(TagEditorAction::Close);
    assert!(!app.tag_editor_state.is_open);
    assert!(MediaManagerApp::tag_was_made(1) && !MediaManagerApp::tag_was_made(0));
}

#[test]
fn thumbnails_columns_and_repaints() {
    let mut app = MediaManagerApp::new(4, files());
    let made = ThumbnailResult { media_id: 3, thumb_filename: Some("3.jpg".to_string()) };
    assert_eq!(app.thumbnail_made(&made), Some((3, "3.jpg".to_string())));
    assert_eq!(app.media_files[2].thumbnail_path.as_deref(), Some("3.jpg"));
    assert!(!app.media_files[2].custom_thumbnail);
    let failed = ThumbnailResult { media_id: 1, thumb_filename: None };
    assert_eq!(app.thumbnail_made(&failed), None);
    assert!(app.set_columns(6));
    assert!(!app.set_columns(6));
    assert_eq!((app.gallery_state.columns, app.saved_columns), (6, 6));
    assert!(app.needs_repaint(false));
    app.scanning = false;
    assert!(!app.needs_repaint(false) && app.needs_repaint(true));
}

fn phases(app: &MediaManagerApp) -> Vec<Phase> {
    let mut out = vec![Phase::Cleanup];
    while out[out.len() - 1] != Phase::Done {
        out.push(app.next_phase(out[out.len() - 1]));
    }
    out
}

#[test]
fn a_frame_has_its_phases() {
    let mut app = MediaManagerApp::new(4, files());
    assert_eq!(
        phases(&app),
        vec![
            Phase::Cleanup,
            Phase::Scan,
            Phase::Thumbnails,
            Phase::TagEditor,
            Phase::Sidebar,
            Phase::StatusBar,
            Phase::Gallery,
            Phase::Repaint,
            Phase::Done,
        ]
    );
    app.open_media(2);
    assert!(phases(&app).contains(&Phase::Viewer) && phases(&app).contains(&Phase::Sidebar));
    app.viewer_state.fullscreen = true;
    assert!(!phases(&app).contains(&Phase::Sidebar) && !phases(&app).contains(&Phase::StatusBar));
}
