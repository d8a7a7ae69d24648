use micromedia::db::Tag;
use micromedia::media::MediaType;
use micromedia::ui::gallery::{grid_rows, show_gallery, CellEvent, GalleryAction, GalleryState};
use micromedia::ui::sidebar::{show_sidebar, SidebarAction, SidebarEvent, SidebarState, SortMode};
use micromedia::ui::tag_editor::{available_tags, show_tag_editor, TagEditorAction, TagEditorEvent, TagEditorState};
use micromedia::ui::viewer::{
    fmt_time, format_time, no_player_text, play_label, show_viewer, time_label, to_opaque, BarEvent, Controls,
    PlayerOrder, VideoEvent, ViewerAction, ViewerState,
};

fn does(s: &mut SidebarState, e: SidebarEvent) -> SidebarAction {
    show_sidebar(s, &vec![e])
}

#[test]
fn labels_of_the_orders() {
    assert_eq!(SortMode::Name.label(), "Name A-Z");
    assert_eq!(SortMode::SizeDesc.label(), "Size (large)");
    assert_eq!(SortMode::DateAddedDesc.label(), "Date added (new)");
}

#[test]
fn tags_go_in_and_out_of_the_filter() {
    let mut s = SidebarState::default();
    assert!(s.match_all && s.sort_mode == SortMode::Name);
    assert!(matches!(does(&mut s, SidebarEvent::Include(1)), SidebarAction::FilterChanged));
    assert_eq!(s.included_tags, vec![1]);
    does(&mut s, SidebarEvent::Exclude(1));
    assert_eq!((s.included_tags.len(), s.excluded_tags.clone()), (0, vec![1]));
    does(&mut s, SidebarEvent::Include(1));
    assert_eq!((s.included_tags.clone(), s.excluded_tags.len()), (vec![1], 0));
    does(&mut s, SidebarEvent::Include(1));
    assert!(s.included_tags.is_empty());
    does(&mut s, SidebarEvent::Include(2));
    does(&mut s, SidebarEvent::Exclude(3));
    does(&mut s, SidebarEvent::Drop(2));
    assert_eq!((s.included_tags.len(), s.excluded_tags.len()), (0, 1));
    does(&mut s, SidebarEvent::ClearFilter);
    assert!(s.excluded_tags.is_empty());
}

#[test]
fn tags_are_made_with_a_name_only() {
    let mut s = SidebarState::default();
    does(&mut s, SidebarEvent::OpenCreate);
    does(&mut s, SidebarEvent::NewName("  ".to_string()));
    assert!(matches!(does(&mut s, SidebarEvent::ConfirmCreate), SidebarAction::Idle));
    assert!(s.show_create_tag);
    does(&mut s, SidebarEvent::NewName(" trip ".to_string()));
    assert!(matches!(does(&mut s, SidebarEvent::ConfirmCreate), SidebarAction::CreateTag(n) if n == "trip"));
    assert!(!s.show_create_tag && s.new_tag_name.is_empty());
    does(&mut s, SidebarEvent::OpenCreate);
    does(&mut s, SidebarEvent::NewName("x".to_string()));
    does(&mut s, SidebarEvent::CancelCreate);
    assert!(!s.show_create_tag && s.new_tag_name.is_empty());
}

#[test]
fn the_last_request_counts() {
    let mut s = SidebarState::default();
    let a = show_sidebar(&mut s, &vec![SidebarEvent::Scan, SidebarEvent::Delete(7), SidebarEvent::OpenCreate]);
    assert!(matches!(a, SidebarAction::DeleteTag(7)));
    assert!(matches!(does(&mut s, SidebarEvent::Sort(SortMode::Name)), SidebarAction::Idle));
    assert!(matches!(does(&mut s, SidebarEvent::Sort(SortMode::Size)), SidebarAction::SortChanged));
    assert!(matches!(does(&mut s, SidebarEvent::Search("q".to_string())), SidebarAction::FilterChanged));
    assert!(matches!(does(&mut s, SidebarEvent::Extension("png".to_string())), SidebarAction::FilterChanged));
    assert!(matches!(does(&mut s, SidebarEvent::Scan), SidebarAction::Rescan));
    assert_eq!((s.search_query.as_str(), s.extension_filter.as_str()), ("q", "png"));
}

#[test]
fn the_tag_editor_speaks_of_its_file() {
    let mut s = TagEditorState::default();
    assert!(matches!(show_tag_editor(&mut s, &vec![TagEditorEvent::Close]), TagEditorAction::Idle));
    s.is_open = true;
    assert!(matches!(show_tag_editor(&mut s, &Vec::new()), TagEditorAction::Close));
    s.media_id = Some(4);
    assert!(matches!(show_tag_editor(&mut s, &vec![TagEditorEvent::Remove(2)]), TagEditorAction::RemoveTag(4, 2)));
    assert!(matches!(
        show_tag_editor(&mut s, &vec![TagEditorEvent::Add("a".to_string())]),
        TagEditorAction::AddTag(4, n) if n == "a"
    ));
    let a = show_tag_editor(&mut s, &vec![TagEditorEvent::Input(" b ".to_string()), TagEditorEvent::CreateAndAdd]);
    assert!(matches!(a, TagEditorAction::AddTag(4, n) if n == "b"));
    assert!(s.new_tag_input.is_empty());
    assert!(matches!(show_tag_editor(&mut s, &vec![TagEditorEvent::CreateAndAdd]), TagEditorAction::Idle));
}

#[test]
fn tags_that_can_be_added() {
    let tag = |id: i64| Tag { id, name: format!("t{id}") };
    let all = vec![tag(1), tag(2), tag(3)];
    assert_eq!(available_tags(&all, &vec![tag(2)]), vec![0, 2]);
    assert_eq!(available_tags(&all, &Vec::new()), vec![0, 1, 2]);
}

#[test]
fn the_grid() {
    assert_eq!(grid_rows(7, 3), vec![(0, 3), (3, 6), (6, 7)]);
    assert_eq!(grid_rows(2, 0), vec![(0, 1), (1, 2)]);
    assert!(grid_rows(0, 5).is_empty());
    let mut s = GalleryState::new(5);
    assert_eq!(show_gallery(&mut s, &Vec::new()), GalleryAction::Idle);
    assert_eq!(show_gallery(&mut s, &vec![CellEvent::Click(3)]), GalleryAction::OpenMedia(3));
    assert_eq!(s.selected_media, None);
    assert_eq!(show_gallery(&mut s, &vec![CellEvent::SecondaryClick(3)]), GalleryAction::EditTags(3));
    assert_eq!(s.selected_media, Some(3));
    assert!(GalleryState::needs_thumbnail(false, &Some("x".to_string())));
    assert!(!GalleryState::needs_thumbnail(true, &Some("x".to_string())));
    assert!(!GalleryState::needs_thumbnail(false, &None));
}

#[test]
fn times() {
    assert_eq!(format_time(0), "0:00");
    assert_eq!(format_time(65), "1:05");
    assert_eq!(format_time(3661), "1:01:01");
    assert_eq!(fmt_time(3661), "61:01");
    assert_eq!(time_label(5, 600), "0:05 / 10:00");
    assert_eq!(format_time(u64::MAX), "5124095576030431:00:15");
}

#[test]
fn the_bar_over_the_viewer() {
    let mut s = ViewerState::default();
    assert_eq!(show_viewer(&mut s, false, &Vec::new()), (ViewerAction::Close, false));
    s.current = Some((8, MediaType::Video));
    assert_eq!(show_viewer(&mut s, false, &vec![BarEvent::Tags]), (ViewerAction::EditTags(8), false));
    assert_eq!(show_viewer(&mut s, false, &vec![BarEvent::SetAsThumbnail]), (ViewerAction::SetAsThumbnail, false));
    assert_eq!(show_viewer(&mut s, false, &vec![BarEvent::Back]), (ViewerAction::Close, true));
    s.fullscreen = true;
    assert_eq!(show_viewer(&mut s, false, &vec![BarEvent::Back]), (ViewerAction::Idle, false));
    assert_eq!(show_viewer(&mut s, true, &Vec::new()), (ViewerAction::Idle, false));
    assert!(!s.fullscreen);
    s.current = Some((9, MediaType::Image));
    assert_eq!(show_viewer(&mut s, false, &vec![BarEvent::SetAsThumbnail]), (ViewerAction::Idle, false));
}

#[test]
fn videos_and_their_controls() {
    let mut s = ViewerState::default();
    assert!(s.begin_video(&None, "a"));
    assert!(s.process_deferred());
    assert!(!s.process_deferred());
    assert!(!s.begin_video(&Some("a".to_string()), "a"));
    assert_eq!(s.video_event(VideoEvent::Click), (Some(PlayerOrder::TogglePause), true));
    assert_eq!(s.video_event(VideoEvent::DoubleClick), (None, true));
    assert!(s.fullscreen);
    assert!(s.show_controls(true) && !s.show_controls(false) && !s.controls_below(true));
    assert_eq!((s.controls(true), s.controls(false)), (Controls::Over, Controls::Hidden));
    assert_eq!(s.video_event(VideoEvent::Stop), (Some(PlayerOrder::Stop), false));
    assert!(!s.fullscreen && !s.drop_video_texture);
    assert_eq!(s.controls(false), Controls::Below);
    s.video_event(VideoEvent::Stop);
    assert!(s.drop_video_texture);
    s.video_event(VideoEvent::Fullscreen);
    s.video_event(VideoEvent::ExitFullscreen);
    assert!(!s.fullscreen);
    assert_eq!(s.video_event(VideoEvent::Seek).0, Some(PlayerOrder::SeekTo));
    assert_eq!((play_label(true), play_label(false)), ("Pause", "Play"));
}

#[test]
fn pictures_and_texts_of_the_player() {
    assert_eq!(to_opaque(&vec![1, 2, 3, 4, 5, 6]), vec![1, 2, 3, 255]);
    assert_eq!(no_player_text(&None), "libmpv not loaded");
    assert!(no_player_text(&Some("E".to_string())).starts_with("libmpv not available:\nE\n"));
}
