//! The window with the gallery and the viewer: what it shows, and what is to be
//! done when something is asked for in one of its parts.

use vstd::prelude::*;
use crate::db::{shown, Tag};
use crate::text::{decimal, push_count, push_decimal};
use crate::thumbnail::{media_recs, MediaFile, MediaRec, ThumbnailResult};
use crate::ui::gallery::{GalleryAction, GalleryState};
use crate::ui::sidebar::{fresh_sidebar, sidebar_after, SidebarAction, SidebarAsk, SidebarDid, SidebarRec, SidebarState};
use crate::ui::tag_editor::{closed_editor, EditorAsk, EditorRec, TagEditorAction, TagEditorState};
use crate::ui::viewer::{ViewerAction, ViewerState};

pub mod listing;

use self::listing::{arranged, extensions, is_listing, list_files, sort_files, sorted_files};

verus! {

broadcast use vstd::string::group_string_axioms;

/// What fills the middle of the window.
#[derive(Debug, Clone, Copy, PartialEq, Eq, Structural)]
pub enum AppView {
    Gallery,
    Viewer,
}

/// The window.
pub struct MediaManagerApp {
    pub view: AppView,
    pub media_files: Vec<MediaFile>,
    pub sidebar_state: SidebarState,
    pub gallery_state: GalleryState,
    pub viewer_state: ViewerState,
    pub tag_editor_state: TagEditorState,
    /// Whether a scan is under way.
    pub scanning: bool,
    /// Whether there may be word of a scan.
    pub listening: bool,
    pub status: String,
    /// How many columns the settings say.
    pub saved_columns: usize,
}

/// What a [`MediaManagerApp`] says.
#[verifier::ext_equal]
pub struct AppRec {
    pub view: AppView,
    pub files: Seq<MediaRec>,
    pub sidebar: SidebarRec,
    pub gallery: GalleryState,
    pub viewer: ViewerState,
    pub editor: EditorRec,
    pub scanning: bool,
    pub listening: bool,
    pub status: Seq<char>,
    pub saved_columns: usize,
}

impl View for MediaManagerApp {
    type V = AppRec;

    open spec fn view(&self) -> AppRec {
        AppRec {
            view: self.view,
            files: media_recs(self.media_files@),
            sidebar: self.sidebar_state@,
            gallery: self.gallery_state,
            viewer: self.viewer_state,
            editor: self.tag_editor_state@,
            scanning: self.scanning,
            listening: self.listening,
            status: self.status@,
            saved_columns: self.saved_columns,
        }
    }
}

/// What is to be done outside of the window.
pub enum AppOrder {
    Nothing,
    /// Make the tag of this name, if there is none, and give it to the file.
    Link(i64, String),
    /// Take the tag from the file.
    Unlink(i64, i64),
    CreateTag(String),
    DeleteTag(i64),
    /// List the files anew.
    Refresh,
    StartScan,
    /// Read the tags of the file for the tag editor.
    ReadTags(i64),
    /// Stop the player.
    StopPlayer,
    /// Write the frame of the player into this file, as the thumbnail of the file.
    Capture(i64, String),
}

/// What an [`AppOrder`] says.
pub enum AppAsk {
    Nothing,
    Link(i64, Seq<char>),
    Unlink(i64, i64),
    CreateTag(Seq<char>),
    DeleteTag(i64),
    Refresh,
    StartScan,
    ReadTags(i64),
    StopPlayer,
    Capture(i64, Seq<char>),
}

impl View for AppOrder {
    type V = AppAsk;

    open spec fn view(&self) -> AppAsk {
        match self {
            AppOrder::Nothing => AppAsk::Nothing,
            AppOrder::Link(id, s) => AppAsk::Link(*id, s@),
            AppOrder::Unlink(id, tag) => AppAsk::Unlink(*id, *tag),
            AppOrder::CreateTag(s) => AppAsk::CreateTag(s@),
            AppOrder::DeleteTag(id) => AppAsk::DeleteTag(*id),
            AppOrder::Refresh => AppAsk::Refresh,
            AppOrder::StartScan => AppAsk::StartScan,
            AppOrder::ReadTags(id) => AppAsk::ReadTags(*id),
            AppOrder::StopPlayer => AppAsk::StopPlayer,
            AppOrder::Capture(id, s) => AppAsk::Capture(*id, s@),
        }
    }
}

// ---------------------------------------------------------------------------
// The state after something was asked for.

/// Whether `i` is the place of the first file with an id.
pub open spec fn is_first(files: Seq<MediaRec>, i: int, id: i64) -> bool {
    &&& 0 <= i < files.len()
    &&& files[i].id == id
    &&& forall|k: int| 0 <= k < i ==> (#[trigger] files[k]).id != id
}

/// Whether there is a file with an id.
pub open spec fn has_id(files: Seq<MediaRec>, id: i64) -> bool {
    exists|i: int| 0 <= i < files.len() && (#[trigger] files[i]).id == id
}

/// The files with a thumbnail for the first one with an id. A thumbnail that was
/// taken from a frame is marked so.
pub open spec fn with_thumbnail(files: Seq<MediaRec>, id: i64, name: Seq<char>, custom: bool) -> Seq<MediaRec> {
    Seq::new(
        files.len(),
        |i: int|
            if is_first(files, i, id) {
                MediaRec {
                    thumbnail: Some(name),
                    custom_thumbnail: files[i].custom_thumbnail || custom,
                    ..files[i]
                }
            } else {
                files[i]
            },
    )
}

/// The window when the tag editor asked for something.
pub open spec fn after_editor(s: AppRec, a: EditorAsk) -> AppRec {
    match a {
        EditorAsk::Close => AppRec { editor: EditorRec { is_open: false, ..s.editor }, ..s },
        _ => s,
    }
}

/// What is done when the tag editor asked for something.
pub open spec fn editor_order(a: EditorAsk) -> AppAsk {
    match a {
        EditorAsk::Idle => AppAsk::Nothing,
        EditorAsk::AddTag(id, name) => AppAsk::Link(id, name),
        EditorAsk::RemoveTag(id, tag) => AppAsk::Unlink(id, tag),
        EditorAsk::Close => AppAsk::Nothing,
    }
}

/// What a window says when a scan begins.
pub open spec fn scan_begun(s: AppRec) -> AppRec {
    AppRec { scanning: true, listening: true, status: "Scanning..."@, ..s }
}

/// The window when the panel asked for something: a scan begins unless there is one,
/// a tag that is deleted leaves the filter, and an order is applied at once.
pub open spec fn after_sidebar(s: AppRec, a: SidebarAsk) -> AppRec {
    match a {
        SidebarAsk::Rescan => if s.scanning {
            s
        } else {
            scan_begun(s)
        },
        SidebarAsk::DeleteTag(id) => AppRec { sidebar: sidebar_after(s.sidebar, SidebarDid::Drop(id)), ..s },
        SidebarAsk::SortChanged => AppRec { files: sorted_files(s.sidebar.sort_mode, s.files), ..s },
        _ => s,
    }
}

/// What is done when the panel asked for something.
pub open spec fn sidebar_order(s: AppRec, a: SidebarAsk) -> AppAsk {
    match a {
        SidebarAsk::Idle => AppAsk::Nothing,
        SidebarAsk::CreateTag(name) => AppAsk::CreateTag(name),
        SidebarAsk::DeleteTag(id) => AppAsk::DeleteTag(id),
        SidebarAsk::FilterChanged => AppAsk::Refresh,
        SidebarAsk::SortChanged => AppAsk::Nothing,
        SidebarAsk::Rescan => if s.scanning {
            AppAsk::Nothing
        } else {
            AppAsk::StartScan
        },
    }
}

/// Whether the window shows the file with an id in the viewer, as it was otherwise.
pub open spec fn shows_file(s: AppRec, after: AppRec, id: i64) -> bool {
    exists|i: int|
        #![trigger s.files[i]]
        is_first(s.files, i, id) && after == (AppRec {
            view: AppView::Viewer,
            viewer: ViewerState {
                current: Some((id, s.files[i].media_type)),
                fullscreen: false,
                drop_video_texture: false,
            },
            ..s
        })
}

/// The window when the viewer asked for something.
pub open spec fn after_viewer(s: AppRec, a: ViewerAction) -> AppRec {
    match a {
        ViewerAction::Close => AppRec {
            view: AppView::Gallery,
            viewer: ViewerState { fullscreen: false, drop_video_texture: true, ..s.viewer },
            ..s
        },
        _ => s,
    }
}

/// What is done when the viewer asked for something.
pub open spec fn viewer_order(s: AppRec, a: ViewerAction) -> AppAsk {
    match a {
        ViewerAction::Idle => AppAsk::Nothing,
        ViewerAction::Close => AppAsk::StopPlayer,
        ViewerAction::SetAsThumbnail => match s.viewer.current {
            Some(media) => AppAsk::Capture(media.0, decimal(media.0 as int) + ".png"@),
            None => AppAsk::Nothing,
        },
        ViewerAction::EditTags(id) => AppAsk::ReadTags(id),
    }
}

fn find_file(files: &Vec<MediaFile>, id: i64) -> (r: Option<usize>)
    ensures
        match r {
            Some(i) => is_first(media_recs(files@), i as int, id),
            None => !has_id(media_recs(files@), id),
        },
{
    let ghost recs = media_recs(files@);
    let mut i: usize = 0;
    while i < files.len()
        invariant
            i <= files@.len(),
            recs == media_recs(files@),
            forall|k: int| 0 <= k < i ==> (#[trigger] recs[k]).id != id,
        decreases files.len() - i,
    {
        assert(recs[i as int].id == files@[i as int].id);
        if files[i].id == id {
            return Some(i);
        }
        i += 1;
    }
    None
}

fn set_thumbnail(files: &mut Vec<MediaFile>, id: i64, name: &str, custom: bool)
    ensures
        media_recs(final(files)@) == with_thumbnail(media_recs(old(files)@), id, name@, custom),
{
    let ghost before = media_recs(files@);
    match find_file(files, id) {
        Some(i) => {
            let ghost f0 = files@;
            let mut f = files[i].copied();
            f.thumbnail_path = Some(name.to_string());
            f.custom_thumbnail = f.custom_thumbnail || custom;
            files.set(i, f);
            assert forall|k: int| 0 <= k < before.len() implies is_first(before, k, id) <==> k == i by {
                if is_first(before, k, id) && k != i {
                    assert(before[i as int].id == id);
                    assert(before[k].id == id);
                }
            }
            assert(media_recs(files@) =~= with_thumbnail(before, id, name@, custom));
        },
        None => {
            assert forall|k: int| 0 <= k < before.len() implies !is_first(before, k, id) by {
                assert(before[k].id != id);
            }
            assert(media_recs(files@) =~= with_thumbnail(before, id, name@, custom));
        },
    }
}

impl MediaManagerApp {
    /// A window that shows all files there are, while the first scan begins.
    pub fn new(columns: usize, files: Vec<MediaFile>) -> (r: MediaManagerApp)
        ensures
            is_listing(r@.sidebar.extensions, media_recs(files@)),
            r@ == (AppRec {
                view: AppView::Gallery,
                files: media_recs(files@),
                sidebar: SidebarRec { extensions: r@.sidebar.extensions, ..fresh_sidebar() },
                gallery: GalleryState { columns, selected_media: None },
                viewer: ViewerState { current: None, fullscreen: false, drop_video_texture: false },
                editor: closed_editor(),
                scanning: true,
                listening: true,
                status: "Scanning..."@,
                saved_columns: columns,
            }),
    {
        let mut sidebar_state = SidebarState::default();
        sidebar_state.available_extensions = extensions(&files);
        MediaManagerApp {
            view: AppView::Gallery,
            media_files: files,
            sidebar_state,
            gallery_state: GalleryState::new(columns),
            viewer_state: ViewerState::default(),
            tag_editor_state: TagEditorState::default(),
            scanning: true,
            listening: true,
            status: "Scanning...".to_string(),
            saved_columns: columns,
        }
    }

    /// A scan begins.
    pub fn start_scan(&mut self)
        ensures
            final(self)@ == scan_begun(old(self)@),
    {
        self.scanning = true;
        self.listening = true;
        self.status = "Scanning...".to_string();
    }

    /// The files were listed anew, by the tags of the filter: those that fit the
    /// search and the extension are shown, in the order of choice. `all` are the
    /// files there are, from which the extensions to choose from come.
    pub fn refresh_media_list(&mut self, listed: &Vec<MediaFile>, all: &Vec<MediaFile>)
        ensures
            is_listing(final(self)@.sidebar.extensions, media_recs(all@)),
            final(self)@ == (AppRec {
                files: arranged(old(self)@.sidebar, media_recs(listed@)),
                sidebar: SidebarRec { extensions: final(self)@.sidebar.extensions, ..old(self)@.sidebar },
                ..old(self)@
            }),
    {
        self.media_files = list_files(&self.sidebar_state, listed);
        self.sidebar_state.available_extensions = extensions(all);
    }

    /// The files are put in the order of choice.
    pub fn apply_sort(&mut self)
        ensures
            final(self)@ == (AppRec {
                files: sorted_files(old(self)@.sidebar.sort_mode, old(self)@.files),
                ..old(self)@
            }),
    {
        self.media_files = sort_files(self.sidebar_state.sort_mode, &self.media_files);
    }

    /// A thumbnail was made, or could not be. Gives what is to be stored.
    pub fn thumbnail_made(&mut self, result: &ThumbnailResult) -> (r: Option<(i64, String)>)
        ensures
            match result.thumb_filename {
                Some(name) => (r matches Some(s) && s.0 == result.media_id && s.1@ == name@) && final(self)@ == (AppRec {
                    files: with_thumbnail(old(self)@.files, result.media_id, name@, false),
                    ..old(self)@
                }),
                None => r is None && final(self)@ == old(self)@,
            },
    {
        match &result.thumb_filename {
            Some(name) => {
                set_thumbnail(&mut self.media_files, result.media_id, name.as_str(), false);
                Some((result.media_id, name.clone()))
            },
            None => None,
        }
    }

    /// Shows a file in the viewer.
    pub fn open_media(&mut self, media_id: i64)
        ensures
            if has_id(old(self)@.files, media_id) {
                shows_file(old(self)@, final(self)@, media_id)
            } else {
                final(self)@ == old(self)@
            },
    {
        let ghost before = self@;
        match find_file(&self.media_files, media_id) {
            Some(i) => {
                let kind = self.media_files[i].media_type;
                assert(before.files[i as int].id == media_id);
                self.viewer_state = ViewerState::default();
                self.viewer_state.current = Some((media_id, kind));
                self.view = AppView::Viewer;
                assert(shows_file(before, self@, media_id));
            },
            None => {},
        }
    }

    /// Opens the tag editor for a file with these tags.
    pub fn open_tag_editor(&mut self, media_id: i64, media_tags: Vec<Tag>)
        ensures
            final(self)@ == (AppRec {
                editor: EditorRec {
                    is_open: true,
                    media_id: Some(media_id),
                    media_tags: shown(media_tags@),
                    input: Seq::empty(),
                },
                ..old(self)@
            }),
    {
        self.tag_editor_state = TagEditorState {
            is_open: true,
            media_id: Some(media_id),
            media_tags,
            new_tag_input: String::new(),
        };
        assert(self.tag_editor_state.new_tag_input@ =~= Seq::<char>::empty());
    }

    /// The tags of the file in the tag editor were read anew.
    pub fn set_media_tags(&mut self, media_tags: Vec<Tag>)
        ensures
            final(self)@ == (AppRec {
                editor: EditorRec { media_tags: shown(media_tags@), ..old(self)@.editor },
                ..old(self)@
            }),
    {
        self.tag_editor_state.media_tags = media_tags;
    }

    /// Whether a tag that was to be made for a file was: its id is more than 0.
    pub fn tag_was_made(tag_id: i64) -> (r: bool)
        ensures
            r == (tag_id > 0),
    {
        tag_id > 0
    }

    /// The tag editor asked for something.
    pub fn on_editor(&mut self, action: TagEditorAction) -> (r: AppOrder)
        ensures
            final(self)@ == after_editor(old(self)@, action@),
            r@ == editor_order(action@),
    {
        match action {
            TagEditorAction::AddTag(id, name) => AppOrder::Link(id, name),
            TagEditorAction::RemoveTag(id, tag) => AppOrder::Unlink(id, tag),
            TagEditorAction::Close => {
                self.tag_editor_state.is_open = false;
                AppOrder::Nothing
            },
            TagEditorAction::Idle => AppOrder::Nothing,
        }
    }

    /// The panel asked for something.
    pub fn on_sidebar(&mut self, action: SidebarAction) -> (r: AppOrder)
        ensures
            final(self)@ == after_sidebar(old(self)@, action@),
            r@ == sidebar_order(old(self)@, action@),
    {
        match action {
            SidebarAction::Rescan => {
                if self.scanning {
                    return AppOrder::Nothing;
                }
                self.start_scan();
                AppOrder::StartScan
            },
            SidebarAction::CreateTag(name) => AppOrder::CreateTag(name),
            SidebarAction::DeleteTag(id) => {
                self.sidebar_state.forget_tag(id);
                AppOrder::DeleteTag(id)
            },
            SidebarAction::FilterChanged => AppOrder::Refresh,
            SidebarAction::SortChanged => {
                self.apply_sort();
                AppOrder::Nothing
            },
            SidebarAction::Idle => AppOrder::Nothing,
        }
    }

    /// The grid asked for something.
    pub fn on_gallery(&mut self, action: GalleryAction) -> (r: AppOrder)
        ensures
            match action {
                GalleryAction::OpenMedia(id) => r@ is Nothing && if has_id(old(self)@.files, id) {
                    shows_file(old(self)@, final(self)@, id)
                } else {
                    final(self)@ == old(self)@
                },
                GalleryAction::EditTags(id) => r@ == AppAsk::ReadTags(id) && final(self)@ == old(self)@,
                GalleryAction::Idle => r@ is Nothing && final(self)@ == old(self)@,
            },
    {
        match action {
            GalleryAction::OpenMedia(id) => {
                self.open_media(id);
                AppOrder::Nothing
            },
            GalleryAction::EditTags(id) => AppOrder::ReadTags(id),
            GalleryAction::Idle => AppOrder::Nothing,
        }
    }

    /// The viewer asked for something.
    pub fn on_viewer(&mut self, action: ViewerAction) -> (r: AppOrder)
        ensures
            final(self)@ == after_viewer(old(self)@, action),
            r@ == viewer_order(old(self)@, action),
    {
        match action {
            ViewerAction::Close => {
                self.viewer_state.invalidate_video_texture();
                self.viewer_state.fullscreen = false;
                self.view = AppView::Gallery;
                AppOrder::StopPlayer
            },
            ViewerAction::SetAsThumbnail => match self.viewer_state.current {
                Some(media) => {
                    let mut name = String::new();
                    push_decimal(&mut name, media.0);
                    name.append(".png");
                    assert(name@ =~= decimal(media.0 as int) + ".png"@);
                    AppOrder::Capture(media.0, name)
                },
                None => AppOrder::Nothing,
            },
            ViewerAction::EditTags(id) => AppOrder::ReadTags(id),
            ViewerAction::Idle => AppOrder::Nothing,
        }
    }

    /// The frame of the player was written into a file, or could not be.
    pub fn captured(&mut self, media_id: i64, name: &str, done: bool)
        ensures
            final(self)@ == if done {
                AppRec {
                    files: with_thumbnail(old(self)@.files, media_id, name@, true),
                    status: "Thumbnail set from current frame"@,
                    ..old(self)@
                }
            } else {
                AppRec { status: "Failed to capture screenshot"@, ..old(self)@ }
            },
    {
        if done {
            set_thumbnail(&mut self.media_files, media_id, name, true);
            self.status = "Thumbnail set from current frame".to_string();
        } else {
            self.status = "Failed to capture screenshot".to_string();
        }
    }

    /// Whether a video fills the window, so that nothing else is shown.
    pub fn video_fullscreen(&self) -> (r: bool)
        ensures
            r == video_is_full(self@),
    {
        match self.view {
            AppView::Viewer => self.viewer_state.fullscreen,
            AppView::Gallery => false,
        }
    }

    /// The number of columns was chosen. Says whether the settings are to be saved.
    pub fn set_columns(&mut self, columns: usize) -> (r: bool)
        ensures
            r == (old(self).saved_columns != columns),
            final(self)@ == (AppRec {
                gallery: GalleryState { columns, ..old(self)@.gallery },
                saved_columns: columns,
                ..old(self)@
            }),
    {
        self.gallery_state.columns = columns;
        if self.saved_columns != columns {
            self.saved_columns = columns;
            return true;
        }
        false
    }

    /// Whether the window is to be drawn again at once: while something goes on in
    /// the background.
    pub fn needs_repaint(&self, thumbnails_busy: bool) -> (r: bool)
        ensures
            r == (self.scanning || thumbnails_busy),
    {
        self.scanning || thumbnails_busy
    }
}

// ---------------------------------------------------------------------------
// Word of a scan.

/// How many messages of a scan are taken at most before the window is drawn.
pub const MAX_EVENTS_PER_FRAME: usize = 64;

/// The messages of a scan while the window waits to be drawn.
#[derive(Debug, Clone, Copy, PartialEq, Eq, Structural)]
pub struct ScanPoll {
    /// How many messages may still be taken.
    pub left: usize,
    /// Whether a file was added.
    pub added: bool,
    /// Whether the scan is over.
    pub finished: bool,
    /// Whether there is no message left.
    pub drained: bool,
}

impl ScanPoll {
    /// Whether a message is to be taken.
    pub open spec fn goes_on(self) -> bool {
        self.left > 0 && !self.finished && !self.drained
    }

    /// Whether a message is to be taken.
    pub fn wants_more(&self) -> (r: bool)
        ensures
            r == self.goes_on(),
    {
        self.left > 0 && !self.finished && !self.drained
    }
}

/// What the window says when a scan is over.
pub open spec fn scan_summary(total: usize, new_count: usize, removed: usize) -> Seq<char> {
    "Scan complete: "@ + decimal(total as int) + " files ("@ + decimal(new_count as int) + " new, "@ + decimal(
        removed as int,
    ) + " removed)"@
}

impl MediaManagerApp {
    /// Messages of a scan are to be taken, if there is one.
    pub fn begin_poll(&self) -> (r: Option<ScanPoll>)
        ensures
            r == if self.listening {
                Some(ScanPoll { left: MAX_EVENTS_PER_FRAME, added: false, finished: false, drained: false })
            } else {
                None
            },
    {
        if !self.listening {
            return None;
        }
        Some(ScanPoll { left: MAX_EVENTS_PER_FRAME, added: false, finished: false, drained: false })
    }

    /// The scan found a file, which was stored and read back where that went well.
    pub fn poll_new_file(&mut self, poll: &mut ScanPoll, stored: Option<MediaFile>)
        requires
            old(poll).goes_on(),
        ensures
            *final(poll) == (ScanPoll {
                left: (old(poll).left - 1) as usize,
                added: old(poll).added || stored is Some,
                ..*old(poll)
            }),
            final(self)@ == match stored {
                Some(f) => AppRec { files: old(self)@.files.push(f@), ..old(self)@ },
                None => old(self)@,
            },
    {
        poll.left = poll.left - 1;
        let ghost before = self@;
        match stored {
            Some(f) => {
                let ghost rec = f@;
                self.media_files.push(f);
                poll.added = true;
                assert(self@.files =~= before.files.push(rec));
            },
            None => {},
        }
    }

    /// The scan is over, and so many files are gone. Says whether the files are to be
    /// listed anew.
    pub fn poll_finished(&mut self, poll: &mut ScanPoll, total: usize, new_count: usize, removed: usize) -> (r: bool)
        requires
            old(poll).goes_on(),
        ensures
            r == (removed > 0),
            *final(poll) == (ScanPoll { left: (old(poll).left - 1) as usize, finished: true, ..*old(poll) }),
            final(self)@ == (AppRec {
                scanning: false,
                listening: false,
                status: scan_summary(total, new_count, removed),
                ..old(self)@
            }),
    {
        poll.left = poll.left - 1;
        poll.finished = true;
        let mut s = "Scan complete: ".to_string();
        push_count(&mut s, total);
        s.append(" files (");
        push_count(&mut s, new_count);
        s.append(" new, ");
        push_count(&mut s, removed);
        s.append(" removed)");
        self.status = s;
        self.scanning = false;
        self.listening = false;
        removed > 0
    }

    /// There is no message at the moment.
    pub fn poll_empty(&self, poll: &mut ScanPoll)
        requires
            old(poll).goes_on(),
        ensures
            *final(poll) == (ScanPoll { left: (old(poll).left - 1) as usize, drained: true, ..*old(poll) }),
    {
        poll.left = poll.left - 1;
        poll.drained = true;
    }

    /// There will be no more messages.
    pub fn poll_disconnected(&mut self, poll: &mut ScanPoll)
        requires
            old(poll).goes_on(),
        ensures
            *final(poll) == (ScanPoll { left: (old(poll).left - 1) as usize, finished: true, ..*old(poll) }),
            final(self)@ == (AppRec {
                scanning: false,
                listening: false,
                status: "Scan finished"@,
                ..old(self)@
            }),
    {
        poll.left = poll.left - 1;
        poll.finished = true;
        self.scanning = false;
        self.listening = false;
        self.status = "Scan finished".to_string();
    }

    /// The messages were taken: files that were added are put in their place, and
    /// while the scan goes on the window says how far it is. Says whether the tags
    /// are to be read anew.
    pub fn end_poll(&mut self, poll: &ScanPoll) -> (r: bool)
        ensures
            r == poll.added,
            ({
                let files = if poll.added {
                    sorted_files(old(self)@.sidebar.sort_mode, old(self)@.files)
                } else {
                    old(self)@.files
                };
                final(self)@ == (AppRec {
                    files,
                    status: if old(self)@.scanning && !poll.finished {
                        "Scanning... "@ + decimal(files.len() as int) + " files so far"@
                    } else {
                        old(self)@.status
                    },
                    ..old(self)@
                })
            }),
    {
        if poll.added {
            self.apply_sort();
        }
        if self.scanning && !poll.finished {
            let mut s = "Scanning... ".to_string();
            push_count(&mut s, self.media_files.len());
            s.append(" files so far");
            self.status = s;
        }
        poll.added
    }
}

// ---------------------------------------------------------------------------
// One frame.

/// What is done while the window is drawn once.
#[derive(Debug, Clone, Copy, PartialEq, Eq, Structural)]
pub enum Phase {
    /// Pictures that are not shown any more are dropped.
    Cleanup,
    /// Messages of the scan are taken.
    Scan,
    /// Thumbnails that were made are taken.
    Thumbnails,
    TagEditor,
    Sidebar,
    StatusBar,
    /// The gallery.
    Gallery,
    /// The viewer.
    Viewer,
    /// The window is drawn again where something goes on.
    Repaint,
    Done,
}

/// Whether a video fills the window.
pub open spec fn video_is_full(s: AppRec) -> bool {
    s.view is Viewer && s.viewer.fullscreen
}

/// The middle of the window.
pub open spec fn middle(s: AppRec) -> Phase {
    match s.view {
        AppView::Gallery => Phase::Gallery,
        AppView::Viewer => Phase::Viewer,
    }
}

/// What comes next while the window is drawn: pictures are dropped before anything is
/// drawn, and the panel and the status bar are left out where a video fills the
/// window.
pub open spec fn phase_after(s: AppRec, p: Phase) -> Phase {
    match p {
        Phase::Cleanup => Phase::Scan,
        Phase::Scan => Phase::Thumbnails,
        Phase::Thumbnails => Phase::TagEditor,
        Phase::TagEditor => if video_is_full(s) {
            middle(s)
        } else {
            Phase::Sidebar
        },
        Phase::Sidebar => Phase::StatusBar,
        Phase::StatusBar => middle(s),
        Phase::Gallery => Phase::Repaint,
        Phase::Viewer => Phase::Repaint,
        Phase::Repaint => Phase::Done,
        Phase::Done => Phase::Done,
    }
}

impl MediaManagerApp {
    fn middle_phase(&self) -> (r: Phase)
        ensures
            r == middle(self@),
    {
        match self.view {
            AppView::Gallery => Phase::Gallery,
            AppView::Viewer => Phase::Viewer,
        }
    }

    /// What comes next while the window is drawn.
    pub fn next_phase(&self, p: Phase) -> (r: Phase)
        ensures
            r == phase_after(self@, p),
    {
        match p {
            Phase::Cleanup => Phase::Scan,
            Phase::Scan => Phase::Thumbnails,
            Phase::Thumbnails => Phase::TagEditor,
            Phase::TagEditor => if self.video_fullscreen() {
                self.middle_phase()
            } else {
                Phase::Sidebar
            },
            Phase::Sidebar => Phase::StatusBar,
            Phase::StatusBar => self.middle_phase(),
            Phase::Gallery => Phase::Repaint,
            Phase::Viewer => Phase::Repaint,
            Phase::Repaint => Phase::Done,
            Phase::Done => Phase::Done,
        }
    }
}

// ---------------------------------------------------------------------------
// Laws.

/// Where a video fills the window, neither the panel nor the status bar is drawn.
pub proof fn law_full_video_hides_the_panels(s: AppRec)
    requires
        video_is_full(s),
    ensures
        phase_after(s, Phase::TagEditor) == Phase::Viewer,
        phase_after(s, Phase::Viewer) == Phase::Repaint,
{
}

/// The full screen never outlives the viewer: when it is closed, nothing is hidden.
pub proof fn law_closing_shows_the_panels(s: AppRec)
    ensures
        after_viewer(s, ViewerAction::Close).view is Gallery,
        !after_viewer(s, ViewerAction::Close).viewer.fullscreen,
{
}

/// A tag that is deleted is neither asked for nor ruled out afterwards.
pub proof fn law_deleted_tag_leaves_the_filter(s: AppRec, id: i64)
    ensures
        !after_sidebar(s, SidebarAsk::DeleteTag(id)).sidebar.included.contains(id),
        !after_sidebar(s, SidebarAsk::DeleteTag(id)).sidebar.excluded.contains(id),
{
    crate::ui::sidebar::lemma_but(s.sidebar.included, id, id);
    crate::ui::sidebar::lemma_but(s.sidebar.excluded, id, id);
}

/// There is never more than one scan: while there is one, none is begun.
pub proof fn law_one_scan_at_a_time(s: AppRec)
    requires
        s.scanning,
    ensures
        sidebar_order(s, SidebarAsk::Rescan) is Nothing,
        after_sidebar(s, SidebarAsk::Rescan) == s,
{
}

/// A thumbnail changes nothing of a file but its thumbnail, and no other file.
pub proof fn law_thumbnail_changes_one_file(files: Seq<MediaRec>, id: i64, name: Seq<char>, custom: bool, i: int)
    requires
        0 <= i < files.len(),
    ensures
        with_thumbnail(files, id, name, custom).len() == files.len(),
        with_thumbnail(files, id, name, custom)[i].id == files[i].id,
        with_thumbnail(files, id, name, custom)[i].path == files[i].path,
        with_thumbnail(files, id, name, custom)[i].filename == files[i].filename,
        files[i].id != id ==> with_thumbnail(files, id, name, custom)[i] == files[i],
{
}

} // verus!
