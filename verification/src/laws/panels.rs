//! The panels of the window: what is done in them, and what is asked for in turn.

use vstd::prelude::*;
use crate::app::{after_editor, after_sidebar, after_viewer, editor_order, phase_after, scan_begun, scan_summary, sidebar_order, video_is_full, viewer_order, AppAsk, AppRec, AppView, Phase};
use crate::seqs::lemma_filter_from;
use crate::tagging::can_tag;
use crate::text::{decimal, trimmed};
use crate::ui::gallery::{fills_grid, gallery_after, gallery_asks, gallery_run, CellEvent, GalleryAction, GalleryState};
use crate::ui::sidebar::{fresh_sidebar, lemma_but, sidebar_after, sidebar_asks, sidebar_run, sidebar_run_asks, SidebarAsk, SidebarDid, SidebarRec, SortMode};
use crate::ui::tag_editor::{closed_editor, editor_after, editor_asks, editor_run, editor_run_asks, has_id, not_yet, EditorAsk, EditorDid, EditorRec};
use crate::ui::viewer::{bar_asks, bar_run_asks, BarEvent, ViewerAction};
use crate::media::MediaType;

verus! {

/// Whether the panel differs in the filter alone.
pub open spec fn same_but_filter(a: SidebarRec, b: SidebarRec) -> bool {
    &&& a.match_all == b.match_all
    &&& a.new_tag_name == b.new_tag_name
    &&& a.show_create_tag == b.show_create_tag
    &&& a.sort_mode == b.sort_mode
    &&& a.search_query == b.search_query
    &&& a.extension_filter == b.extension_filter
    &&& a.extensions == b.extensions
}

proof fn lemma_push_has(s: Seq<i64>, id: i64, x: i64)
    ensures
        s.push(id).contains(x) <==> s.contains(x) || x == id,
{
    if s.contains(x) {
        let i = choose|i: int| 0 <= i < s.len() && s[i] == x;
        assert(s.push(id)[i] == x);
    }
    assert(s.push(id)[s.len() as int] == id);
}

/// A tag that is clicked to be asked for is asked for unless it was already, and is not
/// ruled out afterwards. Other tags, and the rest of the panel, stay.
pub proof fn law_tag_is_asked_for(s: SidebarRec, id: i64, x: i64)
    ensures
        ({
            let t = sidebar_after(s, SidebarDid::Include(id));
            &&& t.included.contains(id) <==> !s.included.contains(id)
            &&& !t.excluded.contains(id)
            &&& x != id ==> (t.included.contains(x) <==> s.included.contains(x)) && (t.excluded.contains(x)
                <==> s.excluded.contains(x))
            &&& same_but_filter(s, t)
        }),
{
    lemma_but(s.included, id, x);
    lemma_but(s.included, id, id);
    lemma_but(s.excluded, id, x);
    lemma_but(s.excluded, id, id);
    lemma_push_has(s.included, id, x);
    lemma_push_has(s.included, id, id);
}

/// A tag that is clicked to be ruled out is ruled out unless it was already, and is not
/// asked for afterwards. Other tags, and the rest of the panel, stay.
pub proof fn law_tag_is_ruled_out(s: SidebarRec, id: i64, x: i64)
    ensures
        ({
            let t = sidebar_after(s, SidebarDid::Exclude(id));
            &&& t.excluded.contains(id) <==> !s.excluded.contains(id)
            &&& !t.included.contains(id)
            &&& x != id ==> (t.included.contains(x) <==> s.included.contains(x)) && (t.excluded.contains(x)
                <==> s.excluded.contains(x))
            &&& same_but_filter(s, t)
        }),
{
    lemma_but(s.included, id, x);
    lemma_but(s.included, id, id);
    lemma_but(s.excluded, id, x);
    lemma_but(s.excluded, id, id);
    lemma_push_has(s.excluded, id, x);
    lemma_push_has(s.excluded, id, id);
}

/// A tag that is dropped is neither asked for nor ruled out; a filter that is cleared
/// asks for nothing and rules out nothing. Other tags, and the rest of the panel, stay.
pub proof fn law_tag_leaves_the_panel(s: SidebarRec, id: i64, x: i64)
    ensures
        ({
            let t = sidebar_after(s, SidebarDid::Drop(id));
            &&& !t.included.contains(id) && !t.excluded.contains(id)
            &&& x != id ==> (t.included.contains(x) <==> s.included.contains(x)) && (t.excluded.contains(x)
                <==> s.excluded.contains(x))
            &&& same_but_filter(s, t)
        }),
        ({
            let t = sidebar_after(s, SidebarDid::ClearFilter);
            &&& !t.included.contains(x) && !t.excluded.contains(x)
            &&& same_but_filter(s, t)
        }),
{
    lemma_but(s.included, id, x);
    lemma_but(s.included, id, id);
    lemma_but(s.excluded, id, x);
    lemma_but(s.excluded, id, id);
}

/// A change of what is shown asks for the list anew. An order asks for it only where it
/// is another one. A name makes a tag where it is more than white space, and the name is
/// given without the white space round it.
pub proof fn law_panel_asks(s: SidebarRec, e: SidebarDid)
    ensures
        e is Search || e is Extension || e is ClearFilter || e is Include || e is Exclude || e is Drop
            <==> sidebar_asks(s, e) is FilterChanged,
        sidebar_asks(s, e) is SortChanged <==> e is Sort && e->Sort_0 != s.sort_mode,
        sidebar_asks(s, e) is Rescan <==> e is Scan,
        sidebar_asks(s, e) is CreateTag <==> e is ConfirmCreate && trimmed(s.new_tag_name).len() > 0,
        sidebar_asks(s, e) is CreateTag ==> sidebar_asks(s, e)->CreateTag_0 == trimmed(s.new_tag_name),
        sidebar_asks(s, e) is DeleteTag <==> e is Delete,
        e is Delete ==> sidebar_asks(s, e)->DeleteTag_0 == e->Delete_0,
{
}

/// What is written or chosen in the panel is what stands there afterwards. A tag that is
/// made, or given up, takes its name and its window with it.
pub proof fn law_panel_holds_what_is_chosen(s: SidebarRec, e: SidebarDid)
    ensures
        e is Search ==> sidebar_after(s, e).search_query == e->Search_0,
        !(e is Search) ==> sidebar_after(s, e).search_query == s.search_query,
        e is Extension ==> sidebar_after(s, e).extension_filter == e->Extension_0,
        !(e is Extension) ==> sidebar_after(s, e).extension_filter == s.extension_filter,
        e is Sort ==> sidebar_after(s, e).sort_mode == e->Sort_0,
        !(e is Sort) ==> sidebar_after(s, e).sort_mode == s.sort_mode,
        e is NewName ==> sidebar_after(s, e).new_tag_name == e->NewName_0,
        e is OpenCreate ==> sidebar_after(s, e).show_create_tag,
        e is CancelCreate ==> !sidebar_after(s, e).show_create_tag && sidebar_after(s, e).new_tag_name.len() == 0,
        e is ConfirmCreate && trimmed(s.new_tag_name).len() > 0 ==> !sidebar_after(s, e).show_create_tag
            && sidebar_after(s, e).new_tag_name.len() == 0,
        e is ConfirmCreate && trimmed(s.new_tag_name).len() == 0 ==> sidebar_after(s, e) == s,
        !(e is Include || e is Exclude || e is Drop || e is ClearFilter) ==> sidebar_after(s, e).included == s.included
            && sidebar_after(s, e).excluded == s.excluded,
        sidebar_after(s, e).match_all == s.match_all,
        sidebar_after(s, e).extensions == s.extensions,
{
}

/// Of things that are done one after the other each is done to what the one before it
/// left, and the last one that asks for something is what is asked for.
pub proof fn law_panel_goes_on(s: SidebarRec, es: Seq<SidebarDid>, n: int)
    requires
        0 <= n < es.len(),
    ensures
        sidebar_run(s, es, 0) == s,
        sidebar_run(s, es, n + 1) == sidebar_after(sidebar_run(s, es, n), es[n]),
        sidebar_run_asks(s, es, 0) is Idle,
        ({
            let ask = sidebar_asks(sidebar_run(s, es, n), es[n]);
            &&& !(ask is Idle) ==> sidebar_run_asks(s, es, n + 1) == ask
            &&& ask is Idle ==> sidebar_run_asks(s, es, n + 1) == sidebar_run_asks(s, es, n)
        }),
{
}

/// A tag that is added or taken off in the window of a file is one of that file. A new
/// one is added under its name without the white space round it, unless that is all it is.
pub proof fn law_editor_asks(s: EditorRec, media: i64, e: EditorDid)
    ensures
        e is Remove ==> editor_asks(s, media, e) == EditorAsk::RemoveTag(media, e->Remove_0),
        e is Add ==> editor_asks(s, media, e) == EditorAsk::AddTag(media, e->Add_0),
        e is CreateAndAdd && trimmed(s.input).len() > 0 ==> editor_asks(s, media, e) == EditorAsk::AddTag(
            media,
            trimmed(s.input),
        ) && editor_after(s, e).input.len() == 0,
        e is CreateAndAdd && trimmed(s.input).len() == 0 ==> editor_asks(s, media, e) is Idle && editor_after(s, e)
            == s,
        e is Input ==> editor_asks(s, media, e) is Idle && editor_after(s, e).input == e->Input_0,
        e is Close ==> editor_asks(s, media, e) is Close,
        editor_after(s, e).media_id == s.media_id && editor_after(s, e).media_tags == s.media_tags && editor_after(
            s,
            e,
        ).is_open == s.is_open,
        !(e is Input || e is CreateAndAdd) ==> editor_after(s, e) == s,
{
}

/// The tags that can be added to a file are those that it does not have.
pub proof fn law_tags_to_add(all: Seq<(i64, Seq<char>)>, media: Seq<(i64, Seq<char>)>, t: (i64, Seq<char>))
    ensures
        not_yet(all, media).contains(t) <==> all.contains(t) && forall|i: int|
            0 <= i < media.len() ==> (#[trigger] media[i]).0 != t.0,
{
    lemma_filter_from(all, |t: (i64, Seq<char>)| !has_id(media, t.0));
}

/// Every file stands in the grid once: in the row and the column that its place in the
/// list gives.
pub proof fn law_grid_shows_every_file(rows: Seq<(usize, usize)>, files: int, columns: usize, f: int)
    requires
        fills_grid(rows, files, columns),
        columns > 0,
        0 <= f < files,
    ensures
        f / (columns as int) < rows.len(),
        forall|k: int|
            0 <= k < rows.len() ==> ((#[trigger] rows[k]).0 <= f < rows[k].1 <==> k == f / (columns as int)),
{
    let c = columns as int;
    let q = f / c;
    let n = rows.len() as int;
    assert(q * c <= f < q * c + c && 0 <= q) by (nonlinear_arith)
        requires
            q == f / c,
            c > 0,
            f >= 0,
    ;
    assert(n > 0);
    assert(rows[n - 1].1 == files);
    if q >= n {
        assert((n - 1) * c + c <= q * c) by (nonlinear_arith)
            requires
                q >= n,
                c > 0,
        ;
        assert(rows[n - 1].0 == (n - 1) * c);
    }
    assert forall|k: int| 0 <= k < rows.len() implies ((#[trigger] rows[k]).0 <= f < rows[k].1 <==> k == q) by {
        if k < q {
            assert(k * c + c <= q * c) by (nonlinear_arith)
                requires
                    k < q,
                    c > 0,
            ;
        }
        if k > q {
            assert(k * c >= q * c + c) by (nonlinear_arith)
                requires
                    k > q,
                    c > 0,
            ;
        }
    }
}

/// A grid without columns has one.
pub proof fn law_grid_has_a_column(rows: Seq<(usize, usize)>, files: int)
    requires
        fills_grid(rows, files, 0),
    ensures
        fills_grid(rows, files, 1),
{
}

/// A click on a file opens it, and one with the other button is for its tags.
pub proof fn law_grid_asks(s: GalleryState, id: i64)
    ensures
        gallery_asks(CellEvent::Click(id)) == GalleryAction::OpenMedia(id),
        gallery_asks(CellEvent::SecondaryClick(id)) == GalleryAction::EditTags(id),
        gallery_after(s, CellEvent::Click(id)) == s,
        gallery_after(s, CellEvent::SecondaryClick(id)).selected_media == Some(id),
        gallery_after(s, CellEvent::SecondaryClick(id)).columns == s.columns,
{
}

/// The bar of the viewer closes it, opens the tags of its file, and takes a thumbnail
/// from a video.
pub proof fn law_bar_asks(id: i64, kind: MediaType)
    ensures
        bar_asks((id, kind), BarEvent::Back) == ViewerAction::Close,
        bar_asks((id, kind), BarEvent::Tags) == ViewerAction::EditTags(id),
        bar_asks((id, kind), BarEvent::SetAsThumbnail) == ViewerAction::SetAsThumbnail <==> kind == MediaType::Video,
        bar_asks((id, kind), BarEvent::SetAsThumbnail) == ViewerAction::Idle <==> kind == MediaType::Image,
{
}

/// The window does what its panels ask for. While a scan goes on no other begins.
pub proof fn law_window_does_what_is_asked(s: AppRec, id: i64, tag: i64, name: Seq<char>)
    ensures
        editor_order(EditorAsk::AddTag(id, name)) == AppAsk::Link(id, name),
        editor_order(EditorAsk::RemoveTag(id, tag)) == AppAsk::Unlink(id, tag),
        editor_order(EditorAsk::Close) is Nothing,
        editor_order(EditorAsk::Idle) is Nothing,
        !after_editor(s, EditorAsk::Close).editor.is_open,
        after_editor(s, EditorAsk::AddTag(id, name)) == s,
        after_editor(s, EditorAsk::RemoveTag(id, tag)) == s,
        sidebar_order(s, SidebarAsk::CreateTag(name)) == AppAsk::CreateTag(name),
        sidebar_order(s, SidebarAsk::DeleteTag(tag)) == AppAsk::DeleteTag(tag),
        sidebar_order(s, SidebarAsk::FilterChanged) is Refresh,
        sidebar_order(s, SidebarAsk::SortChanged) is Nothing,
        sidebar_order(s, SidebarAsk::Idle) is Nothing,
        sidebar_order(s, SidebarAsk::Rescan) is StartScan <==> !s.scanning,
        s.scanning ==> sidebar_order(s, SidebarAsk::Rescan) is Nothing && after_sidebar(s, SidebarAsk::Rescan) == s,
        !s.scanning ==> after_sidebar(s, SidebarAsk::Rescan) == scan_begun(s),
        scan_begun(s).scanning && scan_begun(s).listening,
        scan_begun(s).files == s.files && scan_begun(s).sidebar == s.sidebar && scan_begun(s).view == s.view,
        viewer_order(s, ViewerAction::EditTags(id)) == AppAsk::ReadTags(id),
        viewer_order(s, ViewerAction::Close) is StopPlayer,
        viewer_order(s, ViewerAction::Idle) is Nothing,
        after_viewer(s, ViewerAction::Close).view == AppView::Gallery,
        !after_viewer(s, ViewerAction::Close).viewer.fullscreen,
        after_viewer(s, ViewerAction::Close).files == s.files,
        after_viewer(s, ViewerAction::EditTags(id)) == s,
{
}

/// The thumbnail that is taken from the frame is that of the file that is shown, under
/// its id.
pub proof fn law_frame_is_taken_for_the_file_shown(s: AppRec)
    ensures
        s.viewer.current is None ==> viewer_order(s, ViewerAction::SetAsThumbnail) is Nothing,
        s.viewer.current is Some ==> viewer_order(s, ViewerAction::SetAsThumbnail) == AppAsk::Capture(
            (s.viewer.current->0).0,
            decimal((s.viewer.current->0).0 as int) + ".png"@,
        ),
        after_viewer(s, ViewerAction::SetAsThumbnail) == s,
{
}

/// A tag that is deleted is in the filter of the window no more.
pub proof fn law_deleted_tag_leaves_the_filter(s: AppRec, tag: i64)
    ensures
        ({
            let t = after_sidebar(s, SidebarAsk::DeleteTag(tag));
            &&& !t.sidebar.included.contains(tag) && !t.sidebar.excluded.contains(tag)
            &&& t.files == s.files && t.view == s.view && t.editor == s.editor && t.viewer == s.viewer
        }),
{
    law_tag_leaves_the_panel(s.sidebar, tag, tag);
}

/// Of what is done in the window of a file each thing is done to what the one before it
/// left, and the last one that asks for something is what is asked for.
pub proof fn law_editor_goes_on(s: EditorRec, media: i64, es: Seq<EditorDid>, n: int)
    requires
        0 <= n < es.len(),
    ensures
        editor_run(s, es, 0) == s,
        editor_run(s, es, n + 1) == editor_after(editor_run(s, es, n), es[n]),
        editor_run_asks(s, media, es, 0) is Idle,
        ({
            let ask = editor_asks(editor_run(s, es, n), media, es[n]);
            &&& !(ask is Idle) ==> editor_run_asks(s, media, es, n + 1) == ask
            &&& ask is Idle ==> editor_run_asks(s, media, es, n + 1) == editor_run_asks(s, media, es, n)
        }),
{
}

/// In the grid and in the bar, too, each thing is done to what the one before it left, and
/// the last one that asks for something is what is asked for.
pub proof fn law_grid_and_bar_go_on(
    g: GalleryState,
    cells: Seq<CellEvent>,
    media: (i64, MediaType),
    bar: Seq<BarEvent>,
    n: int,
)
    ensures
        gallery_run(g, cells, 0) == g,
        0 <= n < cells.len() ==> gallery_run(g, cells, n + 1) == gallery_after(gallery_run(g, cells, n), cells[n]),
        bar_run_asks(media, bar, 0) == ViewerAction::Idle,
        0 <= n < bar.len() && bar_asks(media, bar[n]) != ViewerAction::Idle ==> bar_run_asks(media, bar, n + 1)
            == bar_asks(media, bar[n]),
        0 <= n < bar.len() && bar_asks(media, bar[n]) == ViewerAction::Idle ==> bar_run_asks(media, bar, n + 1)
            == bar_run_asks(media, bar, n),
{
}

/// At the start the panel asks for everything, by name, and the window of tags is closed.
pub proof fn law_panels_at_the_start()
    ensures
        fresh_sidebar().included.len() == 0 && fresh_sidebar().excluded.len() == 0,
        fresh_sidebar().search_query.len() == 0 && fresh_sidebar().extension_filter.len() == 0,
        fresh_sidebar().sort_mode == SortMode::Name,
        fresh_sidebar().match_all && !fresh_sidebar().show_create_tag,
        !closed_editor().is_open && closed_editor().media_id is None,
{
}

/// A file gets a tag only where one is open and the name is more than white space.
pub proof fn law_when_a_file_can_be_tagged(file: i64, name: Seq<char>)
    ensures
        can_tag(file, name) <==> file >= 0 && trimmed(name).len() > 0,
{
}

/// The window is drawn in its order: the panel and the status bar are left out while a
/// video fills the window, and in the middle is the grid or the viewer.
pub proof fn law_window_is_drawn_in_order(s: AppRec)
    ensures
        phase_after(s, Phase::Cleanup) == Phase::Scan,
        phase_after(s, Phase::Scan) == Phase::Thumbnails,
        phase_after(s, Phase::Thumbnails) == Phase::TagEditor,
        phase_after(s, Phase::TagEditor) == Phase::Sidebar <==> !(s.view == AppView::Viewer && s.viewer.fullscreen),
        s.view == AppView::Viewer && s.viewer.fullscreen ==> phase_after(s, Phase::TagEditor) == Phase::Viewer,
        phase_after(s, Phase::Sidebar) == Phase::StatusBar,
        phase_after(s, Phase::StatusBar) == Phase::Gallery <==> s.view == AppView::Gallery,
        phase_after(s, Phase::StatusBar) == Phase::Viewer <==> s.view == AppView::Viewer,
        phase_after(s, Phase::Gallery) == Phase::Repaint,
        phase_after(s, Phase::Viewer) == Phase::Repaint,
        phase_after(s, Phase::Repaint) == Phase::Done,
        phase_after(s, Phase::Done) == Phase::Done,
        video_is_full(s) <==> s.view == AppView::Viewer && s.viewer.fullscreen,
{
}

/// What is said of a scan that is over: how many files there are, how many of them are
/// new, and how many are gone.
pub proof fn law_scan_is_summed_up(total: usize, new_count: usize, removed: usize)
    ensures
        scan_summary(total, new_count, removed) == "Scan complete: "@ + decimal(total as int) + " files ("@ + decimal(
            new_count as int,
        ) + " new, "@ + decimal(removed as int) + " removed)"@,
{
}

/// The menu of the panel calls each order by what it does.
pub proof fn law_orders_are_called_by_what_they_do()
    ensures
        SortMode::Name.label_text() == "Name A-Z"@,
        SortMode::NameDesc.label_text() == "Name Z-A"@,
        SortMode::Size.label_text() == "Size (small)"@,
        SortMode::SizeDesc.label_text() == "Size (large)"@,
        SortMode::Type.label_text() == "Type"@,
        SortMode::DateAdded.label_text() == "Date added (old)"@,
        SortMode::DateAddedDesc.label_text() == "Date added (new)"@,
{
}

} // verus!
