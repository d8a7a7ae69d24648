//! The grid of thumbnails.

use vstd::prelude::*;

verus! {

/// What the grid shows.
#[derive(Debug, Clone, Copy, PartialEq, Eq, Structural)]
pub struct GalleryState {
    pub columns: usize,
    pub selected_media: Option<i64>,
}

impl GalleryState {
    /// A grid of so many columns, with nothing selected.
    pub fn new(columns: usize) -> (r: GalleryState)
        ensures
            r == (GalleryState { columns, selected_media: None }),
    {
        GalleryState { columns, selected_media: None }
    }

    /// Whether a thumbnail has to be loaded: there is one, and it was not loaded
    /// before.
    pub fn needs_thumbnail(loaded: bool, thumbnail_path: &Option<String>) -> (r: bool)
        ensures
            r == (!loaded && thumbnail_path is Some),
    {
        !loaded && thumbnail_path.is_some()
    }
}

/// What the grid asks for.
#[derive(Debug, Clone, Copy, PartialEq, Eq, Structural)]
pub enum GalleryAction {
    Idle,
    OpenMedia(i64),
    EditTags(i64),
}

/// What was done with a file of the grid.
#[derive(Debug, Clone, Copy, PartialEq, Eq, Structural)]
pub enum CellEvent {
    /// It was clicked.
    Click(i64),
    /// It was clicked with the other button.
    SecondaryClick(i64),
}

/// The grid after something was done in it.
pub open spec fn gallery_after(s: GalleryState, e: CellEvent) -> GalleryState {
    match e {
        CellEvent::Click(id) => s,
        CellEvent::SecondaryClick(id) => GalleryState { selected_media: Some(id), ..s },
    }
}

/// What is asked for when something is done in the grid.
pub open spec fn gallery_asks(e: CellEvent) -> GalleryAction {
    match e {
        CellEvent::Click(id) => GalleryAction::OpenMedia(id),
        CellEvent::SecondaryClick(id) => GalleryAction::EditTags(id),
    }
}

/// The grid after the first `n` of the things that were done in it.
pub open spec fn gallery_run(s: GalleryState, es: Seq<CellEvent>, n: int) -> GalleryState
    decreases n,
{
    if n <= 0 {
        s
    } else {
        gallery_after(gallery_run(s, es, n - 1), es[n - 1])
    }
}

/// All that was done in the grid while it was shown once: the last of it counts.
pub fn show_gallery(state: &mut GalleryState, events: &Vec<CellEvent>) -> (r: GalleryAction)
    ensures
        *final(state) == gallery_run(*old(state), events@, events@.len() as int),
        r == if events@.len() == 0 {
            GalleryAction::Idle
        } else {
            gallery_asks(events@.last())
        },
{
    let ghost start = *state;
    let mut action = GalleryAction::Idle;
    let mut i: usize = 0;
    while i < events.len()
        invariant
            i <= events@.len(),
            *state == gallery_run(start, events@, i as int),
            action == (if i == 0 {
                GalleryAction::Idle
            } else {
                gallery_asks(events@[i - 1])
            }),
        decreases events.len() - i,
    {
        match events[i] {
            CellEvent::Click(id) => {
                action = GalleryAction::OpenMedia(id);
            },
            CellEvent::SecondaryClick(id) => {
                state.selected_media = Some(id);
                action = GalleryAction::EditTags(id);
            },
        }
        i += 1;
    }
    action
}

/// How many columns there are: at least one.
pub open spec fn column_count(columns: usize) -> int {
    if columns < 1 {
        1
    } else {
        columns as int
    }
}

/// Whether the rows of the grid take the files in their order, each row full but
/// the last.
pub open spec fn fills_grid(rows: Seq<(usize, usize)>, files: int, columns: usize) -> bool {
    let c = column_count(columns);
    &&& forall|k: int|
        0 <= k < rows.len() ==> (#[trigger] rows[k]).0 == k * c && rows[k].0 < rows[k].1 && rows[k].1 == if k * c + c
            < files {
            k * c + c
        } else {
            files
        }
    &&& rows.len() == 0 <==> files == 0
    &&& rows.len() > 0 ==> rows.last().1 == files
}

/// The files of each row of the grid, from the first to before the last.
pub fn grid_rows(files: usize, columns: usize) -> (r: Vec<(usize, usize)>)
    ensures
        fills_grid(r@, files as int, columns),
{
    let c: usize = if columns < 1 {
        1
    } else {
        columns
    };
    let mut out: Vec<(usize, usize)> = Vec::new();
    let mut start: usize = 0;
    assert(0 * c == 0) by (nonlinear_arith);
    while start < files
        invariant
            start <= files,
            c == column_count(columns),
            c >= 1,
            forall|k: int|
                0 <= k < out@.len() ==> (#[trigger] out@[k]).0 == k * c && out@[k].0 < out@[k].1 && out@[k].1 == if k * c
                    + c < files {
                    k * c + c
                } else {
                    files as int
                },
            start < files ==> start == out@.len() * c,
            out@.len() == 0 <==> start == 0,
            out@.len() > 0 ==> out@.last().1 == start,
        decreases files - start,
    {
        let end: usize = if files - start > c {
            start + c
        } else {
            files
        };
        let ghost n = out@.len() as int;
        out.push((start, end));
        assert((n + 1) * c == n * c + c) by (nonlinear_arith);
        start = end;
    }
    out
}

} // verus!
