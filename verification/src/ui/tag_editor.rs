//! The window with the tags of a file.

use vstd::prelude::*;
use crate::db::{shown, Tag};
use crate::text::{chars_of, trim, trimmed};

verus! {

broadcast use vstd::string::group_string_axioms;

/// What the window shows.
pub struct TagEditorState {
    pub is_open: bool,
    pub media_id: Option<i64>,
    pub media_tags: Vec<Tag>,
    pub new_tag_input: String,
}

/// What a [`TagEditorState`] says.
#[verifier::ext_equal]
pub struct EditorRec {
    pub is_open: bool,
    pub media_id: Option<i64>,
    pub media_tags: Seq<(i64, Seq<char>)>,
    pub input: Seq<char>,
}

impl View for TagEditorState {
    type V = EditorRec;

    open spec fn view(&self) -> EditorRec {
        EditorRec {
            is_open: self.is_open,
            media_id: self.media_id,
            media_tags: shown(self.media_tags@),
            input: self.new_tag_input@,
        }
    }
}

/// The window at the start: closed.
pub open spec fn closed_editor() -> EditorRec {
    EditorRec { is_open: false, media_id: None, media_tags: Seq::empty(), input: Seq::empty() }
}

impl Default for TagEditorState {
    fn default() -> (r: TagEditorState)
        ensures
            r@ == closed_editor(),
    {
        let r = TagEditorState {
            is_open: false,
            media_id: None,
            media_tags: Vec::new(),
            new_tag_input: String::new(),
        };
        assert(r@ =~= closed_editor());
        r
    }
}

/// What the window asks for.
pub enum TagEditorAction {
    Idle,
    AddTag(i64, String),
    RemoveTag(i64, i64),
    Close,
}

/// What a [`TagEditorAction`] says.
pub enum EditorAsk {
    Idle,
    AddTag(i64, Seq<char>),
    RemoveTag(i64, i64),
    Close,
}

impl View for TagEditorAction {
    type V = EditorAsk;

    open spec fn view(&self) -> EditorAsk {
        match self {
            TagEditorAction::Idle => EditorAsk::Idle,
            TagEditorAction::AddTag(id, s) => EditorAsk::AddTag(*id, s@),
            TagEditorAction::RemoveTag(id, tag) => EditorAsk::RemoveTag(*id, *tag),
            TagEditorAction::Close => EditorAsk::Close,
        }
    }
}

/// What was done in the window.
pub enum TagEditorEvent {
    /// The `x` of a tag that the file has.
    Remove(i64),
    /// The button of a tag that the file does not have.
    Add(String),
    /// The name of a new tag was written.
    Input(String),
    /// The new tag is to be made and given to the file.
    CreateAndAdd,
    /// The window is to be closed.
    Close,
}

/// What a [`TagEditorEvent`] says.
pub enum EditorDid {
    Remove(i64),
    Add(Seq<char>),
    Input(Seq<char>),
    CreateAndAdd,
    Close,
}

impl View for TagEditorEvent {
    type V = EditorDid;

    open spec fn view(&self) -> EditorDid {
        match self {
            TagEditorEvent::Remove(id) => EditorDid::Remove(*id),
            TagEditorEvent::Add(s) => EditorDid::Add(s@),
            TagEditorEvent::Input(s) => EditorDid::Input(s@),
            TagEditorEvent::CreateAndAdd => EditorDid::CreateAndAdd,
            TagEditorEvent::Close => EditorDid::Close,
        }
    }
}

/// The window after something was done in it.
pub open spec fn editor_after(s: EditorRec, e: EditorDid) -> EditorRec {
    match e {
        EditorDid::Input(t) => EditorRec { input: t, ..s },
        EditorDid::CreateAndAdd => if trimmed(s.input).len() > 0 {
            EditorRec { input: Seq::empty(), ..s }
        } else {
            s
        },
        _ => s,
    }
}

/// What is asked for when something is done in the window of a file.
pub open spec fn editor_asks(s: EditorRec, media: i64, e: EditorDid) -> EditorAsk {
    match e {
        EditorDid::Remove(tag) => EditorAsk::RemoveTag(media, tag),
        EditorDid::Add(name) => EditorAsk::AddTag(media, name),
        EditorDid::Input(t) => EditorAsk::Idle,
        EditorDid::CreateAndAdd => if trimmed(s.input).len() > 0 {
            EditorAsk::AddTag(media, trimmed(s.input))
        } else {
            EditorAsk::Idle
        },
        EditorDid::Close => EditorAsk::Close,
    }
}

/// The window after the first `n` of the things that were done in it.
pub open spec fn editor_run(s: EditorRec, es: Seq<EditorDid>, n: int) -> EditorRec
    decreases n,
{
    if n <= 0 {
        s
    } else {
        editor_after(editor_run(s, es, n - 1), es[n - 1])
    }
}

/// What is asked for when things are done one after the other: the last one that
/// asks for something counts.
pub open spec fn editor_run_asks(s: EditorRec, media: i64, es: Seq<EditorDid>, n: int) -> EditorAsk
    decreases n,
{
    if n <= 0 {
        EditorAsk::Idle
    } else {
        let ask = editor_asks(editor_run(s, es, n - 1), media, es[n - 1]);
        if ask is Idle {
            editor_run_asks(s, media, es, n - 1)
        } else {
            ask
        }
    }
}

/// What the events say.
pub open spec fn editor_dids(es: Seq<TagEditorEvent>) -> Seq<EditorDid> {
    es.map_values(|e: TagEditorEvent| e@)
}

impl TagEditorState {
    /// Something is done in the window of a file.
    fn apply(&mut self, media: i64, event: &TagEditorEvent) -> (r: TagEditorAction)
        ensures
            final(self)@ == editor_after(old(self)@, event@),
            r@ == editor_asks(old(self)@, media, event@),
    {
        match event {
            TagEditorEvent::Remove(tag) => TagEditorAction::RemoveTag(media, *tag),
            TagEditorEvent::Add(name) => TagEditorAction::AddTag(media, name.clone()),
            TagEditorEvent::Input(t) => {
                self.new_tag_input = t.clone();
                TagEditorAction::Idle
            },
            TagEditorEvent::CreateAndAdd => {
                let name = trim(self.new_tag_input.as_str());
                if chars_of(name.as_str()).len() == 0 {
                    return TagEditorAction::Idle;
                }
                self.new_tag_input = String::new();
                assert(self.new_tag_input@ =~= Seq::<char>::empty());
                TagEditorAction::AddTag(media, name)
            },
            TagEditorEvent::Close => TagEditorAction::Close,
        }
    }
}

/// All that was done in the window while it was shown once. A closed window is not
/// shown, and one without a file closes.
pub fn show_tag_editor(state: &mut TagEditorState, events: &Vec<TagEditorEvent>) -> (r: TagEditorAction)
    ensures
        ({
            let es = editor_dids(events@);
            let n = es.len() as int;
            let was = old(state)@;
            if !was.is_open {
                final(state)@ == was && r@ is Idle
            } else {
                match was.media_id {
                    None => final(state)@ == was && r@ is Close,
                    Some(id) => final(state)@ == editor_run(was, es, n) && r@ == editor_run_asks(was, id, es, n),
                }
            }
        }),
{
    if !state.is_open {
        return TagEditorAction::Idle;
    }
    let media: i64 = match state.media_id {
        Some(id) => id,
        None => {
            return TagEditorAction::Close;
        },
    };
    let ghost all = editor_dids(events@);
    let ghost start = state@;
    let mut action = TagEditorAction::Idle;
    let mut i: usize = 0;
    while i < events.len()
        invariant
            i <= events@.len(),
            all == editor_dids(events@),
            state@ == editor_run(start, all, i as int),
            action@ == editor_run_asks(start, media, all, i as int),
        decreases events.len() - i,
    {
        assert(all[i as int] == events@[i as int]@);
        let a = state.apply(media, &events[i]);
        match a {
            TagEditorAction::Idle => {},
            other => {
                action = other;
            },
        }
        i += 1;
    }
    action
}

/// Whether the file has a tag.
pub open spec fn has_id(tags: Seq<(i64, Seq<char>)>, id: i64) -> bool {
    exists|i: int| 0 <= i < tags.len() && (#[trigger] tags[i]).0 == id
}

/// The tags that the file does not have.
pub open spec fn not_yet(all: Seq<(i64, Seq<char>)>, media: Seq<(i64, Seq<char>)>) -> Seq<(i64, Seq<char>)> {
    all.filter(|t: (i64, Seq<char>)| !has_id(media, t.0))
}

/// The positions of the tags that can be added: those that the file does not have.
pub fn available_tags(all_tags: &Vec<Tag>, media_tags: &Vec<Tag>) -> (r: Vec<usize>)
    ensures
        forall|k: int| 0 <= k < r@.len() ==> #[trigger] r@[k] < all_tags@.len(),
        r@.map_values(|i: usize| shown(all_tags@)[i as int]) == not_yet(shown(all_tags@), shown(media_tags@)),
{
    let ghost all = shown(all_tags@);
    let ghost mine = shown(media_tags@);
    let ghost keep = |t: (i64, Seq<char>)| !has_id(mine, t.0);
    let ghost at = |i: usize| all[i as int];
    let mut out: Vec<usize> = Vec::new();
    let mut i: usize = 0;
    proof {
        reveal(Seq::filter);
        assert(out@.map_values(at) =~= all.take(0).filter(keep));
    }
    while i < all_tags.len()
        invariant
            i <= all_tags@.len(),
            all == shown(all_tags@),
            mine == shown(media_tags@),
            keep == (|t: (i64, Seq<char>)| !has_id(mine, t.0)),
            at == (|i: usize| all[i as int]),
            forall|k: int| 0 <= k < out@.len() ==> #[trigger] out@[k] < all_tags@.len(),
            out@.map_values(at) == all.take(i as int).filter(keep),
        decreases all_tags.len() - i,
    {
        let id: i64 = all_tags[i].id;
        assert(all[i as int].0 == id);
        let mut found = false;
        let mut k: usize = 0;
        while k < media_tags.len() && !found
            invariant
                k <= media_tags@.len(),
                mine == shown(media_tags@),
                found ==> has_id(mine, id),
                !found ==> forall|q: int| 0 <= q < k ==> (#[trigger] mine[q]).0 != id,
            decreases media_tags.len() - k,
        {
            assert(mine[k as int].0 == media_tags@[k as int].id);
            if media_tags[k].id == id {
                found = true;
            }
            k += 1;
        }
        proof {
            crate::seqs::lemma_filter_step(all, i as int, keep);
        }
        if !found {
            let ghost out0 = out@;
            out.push(i);
            assert(out@.map_values(at) =~= out0.map_values(at).push(all[i as int]));
        }
        i += 1;
    }
    assert(all.take(i as int) =~= all);
    out
}

} // verus!
