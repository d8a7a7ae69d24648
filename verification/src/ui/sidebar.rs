//! The panel with the search, the filters and the tags.

use vstd::prelude::*;
use crate::text::{chars_of, texts, trim, trimmed};

verus! {

broadcast use vstd::string::group_string_axioms;

/// What the files are sorted by.
#[derive(Debug, Clone, Copy, PartialEq, Eq, Structural)]
pub enum SortMode {
    Name,
    NameDesc,
    Size,
    SizeDesc,
    Type,
    DateAdded,
    DateAddedDesc,
}

impl SortMode {
    /// How the menu calls it.
    pub open spec fn label_text(self) -> Seq<char> {
        match self {
            SortMode::Name => "Name A-Z"@,
            SortMode::NameDesc => "Name Z-A"@,
            SortMode::Size => "Size (small)"@,
            SortMode::SizeDesc => "Size (large)"@,
            SortMode::Type => "Type"@,
            SortMode::DateAdded => "Date added (old)"@,
            SortMode::DateAddedDesc => "Date added (new)"@,
        }
    }

    /// How the menu calls it.
    pub fn label(&self) -> (r: &str)
        ensures
            r@ == self.label_text(),
    {
        match self {
            SortMode::Name => "Name A-Z",
            SortMode::NameDesc => "Name Z-A",
            SortMode::Size => "Size (small)",
            SortMode::SizeDesc => "Size (large)",
            SortMode::Type => "Type",
            SortMode::DateAdded => "Date added (old)",
            SortMode::DateAddedDesc => "Date added (new)",
        }
    }
}

/// What the panel shows.
pub struct SidebarState {
    pub included_tags: Vec<i64>,
    pub excluded_tags: Vec<i64>,
    pub match_all: bool,
    pub new_tag_name: String,
    pub show_create_tag: bool,
    pub sort_mode: SortMode,
    pub search_query: String,
    pub extension_filter: String,
    pub available_extensions: Vec<String>,
}

/// What a [`SidebarState`] says.
#[verifier::ext_equal]
pub struct SidebarRec {
    pub included: Seq<i64>,
    pub excluded: Seq<i64>,
    pub match_all: bool,
    pub new_tag_name: Seq<char>,
    pub show_create_tag: bool,
    pub sort_mode: SortMode,
    pub search_query: Seq<char>,
    pub extension_filter: Seq<char>,
    pub extensions: Seq<Seq<char>>,
}

impl View for SidebarState {
    type V = SidebarRec;

    open spec fn view(&self) -> SidebarRec {
        SidebarRec {
            included: self.included_tags@,
            excluded: self.excluded_tags@,
            match_all: self.match_all,
            new_tag_name: self.new_tag_name@,
            show_create_tag: self.show_create_tag,
            sort_mode: self.sort_mode,
            search_query: self.search_query@,
            extension_filter: self.extension_filter@,
            extensions: texts(self.available_extensions@),
        }
    }
}

/// The panel at the start: no filter, all tags asked for at once, by name.
pub open spec fn fresh_sidebar() -> SidebarRec {
    SidebarRec {
        included: Seq::empty(),
        excluded: Seq::empty(),
        match_all: true,
        new_tag_name: Seq::empty(),
        show_create_tag: false,
        sort_mode: SortMode::Name,
        search_query: Seq::empty(),
        extension_filter: Seq::empty(),
        extensions: Seq::empty(),
    }
}

impl Default for SidebarState {
    fn default() -> (r: SidebarState)
        ensures
            r@ == fresh_sidebar(),
    {
        let r = SidebarState {
            included_tags: Vec::new(),
            excluded_tags: Vec::new(),
            match_all: true,
            new_tag_name: String::new(),
            show_create_tag: false,
            sort_mode: SortMode::Name,
            search_query: String::new(),
            extension_filter: String::new(),
            available_extensions: Vec::new(),
        };
        assert(r@ =~= fresh_sidebar());
        r
    }
}

/// What the panel asks for.
pub enum SidebarAction {
    Idle,
    CreateTag(String),
    DeleteTag(i64),
    FilterChanged,
    SortChanged,
    Rescan,
}

/// What a [`SidebarAction`] says.
pub enum SidebarAsk {
    Idle,
    CreateTag(Seq<char>),
    DeleteTag(i64),
    FilterChanged,
    SortChanged,
    Rescan,
}

impl View for SidebarAction {
    type V = SidebarAsk;

    open spec fn view(&self) -> SidebarAsk {
        match self {
            SidebarAction::Idle => SidebarAsk::Idle,
            SidebarAction::CreateTag(s) => SidebarAsk::CreateTag(s@),
            SidebarAction::DeleteTag(id) => SidebarAsk::DeleteTag(*id),
            SidebarAction::FilterChanged => SidebarAsk::FilterChanged,
            SidebarAction::SortChanged => SidebarAsk::SortChanged,
            SidebarAction::Rescan => SidebarAsk::Rescan,
        }
    }
}

/// What was done in the panel.
pub enum SidebarEvent {
    /// The scan was asked for.
    Scan,
    /// The search was written anew.
    Search(String),
    /// All extensions, or one of them, were chosen.
    Extension(String),
    /// An order was chosen.
    Sort(SortMode),
    /// The tags were taken out of the filter.
    ClearFilter,
    /// The `+` of a tag.
    Include(i64),
    /// The `-` of a tag.
    Exclude(i64),
    /// The `x` of a tag in the filter.
    Drop(i64),
    /// A tag was to be deleted.
    Delete(i64),
    /// A tag was to be made.
    OpenCreate,
    /// The name of the tag was written.
    NewName(String),
    /// The name is done.
    ConfirmCreate,
    /// The tag is not to be made after all.
    CancelCreate,
}

/// What a [`SidebarEvent`] says.
pub enum SidebarDid {
    Scan,
    Search(Seq<char>),
    Extension(Seq<char>),
    Sort(SortMode),
    ClearFilter,
    Include(i64),
    Exclude(i64),
    Drop(i64),
    Delete(i64),
    OpenCreate,
    NewName(Seq<char>),
    ConfirmCreate,
    CancelCreate,
}

impl View for SidebarEvent {
    type V = SidebarDid;

    open spec fn view(&self) -> SidebarDid {
        match self {
            SidebarEvent::Scan => SidebarDid::Scan,
            SidebarEvent::Search(s) => SidebarDid::Search(s@),
            SidebarEvent::Extension(s) => SidebarDid::Extension(s@),
            SidebarEvent::Sort(m) => SidebarDid::Sort(*m),
            SidebarEvent::ClearFilter => SidebarDid::ClearFilter,
            SidebarEvent::Include(id) => SidebarDid::Include(*id),
            SidebarEvent::Exclude(id) => SidebarDid::Exclude(*id),
            SidebarEvent::Drop(id) => SidebarDid::Drop(*id),
            SidebarEvent::Delete(id) => SidebarDid::Delete(*id),
            SidebarEvent::OpenCreate => SidebarDid::OpenCreate,
            SidebarEvent::NewName(s) => SidebarDid::NewName(s@),
            SidebarEvent::ConfirmCreate => SidebarDid::ConfirmCreate,
            SidebarEvent::CancelCreate => SidebarDid::CancelCreate,
        }
    }
}

/// Ids that are not this one.
pub open spec fn other_than(id: i64) -> spec_fn(i64) -> bool {
    |x: i64| x != id
}

/// The ids but for one.
pub open spec fn but(ids: Seq<i64>, id: i64) -> Seq<i64> {
    ids.filter(other_than(id))
}

/// The ids with one more, or without it where it was there.
pub open spec fn flipped(ids: Seq<i64>, id: i64) -> Seq<i64> {
    if ids.contains(id) {
        but(ids, id)
    } else {
        ids.push(id)
    }
}

/// The panel after something was done in it.
pub open spec fn sidebar_after(s: SidebarRec, e: SidebarDid) -> SidebarRec {
    match e {
        SidebarDid::Scan => s,
        SidebarDid::Search(q) => SidebarRec { search_query: q, ..s },
        SidebarDid::Extension(x) => SidebarRec { extension_filter: x, ..s },
        SidebarDid::Sort(m) => SidebarRec { sort_mode: m, ..s },
        SidebarDid::ClearFilter => SidebarRec { included: Seq::empty(), excluded: Seq::empty(), ..s },
        SidebarDid::Include(id) => SidebarRec {
            included: flipped(s.included, id),
            excluded: but(s.excluded, id),
            ..s
        },
        SidebarDid::Exclude(id) => SidebarRec {
            included: but(s.included, id),
            excluded: flipped(s.excluded, id),
            ..s
        },
        SidebarDid::Drop(id) => SidebarRec {
            included: but(s.included, id),
            excluded: but(s.excluded, id),
            ..s
        },
        SidebarDid::Delete(id) => s,
        SidebarDid::OpenCreate => SidebarRec { show_create_tag: true, ..s },
        SidebarDid::NewName(t) => SidebarRec { new_tag_name: t, ..s },
        SidebarDid::ConfirmCreate => if trimmed(s.new_tag_name).len() > 0 {
            SidebarRec { new_tag_name: Seq::empty(), show_create_tag: false, ..s }
        } else {
            s
        },
        SidebarDid::CancelCreate => SidebarRec { new_tag_name: Seq::empty(), show_create_tag: false, ..s },
    }
}

/// What is asked for when something is done in the panel. A name of blanks makes no
/// tag, and an order that is there already changes nothing.
pub open spec fn sidebar_asks(s: SidebarRec, e: SidebarDid) -> SidebarAsk {
    match e {
        SidebarDid::Scan => SidebarAsk::Rescan,
        SidebarDid::Search(q) => SidebarAsk::FilterChanged,
        SidebarDid::Extension(x) => SidebarAsk::FilterChanged,
        SidebarDid::Sort(m) => if m != s.sort_mode {
            SidebarAsk::SortChanged
        } else {
            SidebarAsk::Idle
        },
        SidebarDid::ClearFilter => SidebarAsk::FilterChanged,
        SidebarDid::Include(id) => SidebarAsk::FilterChanged,
        SidebarDid::Exclude(id) => SidebarAsk::FilterChanged,
        SidebarDid::Drop(id) => SidebarAsk::FilterChanged,
        SidebarDid::Delete(id) => SidebarAsk::DeleteTag(id),
        SidebarDid::OpenCreate => SidebarAsk::Idle,
        SidebarDid::NewName(t) => SidebarAsk::Idle,
        SidebarDid::ConfirmCreate => if trimmed(s.new_tag_name).len() > 0 {
            SidebarAsk::CreateTag(trimmed(s.new_tag_name))
        } else {
            SidebarAsk::Idle
        },
        SidebarDid::CancelCreate => SidebarAsk::Idle,
    }
}

/// The panel after the first `n` of the things that were done in it.
pub open spec fn sidebar_run(s: SidebarRec, es: Seq<SidebarDid>, n: int) -> SidebarRec
    decreases n,
{
    if n <= 0 {
        s
    } else {
        sidebar_after(sidebar_run(s, es, n - 1), es[n - 1])
    }
}

/// What is asked for when things are done one after the other: the last one that
/// asks for something counts.
pub open spec fn sidebar_run_asks(s: SidebarRec, es: Seq<SidebarDid>, n: int) -> SidebarAsk
    decreases n,
{
    if n <= 0 {
        SidebarAsk::Idle
    } else {
        let ask = sidebar_asks(sidebar_run(s, es, n - 1), es[n - 1]);
        if ask is Idle {
            sidebar_run_asks(s, es, n - 1)
        } else {
            ask
        }
    }
}

/// What the events say.
pub open spec fn sidebar_dids(es: Seq<SidebarEvent>) -> Seq<SidebarDid> {
    es.map_values(|e: SidebarEvent| e@)
}

/// The ids but for one.
pub fn without(ids: &Vec<i64>, id: i64) -> (r: Vec<i64>)
    ensures
        r@ == but(ids@, id),
{
    let ghost keep = other_than(id);
    let mut out: Vec<i64> = Vec::new();
    let mut i: usize = 0;
    proof {
        reveal(Seq::filter);
        assert(out@ =~= ids@.take(0).filter(keep));
    }
    while i < ids.len()
        invariant
            i <= ids@.len(),
            keep == other_than(id),
            out@ == ids@.take(i as int).filter(keep),
        decreases ids.len() - i,
    {
        proof {
            crate::seqs::lemma_filter_step(ids@, i as int, keep);
        }
        if ids[i] != id {
            out.push(ids[i]);
        }
        i += 1;
    }
    assert(ids@.take(i as int) =~= ids@);
    out
}

fn holds(ids: &Vec<i64>, id: i64) -> (r: bool)
    ensures
        r == ids@.contains(id),
{
    let mut i: usize = 0;
    while i < ids.len()
        invariant
            i <= ids@.len(),
            forall|k: int| 0 <= k < i ==> ids@[k] != id,
        decreases ids.len() - i,
    {
        if ids[i] == id {
            return true;
        }
        i += 1;
    }
    false
}

fn flip(ids: &Vec<i64>, id: i64) -> (r: Vec<i64>)
    ensures
        r@ == flipped(ids@, id),
{
    let mut out = without(ids, id);
    if !holds(ids, id) {
        proof {
            lemma_but_absent(ids@, id);
        }
        out.push(id);
    }
    out
}

proof fn lemma_but_absent(ids: Seq<i64>, id: i64)
    requires
        !ids.contains(id),
    ensures
        but(ids, id) == ids,
    decreases ids.len(),
{
    reveal(Seq::filter);
    if ids.len() > 0 {
        let rest = ids.drop_last();
        assert(ids.contains(ids[ids.len() - 1]));
        assert(!rest.contains(id)) by {
            if rest.contains(id) {
                let k = choose|k: int| 0 <= k < rest.len() && rest[k] == id;
                assert(ids[k] == id);
            }
        }
        lemma_but_absent(rest, id);
        assert(rest.push(ids.last()) =~= ids);
    } else {
        assert(but(ids, id) =~= ids);
    }
}

impl SidebarState {
    /// Something is done in the panel.
    pub fn apply(&mut self, event: &SidebarEvent) -> (r: SidebarAction)
        ensures
            final(self)@ == sidebar_after(old(self)@, event@),
            r@ == sidebar_asks(old(self)@, event@),
    {
        match event {
            SidebarEvent::Scan => SidebarAction::Rescan,
            SidebarEvent::Search(q) => {
                self.search_query = q.clone();
                SidebarAction::FilterChanged
            },
            SidebarEvent::Extension(x) => {
                self.extension_filter = x.clone();
                SidebarAction::FilterChanged
            },
            SidebarEvent::Sort(m) => {
                let changed = *m != self.sort_mode;
                self.sort_mode = *m;
                if changed {
                    SidebarAction::SortChanged
                } else {
                    SidebarAction::Idle
                }
            },
            SidebarEvent::ClearFilter => {
                self.included_tags = Vec::new();
                self.excluded_tags = Vec::new();
                assert(self.included_tags@ =~= Seq::<i64>::empty());
                SidebarAction::FilterChanged
            },
            SidebarEvent::Include(id) => {
                self.excluded_tags = without(&self.excluded_tags, *id);
                self.included_tags = flip(&self.included_tags, *id);
                SidebarAction::FilterChanged
            },
            SidebarEvent::Exclude(id) => {
                self.included_tags = without(&self.included_tags, *id);
                self.excluded_tags = flip(&self.excluded_tags, *id);
                SidebarAction::FilterChanged
            },
            SidebarEvent::Drop(id) => {
                self.forget_tag(*id);
                SidebarAction::FilterChanged
            },
            SidebarEvent::Delete(id) => SidebarAction::DeleteTag(*id),
            SidebarEvent::OpenCreate => {
                self.show_create_tag = true;
                SidebarAction::Idle
            },
            SidebarEvent::NewName(t) => {
                self.new_tag_name = t.clone();
                SidebarAction::Idle
            },
            SidebarEvent::ConfirmCreate => {
                let name = trim(self.new_tag_name.as_str());
                if chars_of(name.as_str()).len() == 0 {
                    return SidebarAction::Idle;
                }
                self.new_tag_name = String::new();
                self.show_create_tag = false;
                assert(self.new_tag_name@ =~= Seq::<char>::empty());
                SidebarAction::CreateTag(name)
            },
            SidebarEvent::CancelCreate => {
                self.new_tag_name = String::new();
                self.show_create_tag = false;
                assert(self.new_tag_name@ =~= Seq::<char>::empty());
                SidebarAction::Idle
            },
        }
    }

    /// Takes a tag out of the filter.
    pub fn forget_tag(&mut self, id: i64)
        ensures
            final(self)@ == sidebar_after(old(self)@, SidebarDid::Drop(id)),
    {
        self.included_tags = without(&self.included_tags, id);
        self.excluded_tags = without(&self.excluded_tags, id);
    }
}

/// All that was done in the panel while it was shown once.
pub fn show_sidebar(state: &mut SidebarState, events: &Vec<SidebarEvent>) -> (r: SidebarAction)
    ensures
        final(state)@ == sidebar_run(old(state)@, sidebar_dids(events@), events@.len() as int),
        r@ == sidebar_run_asks(old(state)@, sidebar_dids(events@), events@.len() as int),
{
    let ghost all = sidebar_dids(events@);
    let ghost start = state@;
    let mut action = SidebarAction::Idle;
    let mut i: usize = 0;
    while i < events.len()
        invariant
            i <= events@.len(),
            all == sidebar_dids(events@),
            state@ == sidebar_run(start, all, i as int),
            action@ == sidebar_run_asks(start, all, i as int),
        decreases events.len() - i,
    {
        assert(all[i as int] == events@[i as int]@);
        let a = state.apply(&events[i]);
        match a {
            SidebarAction::Idle => {},
            other => {
                action = other;
            },
        }
        i += 1;
    }
    action
}

/// No tag is both asked for and ruled out.
pub open spec fn apart(s: SidebarRec) -> bool {
    forall|id: i64| !(#[trigger] s.included.contains(id) && s.excluded.contains(id))
}

/// Whatever is done in the panel, no tag gets both asked for and ruled out.
pub proof fn law_tag_is_not_both_included_and_excluded(s: SidebarRec, e: SidebarDid)
    requires
        apart(s),
    ensures
        apart(sidebar_after(s, e)),
{
    let now = sidebar_after(s, e);
    assert forall|id: i64| !(#[trigger] now.included.contains(id) && now.excluded.contains(id)) by {
        assert(!(s.included.contains(id) && s.excluded.contains(id)));
        match e {
            SidebarDid::Include(x) => {
                lemma_but(s.included, x, id);
                lemma_but(s.excluded, x, id);
                crate::order::lemma_push_contains(s.included, x, id);
            },
            SidebarDid::Exclude(x) => {
                lemma_but(s.included, x, id);
                lemma_but(s.excluded, x, id);
                crate::order::lemma_push_contains(s.excluded, x, id);
            },
            SidebarDid::Drop(x) => {
                lemma_but(s.included, x, id);
                lemma_but(s.excluded, x, id);
            },
            _ => {},
        }
    }
}

/// What is left of ids is all of them but for one.
pub proof fn lemma_but(ids: Seq<i64>, id: i64, x: i64)
    ensures
        but(ids, id).contains(x) <==> ids.contains(x) && x != id,
{
    crate::seqs::lemma_filter_from(ids, other_than(id));
}

} // verus!
