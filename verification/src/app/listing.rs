//! Which files the window shows, in which order, and the extensions that there are.

use vstd::prelude::*;
use crate::order::{chars_before, contains_part, eq_nocase, has_part, in_text_order, increasing, lemma_increasing_unique, lemma_sorted_len, lemma_sorted_upto, lemma_text_lt_weak, positions, same_nocase, sorted_once, text_lt};
use crate::seqs::lemma_filter_step;
use crate::sort::{order_of, sort_positions, Ranked};
use crate::text::{chars_of, last_at, lemma_last_at, lowercase, lowercased, rfind, string_of, texts};
use crate::thumbnail::{media_recs, MediaFile, MediaRec};
use crate::ui::sidebar::{SidebarRec, SidebarState, SortMode};

verus! {

broadcast use vstd::string::group_string_axioms;

// ---------------------------------------------------------------------------
// Which files are shown.

/// What comes after the last dot of a name, or the name where there is none.
pub open spec fn last_part(name: Seq<char>) -> Seq<char> {
    name.skip(last_at(name, '.') + 1)
}

/// What comes after the last dot of a name.
pub fn last_part_of(name: &str) -> (r: String)
    ensures
        r@ == last_part(name@),
{
    let v = chars_of(name);
    let n: usize = v.len();
    proof {
        lemma_last_at(name@, '.');
    }
    let from: usize = match rfind(&v, '.') {
        Some(i) => i + 1,
        None => 0,
    };
    let r = string_of(&v, from, n);
    assert(r@ =~= last_part(name@));
    r
}

/// Whether a name fits a search and an extension, both of which may be empty, by
/// the lower-case forms of the name and of the search.
pub open spec fn name_fits(lower: Seq<char>, query: Seq<char>, name: Seq<char>, ext: Seq<char>) -> bool {
    &&& query.len() == 0 || has_part(lower, query)
    &&& ext.len() == 0 || same_nocase(last_part(name), ext)
}

/// Whether a name fits a search and an extension, given the lower-case forms of the
/// name and of the search.
pub fn fits_lower(lower: &str, query: &str, name: &str, ext: &str) -> (r: bool)
    ensures
        r == name_fits(lower@, query@, name@, ext@),
{
    if chars_of(query).len() != 0 && !contains_part(lower, query) {
        return false;
    }
    if chars_of(ext).len() == 0 {
        return true;
    }
    let last = last_part_of(name);
    eq_nocase(last.as_str(), ext)
}

/// Whether the panel lets a file through.
pub open spec fn fitting(s: SidebarRec) -> spec_fn(MediaRec) -> bool {
    |f: MediaRec| name_fits(lowercased(f.filename), lowercased(s.search_query), f.filename, s.extension_filter)
}

// ---------------------------------------------------------------------------
// In which order.

/// The number that a file is sorted by, the smaller first. A file of which the size
/// is not known counts as empty.
pub open spec fn mode_number(mode: SortMode, f: MediaRec) -> int {
    let size = match f.file_size {
        Some(n) => n as int,
        None => 0,
    };
    match mode {
        SortMode::Name | SortMode::NameDesc => 0,
        SortMode::Size => size,
        SortMode::SizeDesc => -size,
        SortMode::Type => f.media_type.code() as int,
        SortMode::DateAdded => f.created_at as int,
        SortMode::DateAddedDesc => -f.created_at,
    }
}

/// What a file is sorted by: a number and a name, in lower case.
pub struct ModeKey {
    pub number: int,
    pub name: Seq<char>,
}

/// Whether a key comes before another.
pub open spec fn mode_before(mode: SortMode, a: ModeKey, b: ModeKey) -> bool {
    if a.number != b.number {
        a.number < b.number
    } else if mode is Name {
        text_lt(a.name, b.name)
    } else if mode is NameDesc {
        text_lt(b.name, a.name)
    } else {
        false
    }
}

/// The order of positions by their keys; what has the same key keeps its order.
pub open spec fn mode_order(mode: SortMode, keys: Seq<ModeKey>) -> spec_fn(int, int) -> bool {
    |i: int, j: int| mode_before(mode, keys[i], keys[j]) || (!mode_before(mode, keys[j], keys[i]) && i < j)
}

/// Whether `p` lists every position once, in order.
pub open spec fn orders(mode: SortMode, keys: Seq<ModeKey>, p: Seq<int>) -> bool {
    &&& increasing(p, mode_order(mode, keys))
    &&& forall|i: int| p.contains(i) <==> 0 <= i < keys.len()
}

/// The positions in the order of their keys.
pub open spec fn mode_positions(mode: SortMode, keys: Seq<ModeKey>) -> Seq<int> {
    choose|p: Seq<int>| orders(mode, keys, p)
}

/// What a file is sorted by, given the lower-case form of its name.
pub open spec fn key_of(mode: SortMode, f: MediaRec, lower: Seq<char>) -> ModeKey {
    ModeKey { number: mode_number(mode, f), name: lower }
}

/// What files are sorted by, given the lower-case forms of their names.
pub open spec fn keys_of(mode: SortMode, files: Seq<MediaRec>, lower: Seq<Seq<char>>) -> Seq<ModeKey> {
    Seq::new(files.len(), |i: int| key_of(mode, files[i], lower[i]))
}

/// The lower-case forms of the names of files.
pub open spec fn lower_names(files: Seq<MediaRec>) -> Seq<Seq<char>> {
    files.map_values(|f: MediaRec| lowercased(f.filename))
}

/// The files in order, given the lower-case forms of their names.
pub open spec fn sorted_by(mode: SortMode, files: Seq<MediaRec>, lower: Seq<Seq<char>>) -> Seq<MediaRec> {
    mode_positions(mode, keys_of(mode, files, lower)).map_values(|i: int| files[i])
}

/// The files in order.
pub open spec fn sorted_files(mode: SortMode, files: Seq<MediaRec>) -> Seq<MediaRec> {
    sorted_by(mode, files, lower_names(files))
}

/// The files that the panel lets through, in its order.
pub open spec fn arranged(s: SidebarRec, files: Seq<MediaRec>) -> Seq<MediaRec> {
    sorted_files(s.sort_mode, files.filter(fitting(s)))
}

struct ModeKeys {
    mode: SortMode,
    numbers: Vec<i128>,
    names: Vec<Vec<char>>,
    keys: Ghost<Seq<ModeKey>>,
}

impl ModeKeys {
    spec fn wf(&self) -> bool {
        &&& self.numbers@.len() == self.keys@.len()
        &&& self.names@.len() == self.keys@.len()
        &&& forall|i: int| 0 <= i < self.keys@.len() ==> #[trigger] self.numbers@[i] == self.keys@[i].number
        &&& forall|i: int| 0 <= i < self.keys@.len() ==> (#[trigger] self.names@[i])@ == self.keys@[i].name
    }
}

proof fn lemma_mode_order(mode: SortMode, keys: Seq<ModeKey>, i: int, j: int, k: int)
    ensures
        mode_order(mode, keys)(i, j) && mode_order(mode, keys)(j, k) ==> mode_order(mode, keys)(i, k),
        mode_order(mode, keys)(i, j) ==> !mode_order(mode, keys)(j, i),
        i == j || mode_order(mode, keys)(i, j) || mode_order(mode, keys)(j, i),
{
    let x = keys[i].name;
    let y = keys[j].name;
    let z = keys[k].name;
    lemma_text_lt_weak(x, y, z);
    lemma_text_lt_weak(z, y, x);
    lemma_text_lt_weak(x, z, y);
    lemma_text_lt_weak(y, z, x);
    lemma_text_lt_weak(x, y, x);
    lemma_text_lt_weak(y, x, y);
}

impl Ranked for ModeKeys {
    closed spec fn count(&self) -> nat {
        if self.wf() {
            self.keys@.len()
        } else {
            0
        }
    }

    closed spec fn lt(&self, i: int, j: int) -> bool {
        mode_order(self.mode, self.keys@)(i, j)
    }

    proof fn transitive(&self, i: int, j: int, k: int) {
        lemma_mode_order(self.mode, self.keys@, i, j, k);
    }

    proof fn total(&self, i: int, j: int) {
        lemma_mode_order(self.mode, self.keys@, i, j, i);
    }

    fn before(&self, i: usize, j: usize) -> (r: bool) {
        let a: i128 = self.numbers[i];
        let b: i128 = self.numbers[j];
        if a != b {
            return a < b;
        }
        let (less, more) = match self.mode {
            SortMode::Name => (
                chars_before(&self.names[i], &self.names[j]),
                chars_before(&self.names[j], &self.names[i]),
            ),
            SortMode::NameDesc => (
                chars_before(&self.names[j], &self.names[i]),
                chars_before(&self.names[i], &self.names[j]),
            ),
            _ => (false, false),
        };
        less || (!more && i < j)
    }
}

fn number_of(mode: SortMode, f: &MediaFile) -> (r: i128)
    ensures
        r == mode_number(mode, f@),
{
    let size: i128 = match f.file_size {
        Some(n) => n as i128,
        None => 0,
    };
    match mode {
        SortMode::Name => 0,
        SortMode::NameDesc => 0,
        SortMode::Size => size,
        SortMode::SizeDesc => -size,
        SortMode::Type => f.media_type.to_i64() as i128,
        SortMode::DateAdded => f.created_at as i128,
        SortMode::DateAddedDesc => -(f.created_at as i128),
    }
}

/// The files in order, given the lower-case forms of their names.
pub fn sort_by_lower(mode: SortMode, files: &Vec<MediaFile>, lower: &Vec<String>) -> (r: Vec<MediaFile>)
    requires
        files@.len() == lower@.len(),
    ensures
        media_recs(r@) == sorted_by(mode, media_recs(files@), texts(lower@)),
{
    let ghost recs = media_recs(files@);
    let ghost keys = keys_of(mode, recs, texts(lower@));
    let mut numbers: Vec<i128> = Vec::new();
    let mut names: Vec<Vec<char>> = Vec::new();
    let mut i: usize = 0;
    while i < files.len()
        invariant
            i <= files@.len(),
            files@.len() == lower@.len(),
            recs == media_recs(files@),
            keys == keys_of(mode, recs, texts(lower@)),
            numbers@.len() == i,
            names@.len() == i,
            forall|k: int| 0 <= k < i ==> #[trigger] numbers@[k] == keys[k].number,
            forall|k: int| 0 <= k < i ==> (#[trigger] names@[k])@ == keys[k].name,
        decreases files.len() - i,
    {
        assert(keys[i as int] == key_of(mode, files@[i as int]@, lower@[i as int]@));
        numbers.push(number_of(mode, &files[i]));
        names.push(chars_of(lower[i].as_str()));
        i += 1;
    }
    let ks = ModeKeys { mode, numbers, names, keys: Ghost(keys) };
    let order = sort_positions(&ks, files.len());
    let ghost p = positions(order@);
    let ghost q = mode_positions(mode, keys);
    proof {
        assert(order_of(&ks) =~= mode_order(mode, keys));
        assert(orders(mode, keys, p));
        assert(orders(mode, keys, q));
        let lt = mode_order(mode, keys);
        assert forall|x: int, y: int| #[trigger] lt(x, y) implies !lt(y, x) by {
            lemma_mode_order(mode, keys, x, y, x);
        }
        lemma_increasing_unique(p, q, lt);
    }
    let mut out: Vec<MediaFile> = Vec::new();
    let mut j: usize = 0;
    while j < order.len()
        invariant
            j <= order@.len(),
            out@.len() == j,
            p == positions(order@),
            orders(mode, keys, p),
            recs == media_recs(files@),
            keys.len() == files@.len(),
            forall|k: int| 0 <= k < j ==> (#[trigger] out@[k])@ == recs[p[k]],
        decreases order.len() - j,
    {
        assert(p[j as int] == order@[j as int]);
        assert(p.contains(p[j as int]));
        out.push(files[order[j]].copied());
        j += 1;
    }
    assert(media_recs(out@) =~= sorted_by(mode, recs, texts(lower@)));
    out
}

fn lower_all(files: &Vec<MediaFile>) -> (r: Vec<String>)
    ensures
        texts(r@) == lower_names(media_recs(files@)),
        r@.len() == files@.len(),
{
    let mut out: Vec<String> = Vec::new();
    let mut i: usize = 0;
    while i < files.len()
        invariant
            i <= files@.len(),
            out@.len() == i,
            forall|k: int| 0 <= k < i ==> (#[trigger] out@[k])@ == lowercased(files@[k]@.filename),
        decreases files.len() - i,
    {
        out.push(lowercase(files[i].filename.as_str()));
        i += 1;
    }
    assert(texts(out@) =~= lower_names(media_recs(files@)));
    out
}

/// The files in order.
pub fn sort_files(mode: SortMode, files: &Vec<MediaFile>) -> (r: Vec<MediaFile>)
    ensures
        media_recs(r@) == sorted_files(mode, media_recs(files@)),
{
    let lower = lower_all(files);
    sort_by_lower(mode, files, &lower)
}

/// The files that the panel lets through, in its order.
pub fn list_files(panel: &SidebarState, files: &Vec<MediaFile>) -> (r: Vec<MediaFile>)
    ensures
        media_recs(r@) == arranged(panel@, media_recs(files@)),
{
    let ghost recs = media_recs(files@);
    let ghost keep = fitting(panel@);
    let query = lowercase(panel.search_query.as_str());
    let mut kept: Vec<MediaFile> = Vec::new();
    let mut i: usize = 0;
    proof {
        reveal(Seq::filter);
    }
    assert(media_recs(kept@) =~= recs.take(0).filter(keep));
    while i < files.len()
        invariant
            i <= files@.len(),
            recs == media_recs(files@),
            keep == fitting(panel@),
            query@ == lowercased(panel.search_query@),
            media_recs(kept@) == recs.take(i as int).filter(keep),
        decreases files.len() - i,
    {
        let f = &files[i];
        assert(recs[i as int] == f@);
        proof {
            lemma_filter_step(recs, i as int, keep);
        }
        let lower = lowercase(f.filename.as_str());
        if fits_lower(lower.as_str(), query.as_str(), f.filename.as_str(), panel.extension_filter.as_str()) {
            let ghost kept0 = kept@;
            kept.push(f.copied());
            assert(media_recs(kept@) =~= media_recs(kept0).push(recs[i as int]));
        }
        i += 1;
    }
    assert(recs.take(i as int) =~= recs);
    sort_files(panel.sort_mode, &kept)
}

/// There is an order of the positions, and it lists each of them.
pub proof fn lemma_positions_ordered(mode: SortMode, keys: Seq<ModeKey>)
    ensures
        orders(mode, keys, mode_positions(mode, keys)),
        mode_positions(mode, keys).len() == keys.len(),
{
    let lt = mode_order(mode, keys);
    assert forall|i: int, j: int, k: int| #[trigger] lt(i, j) && #[trigger] lt(j, k) implies lt(i, k) by {
        lemma_mode_order(mode, keys, i, j, k);
    }
    assert forall|i: int, j: int| #[trigger] lt(i, j) implies !lt(j, i) by {
        lemma_mode_order(mode, keys, i, j, i);
    }
    assert forall|i: int, j: int| #![trigger lt(i, j)] i == j || lt(i, j) || lt(j, i) by {
        lemma_mode_order(mode, keys, i, j, i);
    }
    let q = lemma_sorted_upto(lt, keys.len() as int);
    assert(orders(mode, keys, q));
    let p = mode_positions(mode, keys);
    lemma_sorted_len(lt, p, keys.len() as int);
}

/// Putting files in order loses none and adds none.
pub proof fn law_sorting_keeps_files(mode: SortMode, files: Seq<MediaRec>)
    ensures
        sorted_files(mode, files).len() == files.len(),
        forall|f: MediaRec| #[trigger] sorted_files(mode, files).contains(f) <==> files.contains(f),
{
    let keys = keys_of(mode, files, lower_names(files));
    let p = mode_positions(mode, keys);
    lemma_positions_ordered(mode, keys);
    let out = sorted_files(mode, files);
    assert forall|f: MediaRec| #[trigger] out.contains(f) <==> files.contains(f) by {
        if out.contains(f) {
            let k = choose|k: int| 0 <= k < out.len() && out[k] == f;
            assert(p.contains(p[k]));
            assert(files[p[k]] == f);
        }
        if files.contains(f) {
            let i = choose|i: int| 0 <= i < files.len() && files[i] == f;
            assert(p.contains(i));
            let k = choose|k: int| 0 <= k < p.len() && p[k] == i;
            assert(out[k] == f);
        }
    }
}

// ---------------------------------------------------------------------------
// The extensions that there are.

/// Whether texts are listed: each of them once, in order.
pub open spec fn lists(out: Seq<Seq<char>>, keys: Seq<Seq<char>>) -> bool {
    &&& increasing(out, in_text_order())
    &&& forall|x: Seq<char>| #[trigger] out.contains(x) <==> keys.contains(x)
}

/// The extensions of files, in lower case.
pub open spec fn lower_extensions(files: Seq<MediaRec>) -> Seq<Seq<char>> {
    files.map_values(|f: MediaRec| lowercased(last_part(f.filename)))
}

/// Whether the extensions of files are listed: each of them once, in order.
pub open spec fn is_listing(out: Seq<Seq<char>>, files: Seq<MediaRec>) -> bool {
    lists(out, lower_extensions(files))
}

/// The extensions of files, in lower case, each of them once, in order.
pub fn extensions(files: &Vec<MediaFile>) -> (r: Vec<String>)
    ensures
        is_listing(texts(r@), media_recs(files@)),
{
    let mut keys: Vec<String> = Vec::new();
    let mut i: usize = 0;
    while i < files.len()
        invariant
            i <= files@.len(),
            keys@.len() == i,
            forall|k: int| 0 <= k < i ==> (#[trigger] keys@[k])@ == lowercased(last_part(files@[k]@.filename)),
        decreases files.len() - i,
    {
        let last = last_part_of(files[i].filename.as_str());
        keys.push(lowercase(last.as_str()));
        i += 1;
    }
    assert(texts(keys@) =~= lower_extensions(media_recs(files@)));
    sorted_once(&keys)
}

} // verus!
