//! Which files the gallery shows, and in which order.

use std::collections::HashSet;
use vstd::prelude::*;
use super::{file_recs, Db, FileRec, FileRow, Tables};
use crate::media::MediaType;
use crate::order::{asymmetric, chars_before, contains_part, has_part, increasing, lemma_increasing_unique, lemma_sorted_len, lemma_sorted_upto, lemma_text_lt_weak, positions, text_lt};
use crate::seqs::lemma_filter_step;
use crate::sort::{order_of, sort_positions, Ranked};
use crate::text::{ascii_lowered, chars_of, to_ascii_lower, trim, trimmed};

verus! {

broadcast use {vstd::string::group_string_axioms, vstd::std_specs::hash::group_hash_axioms};

/// A file of the gallery.
pub struct GalleryFile {
    pub id: i64,
    pub name: String,
    pub is_video: bool,
    pub rel_path: String,
    /// `None` while it is not known, -1 where it cannot be found out.
    pub height: Option<i64>,
    pub width: Option<i64>,
}

/// What a [`GalleryFile`] says.
#[verifier::ext_equal]
pub struct GalleryRec {
    pub id: i64,
    pub name: Seq<char>,
    pub is_video: bool,
    pub rel_path: Seq<char>,
    pub height: Option<i64>,
    pub width: Option<i64>,
}

impl View for GalleryFile {
    type V = GalleryRec;

    open spec fn view(&self) -> GalleryRec {
        GalleryRec {
            id: self.id,
            name: self.name@,
            is_video: self.is_video,
            rel_path: self.rel_path@,
            height: self.height,
            width: self.width,
        }
    }
}

/// What the files of the gallery say.
pub open spec fn gallery_recs(v: Seq<GalleryFile>) -> Seq<GalleryRec> {
    v.map_values(|g: GalleryFile| g@)
}

/// A row as the gallery shows it.
pub open spec fn gallery_rec(r: FileRec) -> GalleryRec {
    GalleryRec {
        id: r.id,
        name: r.name,
        is_video: r.media_type is Video,
        rel_path: r.rel_path,
        height: r.height,
        width: r.width,
    }
}

/// What the gallery is sorted by. The order is that of the menu.
#[derive(Debug, Clone, Copy, PartialEq, Eq, Structural)]
pub enum SortKey {
    NameAsc,
    NameDesc,
    AddedAsc,
    AddedDesc,
    MtimeAsc,
    MtimeDesc,
    SizeAsc,
    SizeDesc,
    DurationAsc,
    DurationDesc,
    TypeAsc,
    TypeDesc,
}

impl SortKey {
    /// The place of a key in the menu.
    pub open spec fn index(self) -> int {
        match self {
            SortKey::NameAsc => 0,
            SortKey::NameDesc => 1,
            SortKey::AddedAsc => 2,
            SortKey::AddedDesc => 3,
            SortKey::MtimeAsc => 4,
            SortKey::MtimeDesc => 5,
            SortKey::SizeAsc => 6,
            SortKey::SizeDesc => 7,
            SortKey::DurationAsc => 8,
            SortKey::DurationDesc => 9,
            SortKey::TypeAsc => 10,
            SortKey::TypeDesc => 11,
        }
    }

    /// The key at a place of the menu; the first one stands for any other place.
    pub fn from_index(i: i32) -> (r: SortKey)
        ensures
            r.index() == if 0 <= i <= 11 {
                i as int
            } else {
                0
            },
    {
        match i {
            1 => SortKey::NameDesc,
            2 => SortKey::AddedAsc,
            3 => SortKey::AddedDesc,
            4 => SortKey::MtimeAsc,
            5 => SortKey::MtimeDesc,
            6 => SortKey::SizeAsc,
            7 => SortKey::SizeDesc,
            8 => SortKey::DurationAsc,
            9 => SortKey::DurationDesc,
            10 => SortKey::TypeAsc,
            11 => SortKey::TypeDesc,
            _ => SortKey::NameAsc,
        }
    }
}

/// Whether the length of a file is not known.
pub open spec fn no_duration(r: FileRec) -> bool {
    match r.duration_ms {
        None => true,
        Some(ms) => ms < 0,
    }
}

/// Whether a row comes after all others for want of what it is sorted by: a
/// length that is not known is the last in both directions.
pub open spec fn comes_last(sort: SortKey, r: FileRec) -> bool {
    (sort is DurationAsc || sort is DurationDesc) && no_duration(r)
}

/// The number that a row is sorted by, the smaller first. Where there is no
/// length at all, it counts as less than any.
pub open spec fn sort_number(sort: SortKey, r: FileRec) -> int {
    match sort {
        SortKey::NameAsc | SortKey::NameDesc => 0,
        SortKey::AddedAsc => r.added_at as int,
        SortKey::AddedDesc => -r.added_at,
        SortKey::MtimeAsc => r.mtime as int,
        SortKey::MtimeDesc => -r.mtime,
        SortKey::SizeAsc => r.size as int,
        SortKey::SizeDesc => -r.size,
        SortKey::DurationAsc => match r.duration_ms {
            Some(ms) => ms as int,
            None => i64::MIN - 1,
        },
        SortKey::DurationDesc => match r.duration_ms {
            Some(ms) => -ms,
            None => 1 - i64::MIN,
        },
        SortKey::TypeAsc => r.media_type.code() as int,
        SortKey::TypeDesc => -r.media_type.code(),
    }
}

/// Whether a name comes before another, without regard to the case of ASCII
/// letters.
pub open spec fn name_before(sort: SortKey, a: Seq<char>, b: Seq<char>) -> bool {
    if sort is NameDesc {
        text_lt(ascii_lowered(b), ascii_lowered(a))
    } else {
        text_lt(ascii_lowered(a), ascii_lowered(b))
    }
}

/// Whether the gallery shows a row before another: by what it is sorted by, and
/// by name where that is the same.
pub open spec fn shown_before(sort: SortKey, a: FileRec, b: FileRec) -> bool {
    if comes_last(sort, a) != comes_last(sort, b) {
        comes_last(sort, b)
    } else if sort_number(sort, a) != sort_number(sort, b) {
        sort_number(sort, a) < sort_number(sort, b)
    } else {
        name_before(sort, a.name, b.name)
    }
}

/// The order of positions by `shown_before`; rows that are alike keep the order of
/// their ids.
pub open spec fn shown_order(sort: SortKey, rows: Seq<FileRec>) -> spec_fn(int, int) -> bool {
    |i: int, j: int|
        shown_before(sort, rows[i], rows[j]) || (!shown_before(sort, rows[j], rows[i]) && i < j)
}

/// Whether `p` lists every row once, in the order in which they are shown.
pub open spec fn shows_in_order(sort: SortKey, rows: Seq<FileRec>, p: Seq<int>) -> bool {
    &&& increasing(p, shown_order(sort, rows))
    &&& forall|i: int| p.contains(i) <==> 0 <= i < rows.len()
}

/// The rows in the order in which they are shown.
pub open spec fn in_order(sort: SortKey, rows: Seq<FileRec>) -> Seq<FileRec> {
    (choose|p: Seq<int>| shows_in_order(sort, rows, p)).map_values(|i: int| rows[i])
}

/// Whether the file has the wanted tags: all of them or, where `match_all` is not
/// set, one. Where no tag is wanted, every file does.
pub open spec fn has_wanted(t: Tables, file: i64, want: Seq<i64>, match_all: bool) -> bool {
    if want.len() == 0 {
        true
    } else if match_all {
        forall|k: int| 0 <= k < want.len() ==> t.links.contains((file, #[trigger] want[k]))
    } else {
        has_any(t, file, want)
    }
}

/// Whether the file has one of the tags.
pub open spec fn has_any(t: Tables, file: i64, tags: Seq<i64>) -> bool {
    exists|k: int| 0 <= k < tags.len() && t.links.contains((file, #[trigger] tags[k]))
}

/// Whether the name holds the text, without regard to white space round the text
/// and to the case of ASCII letters.
pub open spec fn name_fits(name: Seq<char>, query: Seq<char>) -> bool {
    trimmed(query).len() == 0 || has_part(ascii_lowered(name), ascii_lowered(trimmed(query)))
}

/// Whether the kind of a file is asked for: 1 asks for images and 2 for videos.
pub open spec fn type_fits(kind: MediaType, type_filter: i32) -> bool {
    (type_filter == 1 ==> kind is Image) && (type_filter == 2 ==> kind is Video)
}

/// Whether the gallery shows a row.
pub open spec fn passes(
    t: Tables,
    r: FileRec,
    want: Seq<i64>,
    unwanted: Seq<i64>,
    match_all: bool,
    query: Seq<char>,
    type_filter: i32,
) -> bool {
    &&& !r.is_deleted
    &&& has_wanted(t, r.id, want, match_all)
    &&& !has_any(t, r.id, unwanted)
    &&& name_fits(r.name, query)
    &&& type_fits(r.media_type, type_filter)
}

struct RowKey {
    last: bool,
    number: i128,
    name: Vec<char>,
}

struct RowKeys {
    sort: SortKey,
    keys: Vec<RowKey>,
    rows: Ghost<Seq<FileRec>>,
}

impl RowKeys {
    spec fn wf(&self) -> bool {
        &&& self.keys@.len() == self.rows@.len()
        &&& forall|i: int|
            0 <= i < self.rows@.len() ==> (#[trigger] self.keys@[i]).last == comes_last(self.sort, self.rows@[i])
                && self.keys@[i].number == sort_number(self.sort, self.rows@[i]) && self.keys@[i].name@
                == ascii_lowered(self.rows@[i].name)
    }
}

proof fn lemma_name_before(sort: SortKey, a: Seq<char>, b: Seq<char>, c: Seq<char>)
    ensures
        name_before(sort, a, b) ==> !name_before(sort, b, a),
        name_before(sort, a, b) && name_before(sort, b, c) ==> name_before(sort, a, c),
        name_before(sort, a, b) && !name_before(sort, c, b) ==> name_before(sort, a, c),
        !name_before(sort, b, a) && name_before(sort, b, c) ==> name_before(sort, a, c),
        !name_before(sort, b, a) && !name_before(sort, c, b) ==> !name_before(sort, c, a),
{
    let x = ascii_lowered(a);
    let y = ascii_lowered(b);
    let z = ascii_lowered(c);
    lemma_text_lt_weak(x, y, z);
    lemma_text_lt_weak(z, y, x);
}

proof fn lemma_shown_order_transitive(sort: SortKey, rows: Seq<FileRec>, i: int, j: int, k: int)
    requires
        shown_order(sort, rows)(i, j),
        shown_order(sort, rows)(j, k),
    ensures
        shown_order(sort, rows)(i, k),
{
    lemma_name_before(sort, rows[i].name, rows[j].name, rows[k].name);
    lemma_name_before(sort, rows[i].name, rows[k].name, rows[j].name);
}

proof fn lemma_shown_order_asymmetric(sort: SortKey, rows: Seq<FileRec>)
    ensures
        asymmetric(shown_order(sort, rows)),
{
    let lt = shown_order(sort, rows);
    assert forall|i: int, j: int| #[trigger] lt(i, j) implies !lt(j, i) by {
        lemma_name_before(sort, rows[i].name, rows[j].name, rows[i].name);
    }
}

impl Ranked for RowKeys {
    closed spec fn count(&self) -> nat {
        if self.wf() {
            self.keys@.len()
        } else {
            0
        }
    }

    closed spec fn lt(&self, i: int, j: int) -> bool {
        shown_order(self.sort, self.rows@)(i, j)
    }

    proof fn transitive(&self, i: int, j: int, k: int) {
        lemma_shown_order_transitive(self.sort, self.rows@, i, j, k);
    }

    proof fn total(&self, i: int, j: int) {
    }

    fn before(&self, i: usize, j: usize) -> (r: bool) {
        let a = &self.keys[i];
        let b = &self.keys[j];
        if a.last != b.last {
            return b.last;
        }
        if a.number != b.number {
            return a.number < b.number;
        }
        let down = match self.sort {
            SortKey::NameDesc => true,
            _ => false,
        };
        let (less, more) = if down {
            (chars_before(&b.name, &a.name), chars_before(&a.name, &b.name))
        } else {
            (chars_before(&a.name, &b.name), chars_before(&b.name, &a.name))
        };
        less || (!more && i < j)
    }
}

impl SortKey {
    /// What a row is sorted by.
    fn key(self, f: &FileRow) -> (r: RowKey)
        ensures
            r.last == comes_last(self, f@),
            r.number == sort_number(self, f@),
            r.name@ == ascii_lowered(f.name@),
    {
        let (known, ms): (bool, i128) = match f.duration_ms {
            Some(ms) => (ms >= 0, ms as i128),
            None => (false, i64::MIN as i128 - 1),
        };
        let kind: i64 = f.media_type.to_i64();
        let number: i128 = match self {
            SortKey::NameAsc => 0,
            SortKey::NameDesc => 0,
            SortKey::AddedAsc => f.added_at as i128,
            SortKey::AddedDesc => -(f.added_at as i128),
            SortKey::MtimeAsc => f.mtime as i128,
            SortKey::MtimeDesc => -(f.mtime as i128),
            SortKey::SizeAsc => f.size as i128,
            SortKey::SizeDesc => -(f.size as i128),
            SortKey::DurationAsc => ms,
            SortKey::DurationDesc => -ms,
            SortKey::TypeAsc => kind as i128,
            SortKey::TypeDesc => -(kind as i128),
        };
        let last = match self {
            SortKey::DurationAsc => !known,
            SortKey::DurationDesc => !known,
            _ => false,
        };
        let lower = to_ascii_lower(f.name.as_str());
        RowKey { last, number, name: chars_of(lower.as_str()) }
    }
}

impl Db {
    /// The files that have a tag.
    fn files_with(&self, tag: i64) -> (r: HashSet<i64>)
        ensures
            forall|f: i64| #[trigger] r@.contains(f) <==> self@.links.contains((f, tag)),
    {
        let mut out: HashSet<i64> = HashSet::new();
        let mut i: usize = 0;
        while i < self.links.len()
            invariant
                i <= self.links@.len(),
                forall|f: i64| #[trigger] out@.contains(f) <==> exists|k: int|
                    0 <= k < i && #[trigger] self.links@[k] == (f, tag),
            decreases self.links.len() - i,
        {
            let l = self.links[i];
            let ghost out0 = out@;
            if l.1 == tag {
                out.insert(l.0);
            }
            assert forall|f: i64| #[trigger] out@.contains(f) <==> exists|k: int|
                0 <= k < i + 1 && #[trigger] self.links@[k] == (f, tag) by {
                if out0.contains(f) {
                    let k = choose|k: int| 0 <= k < i && #[trigger] self.links@[k] == (f, tag);
                    assert(self.links@[k] == (f, tag));
                }
                if l.1 == tag && f == l.0 {
                    assert(self.links@[i as int] == (f, tag));
                }
            }
            i += 1;
        }
        assert forall|f: i64| #[trigger] out@.contains(f) <==> self@.links.contains((f, tag)) by {
            assert(self@.links == self.links@.to_set());
        }
        out
    }

    /// For each tag the files that have it.
    fn files_by_tag(&self, tags: &Vec<i64>) -> (r: Vec<HashSet<i64>>)
        ensures
            r@.len() == tags@.len(),
            forall|k: int, f: i64|
                0 <= k < tags@.len() ==> (#[trigger] r@[k]@.contains(f) <==> self@.links.contains((f, tags@[k]))),
    {
        let mut out: Vec<HashSet<i64>> = Vec::new();
        let mut i: usize = 0;
        while i < tags.len()
            invariant
                i <= tags@.len(),
                out@.len() == i,
                forall|k: int, f: i64|
                    0 <= k < i ==> (#[trigger] out@[k]@.contains(f) <==> self@.links.contains((f, tags@[k]))),
            decreases tags.len() - i,
        {
            out.push(self.files_with(tags[i]));
            i += 1;
        }
        out
    }

    /// The live files that the gallery shows, in its order. A file has to have the
    /// tags `want`, all of them or, without `match_all`, one, and none of the tags
    /// `unwanted`; its name has to hold `name_query`. A `type_filter` of 1 shows
    /// images only, and one of 2 videos.
    pub fn query_files(
        &self,
        want: &Vec<i64>,
        unwanted: &Vec<i64>,
        match_all: bool,
        name_query: &str,
        type_filter: i32,
        sort: SortKey,
    ) -> (r: Vec<GalleryFile>)
        ensures
            gallery_recs(r@) == in_order(
                sort,
                self@.files.filter(
                    |f: FileRec| passes(self@, f, want@, unwanted@, match_all, name_query@, type_filter),
                ),
            ).map_values(|f: FileRec| gallery_rec(f)),
    {
        let ghost t = self@;
        let ghost recs = file_recs(self.files@);
        let ghost keep = |f: FileRec| passes(t, f, want@, unwanted@, match_all, name_query@, type_filter);
        let ghost rec_at = |i: usize| self.files@[i as int]@;
        let wanted = self.files_by_tag(want);
        let banned = self.files_by_tag(unwanted);
        let part = trim(name_query);
        let no_name = chars_of(part.as_str()).len() == 0;
        let part = to_ascii_lower(part.as_str());
        let mut at: Vec<usize> = Vec::new();
        let mut i: usize = 0;
        proof {
            reveal(Seq::filter);
        }
        assert(at@.map_values(rec_at) =~= recs.take(0).filter(keep));
        while i < self.files.len()
            invariant
                i <= self.files@.len(),
                t == self@,
                recs == file_recs(self.files@),
                keep == (|f: FileRec| passes(t, f, want@, unwanted@, match_all, name_query@, type_filter)),
                rec_at == (|i: usize| self.files@[i as int]@),
                wanted@.len() == want@.len(),
                forall|k: int, f: i64|
                    0 <= k < want@.len() ==> (#[trigger] wanted@[k]@.contains(f) <==> t.links.contains((f, want@[k]))),
                banned@.len() == unwanted@.len(),
                forall|k: int, f: i64|
                    0 <= k < unwanted@.len() ==> (#[trigger] banned@[k]@.contains(f) <==> t.links.contains(
                        (f, unwanted@[k]),
                    )),
                no_name == (trimmed(name_query@).len() == 0),
                part@ == ascii_lowered(trimmed(name_query@)),
                forall|k: int| 0 <= k < at@.len() ==> #[trigger] at@[k] < self.files@.len(),
                at@.map_values(rec_at) == recs.take(i as int).filter(keep),
            decreases self.files.len() - i,
        {
            let f = &self.files[i];
            assert(recs[i as int] == f@);
            proof {
                lemma_filter_step(recs, i as int, keep);
            }
            let kind_fits = (type_filter != 1 || !f.media_type.is_video()) && (type_filter != 2
                || f.media_type.is_video());
            let tag_fits = if want.len() == 0 {
                true
            } else if match_all {
                in_all(&wanted, f.id)
            } else {
                in_any(&wanted, f.id)
            };
            proof {
                assert(want@.len() != 0 && match_all ==> tag_fits == has_wanted(t, f.id, want@, match_all)) by {
                    if want@.len() != 0 && match_all {
                        assert(in_each(wanted@, f.id) <==> forall|k: int|
                            0 <= k < want@.len() ==> t.links.contains((f.id, #[trigger] want@[k]))) by {
                            if in_each(wanted@, f.id) {
                                assert forall|k: int| 0 <= k < want@.len() implies t.links.contains(
                                    (f.id, #[trigger] want@[k]),
                                ) by {
                                    assert(wanted@[k]@.contains(f.id));
                                }
                            }
                        }
                    }
                }
                lemma_in_some(t, f.id, want@, wanted@);
                lemma_in_some(t, f.id, unwanted@, banned@);
            }
            if !f.is_deleted && kind_fits && tag_fits && !in_any(&banned, f.id) {
                let lower = to_ascii_lower(f.name.as_str());
                if no_name || contains_part(lower.as_str(), part.as_str()) {
                    let ghost at0 = at@;
                    at.push(i);
                    assert(at@.map_values(rec_at) =~= at0.map_values(rec_at).push(recs[i as int]));
                }
            }
            i += 1;
        }
        assert(recs.take(i as int) == recs);
        self.in_order_of(&at, sort)
    }

    fn in_order_of(&self, at: &Vec<usize>, sort: SortKey) -> (r: Vec<GalleryFile>)
        requires
            forall|k: int| 0 <= k < at@.len() ==> #[trigger] at@[k] < self.files@.len(),
        ensures
            gallery_recs(r@) == in_order(sort, at@.map_values(|i: usize| self.files@[i as int]@)).map_values(
                |f: FileRec| gallery_rec(f),
            ),
    {
        let ghost rows = at@.map_values(|i: usize| self.files@[i as int]@);
        let mut keys: Vec<RowKey> = Vec::new();
        let mut i: usize = 0;
        while i < at.len()
            invariant
                i <= at@.len(),
                keys@.len() == i,
                rows == at@.map_values(|i: usize| self.files@[i as int]@),
                forall|k: int| 0 <= k < at@.len() ==> #[trigger] at@[k] < self.files@.len(),
                forall|k: int|
                    0 <= k < i ==> (#[trigger] keys@[k]).last == comes_last(sort, rows[k]) && keys@[k].number
                        == sort_number(sort, rows[k]) && keys@[k].name@ == ascii_lowered(rows[k].name),
            decreases at.len() - i,
        {
            keys.push(sort.key(&self.files[at[i]]));
            i += 1;
        }
        let ks = RowKeys { sort, keys, rows: Ghost(rows) };
        let order = sort_positions(&ks, at.len());
        let ghost p = positions(order@);
        let ghost q = choose|p: Seq<int>| shows_in_order(sort, rows, p);
        proof {
            assert(order_of(&ks) =~= shown_order(sort, rows));
            assert(shows_in_order(sort, rows, p));
            assert(shows_in_order(sort, rows, q));
            lemma_shown_order_asymmetric(sort, rows);
            lemma_increasing_unique(p, q, shown_order(sort, rows));
        }
        let mut out: Vec<GalleryFile> = Vec::new();
        let mut j: usize = 0;
        while j < order.len()
            invariant
                j <= order@.len(),
                out@.len() == j,
                p == positions(order@),
                shows_in_order(sort, rows, p),
                rows == at@.map_values(|i: usize| self.files@[i as int]@),
                forall|k: int| 0 <= k < at@.len() ==> #[trigger] at@[k] < self.files@.len(),
                forall|k: int| 0 <= k < j ==> (#[trigger] out@[k])@ == gallery_rec(rows[p[k]]),
            decreases order.len() - j,
        {
            assert(p[j as int] == order@[j as int]);
            assert(p.contains(p[j as int]));
            let f = &self.files[at[order[j]]];
            let g = GalleryFile {
                id: f.id,
                name: f.name.clone(),
                is_video: f.media_type.is_video(),
                rel_path: f.rel_path.clone(),
                height: f.height,
                width: f.width,
            };
            out.push(g);
            j += 1;
        }
        assert(gallery_recs(out@) =~= in_order(sort, rows).map_values(|f: FileRec| gallery_rec(f)));
        out
    }
}

// ---------------------------------------------------------------------------
// Laws.

/// The rows can be put in order.
pub proof fn lemma_order_exists(sort: SortKey, rows: Seq<FileRec>)
    ensures
        exists|p: Seq<int>| shows_in_order(sort, rows, p),
{
    let lt = shown_order(sort, rows);
    assert forall|i: int, j: int, k: int| #[trigger] lt(i, j) && #[trigger] lt(j, k) implies lt(i, k) by {
        lemma_shown_order_transitive(sort, rows, i, j, k);
    }
    let q = lemma_sorted_upto(lt, rows.len() as int);
    assert(shows_in_order(sort, rows, q));
}

/// The gallery shows every file that it has to show once: in any order there are as
/// many of them, and the same ones.
pub proof fn law_every_file_is_shown_once(sort: SortKey, rows: Seq<FileRec>)
    ensures
        in_order(sort, rows).len() == rows.len(),
        forall|r: FileRec| #[trigger] in_order(sort, rows).contains(r) <==> rows.contains(r),
{
    let lt = shown_order(sort, rows);
    assert forall|i: int, j: int, k: int| #[trigger] lt(i, j) && #[trigger] lt(j, k) implies lt(i, k) by {
        lemma_shown_order_transitive(sort, rows, i, j, k);
    }
    let q = lemma_sorted_upto(lt, rows.len() as int);
    assert(shows_in_order(sort, rows, q));
    let p = choose|p: Seq<int>| shows_in_order(sort, rows, p);
    lemma_shown_order_asymmetric(sort, rows);
    lemma_sorted_len(lt, p, rows.len() as int);
    let out = in_order(sort, rows);
    assert forall|r: FileRec| #[trigger] out.contains(r) <==> rows.contains(r) by {
        if out.contains(r) {
            let k = choose|k: int| 0 <= k < out.len() && out[k] == r;
            assert(p.contains(p[k]));
            assert(rows[p[k]] == r);
        }
        if rows.contains(r) {
            let i = choose|i: int| 0 <= i < rows.len() && rows[i] == r;
            assert(p.contains(i));
            let k = choose|k: int| 0 <= k < p.len() && p[k] == i;
            assert(out[k] == r);
        }
    }
}

/// What is shown earlier is not due later: no file stands before one that has to be
/// shown before it.
pub proof fn law_files_are_shown_in_order(sort: SortKey, rows: Seq<FileRec>, i: int, j: int)
    requires
        0 <= i < j < in_order(sort, rows).len(),
    ensures
        !shown_before(sort, in_order(sort, rows)[j], in_order(sort, rows)[i]),
{
    let lt = shown_order(sort, rows);
    assert forall|i: int, j: int, k: int| #[trigger] lt(i, j) && #[trigger] lt(j, k) implies lt(i, k) by {
        lemma_shown_order_transitive(sort, rows, i, j, k);
    }
    let q = lemma_sorted_upto(lt, rows.len() as int);
    assert(shows_in_order(sort, rows, q));
    let p = choose|p: Seq<int>| shows_in_order(sort, rows, p);
    assert(lt(p[i], p[j]));
    lemma_name_before(sort, rows[p[i]].name, rows[p[j]].name, rows[p[i]].name);
}

/// To ask for all of some tags shows no file that asking for one of them does not
/// show.
pub proof fn law_all_tags_are_narrower_than_any(
    t: Tables,
    r: FileRec,
    want: Seq<i64>,
    unwanted: Seq<i64>,
    query: Seq<char>,
    type_filter: i32,
)
    requires
        passes(t, r, want, unwanted, true, query, type_filter),
    ensures
        passes(t, r, want, unwanted, false, query, type_filter),
{
    if want.len() > 0 {
        assert(t.links.contains((r.id, want[0])));
    }
}

/// How often a tag is asked for or ruled out, and in what order, does not matter.
pub proof fn law_repeated_tags_count_once(
    t: Tables,
    r: FileRec,
    want: Seq<i64>,
    again: Seq<i64>,
    unwanted: Seq<i64>,
    unwanted_again: Seq<i64>,
    match_all: bool,
    query: Seq<char>,
    type_filter: i32,
)
    requires
        forall|tag: i64| #[trigger] want.contains(tag) <==> again.contains(tag),
        forall|tag: i64| #[trigger] unwanted.contains(tag) <==> unwanted_again.contains(tag),
    ensures
        passes(t, r, want, unwanted, match_all, query, type_filter) == passes(
            t,
            r,
            again,
            unwanted_again,
            match_all,
            query,
            type_filter,
        ),
{
    lemma_same_tags(t, r.id, want, again);
    lemma_same_tags(t, r.id, unwanted, unwanted_again);
}

proof fn lemma_same_tags(t: Tables, file: i64, a: Seq<i64>, b: Seq<i64>)
    requires
        forall|tag: i64| #[trigger] a.contains(tag) <==> b.contains(tag),
    ensures
        has_any(t, file, a) == has_any(t, file, b),
        has_wanted(t, file, a, true) == has_wanted(t, file, b, true),
        has_wanted(t, file, a, false) == has_wanted(t, file, b, false),
{
    assert forall|k: int| 0 <= k < a.len() implies exists|l: int| 0 <= l < b.len() && b[l] == #[trigger] a[k] by {
        assert(a.contains(a[k]));
    }
    assert forall|k: int| 0 <= k < b.len() implies exists|l: int| 0 <= l < a.len() && a[l] == #[trigger] b[k] by {
        assert(b.contains(b[k]));
        assert(a.contains(b[k]));
    }
    assert(a.len() > 0 ==> b.contains(a[0]));
    assert(b.len() > 0 ==> a.contains(b[0]));
    if has_any(t, file, a) {
        let k = choose|k: int| 0 <= k < a.len() && t.links.contains((file, #[trigger] a[k]));
        let l = choose|l: int| 0 <= l < b.len() && b[l] == a[k];
        assert(t.links.contains((file, b[l])));
    }
    if has_any(t, file, b) {
        let k = choose|k: int| 0 <= k < b.len() && t.links.contains((file, #[trigger] b[k]));
        let l = choose|l: int| 0 <= l < a.len() && a[l] == b[k];
        assert(t.links.contains((file, a[l])));
    }
    if has_wanted(t, file, a, true) {
        assert forall|k: int| 0 <= k < b.len() implies t.links.contains((file, #[trigger] b[k])) by {
            let l = choose|l: int| 0 <= l < a.len() && a[l] == b[k];
            assert(t.links.contains((file, a[l])));
        }
    }
    if has_wanted(t, file, b, true) {
        assert forall|k: int| 0 <= k < a.len() implies t.links.contains((file, #[trigger] a[k])) by {
            let l = choose|l: int| 0 <= l < b.len() && b[l] == a[k];
            assert(t.links.contains((file, b[l])));
        }
    }
}

/// A file with a tag that is ruled out is not shown.
pub proof fn law_unwanted_tag_hides_file(
    t: Tables,
    r: FileRec,
    want: Seq<i64>,
    unwanted: Seq<i64>,
    match_all: bool,
    query: Seq<char>,
    type_filter: i32,
    tag: i64,
)
    requires
        unwanted.contains(tag),
        t.links.contains((r.id, tag)),
    ensures
        !passes(t, r, want, unwanted, match_all, query, type_filter),
{
    let k = choose|k: int| 0 <= k < unwanted.len() && unwanted[k] == tag;
    assert(t.links.contains((r.id, unwanted[k])));
}

spec fn in_each(sets: Seq<HashSet<i64>>, id: i64) -> bool {
    forall|k: int| 0 <= k < sets.len() ==> (#[trigger] sets[k])@.contains(id)
}

spec fn in_some(sets: Seq<HashSet<i64>>, id: i64) -> bool {
    exists|k: int| 0 <= k < sets.len() && (#[trigger] sets[k])@.contains(id)
}

proof fn lemma_in_some(t: Tables, id: i64, tags: Seq<i64>, sets: Seq<HashSet<i64>>)
    requires
        sets.len() == tags.len(),
        forall|k: int, f: i64|
            0 <= k < tags.len() ==> (#[trigger] sets[k]@.contains(f) <==> t.links.contains((f, tags[k]))),
    ensures
        in_some(sets, id) <==> has_any(t, id, tags),
{
    if in_some(sets, id) {
        let k = choose|k: int| 0 <= k < sets.len() && (#[trigger] sets[k])@.contains(id);
        assert(t.links.contains((id, tags[k])));
    }
    if has_any(t, id, tags) {
        let k = choose|k: int| 0 <= k < tags.len() && t.links.contains((id, #[trigger] tags[k]));
        assert(sets[k]@.contains(id));
    }
}

fn in_all(sets: &Vec<HashSet<i64>>, id: i64) -> (r: bool)
    ensures
        r == in_each(sets@, id),
{
    let mut i: usize = 0;
    while i < sets.len()
        invariant
            i <= sets@.len(),
            forall|k: int| 0 <= k < i ==> (#[trigger] sets@[k])@.contains(id),
        decreases sets.len() - i,
    {
        if !sets[i].contains(&id) {
            return false;
        }
        i += 1;
    }
    true
}

fn in_any(sets: &Vec<HashSet<i64>>, id: i64) -> (r: bool)
    ensures
        r == in_some(sets@, id),
{
    let mut i: usize = 0;
    while i < sets.len()
        invariant
            i <= sets@.len(),
            forall|k: int| 0 <= k < i ==> !(#[trigger] sets@[k])@.contains(id),
        decreases sets.len() - i,
    {
        if sets[i].contains(&id) {
            return true;
        }
        i += 1;
    }
    false
}

} // verus!
