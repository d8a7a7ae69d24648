//! The gallery: what is searched for is found, what is asked for is shown, and in the
//! order that is asked for.

use vstd::prelude::*;
use super::texts::{blank, law_parts_of_texts, law_small_letters, law_trimming_takes_white_space, same_letters};
use crate::db::query::{gallery_rec, in_order, law_files_are_shown_in_order, lemma_order_exists, passes, shown_before, shown_order, shows_in_order, SortKey};
use crate::db::{file_ids_grow, FileRec, MediaType, Tables};
use crate::order::{has_part, lemma_text_lt_irreflexive, text_lt};
use crate::text::{ascii_lowered, is_space};

verus! {

/// Whether one file of a list does not stand where the order wants the other one: the
/// field that the key names grows or falls, and where the length of a file is asked
/// for, those without one come last.
pub open spec fn ordered(sort: SortKey, a: FileRec, b: FileRec) -> bool {
    match sort {
        SortKey::NameAsc => !text_lt(ascii_lowered(b.name), ascii_lowered(a.name)),
        SortKey::NameDesc => !text_lt(ascii_lowered(a.name), ascii_lowered(b.name)),
        SortKey::AddedAsc => a.added_at <= b.added_at,
        SortKey::AddedDesc => a.added_at >= b.added_at,
        SortKey::MtimeAsc => a.mtime <= b.mtime,
        SortKey::MtimeDesc => a.mtime >= b.mtime,
        SortKey::SizeAsc => a.size <= b.size,
        SortKey::SizeDesc => a.size >= b.size,
        SortKey::DurationAsc => b.duration_ms is Some && b.duration_ms->0 >= 0 ==> a.duration_ms is Some && 0
            <= a.duration_ms->0 <= b.duration_ms->0,
        SortKey::DurationDesc => b.duration_ms is Some && b.duration_ms->0 >= 0 ==> a.duration_ms is Some
            && a.duration_ms->0 >= b.duration_ms->0,
        SortKey::TypeAsc => b.media_type is Image ==> a.media_type is Image,
        SortKey::TypeDesc => b.media_type is Video ==> a.media_type is Video,
    }
}

/// Whether two files are alike in what the key names.
pub open spec fn alike(sort: SortKey, a: FileRec, b: FileRec) -> bool {
    match sort {
        SortKey::NameAsc | SortKey::NameDesc => true,
        SortKey::AddedAsc | SortKey::AddedDesc => a.added_at == b.added_at,
        SortKey::MtimeAsc | SortKey::MtimeDesc => a.mtime == b.mtime,
        SortKey::SizeAsc | SortKey::SizeDesc => a.size == b.size,
        SortKey::DurationAsc | SortKey::DurationDesc => a.duration_ms == b.duration_ms,
        SortKey::TypeAsc | SortKey::TypeDesc => a.media_type == b.media_type,
    }
}

/// The gallery stands in the order of the key: by name, by when a file was added, by
/// when it was changed, by size, by length or by kind, upwards or downwards. Files
/// that are alike in that stand by name, and those of one name by id.
pub proof fn law_gallery_stands_in_order(sort: SortKey, rows: Seq<FileRec>, i: int, j: int)
    requires
        0 <= i < j < in_order(sort, rows).len(),
    ensures
        ({
            let a = in_order(sort, rows)[i];
            let b = in_order(sort, rows)[j];
            &&& ordered(sort, a, b)
            &&& alike(sort, a, b) && !(sort is NameDesc) ==> !text_lt(ascii_lowered(b.name), ascii_lowered(a.name))
        }),
{
    law_files_are_shown_in_order(sort, rows, i, j);
}

/// Files that no key tells apart stand by id, which is the order in which they came.
pub proof fn law_files_that_are_alike_stand_by_id(sort: SortKey, rows: Seq<FileRec>, i: int, j: int)
    requires
        file_ids_grow(rows),
        0 <= i < j < in_order(sort, rows).len(),
        alike(sort, in_order(sort, rows)[i], in_order(sort, rows)[j]),
        same_letters(in_order(sort, rows)[i].name, in_order(sort, rows)[j].name),
    ensures
        in_order(sort, rows)[i].id < in_order(sort, rows)[j].id,
{
    let lt = shown_order(sort, rows);
    let p = choose|p: Seq<int>| shows_in_order(sort, rows, p);
    let a = in_order(sort, rows)[i];
    let b = in_order(sort, rows)[j];
    law_small_letters(a.name, b.name);
    lemma_order_exists(sort, rows);
    lemma_text_lt_irreflexive(ascii_lowered(a.name));
    assert(lt(p[i], p[j]));
    assert(p.contains(p[i]) && p.contains(p[j]));
    assert(rows[p[i]] == a && rows[p[j]] == b);
    assert(p[i] < p[j]);
}

/// Of two keys that name one field, one puts before what the other puts after; a file
/// without a length comes after one with a length in both.
pub proof fn law_directions_are_opposite(a: FileRec, b: FileRec)
    ensures
        a.size < b.size ==> shown_before(SortKey::SizeAsc, a, b) && shown_before(SortKey::SizeDesc, b, a),
        a.mtime < b.mtime ==> shown_before(SortKey::MtimeAsc, a, b) && shown_before(SortKey::MtimeDesc, b, a),
        a.added_at < b.added_at ==> shown_before(SortKey::AddedAsc, a, b) && shown_before(SortKey::AddedDesc, b, a),
        a.media_type is Image && b.media_type is Video ==> shown_before(SortKey::TypeAsc, a, b) && shown_before(
            SortKey::TypeDesc,
            b,
            a,
        ),
        text_lt(ascii_lowered(a.name), ascii_lowered(b.name)) ==> shown_before(SortKey::NameAsc, a, b) && shown_before(
            SortKey::NameDesc,
            b,
            a,
        ),
        a.duration_ms is Some && b.duration_ms is Some && 0 <= a.duration_ms->0 < b.duration_ms->0 ==> shown_before(
            SortKey::DurationAsc,
            a,
            b,
        ) && shown_before(SortKey::DurationDesc, b, a),
        a.duration_ms is Some && a.duration_ms->0 >= 0 && (b.duration_ms is None || b.duration_ms->0 < 0)
            ==> shown_before(SortKey::DurationAsc, a, b) && shown_before(SortKey::DurationDesc, a, b),
{
}

/// Where no tag and no kind is asked for, a search shows the live files that hold the
/// text anywhere in their names, in whatever case, and no others. White space round
/// the text does not count, and an empty text is held by every name.
pub proof fn law_search_looks_anywhere_in_the_name(
    t: Tables,
    r: FileRec,
    before: Seq<char>,
    text: Seq<char>,
    after: Seq<char>,
    match_all: bool,
)
    requires
        blank(before),
        blank(after),
        text.len() > 0 ==> !is_space(text.first()) && !is_space(text.last()),
    ensures
        passes(t, r, Seq::empty(), Seq::empty(), match_all, before + text + after, 0) <==> !r.is_deleted && exists|
            a: Seq<char>,
            m: Seq<char>,
            b: Seq<char>,
        |
            r.name == #[trigger] (a + m + b) && same_letters(m, text),
{
    law_trimming_takes_white_space(before, text, after);
    let low = ascii_lowered(r.name);
    let part = ascii_lowered(text);
    law_parts_of_texts(low, part);
    assert(passes(t, r, Seq::empty(), Seq::empty(), match_all, before + text + after, 0) <==> !r.is_deleted && (
    text.len() == 0 || has_part(low, part)));
    if exists|a: Seq<char>, m: Seq<char>, b: Seq<char>| r.name == #[trigger] (a + m + b) && same_letters(m, text) {
        let (a, m, b) = choose|a: Seq<char>, m: Seq<char>, b: Seq<char>|
            r.name == #[trigger] (a + m + b) && same_letters(m, text);
        law_small_letters(m, text);
        assert(low =~= ascii_lowered(a) + ascii_lowered(m) + ascii_lowered(b));
        assert(low == ascii_lowered(a) + part + ascii_lowered(b));
        assert(has_part(low, part));
    }
    if text.len() == 0 {
        assert(r.name =~= Seq::<char>::empty() + Seq::<char>::empty() + r.name);
        assert(same_letters(Seq::<char>::empty(), text));
    } else if has_part(low, part) {
        let (x, y) = choose|x: Seq<char>, y: Seq<char>| low == #[trigger] (x + part + y);
        let i = x.len() as int;
        let n = text.len() as int;
        assert(low.len() == r.name.len());
        let a = r.name.take(i);
        let m = r.name.subrange(i, i + n);
        let b = r.name.skip(i + n);
        assert(r.name =~= a + m + b);
        assert(ascii_lowered(m) =~= part) by {
            assert forall|k: int| 0 <= k < n implies ascii_lowered(m)[k] == part[k] by {
                assert(low[i + k] == part[k]);
                assert(m[k] == r.name[i + k]);
            }
        }
        law_small_letters(m, text);
    }
}

/// A file is shown where it is live, has every tag that is asked for where all are, or
/// one of them where one is enough, none that is ruled out, and the kind that is asked
/// for; asking for no tag or for no kind shuts nothing out.
pub proof fn law_gallery_shows_what_is_asked_for(
    t: Tables,
    r: FileRec,
    want: Seq<i64>,
    unwanted: Seq<i64>,
    query: Seq<char>,
    type_filter: i32,
)
    ensures
        passes(t, r, want, unwanted, true, query, type_filter) <==> {
            &&& passes(t, r, Seq::empty(), Seq::empty(), true, query, 0)
            &&& forall|tag: i64| #[trigger] want.contains(tag) ==> t.links.contains((r.id, tag))
            &&& forall|tag: i64| #[trigger] unwanted.contains(tag) ==> !t.links.contains((r.id, tag))
            &&& type_filter == 1 ==> r.media_type is Image
            &&& type_filter == 2 ==> r.media_type is Video
        },
        want.len() > 0 ==> (passes(t, r, want, unwanted, false, query, type_filter) <==> {
            &&& passes(t, r, Seq::empty(), Seq::empty(), true, query, 0)
            &&& exists|tag: i64| #[trigger] want.contains(tag) && t.links.contains((r.id, tag))
            &&& forall|tag: i64| #[trigger] unwanted.contains(tag) ==> !t.links.contains((r.id, tag))
            &&& type_filter == 1 ==> r.media_type is Image
            &&& type_filter == 2 ==> r.media_type is Video
        }),
        passes(t, r, Seq::empty(), unwanted, false, query, type_filter) == passes(
            t,
            r,
            Seq::empty(),
            unwanted,
            true,
            query,
            type_filter,
        ),
{
    assert forall|s: Seq<i64>, k: int| 0 <= k < s.len() implies s.contains(#[trigger] s[k]) by {}
    if forall|tag: i64| #[trigger] want.contains(tag) ==> t.links.contains((r.id, tag)) {
        assert forall|k: int| 0 <= k < want.len() implies t.links.contains((r.id, #[trigger] want[k])) by {
            assert(want.contains(want[k]));
        }
    }
    assert(crate::db::query::has_any(t, r.id, want) <==> exists|tag: i64|
        #[trigger] want.contains(tag) && t.links.contains((r.id, tag))) by {
        lemma_has_any(t, r.id, want);
    }
    lemma_has_any(t, r.id, unwanted);
}

proof fn lemma_has_any(t: Tables, file: i64, tags: Seq<i64>)
    ensures
        crate::db::query::has_any(t, file, tags) <==> exists|tag: i64|
            #[trigger] tags.contains(tag) && t.links.contains((file, tag)),
{
    if exists|tag: i64| #[trigger] tags.contains(tag) && t.links.contains((file, tag)) {
        let tag = choose|tag: i64| #[trigger] tags.contains(tag) && t.links.contains((file, tag));
        let k = choose|k: int| 0 <= k < tags.len() && tags[k] == tag;
        assert(t.links.contains((file, tags[k])));
    }
    if crate::db::query::has_any(t, file, tags) {
        let k = choose|k: int| 0 <= k < tags.len() && t.links.contains((file, #[trigger] tags[k]));
        assert(tags.contains(tags[k]));
    }
}

/// A tile shows what the row of its file says.
pub proof fn law_tile_shows_its_file(r: FileRec)
    ensures
        gallery_rec(r).id == r.id,
        gallery_rec(r).name == r.name,
        gallery_rec(r).rel_path == r.rel_path,
        gallery_rec(r).is_video <==> r.media_type == MediaType::Video,
        gallery_rec(r).width == r.width,
        gallery_rec(r).height == r.height,
{
}

/// The menu names the keys in their order: by name, by when a file was added, by its time,
/// its size, its length and its kind, and each of them from small to large before large to
/// small.
pub proof fn law_menu_of_orders(sort: SortKey)
    ensures
        0 <= sort.index() < 12,
        sort.index() % 2 == 0 <==> sort is NameAsc || sort is AddedAsc || sort is MtimeAsc || sort is SizeAsc || sort
            is DurationAsc || sort is TypeAsc,
        sort.index() / 2 == 0 <==> sort is NameAsc || sort is NameDesc,
        sort.index() / 2 == 1 <==> sort is AddedAsc || sort is AddedDesc,
        sort.index() / 2 == 2 <==> sort is MtimeAsc || sort is MtimeDesc,
        sort.index() / 2 == 3 <==> sort is SizeAsc || sort is SizeDesc,
        sort.index() / 2 == 4 <==> sort is DurationAsc || sort is DurationDesc,
        sort.index() / 2 == 5 <==> sort is TypeAsc || sort is TypeDesc,
{
}

} // verus!
