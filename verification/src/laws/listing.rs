//! The list of the window: which files are shown, and in which order.

use vstd::prelude::*;
use super::texts::{law_parts_of_texts, law_small_letters, same_letters};
use crate::app::{shows_file, with_thumbnail, AppRec, AppView};
use crate::app::listing::{arranged, fitting, is_listing, keys_of, last_part, law_sorting_keeps_files, lemma_positions_ordered, lower_extensions, lower_names, mode_order, mode_positions, sorted_by, sorted_files};
use crate::media::MediaType;
use crate::order::{in_text_order, lemma_text_lt_weak, text_lt};
use crate::seqs::lemma_filter_from;
use crate::text::{last_at, lemma_last_at, lowercased};
use crate::thumbnail::MediaRec;
use crate::ui::sidebar::{SidebarRec, SortMode};

verus! {

/// The size of a file, nothing where it is not known.
pub open spec fn size_shown(f: MediaRec) -> int {
    if f.file_size is Some {
        f.file_size->0 as int
    } else {
        0
    }
}

/// Whether a file with one name may stand before a file with another in the order of
/// choice.
pub open spec fn may_come_first(mode: SortMode, a: MediaRec, a_name: Seq<char>, b: MediaRec, b_name: Seq<char>) -> bool {
    &&& mode == SortMode::Name ==> !text_lt(b_name, a_name)
    &&& mode == SortMode::NameDesc ==> !text_lt(a_name, b_name)
    &&& mode == SortMode::Size ==> size_shown(a) <= size_shown(b)
    &&& mode == SortMode::SizeDesc ==> size_shown(a) >= size_shown(b)
    &&& mode == SortMode::Type ==> a.media_type == MediaType::Image || b.media_type == MediaType::Video
    &&& mode == SortMode::DateAdded ==> a.created_at <= b.created_at
    &&& mode == SortMode::DateAddedDesc ==> a.created_at >= b.created_at
}

/// The list stands in the order that was chosen: by name from front to back or from
/// back to front, by size from small to large or from large to small, pictures before
/// videos, or from the oldest to the newest or the newest to the oldest. Files between
/// which the order does not decide stand as they stood before.
pub proof fn law_list_stands_in_order(mode: SortMode, files: Seq<MediaRec>, lower: Seq<Seq<char>>)
    requires
        files.len() == lower.len(),
    ensures
        exists|p: Seq<int>|
            {
                let list = sorted_by(mode, files, lower);
                &&& p.len() == files.len() && list.len() == files.len() && #[trigger] p.no_duplicates()
                &&& forall|i: int|
                    0 <= i < p.len() ==> 0 <= #[trigger] p[i] < files.len() && list[i] == files[p[i]]
                &&& forall|i: int, j: int|
                    0 <= i < j < p.len() ==> may_come_first(
                        mode,
                        files[#[trigger] p[i]],
                        lower[p[i]],
                        files[#[trigger] p[j]],
                        lower[p[j]],
                    )
                &&& forall|i: int, j: int|
                    0 <= i < j < p.len() && may_come_first(
                        mode,
                        files[#[trigger] p[j]],
                        lower[p[j]],
                        files[#[trigger] p[i]],
                        lower[p[i]],
                    ) ==> p[i] < p[j]
            },
{
    let keys = keys_of(mode, files, lower);
    let p = mode_positions(mode, keys);
    let lt = mode_order(mode, keys);
    let list = sorted_by(mode, files, lower);
    lemma_positions_ordered(mode, keys);
    assert forall|i: int| 0 <= i < p.len() implies 0 <= #[trigger] p[i] < files.len() && list[i] == files[p[i]] by {
        assert(p.contains(p[i]));
    }
    assert forall|i: int, j: int| 0 <= i < j < p.len() implies may_come_first(
        mode,
        files[#[trigger] p[i]],
        lower[p[i]],
        files[#[trigger] p[j]],
        lower[p[j]],
    ) && (may_come_first(mode, files[p[j]], lower[p[j]], files[p[i]], lower[p[i]]) ==> p[i] < p[j]) by {
        assert(lt(p[i], p[j]));
        let x = lower[p[i]];
        let y = lower[p[j]];
        lemma_text_lt_weak(x, y, x);
        lemma_text_lt_weak(y, x, y);
    }
    assert(p.no_duplicates()) by {
        assert forall|i: int, j: int| 0 <= i < p.len() && 0 <= j < p.len() && i != j implies p[i] != p[j] by {
            if i < j {
                assert(lt(p[i], p[j]));
            } else {
                assert(lt(p[j], p[i]));
            }
            let x = keys[p[i]].name;
            lemma_text_lt_weak(x, x, x);
        }
    }
}

/// The names of the window's files are compared in small letters.
pub proof fn law_names_are_compared_in_small_letters(mode: SortMode, files: Seq<MediaRec>)
    ensures
        sorted_files(mode, files) == sorted_by(
            mode,
            files,
            Seq::new(files.len(), |i: int| lowercased(files[i].filename)),
        ),
{
    assert(Seq::new(files.len(), |i: int| lowercased(files[i].filename)) =~= lower_names(files));
}

/// Whether a text is what follows the last dot of a name, or the name where it has
/// none.
pub open spec fn is_ending(name: Seq<char>, tail: Seq<char>) -> bool {
    !tail.contains('.') && (name == tail || exists|stem: Seq<char>| name == #[trigger] (stem + seq!['.'] + tail))
}

proof fn lemma_ending(name: Seq<char>)
    ensures
        is_ending(name, last_part(name)),
        forall|t: Seq<char>| is_ending(name, t) ==> t == last_part(name),
{
    let k = last_at(name, '.');
    let tail = last_part(name);
    lemma_last_at(name, '.');
    assert forall|i: int| 0 <= i < tail.len() implies tail[i] != '.' by {
        assert(tail[i] == name[k + 1 + i]);
    }
    if k >= 0 {
        assert(name =~= name.take(k) + seq!['.'] + tail);
    } else {
        assert(name =~= tail);
    }
    assert forall|t: Seq<char>| is_ending(name, t) implies t == tail by {
        if name == t {
            if k >= 0 {
                assert(t.contains(t[k]));
            }
            assert(t =~= tail);
        } else {
            let stem = choose|stem: Seq<char>| name == #[trigger] (stem + seq!['.'] + t);
            let m = stem.len() as int;
            assert(name[m] == '.');
            assert(t =~= name.skip(m + 1));
            if k > m {
                assert(t[k - m - 1] == '.');
                assert(t.contains(t[k - m - 1]));
            }
            assert(k == m);
        }
    }
}

/// Whether the panel asks for a file: what is searched for stands anywhere in its name,
/// in whatever case, and its name ends in the extension, in whatever case.
pub open spec fn is_asked_for(s: SidebarRec, f: MediaRec) -> bool {
    &&& exists|a: Seq<char>, b: Seq<char>| lowercased(f.filename) == #[trigger] (a + lowercased(s.search_query) + b)
    &&& s.extension_filter.len() > 0 ==> exists|tail: Seq<char>|
        #[trigger] is_ending(f.filename, tail) && same_letters(tail, s.extension_filter)
}

/// The list shows the files that the panel asks for, and no others.
pub proof fn law_list_shows_what_the_panel_asks_for(s: SidebarRec, files: Seq<MediaRec>, f: MediaRec)
    ensures
        arranged(s, files).contains(f) <==> files.contains(f) && is_asked_for(s, f),
{
    lemma_filter_from(files, fitting(s));
    law_sorting_keeps_files(s.sort_mode, files.filter(fitting(s)));
    law_parts_of_texts(lowercased(f.filename), lowercased(s.search_query));
    if lowercased(s.search_query).len() == 0 {
        let none = lowercased(s.search_query);
        assert(lowercased(f.filename) =~= lowercased(f.filename) + none + Seq::empty());
    }
    lemma_ending(f.filename);
    law_small_letters(last_part(f.filename), s.extension_filter);
    assert(fitting(s)(f) <==> is_asked_for(s, f)) by {
        if is_asked_for(s, f) && s.extension_filter.len() > 0 {
            let tail = choose|tail: Seq<char>| #[trigger]
                is_ending(f.filename, tail) && same_letters(tail, s.extension_filter);
            assert(tail == last_part(f.filename));
        }
    }
}

/// The extensions to choose from are those of the files, in small letters, each of them
/// once and in the order of texts.
pub proof fn law_extensions_are_those_of_the_files(out: Seq<Seq<char>>, files: Seq<MediaRec>)
    requires
        is_listing(out, files),
    ensures
        forall|x: Seq<char>| #[trigger] out.contains(x) <==> exists|k: int, tail: Seq<char>|
            0 <= k < files.len() && #[trigger] is_ending(files[k].filename, tail) && x == lowercased(tail),
        forall|i: int, j: int| 0 <= i < j < out.len() ==> text_lt(#[trigger] out[i], #[trigger] out[j]),
{
    let keys = lower_extensions(files);
    assert forall|x: Seq<char>| #[trigger] out.contains(x) <==> exists|k: int, tail: Seq<char>|
        0 <= k < files.len() && #[trigger] is_ending(files[k].filename, tail) && x == lowercased(tail) by {
        if out.contains(x) {
            assert(keys.contains(x));
            let k = choose|k: int| 0 <= k < keys.len() && keys[k] == x;
            lemma_ending(files[k].filename);
            assert(is_ending(files[k].filename, last_part(files[k].filename)));
        }
        if exists|k: int, tail: Seq<char>|
            0 <= k < files.len() && #[trigger] is_ending(files[k].filename, tail) && x == lowercased(tail) {
            let (k, tail) = choose|k: int, tail: Seq<char>|
                0 <= k < files.len() && #[trigger] is_ending(files[k].filename, tail) && x == lowercased(tail);
            lemma_ending(files[k].filename);
            assert(keys[k] == x);
            assert(keys.contains(x));
        }
    }
    assert forall|i: int, j: int| 0 <= i < j < out.len() implies text_lt(#[trigger] out[i], #[trigger] out[j]) by {
        assert(in_text_order()(out[i], out[j]));
    }
}

/// A thumbnail is shown for its own file alone. One that was taken from a frame marks
/// its file; one that was made does not take the mark off.
pub proof fn law_thumbnail_is_shown_for_its_file(
    files: Seq<MediaRec>,
    id: i64,
    name: Seq<char>,
    custom: bool,
    k: int,
)
    requires
        0 <= k < files.len(),
        forall|i: int, j: int| 0 <= i < j < files.len() ==> (#[trigger] files[i]).id != (#[trigger] files[j]).id,
    ensures
        with_thumbnail(files, id, name, custom).len() == files.len(),
        ({
            let a = files[k];
            let b = with_thumbnail(files, id, name, custom)[k];
            &&& a.id != id ==> b == a
            &&& a.id == id ==> b.thumbnail == Some(name) && (b.custom_thumbnail <==> a.custom_thumbnail || custom)
            &&& b.id == a.id && b.path == a.path && b.filename == a.filename && b.media_type == a.media_type
            &&& b.file_size == a.file_size && b.created_at == a.created_at
        }),
{
}

/// A file that is opened is shown as what it is; the list and the panel stay.
pub proof fn law_opened_file_is_shown(s: AppRec, after: AppRec, id: i64)
    requires
        shows_file(s, after, id),
    ensures
        after.view == AppView::Viewer,
        after.viewer.current is Some,
        (after.viewer.current->0).0 == id,
        exists|k: int|
            0 <= k < s.files.len() && (#[trigger] s.files[k]).id == id && s.files[k].media_type
                == (after.viewer.current->0).1,
        !after.viewer.fullscreen,
        after.files == s.files,
        after.sidebar == s.sidebar,
        after.editor == s.editor,
        after.status == s.status,
{
}

} // verus!
