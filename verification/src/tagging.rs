//! What the gallery shows for a filter, and what is done with tags: given to a file
//! by name, taken off it, and both for many files at once.

use vstd::prelude::*;
use crate::db::query::{gallery_rec, gallery_recs, in_order, passes, GalleryFile, GalleryRec, SortKey};
use crate::db::tags::tag_used;
use crate::db::{by_name, has_file, has_tag, named, next_tag_id, other_tags, shown, shown_recs, Db, FileRec, Tables, TagRec};
use crate::filter::{filter_of, ids_by_name, name_to_id, parse_filter};
use crate::order::same_nocase;
use crate::text::{chars_of, trim, trimmed, words};

verus! {

broadcast use vstd::string::group_string_axioms;

/// The ids of the tags by name, as the filter looks them up.
pub open spec fn ids_of_tags(t: Tables) -> Map<Seq<char>, i64> {
    ids_by_name(shown_recs(by_name(t.tags)), by_name(t.tags).len() as int)
}

/// What the gallery shows: nothing where the filter asks for a tag that there is
/// not, else the files that have all tags that it asks for and none that it rules
/// out.
pub open spec fn gallery_of(
    t: Tables,
    filter_text: Seq<char>,
    search: Seq<char>,
    type_filter: i32,
    sort: SortKey,
) -> Seq<GalleryRec> {
    let f = filter_of(words(filter_text), ids_of_tags(t), words(filter_text).len() as int);
    if f.impossible {
        Seq::empty()
    } else {
        in_order(
            sort,
            t.files.filter(|r: FileRec| passes(t, r, f.want, f.unwanted, true, search, type_filter)),
        ).map_values(|r: FileRec| gallery_rec(r))
    }
}

/// The files that the gallery shows.
pub fn gallery_files(db: &Db, filter_text: &str, search: &str, type_filter: i32, sort: SortKey) -> (r: Vec<
    GalleryFile,
>)
    ensures
        gallery_recs(r@) == gallery_of(db@, filter_text@, search@, type_filter, sort),
{
    let tags = db.list_tags();
    assert(shown(tags@).len() == tags@.len());
    assert(shown_recs(by_name(db@.tags)).len() == by_name(db@.tags).len());
    let ids = name_to_id(&tags);
    let f = parse_filter(filter_text, &ids);
    if f.impossible {
        let out: Vec<GalleryFile> = Vec::new();
        assert(gallery_recs(out@) =~= Seq::<GalleryRec>::empty());
        return out;
    }
    db.query_files(&f.want, &f.unwanted, true, search, type_filter, sort)
}

// ---------------------------------------------------------------------------
// Tags by name.

/// Whether the tag at a position has the name.
pub open spec fn named_at(t: Tables, name: Seq<char>, k: int) -> bool {
    0 <= k < t.tags.len() && named(t.tags[k], name)
}

/// The id of the tag with a name.
pub open spec fn tag_id(t: Tables, name: Seq<char>) -> Option<i64> {
    if exists|k: int| named_at(t, name, k) {
        Some(t.tags[choose|k: int| named_at(t, name, k)].id)
    } else {
        None
    }
}

/// The tables with a tag of the name, and its id; without one where no id is left.
pub open spec fn with_tag(t: Tables, name: Seq<char>, now: i64) -> (Tables, Option<i64>) {
    if tag_id(t, name) is Some {
        (t, tag_id(t, name))
    } else if next_tag_id(t.tags) > i64::MAX {
        (t, None)
    } else {
        let id = next_tag_id(t.tags) as i64;
        (Tables { tags: t.tags.push(TagRec { id, name, created_at: now }), ..t }, Some(id))
    }
}

/// The tables with the tag given to those of the first `n` files that there are.
pub open spec fn with_links(t: Tables, ids: Seq<i64>, tag: i64, n: int) -> Tables
    decreases n,
{
    if n <= 0 {
        t
    } else {
        let before = with_links(t, ids, tag, n - 1);
        if has_file(t.files, ids[n - 1]) {
            Tables { links: before.links.insert((ids[n - 1], tag)), ..before }
        } else {
            before
        }
    }
}

/// The tables with the tag taken off the first `n` files.
pub open spec fn without_links(t: Tables, ids: Seq<i64>, tag: i64, n: int) -> Tables
    decreases n,
{
    if n <= 0 {
        t
    } else {
        let before = without_links(t, ids, tag, n - 1);
        Tables { links: before.links.remove((ids[n - 1], tag)), ..before }
    }
}

/// The tables without the tag where no file has it.
pub open spec fn without_orphan(t: Tables, tag: i64) -> Tables {
    if tag_used(t.links, tag) {
        t
    } else {
        Tables { tags: other_tags(t.tags, tag), ..t }
    }
}

proof fn lemma_tag_id(t: Tables, name: Seq<char>, k: int)
    requires
        t.wf(),
        named_at(t, name, k),
    ensures
        tag_id(t, name) == Some(t.tags[k].id),
{
    let c = choose|c: int| named_at(t, name, c);
    assert(named_at(t, name, c));
    if c < k {
        assert(!crate::order::same_nocase(t.tags[c].name, t.tags[k].name));
    } else if k < c {
        assert(!crate::order::same_nocase(t.tags[k].name, t.tags[c].name));
    }
}

proof fn lemma_no_tag_id(t: Tables, name: Seq<char>)
    requires
        forall|k: int| 0 <= k < t.tags.len() ==> !named(#[trigger] t.tags[k], name),
    ensures
        tag_id(t, name) is None,
{
    assert forall|k: int| !named_at(t, name, k) by {}
}

/// Makes sure that there is a tag of the name.
fn ensure_tag(db: &mut Db, name: &str, now: i64) -> (r: Option<i64>)
    requires
        old(db).wf(),
    ensures
        final(db).wf(),
        (final(db)@, r) == with_tag(old(db)@, name@, now),
        r matches Some(id) ==> has_tag(final(db)@.tags, id),
{
    let ghost before = db@;
    proof {
        db.lemma_wf();
    }
    match db.create_tag(name, now) {
        Ok(id) => {
            proof {
                if exists|k: int| 0 <= k < before.tags.len() && named(#[trigger] before.tags[k], name@) {
                    let k = choose|k: int|
                        0 <= k < before.tags.len() && named(#[trigger] before.tags[k], name@) && before.tags[k].id == id;
                    assert(named_at(before, name@, k));
                    lemma_tag_id(before, name@, k);
                    assert(before.tags[k].id == id);
                } else {
                    lemma_no_tag_id(before, name@);
                    assert(db@.tags.last().id == id);
                    assert(db@.tags[db@.tags.len() - 1].id == id);
                }
            }
            Some(id)
        },
        Err(e) => {
            proof {
                lemma_no_tag_id(before, name@);
            }
            None
        },
    }
}

/// A tag is made once: to make it again, in whatever case, changes nothing and gives
/// the same tag.
pub proof fn law_tag_is_made_once(t: Tables, name: Seq<char>, again: Seq<char>, now: i64, later: i64)
    requires
        t.wf(),
        same_nocase(name, again),
        with_tag(t, name, now).1 is Some,
    ensures
        with_tag(with_tag(t, name, now).0, again, later) == with_tag(t, name, now),
{
    let (made, id) = with_tag(t, name, now);
    if tag_id(t, name) is Some {
        let k = choose|k: int| named_at(t, name, k);
        assert(named_at(t, again, k));
        lemma_tag_id(t, name, k);
        lemma_tag_id(t, again, k);
    } else {
        let last = made.tags.len() - 1;
        assert(named_at(made, again, last));
        let c = choose|c: int| named_at(made, again, c);
        assert(named_at(made, again, c));
        if c < last {
            assert(named_at(t, name, c));
        }
    }
}

/// The tables after a tag was given to a file by name.
pub open spec fn tagged(t: Tables, file: i64, name: Seq<char>, now: i64) -> Tables {
    tagged_all(t, seq![file], name, now)
}

/// The tables after a tag was given to files by name; files that there are not are
/// passed over.
pub open spec fn tagged_all(t: Tables, ids: Seq<i64>, name: Seq<char>, now: i64) -> Tables {
    let (made, tag) = with_tag(t, name, now);
    match tag {
        Some(tag) => with_links(made, ids, tag, ids.len() as int),
        None => made,
    }
}

/// Gives a tag to files by name, and makes the tag where there is none.
fn tag_all(db: &mut Db, ids: &Vec<i64>, name: &str, now: i64)
    requires
        old(db).wf(),
    ensures
        final(db).wf(),
        final(db)@ == tagged_all(old(db)@, ids@, name@, now),
{
    match ensure_tag(db, name, now) {
        None => {},
        Some(tag) => {
            let ghost made = db@;
            let mut i: usize = 0;
            while i < ids.len()
                invariant
                    i <= ids@.len(),
                    db.wf(),
                    has_tag(made.tags, tag),
                    db@ == with_links(made, ids@, tag, i as int),
                    db@.files == made.files,
                    db@.tags == made.tags,
                decreases ids.len() - i,
            {
                match db.assign_tag(ids[i], tag) {
                    Ok(()) => {},
                    Err(e) => {},
                }
                i += 1;
            }
        },
    }
}

/// Whether a file is open and a name is given.
pub open spec fn can_tag(file: i64, name: Seq<char>) -> bool {
    file >= 0 && trimmed(name).len() > 0
}

/// Gives a tag to the open file by name. Says whether there was anything to do: a
/// file has to be open, and the name must not be blank.
pub fn assign_by_name(db: &mut Db, file: i64, name: &str, now: i64) -> (r: bool)
    requires
        old(db).wf(),
    ensures
        final(db).wf(),
        r == can_tag(file, name@),
        final(db)@ == if r {
            tagged(old(db)@, file, trimmed(name@), now)
        } else {
            old(db)@
        },
{
    let name = trim(name);
    if file < 0 || chars_of(name.as_str()).len() == 0 {
        return false;
    }
    let mut ids: Vec<i64> = Vec::new();
    ids.push(file);
    assert(ids@ =~= seq![file]);
    tag_all(db, &ids, name.as_str(), now);
    true
}

/// Takes a tag off the open file, and the tag out where no file has it any more.
/// Says whether a file is open.
pub fn toggle_file_tag(db: &mut Db, file: i64, tag: i64) -> (r: bool)
    requires
        old(db).wf(),
    ensures
        final(db).wf(),
        r == (file >= 0),
        final(db)@ == if r {
            without_orphan(without_links(old(db)@, seq![file], tag, 1), tag)
        } else {
            old(db)@
        },
{
    if file < 0 {
        return false;
    }
    let ghost before = db@;
    db.unassign_tag(file, tag);
    proof {
        reveal_with_fuel(without_links, 2);
        assert(db@ =~= without_links(before, seq![file], tag, 1));
    }
    drop_orphan(db, tag);
    true
}

fn drop_orphan(db: &mut Db, tag: i64)
    requires
        old(db).wf(),
    ensures
        final(db).wf(),
        final(db)@ == without_orphan(old(db)@, tag),
{
    let ghost before = db@;
    let gone = db.delete_tag_if_orphan(tag);
    proof {
        if !gone && !tag_used(before.links, tag) {
            crate::db::tags::lemma_keep_all(before.tags, tag);
        }
    }
}

/// The tables after a tag was taken off files by name, and out where no file has it
/// any more.
pub open spec fn untagged_all(t: Tables, ids: Seq<i64>, name: Seq<char>) -> Tables {
    match tag_id(t, name) {
        Some(tag) => without_orphan(without_links(t, ids, tag, ids.len() as int), tag),
        None => t,
    }
}

/// What is done with a tag and the chosen files.
#[derive(Debug, Clone, Copy, PartialEq, Eq, Structural)]
pub enum BulkMode {
    Add,
    Remove,
}

/// Gives a tag to the chosen files by name, or takes it off them. A blank name and
/// no files change nothing.
pub fn bulk_apply(db: &mut Db, ids: &Vec<i64>, name: &str, mode: BulkMode, now: i64)
    requires
        old(db).wf(),
    ensures
        final(db).wf(),
        final(db)@ == if trimmed(name@).len() == 0 || ids@.len() == 0 {
            old(db)@
        } else {
            match mode {
                BulkMode::Add => tagged_all(old(db)@, ids@, trimmed(name@), now),
                BulkMode::Remove => untagged_all(old(db)@, ids@, trimmed(name@)),
            }
        },
{
    let name = trim(name);
    if chars_of(name.as_str()).len() == 0 || ids.len() == 0 {
        return ;
    }
    match mode {
        BulkMode::Add => {
            tag_all(db, ids, name.as_str(), now);
        },
        BulkMode::Remove => {
            let ghost before = db@;
            proof {
                db.lemma_wf();
            }
            match db.find_tag_named(name.as_str()) {
                None => {
                    proof {
                        lemma_no_tag_id(before, name@);
                    }
                },
                Some(tag) => {
                    proof {
                        let k = choose|k: int|
                            0 <= k < before.tags.len() && named(#[trigger] before.tags[k], name@) && before.tags[k].id
                                == tag;
                        assert(named_at(before, name@, k));
                        lemma_tag_id(before, name@, k);
                    }
                    let mut i: usize = 0;
                    while i < ids.len()
                        invariant
                            i <= ids@.len(),
                            db.wf(),
                            db@ == without_links(before, ids@, tag, i as int),
                        decreases ids.len() - i,
                    {
                        db.unassign_tag(ids[i], tag);
                        i += 1;
                    }
                    drop_orphan(db, tag);
                },
            }
        },
    }
}

/// To give a tag to a file and take it off again leaves the file without it, and
/// the tags of all other files as they were.
pub proof fn law_untag_undoes_tag(t: Tables, file: i64, name: Seq<char>, now: i64, other: i64, tag: i64)
    requires
        t.wf(),
        has_file(t.files, file),
        with_tag(t, name, now).1 == Some(tag),
    ensures
        tagged(t, file, name, now).links.contains((file, tag)),
        !without_links(tagged(t, file, name, now), seq![file], tag, 1).links.contains((file, tag)),
        other != file ==> forall|x: i64| #[trigger]
            without_links(tagged(t, file, name, now), seq![file], tag, 1).links.contains((other, x))
                <==> t.links.contains((other, x)),
{
    reveal_with_fuel(with_links, 2);
    reveal_with_fuel(without_links, 2);
    let ids = seq![file];
    assert(ids[0] == file);
}

} // verus!
