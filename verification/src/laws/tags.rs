//! Tags: which files have them, how they are called, and in what order they come.

use vstd::prelude::*;
use super::texts::{law_small_letters, same_letters};
use crate::db::tags::{tag_renamed, tag_used};
use crate::db::{by_name, has_file, has_tag, named, next_tag_id, other_tags, tag_ids_grow, tags_of, without_tag, TagRec, Tables};
use crate::order::{key_lt, lemma_text_order, text_lt, text_order};
use crate::seqs::lemma_filter_from;
use crate::tagging::{named_at, tag_id, tagged_all, untagged_all, with_links, with_tag, without_links, without_orphan};
use crate::text::ascii_lowered;

verus! {

/// Whether a tag has the id, and the name in whatever case.
pub open spec fn is_called(tags: Seq<TagRec>, id: i64, name: Seq<char>) -> bool {
    exists|k: int| 0 <= k < tags.len() && (#[trigger] tags[k]).id == id && same_letters(tags[k].name, name)
}

/// Whether the id of a tag is left.
pub open spec fn id_left(tags: Seq<TagRec>) -> bool {
    tags.len() == 0 || tags.last().id < i64::MAX
}

proof fn lemma_named(t: TagRec, name: Seq<char>)
    ensures
        named(t, name) <==> same_letters(t.name, name),
{
    law_small_letters(t.name, name);
}

proof fn lemma_tag_id(t: Tables, name: Seq<char>)
    ensures
        match tag_id(t, name) {
            Some(id) => is_called(t.tags, id, name),
            None => forall|id: i64| !is_called(t.tags, id, name),
        },
        t.wf() ==> forall|a: i64, b: i64| #[trigger]
            is_called(t.tags, a, name) && #[trigger] is_called(t.tags, b, name) ==> a == b,
{
    assert forall|k: int| 0 <= k < t.tags.len() implies (named(#[trigger] t.tags[k], name) <==> same_letters(
        t.tags[k].name,
        name,
    )) by {
        lemma_named(t.tags[k], name);
    }
    if tag_id(t, name) is Some {
        let k = choose|k: int| named_at(t, name, k);
        assert(named_at(t, name, k));
        assert(t.tags[k].id == tag_id(t, name)->0);
    } else {
        assert forall|id: i64| !is_called(t.tags, id, name) by {
            if is_called(t.tags, id, name) {
                let k = choose|k: int|
                    0 <= k < t.tags.len() && (#[trigger] t.tags[k]).id == id && same_letters(t.tags[k].name, name);
                assert(named_at(t, name, k));
            }
        }
    }
    if t.wf() {
        assert forall|a: i64, b: i64| #[trigger] is_called(t.tags, a, name) && #[trigger] is_called(t.tags, b, name) implies a
            == b by {
            let k = choose|k: int|
                0 <= k < t.tags.len() && (#[trigger] t.tags[k]).id == a && same_letters(t.tags[k].name, name);
            let l = choose|l: int|
                0 <= l < t.tags.len() && (#[trigger] t.tags[l]).id == b && same_letters(t.tags[l].name, name);
            law_small_letters(t.tags[k].name, name);
            law_small_letters(t.tags[l].name, name);
            if k < l {
                assert(!crate::order::same_nocase(t.tags[k].name, t.tags[l].name));
            } else if l < k {
                assert(!crate::order::same_nocase(t.tags[l].name, t.tags[k].name));
            }
        }
    }
}

proof fn lemma_with_links(t: Tables, ids: Seq<i64>, tag: i64, n: int)
    requires
        0 <= n <= ids.len(),
    ensures
        with_links(t, ids, tag, n).files == t.files,
        with_links(t, ids, tag, n).tags == t.tags,
        forall|f: i64, x: i64| #[trigger]
            with_links(t, ids, tag, n).links.contains((f, x)) <==> t.links.contains((f, x)) || (x == tag
                && ids.take(n).contains(f) && has_file(t.files, f)),
    decreases n,
{
    if n > 0 {
        lemma_with_links(t, ids, tag, n - 1);
        let was = ids.take(n - 1);
        let now = ids.take(n);
        assert(now =~= was.push(ids[n - 1]));
        assert forall|f: i64| #[trigger] now.contains(f) <==> was.contains(f) || f == ids[n - 1] by {
            crate::order::lemma_push_contains(was, ids[n - 1], f);
        }
        assert forall|f: i64, x: i64| #[trigger]
            with_links(t, ids, tag, n).links.contains((f, x)) <==> t.links.contains((f, x)) || (x == tag && now.contains(f)
                && has_file(t.files, f)) by {
            let before = with_links(t, ids, tag, n - 1);
            assert(before.links.contains((f, x)) <==> t.links.contains((f, x)) || (x == tag && was.contains(f)
                && has_file(t.files, f)));
            assert(now.contains(f) <==> was.contains(f) || f == ids[n - 1]);
        }
    } else {
        assert(ids.take(0) =~= Seq::empty());
    }
}

proof fn lemma_without_links(t: Tables, ids: Seq<i64>, tag: i64, n: int)
    requires
        0 <= n <= ids.len(),
    ensures
        without_links(t, ids, tag, n).files == t.files,
        without_links(t, ids, tag, n).tags == t.tags,
        forall|f: i64, x: i64| #[trigger]
            without_links(t, ids, tag, n).links.contains((f, x)) <==> t.links.contains((f, x)) && !(x == tag
                && ids.take(n).contains(f)),
    decreases n,
{
    if n > 0 {
        lemma_without_links(t, ids, tag, n - 1);
        let was = ids.take(n - 1);
        let now = ids.take(n);
        assert(now =~= was.push(ids[n - 1]));
        assert forall|f: i64, x: i64| #[trigger]
            without_links(t, ids, tag, n).links.contains((f, x)) <==> t.links.contains((f, x)) && !(x == tag
                && now.contains(f)) by {
            crate::order::lemma_push_contains(was, ids[n - 1], f);
            let before = without_links(t, ids, tag, n - 1);
            assert(before.links.contains((f, x)) <==> t.links.contains((f, x)) && !(x == tag && was.contains(f)));
        }
    } else {
        assert(ids.take(0) =~= Seq::empty());
    }
}

/// To tag files by name gives the tag of that name to those of them that there are, and
/// changes nothing else. Where no tag has the name in whatever case, one is made, with
/// the name as it is written.
pub proof fn law_tagging_gives_the_tag_to_the_files(
    t: Tables,
    ids: Seq<i64>,
    name: Seq<char>,
    now: i64,
)
    requires
        t.wf(),
        id_left(t.tags),
    ensures
        ({
            let r = tagged_all(t, ids, name, now);
            &&& r.files == t.files
            &&& (exists|tag: i64| is_called(t.tags, tag, name)) ==> r.tags == t.tags
            &&& !(exists|tag: i64| is_called(t.tags, tag, name)) ==> r.tags.len() == t.tags.len() + 1 && r.tags.take(
                t.tags.len() as int,
            ) == t.tags && r.tags.last().name == name && r.tags.last().created_at == now && !has_tag(
                t.tags,
                r.tags.last().id,
            )
            &&& forall|f: i64, x: i64| #[trigger]
                r.links.contains((f, x)) <==> t.links.contains((f, x)) || (is_called(r.tags, x, name) && ids.contains(f)
                    && has_file(t.files, f))
        }),
{
    lemma_tag_id(t, name);
    let r = tagged_all(t, ids, name, now);
    let (made, tag) = with_tag(t, name, now);
    if tag_id(t, name) is Some {
        assert(is_called(t.tags, tag_id(t, name)->0, name));
    }
    let x = tag->0;
    lemma_with_links(made, ids, x, ids.len() as int);
    assert(ids.take(ids.len() as int) =~= ids);
    assert forall|y: i64| is_called(made.tags, y, name) <==> y == x by {
        if tag_id(t, name) is None {
            let last = made.tags.len() - 1;
            law_small_letters(name, name);
            assert(made.tags[last].id == x && made.tags[last].name == name);
            if is_called(made.tags, y, name) {
                let k = choose|k: int|
                    0 <= k < made.tags.len() && (#[trigger] made.tags[k]).id == y && same_letters(
                        made.tags[k].name,
                        name,
                    );
                if k < last {
                    assert(t.tags[k] == made.tags[k]);
                    assert(is_called(t.tags, y, name));
                }
            }
        }
    }
    if tag_id(t, name) is None {
        assert(made.tags.take(t.tags.len() as int) =~= t.tags);
        law_new_tags_have_new_ids(t.tags, x);
    }
}

/// The id of a new tag is greater than all others.
pub proof fn law_new_tags_have_new_ids(tags: Seq<TagRec>, id: i64)
    requires
        tag_ids_grow(tags),
        next_tag_id(tags) == id,
    ensures
        forall|k: int| 0 <= k < tags.len() ==> (#[trigger] tags[k]).id < id,
        !has_tag(tags, id),
{
    assert forall|k: int| 0 <= k < tags.len() implies (#[trigger] tags[k]).id < id by {
        if k < tags.len() - 1 {
            assert(tags[k].id < tags[tags.len() - 1].id);
        }
    }
}

proof fn lemma_without_orphan(t: Tables, tag: i64)
    ensures
        ({
            let r = without_orphan(t, tag);
            &&& r.files == t.files
            &&& r.links == t.links
            &&& forall|g: TagRec| #[trigger]
                r.tags.contains(g) <==> t.tags.contains(g) && (g.id != tag || exists|f: i64| #[trigger]
                    t.links.contains((f, tag)))
        }),
{
    lemma_filter_from(t.tags, |g: TagRec| g.id != tag);
}

/// To take a tag off files by name takes it off them, and off no others. Where no file
/// has it any more, the tag is gone; every other tag stays.
pub proof fn law_untagging_takes_the_tag_off_the_files(t: Tables, ids: Seq<i64>, name: Seq<char>)
    requires
        t.wf(),
    ensures
        ({
            let r = untagged_all(t, ids, name);
            &&& r.files == t.files
            &&& forall|f: i64, x: i64| #[trigger]
                r.links.contains((f, x)) <==> t.links.contains((f, x)) && !(is_called(t.tags, x, name) && ids.contains(
                    f,
                ))
            &&& forall|g: TagRec| #[trigger]
                r.tags.contains(g) <==> t.tags.contains(g) && (!same_letters(g.name, name) || exists|f: i64|
                    #[trigger] r.links.contains((f, g.id)))
        }),
{
    lemma_tag_id(t, name);
    let r = untagged_all(t, ids, name);
    assert forall|g: TagRec| t.tags.contains(g) && same_letters(g.name, name) implies is_called(t.tags, g.id, name) by {
        let k = choose|k: int| 0 <= k < t.tags.len() && t.tags[k] == g;
        assert(t.tags[k].id == g.id);
    }
    match tag_id(t, name) {
        Some(tag) => {
            let u = without_links(t, ids, tag, ids.len() as int);
            lemma_without_links(t, ids, tag, ids.len() as int);
            assert(ids.take(ids.len() as int) =~= ids);
            lemma_without_orphan(u, tag);
            assert(is_called(t.tags, tag, name));
            assert forall|x: i64| is_called(t.tags, x, name) <==> x == tag by {}
            let c = choose|k: int|
                0 <= k < t.tags.len() && (#[trigger] t.tags[k]).id == tag && same_letters(t.tags[k].name, name);
            assert forall|g: TagRec| t.tags.contains(g) && g.id == tag implies same_letters(g.name, name) by {
                let k = choose|k: int| 0 <= k < t.tags.len() && t.tags[k] == g;
                if k < c {
                    assert(t.tags[k].id < t.tags[c].id);
                } else if c < k {
                    assert(t.tags[c].id < t.tags[k].id);
                }
            }
        },
        None => {},
    }
}

/// To take a tag off a file leaves all other pairs of a file and a tag. The tag is gone
/// where no file has it any more, and no other tag is.
pub proof fn law_taking_a_tag_off_a_file(t: Tables, file: i64, tag: i64)
    ensures
        ({
            let r = without_orphan(without_links(t, seq![file], tag, 1), tag);
            &&& r.files == t.files
            &&& forall|f: i64, x: i64| #[trigger]
                r.links.contains((f, x)) <==> t.links.contains((f, x)) && !(f == file && x == tag)
            &&& forall|g: TagRec| #[trigger]
                r.tags.contains(g) <==> t.tags.contains(g) && (g.id != tag || exists|f: i64| #[trigger]
                    r.links.contains((f, tag)))
        }),
{
    let ids = seq![file];
    lemma_without_links(t, ids, tag, 1);
    assert(ids.take(1) =~= ids);
    assert forall|f: i64| ids.contains(f) <==> f == file by {
        assert(ids[0] == file);
    }
    lemma_without_orphan(without_links(t, ids, tag, 1), tag);
}

/// Tags are listed by name, each once, without regard to case.
pub proof fn law_tags_are_listed_by_name(tags: Seq<TagRec>)
    ensures
        by_name(tags).len() == tags.len(),
        forall|g: TagRec| #[trigger] by_name(tags).contains(g) <==> tags.contains(g),
        forall|i: int, j: int|
            0 <= i < j < by_name(tags).len() ==> !text_lt(
                ascii_lowered((#[trigger] by_name(tags)[j]).name),
                ascii_lowered((#[trigger] by_name(tags)[i]).name),
            ),
{
    let keys = tags.map_values(|t: TagRec| ascii_lowered(t.name));
    let p = text_order(keys);
    let lt = key_lt(keys);
    let out = by_name(tags);
    lemma_text_order(keys);
    assert forall|g: TagRec| #[trigger] out.contains(g) <==> tags.contains(g) by {
        if out.contains(g) {
            let k = choose|k: int| 0 <= k < out.len() && out[k] == g;
            assert(p.contains(p[k]));
            assert(tags[p[k]] == g);
        }
        if tags.contains(g) {
            let i = choose|i: int| 0 <= i < tags.len() && tags[i] == g;
            assert(p.contains(i));
            let k = choose|k: int| 0 <= k < p.len() && p[k] == i;
            assert(out[k] == g);
        }
    }
    assert forall|i: int, j: int| 0 <= i < j < out.len() implies !text_lt(
        ascii_lowered((#[trigger] out[j]).name),
        ascii_lowered((#[trigger] out[i]).name),
    ) by {
        assert(lt(p[i], p[j]));
        assert(p.contains(p[i]) && p.contains(p[j]));
        crate::order::lemma_text_lt_weak(keys[p[i]], keys[p[j]], keys[p[i]]);
    }
}

/// A file has the tags that it is paired with, and no others.
pub proof fn law_file_has_its_tags(t: Tables, file: i64, g: TagRec)
    ensures
        by_name(tags_of(t, file)).contains(g) <==> t.tags.contains(g) && t.links.contains((file, g.id)),
{
    lemma_filter_from(t.tags, |r: TagRec| t.links.contains((file, r.id)));
    law_tags_are_listed_by_name(tags_of(t, file));
}

/// A tag that is taken out is gone, and no file has it; other tags, and what has them,
/// stay.
pub proof fn law_deleted_tag_is_gone(t: Tables, id: i64)
    ensures
        forall|g: TagRec| #[trigger] other_tags(t.tags, id).contains(g) <==> t.tags.contains(g) && g.id != id,
        forall|f: i64, x: i64| #[trigger]
            without_tag(t.links, id).contains((f, x)) <==> t.links.contains((f, x)) && x != id,
{
    lemma_filter_from(t.tags, |g: TagRec| g.id != id);
}

/// A tag with another name is the same tag; no other tag changes.
pub proof fn law_renamed_tag_is_the_same(tags: Seq<TagRec>, id: i64, name: Seq<char>, k: int)
    requires
        0 <= k < tags.len(),
    ensures
        tag_renamed(tags, id, name).len() == tags.len(),
        tag_renamed(tags, id, name)[k].id == tags[k].id,
        tag_renamed(tags, id, name)[k].created_at == tags[k].created_at,
        tags[k].id == id ==> tag_renamed(tags, id, name)[k].name == name,
        tags[k].id != id ==> tag_renamed(tags, id, name)[k] == tags[k],
{
}

/// A tag is in use where some file has it.
pub proof fn law_tag_in_use(links: Set<(i64, i64)>, file: i64, tag: i64)
    ensures
        links.contains((file, tag)) ==> tag_used(links, tag),
        !tag_used(links, tag) ==> !links.contains((file, tag)),
        !tag_used(without_tag(links, tag), tag),
{
}

} // verus!
