//! Tags, and which file has which.

use vstd::prelude::*;
use super::{by_name, has_file, has_tag, name_taken, named, next_tag_id, other_tags, shown, shown_recs, tag_ids_grow, tag_names_differ, tag_recs, tags_of, without_tag, Db, DbError, Tables, Tag, TagRec, TagRow};
use crate::order::{eq_nocase, positions, same_nocase, sort_texts, sorts};
use crate::text::{ascii_lowered, texts, to_ascii_lower};

verus! {

broadcast use vstd::string::group_string_axioms;

/// The tags after the one with `id` was given a name.
pub open spec fn tag_renamed(tags: Seq<TagRec>, id: i64, name: Seq<char>) -> Seq<TagRec> {
    tags.map_values(
        |t: TagRec|
            if t.id == id {
                TagRec { name, ..t }
            } else {
                t
            },
    )
}

/// Whether a file has the tag.
pub open spec fn tag_used(links: Set<(i64, i64)>, tag: i64) -> bool {
    exists|f: i64| #[trigger] links.contains((f, tag))
}

impl Db {
    /// The position of the tag with an id.
    pub(super) fn find_tag(&self, id: i64) -> (r: Option<usize>)
        ensures
            match r {
                Some(i) => i < self.tags@.len() && self.tags@[i as int].id == id,
                None => !has_tag(self@.tags, id),
            },
    {
        let mut i: usize = 0;
        while i < self.tags.len()
            invariant
                i <= self.tags@.len(),
                forall|k: int| 0 <= k < i ==> (#[trigger] self.tags@[k]).id != id,
            decreases self.tags.len() - i,
        {
            if self.tags[i].id == id {
                return Some(i);
            }
            i += 1;
        }
        assert forall|k: int| 0 <= k < self@.tags.len() implies (#[trigger] self@.tags[k]).id != id by {
            assert(self@.tags[k] == self.tags@[k]@);
        }
        None
    }

    /// The position of the tag with a name, but for the case of ASCII letters.
    fn find_name(&self, name: &str) -> (r: Option<usize>)
        ensures
            match r {
                Some(i) => i < self.tags@.len() && named(self.tags@[i as int]@, name@),
                None => forall|k: int| 0 <= k < self@.tags.len() ==> !named(#[trigger] self@.tags[k], name@),
            },
    {
        let mut i: usize = 0;
        while i < self.tags.len()
            invariant
                i <= self.tags@.len(),
                forall|k: int| 0 <= k < i ==> !named((#[trigger] self.tags@[k])@, name@),
            decreases self.tags.len() - i,
        {
            if eq_nocase(self.tags[i].name.as_str(), name) {
                return Some(i);
            }
            i += 1;
        }
        assert forall|k: int| 0 <= k < self@.tags.len() implies !named(#[trigger] self@.tags[k], name@) by {
            assert(self@.tags[k] == self.tags@[k]@);
        }
        None
    }

    /// The id of the tag with a name, but for the case of ASCII letters.
    pub fn find_tag_named(&self, name: &str) -> (r: Option<i64>)
        ensures
            match r {
                Some(id) => exists|k: int|
                    0 <= k < self@.tags.len() && named(#[trigger] self@.tags[k], name@) && self@.tags[k].id == id,
                None => forall|k: int| 0 <= k < self@.tags.len() ==> !named(#[trigger] self@.tags[k], name@),
            },
    {
        match self.find_name(name) {
            Some(i) => {
                assert(self@.tags[i as int] == self.tags@[i as int]@);
                Some(self.tags[i].id)
            },
            None => None,
        }
    }

    /// Makes a tag, or finds the one that has the name already.
    pub fn create_tag(&mut self, name: &str, now: i64) -> (r: Result<i64, DbError>)
        requires
            old(self).wf(),
        ensures
            final(self).wf(),
            match r {
                Ok(id) => if exists|k: int|
                    0 <= k < old(self)@.tags.len() && named(#[trigger] old(self)@.tags[k], name@) {
                    final(self)@ == old(self)@ && exists|k: int|
                        0 <= k < old(self)@.tags.len() && named(#[trigger] old(self)@.tags[k], name@)
                            && old(self)@.tags[k].id == id
                } else {
                    id == next_tag_id(old(self)@.tags) && final(self)@ == (Tables {
                        tags: old(self)@.tags.push(TagRec { id, name: name@, created_at: now }),
                        ..old(self)@
                    })
                },
                Err(e) => e == DbError::IdsExhausted && final(self)@ == old(self)@
                    && next_tag_id(old(self)@.tags) > i64::MAX && forall|k: int|
                    0 <= k < old(self)@.tags.len() ==> !named(#[trigger] old(self)@.tags[k], name@),
            },
    {
        match self.find_name(name) {
            Some(i) => {
                assert(self@.tags[i as int] == self.tags@[i as int]@);
                Ok(self.tags[i].id)
            },
            None => {
                let n: usize = self.tags.len();
                let id: i64 = if n == 0 {
                    1
                } else {
                    assert(self@.tags.last() == self.tags@[n - 1]@);
                    let last: i64 = self.tags[n - 1].id;
                    if last == i64::MAX {
                        return Err(DbError::IdsExhausted);
                    }
                    last + 1
                };
                let ghost before = self@;
                let row = TagRow { id, name: name.to_string(), created_at: now };
                let ghost rec = row@;
                self.tags.push(row);
                proof {
                    assert(self@.tags =~= before.tags.push(rec));
                    lemma_push_tag(before.tags, rec);
                    assert forall|f: i64, t: i64| #[trigger] self@.links.contains((f, t)) implies has_file(
                        self@.files,
                        f,
                    ) && has_tag(self@.tags, t) by {
                        assert(before.links.contains((f, t)));
                    }
                }
                Ok(id)
            },
        }
    }

    /// Gives a tag another name; a tag that is not there stays so.
    pub fn rename_tag(&mut self, id: i64, new_name: &str) -> (r: Result<(), DbError>)
        requires
            old(self).wf(),
        ensures
            final(self).wf(),
            match r {
                Ok(()) => !(has_tag(old(self)@.tags, id) && name_taken(old(self)@.tags, new_name@, id))
                    && final(self)@ == (Tables {
                    tags: tag_renamed(old(self)@.tags, id, new_name@),
                    ..old(self)@
                }),
                Err(e) => e == DbError::Conflict && has_tag(old(self)@.tags, id) && name_taken(
                    old(self)@.tags,
                    new_name@,
                    id,
                ) && final(self)@ == old(self)@,
            },
    {
        let ghost before = self@;
        match self.find_tag(id) {
            None => {
                assert(tag_renamed(before.tags, id, new_name@) =~= before.tags);
                Ok(())
            },
            Some(at) => {
                assert(self@.tags[at as int] == self.tags@[at as int]@);
                let mut i: usize = 0;
                while i < self.tags.len()
                    invariant
                        i <= self.tags@.len(),
                        self@ == before,
                        self.wf(),
                        before == old(self)@,
                        has_tag(before.tags, id),
                        *self == *old(self),
                        forall|k: int|
                            0 <= k < i && self.tags@[k].id != id ==> !named(
                                (#[trigger] self.tags@[k])@,
                                new_name@,
                            ),
                    decreases self.tags.len() - i,
                {
                    if self.tags[i].id != id && eq_nocase(self.tags[i].name.as_str(), new_name) {
                        assert(before.tags[i as int] == self.tags@[i as int]@);
                        return Err(DbError::Conflict);
                    }
                    i += 1;
                }
                assert forall|k: int|
                    0 <= k < before.tags.len() && before.tags[k].id != id implies !named(
                    #[trigger] before.tags[k],
                    new_name@,
                ) by {
                    assert(before.tags[k] == self.tags@[k]@);
                }
                assert(before.tags[at as int].id == id);
                self.tags[at].name = new_name.to_string();
                proof {
                    let now = tag_renamed(before.tags, id, new_name@);
                    assert(self@.tags =~= now) by {
                        assert forall|k: int| 0 <= k < now.len() implies self@.tags[k] == now[k] by {
                            assert(before.tags[k] == old(self).tags@[k]@);
                            assert(k != at ==> before.tags[k].id != id);
                        }
                    }
                    lemma_renamed(before.tags, id, new_name@);
                    assert forall|f: i64, t: i64| #[trigger] self@.links.contains((f, t)) implies has_file(
                        self@.files,
                        f,
                    ) && has_tag(self@.tags, t) by {
                        assert(before.links.contains((f, t)));
                    }
                }
                Ok(())
            },
        }
    }

    /// Whether a pair is there.
    fn linked(&self, file: i64, tag: i64) -> (r: bool)
        ensures
            r == self@.links.contains((file, tag)),
    {
        let mut i: usize = 0;
        while i < self.links.len()
            invariant
                i <= self.links@.len(),
                forall|k: int| 0 <= k < i ==> #[trigger] self.links@[k] != (file, tag),
            decreases self.links.len() - i,
        {
            if self.links[i].0 == file && self.links[i].1 == tag {
                assert(self.links@[i as int] == (file, tag));
                return true;
            }
            i += 1;
        }
        false
    }

    /// Takes out the pairs of a tag, or the one of a tag and a file.
    fn drop_links(&mut self, tag: i64, only: Option<i64>)
        requires
            old(self).wf(),
        ensures
            final(self).links@.no_duplicates(),
            final(self).files == old(self).files,
            final(self).tags == old(self).tags,
            final(self)@.links == old(self)@.links.filter(
                |l: (i64, i64)| !(l.1 == tag && (only is None || only == Some(l.0))),
            ),
    {
        let ghost gone = |l: (i64, i64)| l.1 == tag && (only is None || only == Some(l.0));
        let mut kept: Vec<(i64, i64)> = Vec::new();
        let mut i: usize = 0;
        while i < self.links.len()
            invariant
                i <= self.links@.len(),
                *self == *old(self),
                self.links@.no_duplicates(),
                gone == (|l: (i64, i64)| l.1 == tag && (only is None || only == Some(l.0))),
                kept@.no_duplicates(),
                forall|k: int|
                    0 <= k < kept@.len() ==> exists|j: int|
                        0 <= j < i && #[trigger] self.links@[j] == #[trigger] kept@[k] && !gone(kept@[k]),
                forall|j: int|
                    0 <= j < i && !gone(#[trigger] self.links@[j]) ==> kept@.contains(self.links@[j]),
            decreases self.links.len() - i,
        {
            let l = self.links[i];
            let hit = l.1 == tag && match only {
                None => true,
                Some(f) => l.0 == f,
            };
            let ghost kept0 = kept@;
            if !hit {
                kept.push(l);
                proof {
                    assert(kept@[kept0.len() as int] == l);
                    assert forall|j: int| 0 <= j < i + 1 && !gone(#[trigger] self.links@[j]) implies kept@.contains(
                        self.links@[j],
                    ) by {
                        if j < i {
                            let k = choose|k: int| 0 <= k < kept0.len() && kept0[k] == self.links@[j];
                            assert(kept@[k] == self.links@[j]);
                        }
                    }
                    assert forall|k: int| 0 <= k < kept@.len() implies exists|j: int|
                        0 <= j < i + 1 && #[trigger] self.links@[j] == #[trigger] kept@[k] && !gone(kept@[k]) by {
                        if k < kept0.len() {
                            assert(kept@[k] == kept0[k]);
                        } else {
                            assert(self.links@[i as int] == kept@[k]);
                        }
                    }
                }
            }
            i += 1;
        }
        let ghost was = self.links@;
        self.links = kept;
        proof {
            let want = was.to_set().filter(|l: (i64, i64)| !(l.1 == tag && (only is None || only == Some(l.0))));
            assert forall|l: (i64, i64)| self.links@.to_set().contains(l) == want.contains(l) by {
                if want.contains(l) {
                    let j = choose|j: int| 0 <= j < was.len() && was[j] == l;
                    assert(!gone(was[j]));
                }
            }
            assert(self.links@.to_set() =~= want);
        }
    }

    /// Takes the tag at a position out of the table.
    fn drop_tag(&mut self, at: usize)
        requires
            old(self).wf(),
            at < old(self).tags@.len(),
        ensures
            final(self).files == old(self).files,
            final(self).links == old(self).links,
            final(self)@.tags == other_tags(old(self)@.tags, old(self).tags@[at as int].id),
            tag_ids_grow(final(self)@.tags),
            tag_names_differ(final(self)@.tags),
            forall|t: i64|
                t != old(self).tags@[at as int].id && has_tag(old(self)@.tags, t) ==> has_tag(final(self)@.tags, t),
    {
        let ghost before = self@.tags;
        let ghost id = self.tags@[at as int].id;
        assert(before[at as int] == self.tags@[at as int]@);
        let gone = self.tags.remove(at);
        proof {
            lemma_without(before, at as int);
            assert(self@.tags =~= before.remove(at as int));
        }
    }

    /// Takes a tag out, and with it the pairs that speak of it.
    pub fn delete_tag(&mut self, id: i64)
        requires
            old(self).wf(),
        ensures
            final(self).wf(),
            final(self)@ == (Tables {
                tags: other_tags(old(self)@.tags, id),
                links: without_tag(old(self)@.links, id),
                ..old(self)@
            }),
    {
        let ghost before = self@;
        match self.find_tag(id) {
            None => {
                proof {
                    lemma_keep_all(before.tags, id);
                    assert forall|l: (i64, i64)| #[trigger] before.links.contains(l) implies l.1 != id by {
                        assert(before.links.contains((l.0, l.1)));
                    }
                    assert(without_tag(before.links, id) =~= before.links);
                }
            },
            Some(at) => {
                self.drop_links(id, None);
                assert(self@.links =~= without_tag(before.links, id));
                assert(self@.tags == before.tags);
                proof {
                    assert forall|f: i64, t: i64| #[trigger] self@.links.contains((f, t)) implies has_file(
                        self@.files,
                        f,
                    ) && has_tag(self@.tags, t) by {
                        assert(before.links.contains((f, t)));
                    }
                }
                let ghost mid = self@;
                self.drop_tag(at);
                proof {
                    assert forall|f: i64, t: i64| #[trigger] self@.links.contains((f, t)) implies has_file(
                        self@.files,
                        f,
                    ) && has_tag(self@.tags, t) by {
                        assert(mid.links.contains((f, t)));
                        assert(without_tag(before.links, id).contains((f, t)));
                    }
                }
            },
        }
    }

    /// Gives a file a tag; that it has it already is no error.
    pub fn assign_tag(&mut self, file_id: i64, tag_id: i64) -> (r: Result<(), DbError>)
        requires
            old(self).wf(),
        ensures
            final(self).wf(),
            match r {
                Ok(()) => has_file(old(self)@.files, file_id) && has_tag(old(self)@.tags, tag_id)
                    && final(self)@ == (Tables {
                    links: old(self)@.links.insert((file_id, tag_id)),
                    ..old(self)@
                }),
                Err(e) => e == DbError::NoSuchRow && !(has_file(old(self)@.files, file_id) && has_tag(
                    old(self)@.tags,
                    tag_id,
                )) && final(self)@ == old(self)@,
            },
    {
        let ghost before = self@;
        match self.find(file_id) {
            None => {
                return Err(DbError::NoSuchRow);
            },
            Some(i) => {
                assert(before.files[i as int] == self.files@[i as int]@);
            },
        }
        match self.find_tag(tag_id) {
            None => {
                return Err(DbError::NoSuchRow);
            },
            Some(i) => {
                assert(before.tags[i as int] == self.tags@[i as int]@);
            },
        }
        if self.linked(file_id, tag_id) {
            assert(before.links.insert((file_id, tag_id)) =~= before.links);
            return Ok(());
        }
        let ghost was = self.links@;
        self.links.push((file_id, tag_id));
        proof {
            assert(self.links@.to_set() =~= was.to_set().insert((file_id, tag_id))) by {
                assert forall|l: (i64, i64)| self.links@.to_set().contains(l) == was.to_set().insert(
                    (file_id, tag_id),
                ).contains(l) by {
                    if was.to_set().contains(l) {
                        let k = choose|k: int| 0 <= k < was.len() && was[k] == l;
                        assert(self.links@[k] == l);
                    }
                    assert(self.links@[was.len() as int] == (file_id, tag_id));
                }
            }
            assert(!was.contains((file_id, tag_id)));
            assert forall|f: i64, t: i64| #[trigger] self@.links.contains((f, t)) implies has_file(
                self@.files,
                f,
            ) && has_tag(self@.tags, t) by {
                if (f, t) != (file_id, tag_id) {
                    assert(before.links.contains((f, t)));
                }
            }
        }
        Ok(())
    }

    /// Takes a tag off a file.
    pub fn unassign_tag(&mut self, file_id: i64, tag_id: i64)
        requires
            old(self).wf(),
        ensures
            final(self).wf(),
            final(self)@ == (Tables { links: old(self)@.links.remove((file_id, tag_id)), ..old(self)@ }),
    {
        let ghost before = self@;
        self.drop_links(tag_id, Some(file_id));
        proof {
            assert(self@.links =~= before.links.remove((file_id, tag_id)));
            assert forall|f: i64, t: i64| #[trigger] self@.links.contains((f, t)) implies has_file(
                self@.files,
                f,
            ) && has_tag(self@.tags, t) by {
                assert(before.links.contains((f, t)));
            }
        }
    }

    /// Takes a tag out when no file has it. A file that is marked as deleted
    /// still has its tags. Says whether the tag was there and is gone.
    pub fn delete_tag_if_orphan(&mut self, tag_id: i64) -> (r: bool)
        requires
            old(self).wf(),
        ensures
            final(self).wf(),
            r == (has_tag(old(self)@.tags, tag_id) && !tag_used(old(self)@.links, tag_id)),
            final(self)@ == if r {
                Tables { tags: other_tags(old(self)@.tags, tag_id), ..old(self)@ }
            } else {
                old(self)@
            },
    {
        let ghost before = self@;
        let at = match self.find_tag(tag_id) {
            None => {
                return false;
            },
            Some(i) => i,
        };
        assert(before.tags[at as int] == self.tags@[at as int]@);
        let mut i: usize = 0;
        while i < self.links.len()
            invariant
                i <= self.links@.len(),
                *self == *old(self),
                self.wf(),
                before == self@,
                forall|k: int| 0 <= k < i ==> (#[trigger] self.links@[k]).1 != tag_id,
            decreases self.links.len() - i,
        {
            if self.links[i].1 == tag_id {
                assert(before.links.contains((self.links@[i as int].0, tag_id)));
                return false;
            }
            i += 1;
        }
        proof {
            assert forall|f: i64| !(#[trigger] before.links.contains((f, tag_id))) by {
                if before.links.contains((f, tag_id)) {
                    let k = choose|k: int| 0 <= k < self.links@.len() && self.links@[k] == (f, tag_id);
                    assert(self.links@[k].1 == tag_id);
                }
            }
        }
        self.drop_tag(at);
        proof {
            assert forall|f: i64, t: i64| #[trigger] self@.links.contains((f, t)) implies has_file(
                self@.files,
                f,
            ) && has_tag(self@.tags, t) by {
                assert(before.links.contains((f, t)));
            }
        }
        true
    }

    /// Tags in the order of their names.
    fn sorted_tags(&self, at: &Vec<usize>) -> (r: Vec<Tag>)
        requires
            forall|k: int| 0 <= k < at@.len() ==> #[trigger] at@[k] < self.tags@.len(),
        ensures
            shown(r@) == shown_recs(by_name(at@.map_values(|i: usize| self.tags@[i as int]@))),
    {
        let ghost recs = at@.map_values(|i: usize| self.tags@[i as int]@);
        let mut keys: Vec<String> = Vec::new();
        let mut i: usize = 0;
        while i < at.len()
            invariant
                i <= at@.len(),
                keys@.len() == i,
                recs == at@.map_values(|i: usize| self.tags@[i as int]@),
                forall|k: int| 0 <= k < at@.len() ==> #[trigger] at@[k] < self.tags@.len(),
                forall|k: int| 0 <= k < i ==> (#[trigger] keys@[k])@ == ascii_lowered(recs[k].name),
            decreases at.len() - i,
        {
            keys.push(to_ascii_lower(self.tags[at[i]].name.as_str()));
            i += 1;
        }
        let ghost names = recs.map_values(|t: TagRec| ascii_lowered(t.name));
        assert(texts(keys@) =~= names);
        let order = sort_texts(&keys);
        let mut out: Vec<Tag> = Vec::new();
        let mut j: usize = 0;
        while j < order.len()
            invariant
                j <= order@.len(),
                out@.len() == j,
                recs == at@.map_values(|i: usize| self.tags@[i as int]@),
                names == recs.map_values(|t: TagRec| ascii_lowered(t.name)),
                forall|k: int| 0 <= k < at@.len() ==> #[trigger] at@[k] < self.tags@.len(),
                sorts(names, positions(order@)),
                forall|k: int|
                    0 <= k < j ==> (#[trigger] out@[k]).id == recs[order@[k] as int].id && out@[k].name@
                        == recs[order@[k] as int].name,
            decreases order.len() - j,
        {
            assert(positions(order@)[j as int] == order@[j as int]);
            assert(positions(order@).contains(order@[j as int] as int));
            let t = &self.tags[at[order[j]]];
            out.push(Tag { id: t.id, name: t.name.clone() });
            j += 1;
        }
        assert(shown(out@) =~= shown_recs(by_name(recs)));
        out
    }

    /// The tags by name, without regard to the case of ASCII letters.
    pub fn list_tags(&self) -> (r: Vec<Tag>)
        ensures
            shown(r@) == shown_recs(by_name(self@.tags)),
    {
        let mut at: Vec<usize> = Vec::new();
        let mut i: usize = 0;
        while i < self.tags.len()
            invariant
                i <= self.tags@.len(),
                at@.len() == i,
                forall|k: int| 0 <= k < i ==> #[trigger] at@[k] == k,
            decreases self.tags.len() - i,
        {
            at.push(i);
            i += 1;
        }
        assert(at@.map_values(|i: usize| self.tags@[i as int]@) =~= self@.tags);
        self.sorted_tags(&at)
    }

    /// The tags of a file by name, without regard to the case of ASCII letters.
    pub fn tags_for_file(&self, file_id: i64) -> (r: Vec<Tag>)
        ensures
            shown(r@) == shown_recs(by_name(tags_of(self@, file_id))),
    {
        let ghost recs = tag_recs(self.tags@);
        let ghost keep = |r: TagRec| self@.links.contains((file_id, r.id));
        let ghost rec_at = |i: usize| self.tags@[i as int]@;
        let mut at: Vec<usize> = Vec::new();
        let mut i: usize = 0;
        proof {
            reveal(Seq::filter);
        }
        assert(at@.map_values(rec_at) =~= recs.take(0).filter(keep));
        while i < self.tags.len()
            invariant
                i <= self.tags@.len(),
                recs == tag_recs(self.tags@),
                keep == (|r: TagRec| self@.links.contains((file_id, r.id))),
                rec_at == (|i: usize| self.tags@[i as int]@),
                forall|k: int| 0 <= k < at@.len() ==> #[trigger] at@[k] < self.tags@.len(),
                at@.map_values(rec_at) == recs.take(i as int).filter(keep),
            decreases self.tags.len() - i,
        {
            proof {
                reveal(Seq::filter);
                assert(recs.take(i + 1).drop_last() == recs.take(i as int));
                assert(recs.take(i + 1).last() == recs[i as int]);
            }
            if self.linked(file_id, self.tags[i].id) {
                let ghost at0 = at@;
                at.push(i);
                assert(at@.map_values(rec_at) =~= at0.map_values(rec_at).push(recs[i as int]));
            }
            i += 1;
        }
        assert(recs.take(i as int) == recs);
        self.sorted_tags(&at)
    }
}

proof fn lemma_push_tag(tags: Seq<TagRec>, t: TagRec)
    requires
        tag_ids_grow(tags),
        tag_names_differ(tags),
        t.id == next_tag_id(tags),
        forall|k: int| 0 <= k < tags.len() ==> !named(#[trigger] tags[k], t.name),
    ensures
        tag_ids_grow(tags.push(t)),
        tag_names_differ(tags.push(t)),
        forall|id: i64| has_tag(tags, id) ==> has_tag(tags.push(t), id),
{
    let now = tags.push(t);
    assert forall|i: int, j: int| 0 <= i < j < now.len() implies (#[trigger] now[i]).id < (#[trigger] now[j]).id by {
        assert(now[i] == tags[i]);
        if j == tags.len() {
            assert(tags[i].id <= tags.last().id);
        }
    }
    assert forall|i: int, j: int| 0 <= i < j < now.len() implies !same_nocase(
        (#[trigger] now[i]).name,
        (#[trigger] now[j]).name,
    ) by {
        assert(now[i] == tags[i]);
        if j == tags.len() {
            assert(!named(tags[i], t.name));
        }
    }
    assert forall|id: i64| has_tag(tags, id) implies has_tag(now, id) by {
        let k = choose|k: int| 0 <= k < tags.len() && (#[trigger] tags[k]).id == id;
        assert(now[k] == tags[k]);
    }
}

proof fn lemma_renamed(tags: Seq<TagRec>, id: i64, name: Seq<char>)
    requires
        tag_ids_grow(tags),
        tag_names_differ(tags),
        forall|k: int| 0 <= k < tags.len() && tags[k].id != id ==> !named(#[trigger] tags[k], name),
    ensures
        tag_ids_grow(tag_renamed(tags, id, name)),
        tag_names_differ(tag_renamed(tags, id, name)),
        forall|t: i64| has_tag(tags, t) ==> has_tag(tag_renamed(tags, id, name), t),
{
    let now = tag_renamed(tags, id, name);
    assert forall|t: i64| has_tag(tags, t) implies has_tag(now, t) by {
        let k = choose|k: int| 0 <= k < tags.len() && (#[trigger] tags[k]).id == t;
        assert(now[k].id == t);
    }
    assert forall|i: int, j: int| 0 <= i < j < now.len() implies !same_nocase(
        (#[trigger] now[i]).name,
        (#[trigger] now[j]).name,
    ) by {
        assert(tags[i].id < tags[j].id);
        assert(!same_nocase(tags[i].name, tags[j].name));
    }
}

/// Where no tag has the id, to take it out changes nothing.
pub proof fn lemma_keep_all(tags: Seq<TagRec>, id: i64)
    requires
        !has_tag(tags, id),
    ensures
        other_tags(tags, id) == tags,
    decreases tags.len(),
{
    reveal(Seq::filter);
    if tags.len() > 0 {
        let t = tags.drop_last();
        assert(tags.last().id != id) by {
            assert(tags[tags.len() - 1].id != id);
        }
        assert forall|k: int| 0 <= k < t.len() implies (#[trigger] t[k]).id != id by {
            assert(tags[k].id != id);
        }
        lemma_keep_all(t, id);
        assert(t.push(tags.last()) == tags);
    } else {
        assert(other_tags(tags, id) =~= tags);
    }
}

proof fn lemma_without(tags: Seq<TagRec>, at: int)
    requires
        tag_ids_grow(tags),
        tag_names_differ(tags),
        0 <= at < tags.len(),
    ensures
        other_tags(tags, tags[at].id) == tags.remove(at),
        tag_ids_grow(tags.remove(at)),
        tag_names_differ(tags.remove(at)),
        forall|t: i64| t != tags[at].id && has_tag(tags, t) ==> has_tag(tags.remove(at), t),
{
    let id = tags[at].id;
    let keep = |t: TagRec| t.id != id;
    let a = tags.take(at);
    let b = tags.skip(at + 1);
    assert(tags =~= a + seq![tags[at]] + b);
    Seq::filter_distributes_over_add(a + seq![tags[at]], b, keep);
    Seq::filter_distributes_over_add(a, seq![tags[at]], keep);
    assert(!has_tag(a, id)) by {
        assert forall|k: int| 0 <= k < a.len() implies (#[trigger] a[k]).id != id by {
            assert(tags[k].id < tags[at].id);
        }
    }
    assert(!has_tag(b, id)) by {
        assert forall|k: int| 0 <= k < b.len() implies (#[trigger] b[k]).id != id by {
            assert(tags[at].id < tags[at + 1 + k].id);
        }
    }
    lemma_keep_all(a, id);
    lemma_keep_all(b, id);
    assert(seq![tags[at]].filter(keep) == Seq::<TagRec>::empty()) by {
        let one = seq![tags[at]];
        reveal_with_fuel(Seq::filter, 2);
        assert(one.last() == tags[at]);
        assert(one.drop_last() =~= Seq::<TagRec>::empty());
        assert(one.drop_last().filter(keep) =~= Seq::<TagRec>::empty());
    }
    let now = tags.remove(at);
    assert(now =~= a + b);
    assert(other_tags(tags, id) =~= now);
    let from = |k: int| if k < at { k } else { k + 1 };
    assert forall|i: int, j: int| 0 <= i < j < now.len() implies (#[trigger] now[i]).id < (#[trigger] now[j]).id
        && !same_nocase(now[i].name, now[j].name) by {
        assert(now[i] == tags[from(i)] && now[j] == tags[from(j)]);
    }
    assert forall|t: i64| t != id && has_tag(tags, t) implies has_tag(now, t) by {
        let k = choose|k: int| 0 <= k < tags.len() && (#[trigger] tags[k]).id == t;
        if k < at {
            assert(now[k] == tags[k]);
        } else {
            assert(now[k - 1] == tags[k]);
        }
    }
}

} // verus!
