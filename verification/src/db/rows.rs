//! The tables as they come from storage and go back to it.

use vstd::prelude::*;
use vstd::hash_set::StringHashSet;
use super::{file_ids_grow, file_recs, has_file, has_tag, live_paths_differ, tag_ids_grow, tag_names_differ, tag_recs, Db, FileRec, FileRow, Tables, TagRec, TagRow};
use crate::order::{eq_nocase, same_nocase};

verus! {

broadcast use vstd::string::group_string_axioms;

/// Whether a pair comes before another.
pub open spec fn pair_lt(a: (i64, i64), b: (i64, i64)) -> bool {
    a.0 < b.0 || (a.0 == b.0 && a.1 < b.1)
}

/// The pairs grow from one to the next.
pub open spec fn links_grow(links: Seq<(i64, i64)>) -> bool {
    forall|i: int, j: int| 0 <= i < j < links.len() ==> pair_lt(#[trigger] links[i], #[trigger] links[j])
}

/// Whether rows, in the order of their keys, keep the rules of the tables.
pub open spec fn rows_ok(files: Seq<FileRec>, tags: Seq<TagRec>, links: Seq<(i64, i64)>) -> bool {
    links_grow(links) && (Tables { files, tags, links: links.to_set() }).wf()
}

fn ids_ok(files: &Vec<FileRow>) -> (r: bool)
    ensures
        r == file_ids_grow(file_recs(files@)),
{
    let ghost recs = file_recs(files@);
    let mut i: usize = 1;
    while i < files.len()
        invariant
            1 <= i,
            i <= files@.len() || files@.len() == 0,
            recs == file_recs(files@),
            forall|a: int, b: int| 0 <= a < b < i && b < recs.len() ==> (#[trigger] recs[a]).id < (#[trigger] recs[b]).id,
        decreases files.len() - i,
    {
        assert(recs[i as int].id == files@[i as int].id);
        assert(recs[i - 1].id == files@[i - 1].id);
        if files[i - 1].id >= files[i].id {
            return false;
        }
        i += 1;
    }
    true
}

fn tag_ids_ok(tags: &Vec<TagRow>) -> (r: bool)
    ensures
        r == tag_ids_grow(tag_recs(tags@)),
{
    let ghost recs = tag_recs(tags@);
    let mut i: usize = 1;
    while i < tags.len()
        invariant
            1 <= i,
            i <= tags@.len() || tags@.len() == 0,
            recs == tag_recs(tags@),
            forall|a: int, b: int| 0 <= a < b < i && b < recs.len() ==> (#[trigger] recs[a]).id < (#[trigger] recs[b]).id,
        decreases tags.len() - i,
    {
        assert(recs[i as int].id == tags@[i as int].id);
        assert(recs[i - 1].id == tags@[i - 1].id);
        if tags[i - 1].id >= tags[i].id {
            return false;
        }
        i += 1;
    }
    true
}

fn links_ok(links: &Vec<(i64, i64)>) -> (r: bool)
    ensures
        r == links_grow(links@),
{
    let mut i: usize = 1;
    while i < links.len()
        invariant
            1 <= i,
            i <= links@.len() || links@.len() == 0,
            forall|a: int, b: int| 0 <= a < b < i && b < links@.len() ==> pair_lt(#[trigger] links@[a], #[trigger] links@[b]),
        decreases links.len() - i,
    {
        let a = links[i - 1];
        let b = links[i];
        if !(a.0 < b.0 || (a.0 == b.0 && a.1 < b.1)) {
            assert(!pair_lt(links@[i - 1], links@[i as int]));
            return false;
        }
        i += 1;
    }
    true
}

fn paths_ok(files: &Vec<FileRow>) -> (r: bool)
    ensures
        r == live_paths_differ(file_recs(files@)),
{
    let ghost recs = file_recs(files@);
    let mut seen = StringHashSet::new();
    let mut i: usize = 0;
    while i < files.len()
        invariant
            i <= files@.len(),
            recs == file_recs(files@),
            forall|a: int, b: int|
                0 <= a < b < i && !(#[trigger] recs[a]).is_deleted && !(#[trigger] recs[b]).is_deleted
                    ==> recs[a].rel_path != recs[b].rel_path,
            forall|p: Seq<char>| #[trigger] seen@.contains(p) <==> exists|a: int|
                0 <= a < i && !(#[trigger] recs[a]).is_deleted && recs[a].rel_path == p,
        decreases files.len() - i,
    {
        assert(recs[i as int] == files@[i as int]@);
        if !files[i].is_deleted {
            let ghost seen0 = seen@;
            let fresh = seen.insert(files[i].rel_path.clone());
            if !fresh {
                assert(seen0.contains(recs[i as int].rel_path));
                return false;
            }
            assert forall|p: Seq<char>| #[trigger] seen@.contains(p) <==> exists|a: int|
                0 <= a < i + 1 && !(#[trigger] recs[a]).is_deleted && recs[a].rel_path == p by {
                if seen0.contains(p) {
                    let a = choose|a: int| 0 <= a < i && !(#[trigger] recs[a]).is_deleted && recs[a].rel_path == p;
                    assert(!recs[a].is_deleted);
                }
            }
            assert(!seen0.contains(recs[i as int].rel_path));
        }
        i += 1;
    }
    true
}

fn names_ok(tags: &Vec<TagRow>) -> (r: bool)
    ensures
        r == tag_names_differ(tag_recs(tags@)),
{
    let ghost recs = tag_recs(tags@);
    let mut i: usize = 0;
    while i < tags.len()
        invariant
            i <= tags@.len(),
            recs == tag_recs(tags@),
            forall|a: int, b: int|
                0 <= a < b < recs.len() && a < i ==> !same_nocase((#[trigger] recs[a]).name, (#[trigger] recs[b]).name),
        decreases tags.len() - i,
    {
        let mut j: usize = i + 1;
        while j < tags.len()
            invariant
                i < tags@.len(),
                i < j <= tags@.len(),
                recs == tag_recs(tags@),
                forall|b: int| i < b < j ==> !same_nocase(recs[i as int].name, (#[trigger] recs[b]).name),
            decreases tags.len() - j,
        {
            assert(recs[i as int].name == tags@[i as int].name@);
            assert(recs[j as int].name == tags@[j as int].name@);
            if eq_nocase(tags[i].name.as_str(), tags[j].name.as_str()) {
                return false;
            }
            j += 1;
        }
        i += 1;
    }
    true
}

impl Db {
    /// An index with nothing in it.
    pub fn empty() -> (db: Db)
        ensures
            db.wf(),
            db@ == (Tables { files: seq![], tags: seq![], links: set![] }),
    {
        let db = Db { files: Vec::new(), tags: Vec::new(), links: Vec::new() };
        assert(db@ =~= (Tables { files: seq![], tags: seq![], links: set![] }));
        db
    }

    /// The index that rows from storage make; `None` where they break a rule of
    /// the tables. The rows come in the order of their keys.
    pub fn from_rows(files: Vec<FileRow>, tags: Vec<TagRow>, links: Vec<(i64, i64)>) -> (r: Option<Db>)
        ensures
            match r {
                Some(db) => db.wf() && rows_ok(file_recs(files@), tag_recs(tags@), links@) && db@ == (Tables {
                    files: file_recs(files@),
                    tags: tag_recs(tags@),
                    links: links@.to_set(),
                }),
                None => !rows_ok(file_recs(files@), tag_recs(tags@), links@),
            },
    {
        if !ids_ok(&files) || !tag_ids_ok(&tags) || !links_ok(&links) || !paths_ok(&files) || !names_ok(&tags) {
            return None;
        }
        let db = Db { files, tags, links };
        let mut i: usize = 0;
        while i < db.links.len()
            invariant
                i <= db.links@.len(),
                db@ == (Tables { files: file_recs(files@), tags: tag_recs(tags@), links: links@.to_set() }),
                db.links == links,
                file_ids_grow(file_recs(db.files@)),
                forall|k: int|
                    0 <= k < i ==> has_file(db@.files, (#[trigger] db.links@[k]).0) && has_tag(
                        db@.tags,
                        db.links@[k].1,
                    ),
            decreases db.links.len() - i,
        {
            let l = db.links[i];
            assert(links@.contains((l.0, l.1))) by {
                assert(links@[i as int] == (l.0, l.1));
            }
            match db.find(l.0) {
                None => {
                    assert(!has_file(db@.files, l.0));
                    assert(db@.links.contains((l.0, l.1)));
                    assert(!db@.wf());
                    return None;
                },
                Some(k) => {
                    assert(db@.files[k as int] == db.files@[k as int]@);
                },
            }
            match db.find_tag(l.1) {
                None => {
                    assert(db@.links.contains((l.0, l.1)));
                    assert(!db@.wf());
                    return None;
                },
                Some(k) => {
                    assert(db@.tags[k as int] == db.tags@[k as int]@);
                },
            }
            i += 1;
        }
        proof {
            assert forall|f: i64, t: i64| #[trigger] db@.links.contains((f, t)) implies has_file(db@.files, f)
                && has_tag(db@.tags, t) by {
                let k = choose|k: int| 0 <= k < db.links@.len() && db.links@[k] == (f, t);
                assert(db.links@[k].0 == f);
            }
            assert forall|i: int, j: int| 0 <= i < db.links@.len() && 0 <= j < db.links@.len() && i != j implies db.links@[i]
                != db.links@[j] by {
                if i < j {
                    assert(pair_lt(links@[i], links@[j]));
                } else {
                    assert(pair_lt(links@[j], links@[i]));
                }
            }
        }
        Some(db)
    }

    /// The rows of the files.
    pub fn files(&self) -> (r: &Vec<FileRow>)
        ensures
            file_recs(r@) == self@.files,
    {
        &self.files
    }

    /// The rows of the tags.
    pub fn tags(&self) -> (r: &Vec<TagRow>)
        ensures
            tag_recs(r@) == self@.tags,
    {
        &self.tags
    }

    /// The pairs of a file and a tag that it has, each of them once.
    pub fn links(&self) -> (r: &Vec<(i64, i64)>)
        requires
            self.wf(),
        ensures
            r@.to_set() == self@.links,
            r@.no_duplicates(),
    {
        &self.links
    }
}

} // verus!
