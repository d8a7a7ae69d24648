//! The scan: holds what is on disk against the index, and brings the index up to
//! date.
//!
//! A file whose path a live row has is the file of that row. A live row whose
//! path no file has moved with its file, where the file is found under another
//! path, and is marked as deleted where it is not. A file that is left over gets
//! a row.

use vstd::prelude::*;
use vstd::hash_map::StringHashMap;
use vstd::hash_set::StringHashSet;
use crate::db::queue::active_recs;
use crate::db::{as_active, deleted, file_ids_grow, live, live_paths_differ, path_live, ActiveFile, Db, DbError, FileRec};
use crate::media::{classify, kind_of};
use crate::names::{ext_of_name, name_extension, rel_of, rel_path};
use crate::order::{increasing, positions, sort_texts, sorts, text_order};
use crate::seqs::{lemma_filter_from, lemma_filter_increasing, lemma_filter_step};
use crate::text::texts;
pub use self::apply::scan;
use self::rematch::{disk_recs, missing_rec, missing_recs, rematch, DiskFile, DiskRec, MissingRec, MissingRow, Rematch};

pub mod apply;
pub mod laws;
pub mod mirror;
pub mod rematch;
pub mod totals;

verus! {

broadcast use vstd::string::group_string_axioms;

/// What a scan did.
#[derive(Debug, Clone, Copy, PartialEq, Eq, Structural)]
pub struct ScanStats {
    /// Files that got a row.
    pub added: usize,
    /// Files in their place whose size or time is new.
    pub updated: usize,
    /// Rows that moved with their file.
    pub renamed: usize,
    /// Rows that were marked as deleted.
    pub deleted: usize,
    /// Files in their place.
    pub seen: usize,
}

impl Default for ScanStats {
    fn default() -> (r: ScanStats)
        ensures
            r == (ScanStats { added: 0, updated: 0, renamed: 0, deleted: 0, seen: 0 }),
    {
        ScanStats { added: 0, updated: 0, renamed: 0, deleted: 0, seen: 0 }
    }
}

/// A regular file that the walk over the media folder met.
pub struct DiskEntry {
    /// The parts of its path below the media folder; `None` for one that is not
    /// text.
    pub parts: Vec<Option<String>>,
    pub len: u64,
    /// When it was changed, in seconds since 1970, where that is known.
    pub mtime_secs: Option<u64>,
}

/// The media file that an entry of the walk is; `None` for what is not media, and
/// for what has no path in text.
pub open spec fn entry_file(e: DiskEntry, at: int) -> Option<DiskRec> {
    match rel_of(e.parts@) {
        None => None,
        Some(rel) => {
            let name = e.parts@.last()->0@;
            match name_extension(name) {
                None => None,
                Some(ext) => match kind_of(ext) {
                    None => None,
                    Some(media_type) => Some(
                        DiskRec {
                            rel,
                            name,
                            ext,
                            media_type,
                            size: e.len as i64,
                            mtime: match e.mtime_secs {
                                Some(s) => s as i64,
                                None => 0,
                            },
                            source: at as usize,
                        },
                    ),
                },
            }
        },
    }
}

/// The media files among the first `n` entries of the walk.
pub open spec fn found(entries: Seq<DiskEntry>, n: int) -> Seq<DiskRec>
    decreases n,
{
    if n <= 0 {
        Seq::empty()
    } else {
        match entry_file(entries[n - 1], n - 1) {
            Some(f) => found(entries, n - 1).push(f),
            None => found(entries, n - 1),
        }
    }
}

/// The media files of a walk.
pub open spec fn walked(entries: Seq<DiskEntry>) -> Seq<DiskRec> {
    found(entries, entries.len() as int)
}

/// No two files have one path.
pub open spec fn rels_differ(d: Seq<DiskRec>) -> bool {
    increasing(d, |a: DiskRec, b: DiskRec| a.rel != b.rel)
}

/// Whether one of the files has the path.
pub open spec fn met(d: Seq<DiskRec>, path: Seq<char>) -> bool {
    exists|i: int| 0 <= i < d.len() && (#[trigger] d[i]).rel == path
}

/// The file with the path.
pub open spec fn met_as(d: Seq<DiskRec>, path: Seq<char>) -> DiskRec {
    d[choose|i: int| 0 <= i < d.len() && (#[trigger] d[i]).rel == path]
}

/// Whether a live row with the path of the file has another size or time.
pub open spec fn changed(files: Seq<FileRec>, x: DiskRec) -> bool {
    exists|i: int|
        0 <= i < files.len() && !(#[trigger] files[i]).is_deleted && files[i].rel_path == x.rel && (files[i].size
            != x.size || files[i].mtime != x.mtime)
}

/// Files in the order of their paths.
pub open spec fn by_rel(d: Seq<DiskRec>) -> Seq<DiskRec> {
    text_order(d.map_values(|x: DiskRec| x.rel)).map_values(|i: int| d[i])
}

/// The files that no live row has the path of, in the order of their paths.
pub open spec fn appeared(files: Seq<FileRec>, d: Seq<DiskRec>) -> Seq<DiskRec> {
    by_rel(d.filter(|x: DiskRec| !path_live(files, x.rel)))
}

/// The live rows whose file was not met, in the order of their ids.
pub open spec fn missing(files: Seq<FileRec>, d: Seq<DiskRec>) -> Seq<MissingRec> {
    live(files).filter(|r: FileRec| !met(d, r.rel_path)).map_values(|r: FileRec| missing_rec(as_active(r)))
}

fn entry_file_of(e: &DiskEntry, at: usize) -> (r: Option<DiskFile>)
    ensures
        match r {
            Some(f) => entry_file(*e, at as int) == Some(f@),
            None => entry_file(*e, at as int) is None,
        },
{
    let rel = match rel_path(&e.parts) {
        Some(r) => r,
        None => {
            return None;
        },
    };
    let n: usize = e.parts.len();
    if n == 0 {
        proof {
            reveal_with_fuel(crate::names::joined, 1);
        }
        return None;
    }
    let name = match &e.parts[n - 1] {
        Some(s) => s.clone(),
        None => {
            return None;
        },
    };
    let ext = match ext_of_name(name.as_str()) {
        Some(x) => x,
        None => {
            return None;
        },
    };
    let media_type = match classify(ext.as_str()) {
        Some(m) => m,
        None => {
            return None;
        },
    };
    let mtime: i64 = match e.mtime_secs {
        Some(s) => s as i64,
        None => 0,
    };
    Some(DiskFile { rel, name, ext, media_type, size: e.len as i64, mtime, source: at })
}

/// The media files of a walk.
pub fn walk_files(entries: &Vec<DiskEntry>) -> (r: Vec<DiskFile>)
    ensures
        disk_recs(r@) == walked(entries@),
{
    let mut out: Vec<DiskFile> = Vec::new();
    let mut i: usize = 0;
    while i < entries.len()
        invariant
            i <= entries@.len(),
            disk_recs(out@) =~= found(entries@, i as int),
        decreases entries.len() - i,
    {
        match entry_file_of(&entries[i], i) {
            Some(f) => {
                let ghost out0 = out@;
                let ghost rec = f@;
                out.push(f);
                assert(disk_recs(out@) =~= disk_recs(out0).push(rec));
            },
            None => {},
        }
        i += 1;
    }
    out
}

fn differ(files: &Vec<DiskFile>) -> (r: bool)
    ensures
        r == rels_differ(disk_recs(files@)),
{
    let ghost d = disk_recs(files@);
    let ghost lt = |a: DiskRec, b: DiskRec| a.rel != b.rel;
    let mut seen = StringHashSet::new();
    let mut i: usize = 0;
    while i < files.len()
        invariant
            i <= files@.len(),
            d == disk_recs(files@),
            lt == (|a: DiskRec, b: DiskRec| a.rel != b.rel),
            forall|a: int, b: int| 0 <= a < b < i ==> lt(#[trigger] d[a], #[trigger] d[b]),
            forall|p: Seq<char>| #[trigger] seen@.contains(p) <==> exists|a: int| 0 <= a < i && (#[trigger] d[a]).rel == p,
        decreases files.len() - i,
    {
        assert(d[i as int] == files@[i as int]@);
        let ghost seen0 = seen@;
        let fresh = seen.insert(files[i].rel.clone());
        if !fresh {
            assert(seen0.contains(d[i as int].rel));
            let ghost a = choose|a: int| 0 <= a < i && (#[trigger] d[a]).rel == d[i as int].rel;
            assert(!lt(d[a], d[i as int]));
            return false;
        }
        assert forall|p: Seq<char>| #[trigger] seen@.contains(p) <==> exists|a: int| 0 <= a < i + 1 && (#[trigger] d[a]).rel
            == p by {
            if seen0.contains(p) {
                let a = choose|a: int| 0 <= a < i && (#[trigger] d[a]).rel == p;
                assert(d[a].rel == p);
            }
        }
        assert(!seen0.contains(d[i as int].rel));
        i += 1;
    }
    true
}

/// The live row with the path.
pub open spec fn row_at(files: Seq<FileRec>, path: Seq<char>) -> FileRec {
    files[choose|i: int| 0 <= i < files.len() && !(#[trigger] files[i]).is_deleted && files[i].rel_path == path]
}

/// For each of the first `n` files that is in its place with a new size or time:
/// the id of its row, the size and the time.
pub open spec fn changes(files: Seq<FileRec>, d: Seq<DiskRec>, n: int) -> Seq<(i64, i64, i64)>
    decreases n,
{
    if n <= 0 {
        Seq::empty()
    } else if changed(files, d[n - 1]) {
        changes(files, d, n - 1).push((row_at(files, d[n - 1].rel).id, d[n - 1].size, d[n - 1].mtime))
    } else {
        changes(files, d, n - 1)
    }
}

/// The ids of rows.
pub open spec fn ids_of(m: Seq<MissingRec>) -> Seq<i64> {
    m.map_values(|r: MissingRec| r.id)
}

proof fn lemma_live(files: Seq<FileRec>)
    requires
        file_ids_grow(files),
        live_paths_differ(files),
    ensures
        forall|i: int, j: int|
            0 <= i < j < live(files).len() ==> (#[trigger] live(files)[i]).id < (#[trigger] live(files)[j]).id
                && live(files)[i].rel_path != live(files)[j].rel_path,
        forall|k: int|
            0 <= k < live(files).len() ==> !(#[trigger] live(files)[k]).is_deleted && files.contains(live(files)[k]),
        forall|i: int| 0 <= i < files.len() && !(#[trigger] files[i]).is_deleted ==> live(files).contains(files[i]),
{
    let keep = |r: FileRec| !r.is_deleted;
    let l = live(files);
    let by_id = |a: FileRec, b: FileRec| a.id < b.id;
    let by_path = |a: FileRec, b: FileRec| a.is_deleted || b.is_deleted || a.rel_path != b.rel_path;
    assert(increasing(files, by_id));
    assert(increasing(files, by_path));
    lemma_filter_increasing(files, keep, by_id);
    lemma_filter_increasing(files, keep, by_path);
    lemma_filter_from(files, keep);
    assert forall|k: int| 0 <= k < l.len() implies !(#[trigger] l[k]).is_deleted && files.contains(l[k]) by {
        assert(l.contains(l[k]));
    }
    assert forall|i: int, j: int| 0 <= i < j < l.len() implies (#[trigger] l[i]).id < (#[trigger] l[j]).id
        && l[i].rel_path != l[j].rel_path by {
        assert(by_id(l[i], l[j]));
        assert(by_path(l[i], l[j]));
    }
    assert forall|i: int| 0 <= i < files.len() && !(#[trigger] files[i]).is_deleted implies l.contains(files[i]) by {
        assert(files.contains(files[i]));
    }
}

/// A live path belongs to one live row.
proof fn lemma_live_path(files: Seq<FileRec>, path: Seq<char>)
    requires
        file_ids_grow(files),
        live_paths_differ(files),
    ensures
        path_live(files, path) <==> exists|k: int|
            0 <= k < live(files).len() && (#[trigger] live(files)[k]).rel_path == path,
        forall|k: int|
            0 <= k < live(files).len() && (#[trigger] live(files)[k]).rel_path == path ==> row_at(files, path)
                == live(files)[k],
        path_live(files, path) ==> !row_at(files, path).is_deleted && row_at(files, path).rel_path == path
            && files.contains(row_at(files, path)),
{
    lemma_live(files);
    let l = live(files);
    if path_live(files, path) {
        let i = choose|i: int| 0 <= i < files.len() && !(#[trigger] files[i]).is_deleted && files[i].rel_path == path;
        assert(l.contains(files[i]));
        let k = choose|k: int| 0 <= k < l.len() && l[k] == files[i];
        assert(l[k].rel_path == path);
        assert(files.contains(files[i]));
    }
    assert forall|k: int| 0 <= k < l.len() && (#[trigger] l[k]).rel_path == path implies row_at(files, path) == l[k]
        && path_live(files, path) by {
        let j = choose|j: int| 0 <= j < files.len() && files[j] == l[k];
        assert(!files[j].is_deleted && files[j].rel_path == path);
        let c = choose|i: int|
            0 <= i < files.len() && !(#[trigger] files[i]).is_deleted && files[i].rel_path == path;
        assert(l.contains(files[c]));
    }
}

fn copy_file(f: &DiskFile) -> (r: DiskFile)
    ensures
        r@ == f@,
{
    DiskFile {
        rel: f.rel.clone(),
        name: f.name.clone(),
        ext: f.ext.clone(),
        media_type: f.media_type,
        size: f.size,
        mtime: f.mtime,
        source: f.source,
    }
}

/// Files in the order of their paths.
fn sort_files(files: &Vec<DiskFile>) -> (r: Vec<DiskFile>)
    ensures
        disk_recs(r@) == by_rel(disk_recs(files@)),
{
    let ghost d = disk_recs(files@);
    let ghost keys_of = d.map_values(|x: DiskRec| x.rel);
    let mut keys: Vec<String> = Vec::new();
    let mut i: usize = 0;
    while i < files.len()
        invariant
            i <= files@.len(),
            keys@.len() == i,
            forall|k: int| 0 <= k < i ==> (#[trigger] keys@[k])@ == files@[k].rel@,
        decreases files.len() - i,
    {
        keys.push(files[i].rel.clone());
        i += 1;
    }
    assert(texts(keys@) =~= keys_of);
    let order = sort_texts(&keys);
    let mut out: Vec<DiskFile> = Vec::new();
    let mut j: usize = 0;
    while j < order.len()
        invariant
            j <= order@.len(),
            out@.len() == j,
            d == disk_recs(files@),
            keys_of == d.map_values(|x: DiskRec| x.rel),
            sorts(keys_of, positions(order@)),
            forall|k: int| 0 <= k < j ==> (#[trigger] out@[k])@ == d[order@[k] as int],
        decreases order.len() - j,
    {
        assert(positions(order@)[j as int] == order@[j as int]);
        assert(positions(order@).contains(order@[j as int] as int));
        out.push(copy_file(&files[order[j]]));
        j += 1;
    }
    assert(disk_recs(out@) =~= by_rel(d));
    out
}

/// A scan under way: what is on disk has been held against the index, and the
/// rows without a file are being matched with the files without a row.
pub struct Scan {
    touches: Vec<(i64, i64, i64)>,
    seen: usize,
    missing_ids: Vec<i64>,
    matching: Rematch,
    index: Ghost<Seq<FileRec>>,
    disk: Ghost<Seq<DiskRec>>,
}

/// Where each live path stands among the live rows.
fn index_paths(rows: &Vec<ActiveFile>) -> (r: StringHashMap<usize>)
    ensures
        forall|p: Seq<char>| #[trigger] r@.contains_key(p) <==> exists|k: int|
            0 <= k < rows@.len() && (#[trigger] rows@[k]).rel_path@ == p,
        forall|p: Seq<char>| #[trigger] r@.contains_key(p) ==> r@[p] < rows@.len() && rows@[r@[p] as int].rel_path@ == p,
{
    let mut map: StringHashMap<usize> = StringHashMap::new();
    let mut i: usize = 0;
    while i < rows.len()
        invariant
            i <= rows@.len(),
            forall|p: Seq<char>| #[trigger] map@.contains_key(p) <==> exists|k: int|
                0 <= k < i && (#[trigger] rows@[k]).rel_path@ == p,
            forall|p: Seq<char>| #[trigger] map@.contains_key(p) ==> map@[p] < i && rows@[map@[p] as int].rel_path@ == p,
        decreases rows.len() - i,
    {
        let ghost map0 = map@;
        map.insert(rows[i].rel_path.clone(), i);
        assert forall|p: Seq<char>| #[trigger] map@.contains_key(p) <==> exists|k: int|
            0 <= k < i + 1 && (#[trigger] rows@[k]).rel_path@ == p by {
            if map0.contains_key(p) {
                let k = choose|k: int| 0 <= k < i && (#[trigger] rows@[k]).rel_path@ == p;
                assert(rows@[k].rel_path@ == p);
            }
        }
        i += 1;
    }
    map
}

impl Scan {
    /// The match of the rows without a file with the files without a row.
    pub closed spec fn matching(&self) -> Rematch {
        self.matching
    }

    /// The files of the index that the scan began with.
    pub closed spec fn index(&self) -> Seq<FileRec> {
        self.index@
    }

    /// The files on disk.
    pub closed spec fn disk(&self) -> Seq<DiskRec> {
        self.disk@
    }

    /// Whether the scan holds what comes of its index and its disk.
    pub closed spec fn wf(&self) -> bool {
        let files = self.index@;
        let d = self.disk@;
        &&& file_ids_grow(files)
        &&& live_paths_differ(files)
        &&& rels_differ(d)
        &&& self.touches@ == changes(files, d, d.len() as int)
        &&& self.seen == d.filter(|x: DiskRec| path_live(files, x.rel)).len()
        &&& self.missing_ids@ == ids_of(missing(files, d))
        &&& self.matching.wf()
        &&& self.matching.row_recs() == missing(files, d)
        &&& self.matching.file_recs() == appeared(files, d)
    }

    /// The match is that of the rows without a file with the files without a row.
    pub proof fn lemma_recs(&self)
        requires
            self.wf(),
        ensures
            self.matching().wf(),
            self.matching().row_recs() == missing(self.index(), self.disk()),
            self.matching().file_recs() == appeared(self.index(), self.disk()),
    {
    }

    /// Holds the files of a walk against the index. Two files with one path are
    /// refused.
    pub fn begin(entries: &Vec<DiskEntry>, db: &Db) -> (r: Result<Scan, DbError>)
        requires
            db.wf(),
        ensures
            match r {
                Ok(s) => s.wf() && s.index() == db@.files && s.disk() == walked(entries@) && rels_differ(
                    walked(entries@),
                ) && s.matching().done() == 0,
                Err(e) => e == DbError::Conflict && !rels_differ(walked(entries@)),
            },
    {
        let files = walk_files(entries);
        if !differ(&files) {
            return Err(DbError::Conflict);
        }
        let rows = db.active_files();
        let at = index_paths(&rows);
        let ghost all = db@.files;
        let ghost d = disk_recs(files@);
        let ghost l = live(all);
        let ghost here = |x: DiskRec| path_live(all, x.rel);
        let ghost away = |x: DiskRec| !path_live(all, x.rel);
        proof {
            db.lemma_wf();
            lemma_live(all);
            assert(rows@.len() == l.len()) by {
                assert(active_recs(rows@).len() == rows@.len());
            }
            assert forall|k: int| 0 <= k < rows@.len() implies (#[trigger] rows@[k])@ == as_active(l[k]) by {
                assert(active_recs(rows@)[k] == rows@[k]@);
            }
        }
        let mut touches: Vec<(i64, i64, i64)> = Vec::new();
        let mut seen: usize = 0;
        let mut new_files: Vec<DiskFile> = Vec::new();
        let mut present: Vec<bool> = Vec::new();
        let mut k: usize = 0;
        while k < rows.len()
            invariant
                k <= rows@.len(),
                present@ =~= Seq::new(k as nat, |i: int| false),
            decreases rows.len() - k,
        {
            present.push(false);
            k += 1;
        }
        let mut i: usize = 0;
        proof {
            reveal(Seq::filter);
            assert(disk_recs(new_files@) =~= d.take(0).filter(away));
        }
        while i < files.len()
            invariant
                i <= files@.len(),
                seen <= i,
                d == disk_recs(files@),
                l == live(all),
                file_ids_grow(all),
                live_paths_differ(all),
                here == (|x: DiskRec| path_live(all, x.rel)),
                away == (|x: DiskRec| !path_live(all, x.rel)),
                rows@.len() == l.len(),
                forall|k: int| 0 <= k < rows@.len() ==> (#[trigger] rows@[k])@ == as_active(l[k]),
                forall|p: Seq<char>| #[trigger] at@.contains_key(p) <==> exists|k: int|
                    0 <= k < rows@.len() && (#[trigger] rows@[k]).rel_path@ == p,
                forall|p: Seq<char>| #[trigger]
                    at@.contains_key(p) ==> at@[p] < rows@.len() && rows@[at@[p] as int].rel_path@ == p,
                touches@ == changes(all, d, i as int),
                seen == d.take(i as int).filter(here).len(),
                disk_recs(new_files@) == d.take(i as int).filter(away),
                present@.len() == rows@.len(),
                forall|k: int|
                    0 <= k < rows@.len() ==> (#[trigger] present@[k] <==> met(d.take(i as int), l[k].rel_path)),
            decreases files.len() - i,
        {
            let f = &files[i];
            let ghost x = d[i as int];
            assert(x == f@);
            proof {
                lemma_live_path(all, x.rel);
                lemma_filter_step(d, i as int, here);
                lemma_filter_step(d, i as int, away);
            }
            let ghost present0 = present@;
            match at.get(f.rel.as_str()) {
                Some(k) => {
                    let k: usize = *k;
                    assert(rows@[k as int]@ == as_active(l[k as int]));
                    assert(l[k as int].rel_path == x.rel);
                    assert(path_live(all, x.rel));
                    let a = &rows[k];
                    proof {
                        lemma_changed(all, x);
                    }
                    if a.size != f.size || a.mtime != f.mtime {
                        touches.push((a.id, f.size, f.mtime));
                    }
                    seen += 1;
                    present.set(k, true);
                    proof {
                        assert forall|j: int| 0 <= j < rows@.len() implies (#[trigger] present@[j] <==> met(
                            d.take(i + 1),
                            l[j].rel_path,
                        )) by {
                            lemma_met_step(d, i as int, l[j].rel_path);
                            assert(present0[j] <==> met(d.take(i as int), l[j].rel_path));
                            lemma_live(all);
                            if j != k {
                                assert(l[j].rel_path != l[k as int].rel_path) by {
                                    if j < k {
                                        assert(l[j].rel_path != l[k as int].rel_path);
                                    } else {
                                        assert(l[k as int].rel_path != l[j].rel_path);
                                    }
                                }
                            }
                        }
                    }
                },
                None => {
                    assert(!path_live(all, x.rel)) by {
                        if path_live(all, x.rel) {
                            let q = choose|q: int| 0 <= q < l.len() && (#[trigger] l[q]).rel_path == x.rel;
                            assert(rows@[q]@ == as_active(l[q]));
                            assert(rows@[q].rel_path@ == x.rel);
                        }
                    }
                    assert(!changed(all, x));
                    let ghost new0 = new_files@;
                    new_files.push(copy_file(f));
                    assert(disk_recs(new_files@) =~= disk_recs(new0).push(x));
                    proof {
                        assert forall|j: int| 0 <= j < rows@.len() implies (#[trigger] present@[j] <==> met(
                            d.take(i + 1),
                            l[j].rel_path,
                        )) by {
                            lemma_met_step(d, i as int, l[j].rel_path);
                            assert(rows@[j]@ == as_active(l[j]));
                            assert(rows@[j].rel_path@ == l[j].rel_path);
                        }
                    }
                },
            }
            i += 1;
        }
        assert(d.take(i as int) =~= d);
        let ghost keep = |r: FileRec| !met(d, r.rel_path);
        let ghost to_rec = |r: FileRec| missing_rec(as_active(r));
        let mut lost: Vec<MissingRow> = Vec::new();
        let mut missing_ids: Vec<i64> = Vec::new();
        let mut j: usize = 0;
        proof {
            assert(missing_recs(lost@) =~= l.take(0).filter(keep).map_values(to_rec));
        }
        while j < rows.len()
            invariant
                j <= rows@.len(),
                rows@.len() == l.len(),
                present@.len() == rows@.len(),
                keep == (|r: FileRec| !met(d, r.rel_path)),
                to_rec == (|r: FileRec| missing_rec(as_active(r))),
                forall|k: int| 0 <= k < rows@.len() ==> (#[trigger] rows@[k])@ == as_active(l[k]),
                forall|k: int| 0 <= k < rows@.len() ==> (#[trigger] present@[k] <==> met(d, l[k].rel_path)),
                missing_recs(lost@) == l.take(j as int).filter(keep).map_values(to_rec),
                missing_ids@ == ids_of(missing_recs(lost@)),
            decreases rows.len() - j,
        {
            proof {
                lemma_filter_step(l, j as int, keep);
            }
            let ghost before = l.take(j as int).filter(keep);
            assert(rows@[j as int]@ == as_active(l[j as int]));
            if !present[j] {
                let ghost lost0 = lost@;
                let ghost ids0 = missing_ids@;
                let row = MissingRow::from_active(&rows[j]);
                missing_ids.push(row.id);
                let ghost rec = row@;
                lost.push(row);
                assert(missing_recs(lost@) =~= missing_recs(lost0).push(rec));
                assert(before.push(l[j as int]).map_values(to_rec) =~= before.map_values(to_rec).push(rec));
                assert(missing_ids@ =~= ids_of(missing_recs(lost@)));
            }
            j += 1;
        }
        assert(l.take(j as int) =~= l);
        let sorted = sort_files(&new_files);
        let matching = Rematch::start(lost, sorted);
        Ok(Scan { touches, seen, missing_ids, matching, index: Ghost(all), disk: Ghost(d) })
    }
}

proof fn lemma_met_step(d: Seq<DiskRec>, i: int, path: Seq<char>)
    requires
        0 <= i < d.len(),
    ensures
        met(d.take(i + 1), path) <==> met(d.take(i), path) || d[i].rel == path,
{
    let a = d.take(i);
    let b = d.take(i + 1);
    if met(a, path) {
        let k = choose|k: int| 0 <= k < a.len() && (#[trigger] a[k]).rel == path;
        assert(b[k].rel == path);
    }
    if d[i].rel == path {
        assert(b[i].rel == path);
    }
    if met(b, path) {
        let k = choose|k: int| 0 <= k < b.len() && (#[trigger] b[k]).rel == path;
        if k < i {
            assert(a[k].rel == path);
        }
    }
}

proof fn lemma_changed(files: Seq<FileRec>, x: DiskRec)
    requires
        file_ids_grow(files),
        live_paths_differ(files),
        path_live(files, x.rel),
    ensures
        changed(files, x) <==> row_at(files, x.rel).size != x.size || row_at(files, x.rel).mtime != x.mtime,
{
    lemma_live_path(files, x.rel);
    let r = row_at(files, x.rel);
    let i = choose|i: int| 0 <= i < files.len() && files[i] == r;
    assert(!files[i].is_deleted && files[i].rel_path == x.rel);
    if changed(files, x) {
        let j = choose|j: int|
            0 <= j < files.len() && !(#[trigger] files[j]).is_deleted && files[j].rel_path == x.rel && (files[j].size
                != x.size || files[j].mtime != x.mtime);
        assert(i == j);
    }
}

} // verus!
