//! The disk: what paths say, which files are new to the index, and which rows lost theirs.

use vstd::prelude::*;
use crate::db::queue::active;
use crate::db::{live, path_live, FileRec};
use crate::names::{base_name, extension, joined, name_extension, parent, part_texts, rel_of};
use crate::order::{key_lt, lemma_text_order, text_lt, text_order};
use crate::scanner::apply::{counts, hashes_of, scanned};
use crate::scanner::rematch::{DiskRec, MissingRec};
use crate::scanner::{appeared, changes, met, missing, row_at, ScanStats};
use crate::seqs::lemma_filter_from;
use crate::text::{ascii_lowered, last_at, lemma_last_at};

verus! {

/// The position of the last one of a character that stands nowhere behind it.
proof fn lemma_last(a: Seq<char>, c: char, b: Seq<char>)
    requires
        !b.contains(c),
    ensures
        last_at(a + seq![c] + b, c) == a.len(),
        last_at(b, c) == -1,
{
    let s = a + seq![c] + b;
    lemma_last_at(s, c);
    lemma_last_at(b, c);
    if last_at(b, c) >= 0 {
        assert(b.contains(b[last_at(b, c)]));
    }
    assert(s[a.len() as int] == c);
    let k = last_at(s, c);
    if k > a.len() {
        assert(s[k] == b[k - a.len() - 1]);
        assert(b.contains(b[k - a.len() - 1]));
    }
}

/// A path is a folder, a slash and a name without a slash, or a name alone.
pub proof fn law_folder_and_name(folder: Seq<char>, name: Seq<char>)
    requires
        !name.contains('/'),
    ensures
        base_name(folder + seq!['/'] + name) == name,
        parent(folder + seq!['/'] + name) == folder,
        base_name(name) == name,
        parent(name).len() == 0,
{
    lemma_last(folder, '/', name);
    let p = folder + seq!['/'] + name;
    assert(p.skip(folder.len() as int + 1) =~= name);
    assert(p.take(folder.len() as int) =~= folder);
    assert(name.skip(0) =~= name);
}

/// The extension is what follows the last dot of the name, in small letters. A name
/// without a dot has none, and of a file on disk neither has one with its only dot at the
/// beginning.
pub proof fn law_extension_follows_the_last_dot(folder: Seq<char>, stem: Seq<char>, tail: Seq<char>)
    requires
        !stem.contains('/'),
        !tail.contains('/'),
        !tail.contains('.'),
    ensures
        extension(folder + seq!['/'] + (stem + seq!['.'] + tail)) == ascii_lowered(tail),
        extension(stem + seq!['.'] + tail) == ascii_lowered(tail),
        extension(folder + seq!['/'] + tail).len() == 0,
        extension(tail).len() == 0,
        stem.len() > 0 ==> name_extension(stem + seq!['.'] + tail) == Some(ascii_lowered(tail)),
        name_extension(seq!['.'] + tail) is None,
        name_extension(tail) is None,
{
    let name = stem + seq!['.'] + tail;
    assert(!name.contains('/')) by {
        if name.contains('/') {
            let i = choose|i: int| 0 <= i < name.len() && name[i] == '/';
            if i < stem.len() {
                assert(stem.contains(stem[i]));
            } else {
                assert(name[i] == tail[i - stem.len() - 1]);
                assert(tail.contains(tail[i - stem.len() - 1]));
            }
        }
    }
    law_folder_and_name(folder, name);
    law_folder_and_name(folder, tail);
    lemma_last(stem, '.', tail);
    lemma_last(Seq::empty(), '.', tail);
    assert(Seq::<char>::empty() + seq!['.'] + tail =~= seq!['.'] + tail);
    assert(name.skip(stem.len() as int + 1) =~= tail);
}

/// The parts of a path stand in their order, with a slash between each two. There is no
/// path where a part is no text, or where nothing comes out.
pub proof fn law_parts_make_a_path(parts: Seq<Seq<char>>, last: Seq<char>, p: Seq<Option<String>>)
    ensures
        joined(seq![last]) == last,
        parts.len() > 0 ==> joined(parts.push(last)) == joined(parts) + seq!['/'] + last,
        rel_of(p) is Some <==> joined(part_texts(p)).len() > 0 && forall|i: int|
            0 <= i < p.len() ==> (#[trigger] p[i]) is Some,
        rel_of(p) is Some ==> rel_of(p)->0 == joined(part_texts(p)),
{
    assert(parts.push(last).drop_last() =~= parts);
}

/// Whether a file on disk is at a path.
pub open spec fn is_on_disk(d: Seq<DiskRec>, path: Seq<char>) -> bool {
    exists|i: int| 0 <= i < d.len() && (#[trigger] d[i]).rel == path
}

/// Whether a live row is at a path.
pub open spec fn is_in_index(files: Seq<FileRec>, path: Seq<char>) -> bool {
    exists|i: int| 0 <= i < files.len() && !(#[trigger] files[i]).is_deleted && files[i].rel_path == path
}

/// Whether a row that lost its file is told of as it was: by its id, its size, its time
/// and its hash, and by the parts of its path.
pub open spec fn tells_of(m: MissingRec, r: FileRec) -> bool {
    &&& m.id == r.id && m.size == r.size && m.mtime == r.mtime && m.hash == r.hash
    &&& m.name == base_name(r.rel_path) && m.parent == parent(r.rel_path) && m.ext == extension(r.rel_path)
}

/// Whether a live row at whose path there is no file is told of.
pub open spec fn tells_of_a_lost_one(files: Seq<FileRec>, d: Seq<DiskRec>, m: MissingRec) -> bool {
    exists|i: int|
        0 <= i < files.len() && !files[i].is_deleted && !is_on_disk(d, files[i].rel_path) && #[trigger] tells_of(
            m,
            files[i],
        )
}

/// The rows that lost their files are the live ones at whose paths there is none, each of
/// them as it was.
pub proof fn law_rows_that_lost_their_files(files: Seq<FileRec>, d: Seq<DiskRec>)
    ensures
        forall|k: int| 0 <= k < missing(files, d).len() ==> tells_of_a_lost_one(files, d, #[trigger] missing(files, d)[k]),
        forall|i: int|
            0 <= i < files.len() && !(#[trigger] files[i]).is_deleted && !is_on_disk(d, files[i].rel_path) ==> exists|
                k: int,
            |
                0 <= k < missing(files, d).len() && #[trigger] tells_of(missing(files, d)[k], files[i]),
{
    let l = live(files);
    let keep = |r: FileRec| !met(d, r.rel_path);
    let lost = l.filter(keep);
    let m = missing(files, d);
    lemma_filter_from(files, |r: FileRec| !r.is_deleted);
    lemma_filter_from(l, keep);
    assert forall|k: int| 0 <= k < m.len() implies tells_of_a_lost_one(files, d, #[trigger] m[k]) by {
        assert(lost.contains(lost[k]));
        assert(l.contains(lost[k]));
        assert(files.contains(lost[k]));
        let i = choose|i: int| 0 <= i < files.len() && files[i] == lost[k];
        assert(tells_of(m[k], files[i]));
    }
    assert forall|i: int|
        0 <= i < files.len() && !(#[trigger] files[i]).is_deleted && !is_on_disk(d, files[i].rel_path) implies exists|
        k: int,
    |
        0 <= k < m.len() && #[trigger] tells_of(m[k], files[i]) by {
        assert(files.contains(files[i]));
        assert(l.contains(files[i]));
        assert(!met(d, files[i].rel_path));
        assert(lost.contains(files[i]));
        let k = choose|k: int| 0 <= k < lost.len() && lost[k] == files[i];
        assert(tells_of(m[k], files[i]));
    }
}

/// The files that are new to the index are those at whose paths there is no live row, in
/// the order of their paths.
pub proof fn law_files_that_are_new(files: Seq<FileRec>, d: Seq<DiskRec>, x: DiskRec)
    ensures
        appeared(files, d).contains(x) <==> d.contains(x) && !is_in_index(files, x.rel),
        forall|i: int, j: int|
            0 <= i < j < appeared(files, d).len() ==> !text_lt(
                (#[trigger] appeared(files, d)[j]).rel,
                (#[trigger] appeared(files, d)[i]).rel,
            ),
{
    let keep = |x: DiskRec| !path_live(files, x.rel);
    let n = d.filter(keep);
    let keys = n.map_values(|x: DiskRec| x.rel);
    let p = text_order(keys);
    let a = appeared(files, d);
    lemma_filter_from(d, keep);
    lemma_text_order(keys);
    if a.contains(x) {
        let j = choose|j: int| 0 <= j < a.len() && a[j] == x;
        assert(p.contains(p[j]));
        assert(n.contains(n[p[j]]));
    }
    if n.contains(x) {
        let i = choose|i: int| 0 <= i < n.len() && n[i] == x;
        assert(p.contains(i));
        let j = choose|j: int| 0 <= j < p.len() && p[j] == i;
        assert(a[j] == x);
    }
    assert forall|i: int, j: int| 0 <= i < j < a.len() implies !text_lt((#[trigger] a[j]).rel, (#[trigger] a[i]).rel) by {
        assert(key_lt(keys)(p[i], p[j]));
        assert(p.contains(p[i]) && p.contains(p[j]));
        let u = keys[p[i]];
        let v = keys[p[j]];
        crate::order::lemma_text_lt_weak(u, v, u);
        crate::order::lemma_text_lt_irreflexive(u);
    }
}

/// Whether a change is that of a file in its place, with the size and the time that it
/// has now, one of which is new.
pub open spec fn is_change(files: Seq<FileRec>, d: Seq<DiskRec>, n: int, c: (i64, i64, i64)) -> bool {
    exists|i: int, k: int|
        0 <= i < n && 0 <= k < files.len() && !(#[trigger] files[k]).is_deleted && files[k].rel_path == (
        #[trigger] d[i]).rel && c.0 == files[k].id && c.1 == d[i].size && c.2 == d[i].mtime && (files[k].size
            != d[i].size || files[k].mtime != d[i].mtime)
}

/// The changes that a scan finds are those of files in their places of which the size or
/// the time is new.
pub proof fn law_changes_of_files_in_their_places(
    files: Seq<FileRec>,
    d: Seq<DiskRec>,
    n: int,
    c: (i64, i64, i64),
)
    requires
        crate::db::live_paths_differ(files),
        0 <= n <= d.len(),
    ensures
        changes(files, d, n).contains(c) <==> is_change(files, d, n, c),
    decreases n,
{
    if n > 0 {
        law_changes_of_files_in_their_places(files, d, n - 1, c);
        let x = d[n - 1];
        let before = changes(files, d, n - 1);
        if is_change(files, d, n - 1, c) {
            let (i, k) = choose|i: int, k: int|
                0 <= i < n - 1 && 0 <= k < files.len() && !(#[trigger] files[k]).is_deleted && files[k].rel_path == (
                #[trigger] d[i]).rel && c.0 == files[k].id && c.1 == d[i].size && c.2 == d[i].mtime && (files[k].size
                    != d[i].size || files[k].mtime != d[i].mtime);
            assert(!files[k].is_deleted && files[k].rel_path == d[i].rel);
        }
        if crate::scanner::changed(files, x) {
            let k = choose|k: int|
                0 <= k < files.len() && !(#[trigger] files[k]).is_deleted && files[k].rel_path == x.rel && (
                files[k].size != x.size || files[k].mtime != x.mtime);
            let r = row_at(files, x.rel);
            assert(r == files[k]);
            let e = (r.id, x.size, x.mtime);
            crate::order::lemma_push_contains(before, e, c);
            if c == e {
                assert(!files[k].is_deleted && files[k].rel_path == d[n - 1].rel);
            }
        }
        if is_change(files, d, n, c) && !is_change(files, d, n - 1, c) {
            let (i, k) = choose|i: int, k: int|
                0 <= i < n && 0 <= k < files.len() && !(#[trigger] files[k]).is_deleted && files[k].rel_path == (
                #[trigger] d[i]).rel && c.0 == files[k].id && c.1 == d[i].size && c.2 == d[i].mtime && (files[k].size
                    != d[i].size || files[k].mtime != d[i].mtime);
            assert(i == n - 1);
            assert(crate::scanner::changed(files, x));
            assert(row_at(files, x.rel) == files[k]);
        }
    }
}

/// A scan is told of each live row by its id, its path, its size, its time and its hash.
pub proof fn law_live_rows_are_told_of(files: Seq<FileRec>, k: int)
    requires
        0 <= k < live(files).len(),
    ensures
        active(files).len() == live(files).len(),
        ({
            let a = active(files)[k];
            let r = live(files)[k];
            a.id == r.id && a.rel_path == r.rel_path && a.size == r.size && a.mtime == r.mtime && a.hash == r.hash
        }),
{
}

/// Whether a file is in its place, and its size or its time is new.
pub open spec fn is_changed(files: Seq<FileRec>, x: DiskRec) -> bool {
    exists|i: int|
        0 <= i < files.len() && !(#[trigger] files[i]).is_deleted && files[i].rel_path == x.rel && (files[i].size
            != x.size || files[i].mtime != x.mtime)
}

/// A scan counts the files in their places, those of them of which the size or the time is
/// new, and the rows that it adds.
pub proof fn law_scan_counts_what_it_does(
    s: ScanStats,
    files: Seq<FileRec>,
    d: Seq<DiskRec>,
    hs: Seq<Option<u64>>,
    now: i64,
)
    requires
        counts(s, files, d, hs),
    ensures
        s.seen == d.filter(|x: DiskRec| is_in_index(files, x.rel)).len(),
        s.updated == d.filter(|x: DiskRec| is_changed(files, x)).len(),
        s.added == scanned(files, d, hs, now).len() - files.len(),
{
    assert((|x: DiskRec| is_in_index(files, x.rel)) =~= (|x: DiskRec| path_live(files, x.rel)));
    assert((|x: DiskRec| is_changed(files, x)) =~= (|x: DiskRec| crate::scanner::changed(files, x)));
}

/// The hash of a file is that of the entry of the walk that it comes from.
pub proof fn law_hash_is_that_of_its_entry(f: Seq<DiskRec>, hs: Seq<Option<u64>>, k: int)
    requires
        0 <= k < f.len(),
    ensures
        hashes_of(f, hs).len() == f.len(),
        hashes_of(f, hs)[k] == hs[f[k].source as int],
{
}

} // verus!
