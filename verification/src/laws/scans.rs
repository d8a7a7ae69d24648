//! The scan: what it sees of a file, and what its rows say afterwards.

use vstd::prelude::*;
use crate::db::{file_ids_grow, live_paths_differ, FileRec};
use crate::media::{image_ext, kind_of, video_ext, MediaType};
use crate::names::{all_text, joined, name_extension, part_texts};
use crate::scanner::apply::{added, fate, is_pair_of, lemma_appeared_from, lemma_apart, lemma_met_as, lemma_missing, moved_to, new_rows, renames, scanned};
use crate::scanner::laws::{law_match_is_justified, law_match_keeps_content, law_same_content_is_not_left_over, law_same_name_is_not_left_over};
use crate::scanner::laws::{file_paired, justified, row_paired, same_content};
use crate::scanner::mirror::{lemma_left_over, lemma_moved_to};
use crate::scanner::rematch::{rematch, same_name, DiskRec, MissingRec};
use crate::scanner::{appeared, entry_file, found, met, missing, rels_differ, walked, DiskEntry};
use crate::text::{ascii_lowered, last_at, lemma_last_at};

verus! {

/// The extensions of pictures.
pub open spec fn picture_extensions() -> Seq<Seq<char>> {
    seq!["jpg"@, "jpeg"@, "png"@, "webp"@, "gif"@, "bmp"@]
}

/// The extensions of videos.
pub open spec fn video_extensions() -> Seq<Seq<char>> {
    seq![
        "mp4"@,
        "mkv"@,
        "avi"@,
        "webm"@,
        "mov"@,
        "m4v"@,
        "wmv"@,
        "flv"@,
        "mpg"@,
        "mpeg"@,
        "ts"@,
        "m2ts"@,
        "3gp"@,
        "ogv"@,
    ]
}

/// The extension tells pictures, videos and everything else apart.
pub proof fn law_kind_goes_by_extension(e: Seq<char>)
    ensures
        kind_of(e) == Some(MediaType::Image) <==> picture_extensions().contains(e),
        kind_of(e) is None <==> !picture_extensions().contains(e) && !video_extensions().contains(e),
        picture_extensions().contains(e) ==> !video_extensions().contains(e),
{
    let p = picture_extensions();
    let v = video_extensions();
    reveal_strlit("jpg");
    reveal_strlit("jpeg");
    reveal_strlit("png");
    reveal_strlit("webp");
    reveal_strlit("gif");
    reveal_strlit("bmp");
    reveal_strlit("mp4");
    reveal_strlit("mkv");
    reveal_strlit("avi");
    reveal_strlit("webm");
    reveal_strlit("mov");
    reveal_strlit("m4v");
    reveal_strlit("wmv");
    reveal_strlit("flv");
    reveal_strlit("mpg");
    reveal_strlit("mpeg");
    reveal_strlit("ts");
    reveal_strlit("m2ts");
    reveal_strlit("3gp");
    reveal_strlit("ogv");
    assert(p.contains(e) <==> image_ext(e)) by {
        if image_ext(e) {
            assert(p[0] == e || p[1] == e || p[2] == e || p[3] == e || p[4] == e || p[5] == e);
        }
    }
    assert(v.contains(e) <==> video_ext(e)) by {
        if video_ext(e) {
            assert(v[0] == e || v[1] == e || v[2] == e || v[3] == e || v[4] == e || v[5] == e || v[6] == e || v[7] == e
                || v[8] == e || v[9] == e || v[10] == e || v[11] == e || v[12] == e || v[13] == e);
        }
    }
    let c = e[0];
    assert(image_ext(e) ==> c == 'j' || c == 'p' || c == 'w' || c == 'g' || c == 'b');
    assert(video_ext(e) ==> c == 'm' || c == 'a' || c == 'w' || c == 'f' || c == 't' || c == '3' || c == 'o');
    assert(image_ext(e) && c == 'w' ==> e.len() == 4 && e[3] == 'p');
    assert(video_ext(e) && c == 'w' ==> e.len() == 3 || e[3] == 'm');
}

/// Whether a name stands at the end of a path: it is the path, or follows a slash.
pub open spec fn ends_path(path: Seq<char>, name: Seq<char>) -> bool {
    path == name || exists|folder: Seq<char>| path == #[trigger] (folder + seq!['/'] + name)
}

/// Whether a name ends with a dot, which is not its first character, and the extension
/// in some case.
pub open spec fn has_extension(name: Seq<char>, ext: Seq<char>) -> bool {
    exists|stem: Seq<char>, tail: Seq<char>|
        name == #[trigger] (stem + seq!['.'] + tail) && stem.len() > 0 && !tail.contains('.') && ext == ascii_lowered(
            tail,
        )
}

/// Whether name, extension and kind are those of the file at the path.
pub open spec fn describes(path: Seq<char>, name: Seq<char>, ext: Seq<char>, kind: MediaType) -> bool {
    &&& ends_path(path, name)
    &&& has_extension(name, ext)
    &&& kind == MediaType::Image <==> picture_extensions().contains(ext)
    &&& kind == MediaType::Video <==> video_extensions().contains(ext)
}

proof fn lemma_name_extension(name: Seq<char>)
    ensures
        match name_extension(name) {
            Some(e) => has_extension(name, e),
            None => forall|e: Seq<char>| !has_extension(name, e),
        },
{
    let at = last_at(name, '.');
    lemma_last_at(name, '.');
    if at > 0 {
        let stem = name.take(at);
        let tail = name.skip(at + 1);
        assert(name =~= stem + seq!['.'] + tail);
        assert(!tail.contains('.')) by {
            assert forall|i: int| 0 <= i < tail.len() implies tail[i] != '.' by {
                assert(tail[i] == name[at + 1 + i]);
            }
        }
    } else {
        assert forall|e: Seq<char>| !has_extension(name, e) by {
            if has_extension(name, e) {
                let (stem, tail) = choose|stem: Seq<char>, tail: Seq<char>|
                    name == #[trigger] (stem + seq!['.'] + tail) && stem.len() > 0 && !tail.contains('.') && e
                        == ascii_lowered(tail);
                assert(name[stem.len() as int] == '.');
            }
        }
    }
}

proof fn lemma_entry(e: DiskEntry, at: int)
    ensures
        entry_file(e, at) matches Some(x) ==> describes(x.rel, x.name, x.ext, x.media_type) && x.size == e.len as i64
            && x.mtime == (match e.mtime_secs {
            Some(s) => s as i64,
            None => 0,
        }) && x.name == e.parts@.last()->0@ && x.rel == joined(part_texts(e.parts@)),
{
    match entry_file(e, at) {
        Some(x) => {
            let parts = part_texts(e.parts@);
            assert(e.parts@.len() > 0) by {
                assert(parts.len() == e.parts@.len());
            }
            assert(parts.last() == x.name);
            if parts.len() > 1 {
                assert(x.rel == joined(parts.drop_last()) + seq!['/'] + x.name);
            }
            lemma_name_extension(x.name);
            law_kind_goes_by_extension(x.ext);
        },
        None => {},
    }
}

proof fn lemma_found(entries: Seq<DiskEntry>, n: int)
    requires
        0 <= n <= entries.len() <= usize::MAX,
    ensures
        forall|k: int|
            0 <= k < found(entries, n).len() ==> describes(
                (#[trigger] found(entries, n)[k]).rel,
                found(entries, n)[k].name,
                found(entries, n)[k].ext,
                found(entries, n)[k].media_type,
            ) && 0 <= found(entries, n)[k].source < n && entry_file(
                entries[found(entries, n)[k].source as int],
                found(entries, n)[k].source as int,
            ) == Some(found(entries, n)[k]),
        forall|i: int|
            0 <= i < n && entry_file(#[trigger] entries[i], i) is Some ==> found(entries, n).contains(
                entry_file(entries[i], i)->0,
            ),
    decreases n,
{
    if n > 0 {
        lemma_found(entries, n - 1);
        lemma_entry(entries[n - 1], n - 1);
        let was = found(entries, n - 1);
        let now = found(entries, n);
        assert forall|k: int| 0 <= k < now.len() implies describes(
            (#[trigger] now[k]).rel,
            now[k].name,
            now[k].ext,
            now[k].media_type,
        ) && 0 <= now[k].source < n && entry_file(entries[now[k].source as int], now[k].source as int) == Some(now[k]) by {
            if k < was.len() {
                assert(now[k] == was[k]);
            }
        }
        assert forall|i: int| 0 <= i < n && entry_file(#[trigger] entries[i], i) is Some implies now.contains(
            entry_file(entries[i], i)->0,
        ) by {
            let x = entry_file(entries[i], i)->0;
            if i < n - 1 {
                assert(was.contains(x));
                let k = choose|k: int| 0 <= k < was.len() && was[k] == x;
                assert(now[k] == x);
            } else {
                assert(now[now.len() - 1] == x);
            }
        }
    }
}

/// The walk sees of every media file its path, its name, its extension, its kind, its
/// size and its time; and it sees all of them: what has a path in text and the
/// extension of a picture or a video.
pub proof fn law_walk_sees_every_media_file(entries: Seq<DiskEntry>)
    requires
        entries.len() <= usize::MAX,
    ensures
        forall|k: int|
            0 <= k < walked(entries).len() ==> ({
                let x = #[trigger] walked(entries)[k];
                let e = entries[x.source as int];
                &&& x.source < entries.len()
                &&& describes(x.rel, x.name, x.ext, x.media_type)
                &&& x.rel == joined(part_texts(e.parts@))
                &&& x.name == e.parts@.last()->0@
                &&& x.size == e.len as i64
                &&& x.mtime == match e.mtime_secs {
                    Some(s) => s as i64,
                    None => 0,
                }
            }),
        forall|i: int, ext: Seq<char>|
            0 <= i < entries.len() && all_text(entries[i].parts@) && entries[i].parts@.len() > 0
                && #[trigger] has_extension(entries[i].parts@.last()->0@, ext) && (picture_extensions().contains(ext)
                || video_extensions().contains(ext)) ==> exists|k: int|
                0 <= k < walked(entries).len() && (#[trigger] walked(entries)[k]).rel == joined(
                    part_texts(entries[i].parts@),
                ),
{
    let n = entries.len() as int;
    lemma_found(entries, n);
    let w = walked(entries);
    assert forall|k: int| 0 <= k < w.len() implies ({
        let x = #[trigger] w[k];
        let e = entries[x.source as int];
        &&& x.source < entries.len()
        &&& describes(x.rel, x.name, x.ext, x.media_type)
        &&& x.rel == joined(part_texts(e.parts@))
        &&& x.name == e.parts@.last()->0@
        &&& x.size == e.len as i64
        &&& x.mtime == match e.mtime_secs {
            Some(s) => s as i64,
            None => 0,
        }
    }) by {
        lemma_entry(entries[w[k].source as int], w[k].source as int);
    }
    assert forall|i: int, ext: Seq<char>|
        0 <= i < entries.len() && all_text(entries[i].parts@) && entries[i].parts@.len() > 0
            && #[trigger] has_extension(entries[i].parts@.last()->0@, ext) && (picture_extensions().contains(ext)
            || video_extensions().contains(ext)) implies exists|k: int|
        0 <= k < w.len() && (#[trigger] w[k]).rel == joined(part_texts(entries[i].parts@)) by {
        let e = entries[i];
        let name = e.parts@.last()->0@;
        let parts = part_texts(e.parts@);
        lemma_name_extension(name);
        lemma_one_extension(name, ext, name_extension(name)->0);
        law_kind_goes_by_extension(ext);
        assert(parts.last() == name);
        assert(name.len() > 0) by {
            let (stem, tail) = choose|stem: Seq<char>, tail: Seq<char>|
                name == #[trigger] (stem + seq!['.'] + tail) && stem.len() > 0 && !tail.contains('.') && ext
                    == ascii_lowered(tail);
            assert(name.len() == stem.len() + 1 + tail.len());
        }
        if parts.len() > 1 {
            assert(joined(parts) == joined(parts.drop_last()) + seq!['/'] + name);
        } else {
            assert(parts[0] == name);
        }
        assert(joined(parts).len() > 0);
        assert(entry_file(entries[i], i) is Some);
        assert(w.contains(entry_file(entries[i], i)->0));
        let k = choose|k: int| 0 <= k < w.len() && w[k] == entry_file(entries[i], i)->0;
        assert(w[k].rel == joined(parts));
    }
}

proof fn lemma_one_extension(name: Seq<char>, a: Seq<char>, b: Seq<char>)
    requires
        has_extension(name, a),
        has_extension(name, b),
    ensures
        a == b,
{
    let (s, t) = choose|stem: Seq<char>, tail: Seq<char>|
        name == #[trigger] (stem + seq!['.'] + tail) && stem.len() > 0 && !tail.contains('.') && a == ascii_lowered(
            tail,
        );
    let (x, y) = choose|stem: Seq<char>, tail: Seq<char>|
        name == #[trigger] (stem + seq!['.'] + tail) && stem.len() > 0 && !tail.contains('.') && b == ascii_lowered(
            tail,
        );
    assert(t =~= name.skip(s.len() as int + 1));
    assert(y =~= name.skip(x.len() as int + 1));
    if s.len() < x.len() {
        let i = x.len() - s.len() - 1;
        assert(name[x.len() as int] == '.');
        assert(t[i] == name[s.len() + 1 + i]);
        assert(t.contains(t[i]));
    } else if x.len() < s.len() {
        let i = s.len() - x.len() - 1;
        assert(name[s.len() as int] == '.');
        assert(y[i] == name[x.len() + 1 + i]);
        assert(y.contains(y[i]));
    }
}

// ---------------------------------------------------------------------------
// The rows after a scan.

/// Whether a row was not there before, or was there under a path that no file has.
pub open spec fn is_new_or_moved(files: Seq<FileRec>, d: Seq<DiskRec>, i: int) -> bool {
    i >= files.len() || !met(d, files[i].rel_path)
}

proof fn lemma_row_comes_from_file(
    files: Seq<FileRec>,
    d: Seq<DiskRec>,
    hs: Seq<Option<u64>>,
    now: i64,
    i: int,
)
    requires
        file_ids_grow(files),
        live_paths_differ(files),
        rels_differ(d),
        0 <= i < scanned(files, d, hs, now).len(),
        !scanned(files, d, hs, now)[i].is_deleted,
        is_new_or_moved(files, d, i),
        i < files.len() ==> !files[i].is_deleted,
    ensures
        exists|j: int|
            0 <= j < d.len() && ({
                let r = scanned(files, d, hs, now)[i];
                let x = #[trigger] d[j];
                r.rel_path == x.rel && r.name == x.name && r.ext == x.ext && r.media_type == x.media_type && r.size
                    == x.size && r.mtime == x.mtime
            }),
{
    let f = appeared(files, d);
    let pairs = renames(files, d, hs);
    let all = scanned(files, d, hs, now);
    let new = added(files, d, hs);
    lemma_missing(files, d);
    lemma_apart(missing(files, d), f, hs);
    lemma_appeared_from(files, d);
    lemma_left_over(f, pairs, f.len() as int);
    if i < files.len() {
        assert(all[i] == fate(files[i], d, f, pairs));
        lemma_moved_to(pairs, files[i].id);
        let k = choose|k: int| #[trigger]
            is_pair_of(pairs, files[i].id, k) && pairs[k].1 == moved_to(pairs, files[i].id)->0;
        assert(0 <= pairs[k].1 < f.len());
        assert(d.contains(f[pairs[k].1]));
        let j = choose|j: int| 0 <= j < d.len() && d[j] == f[pairs[k].1];
        assert(d[j].rel == all[i].rel_path);
    } else {
        let q = i - files.len();
        assert(all[i] == new_rows(files, new, now)[q]);
        assert(f.contains(new[q]));
        let a = choose|a: int| 0 <= a < f.len() && f[a] == new[q];
        assert(d.contains(f[a]));
        let j = choose|j: int| 0 <= j < d.len() && d[j] == new[q];
        assert(d[j].rel == all[i].rel_path);
    }
}

/// After a scan a row that is new, or that moved with its file, has the name, the
/// extension and the kind of the file at its path, and its size and its time.
pub proof fn law_rows_describe_their_files(
    files: Seq<FileRec>,
    entries: Seq<DiskEntry>,
    hs: Seq<Option<u64>>,
    now: i64,
    i: int,
)
    requires
        file_ids_grow(files),
        live_paths_differ(files),
        rels_differ(walked(entries)),
        entries.len() <= usize::MAX,
        0 <= i < scanned(files, walked(entries), hs, now).len(),
        !scanned(files, walked(entries), hs, now)[i].is_deleted,
        is_new_or_moved(files, walked(entries), i),
        i < files.len() ==> !files[i].is_deleted,
    ensures
        ({
            let r = scanned(files, walked(entries), hs, now)[i];
            &&& describes(r.rel_path, r.name, r.ext, r.media_type)
            &&& exists|k: int|
                0 <= k < entries.len() && r.rel_path == joined(part_texts((#[trigger] entries[k]).parts@)) && r.size
                    == entries[k].len as i64 && r.mtime == match entries[k].mtime_secs {
                    Some(s) => s as i64,
                    None => 0,
                }
        }),
{
    let d = walked(entries);
    lemma_row_comes_from_file(files, d, hs, now, i);
    let r = scanned(files, d, hs, now)[i];
    let j = choose|j: int|
        0 <= j < d.len() && r.rel_path == (#[trigger] d[j]).rel && r.name == d[j].name && r.ext == d[j].ext
            && r.media_type == d[j].media_type && r.size == d[j].size && r.mtime == d[j].mtime;
    law_walk_sees_every_media_file(entries);
    let e = entries[d[j].source as int];
    assert(r.rel_path == joined(part_texts(e.parts@)));
}

/// Where every live row described its file before a scan, every live row does after it.
pub proof fn law_index_keeps_describing_files(
    files: Seq<FileRec>,
    entries: Seq<DiskEntry>,
    hs: Seq<Option<u64>>,
    now: i64,
    i: int,
)
    requires
        file_ids_grow(files),
        live_paths_differ(files),
        rels_differ(walked(entries)),
        entries.len() <= usize::MAX,
        forall|k: int|
            0 <= k < files.len() && !(#[trigger] files[k]).is_deleted ==> describes(
                files[k].rel_path,
                files[k].name,
                files[k].ext,
                files[k].media_type,
            ),
        0 <= i < scanned(files, walked(entries), hs, now).len(),
        !scanned(files, walked(entries), hs, now)[i].is_deleted,
    ensures
        ({
            let r = scanned(files, walked(entries), hs, now)[i];
            describes(r.rel_path, r.name, r.ext, r.media_type)
        }),
{
    let d = walked(entries);
    if is_new_or_moved(files, d, i) {
        if i < files.len() {
            assert(!files[i].is_deleted) by {
                assert(scanned(files, d, hs, now)[i] == fate(files[i], d, appeared(files, d), renames(files, d, hs)));
            }
        }
        law_rows_describe_their_files(files, entries, hs, now, i);
    } else {
        assert(scanned(files, d, hs, now)[i] == fate(files[i], d, appeared(files, d), renames(files, d, hs)));
    }
}

/// A file in its place whose size or time is new loses its hash and its thumbnail, which
/// have to be made again; nothing else of its row changes.
pub proof fn law_changed_file_is_looked_at_again(
    files: Seq<FileRec>,
    d: Seq<DiskRec>,
    hs: Seq<Option<u64>>,
    now: i64,
    i: int,
    j: int,
)
    requires
        rels_differ(d),
        0 <= i < files.len(),
        !files[i].is_deleted,
        0 <= j < d.len(),
        d[j].rel == files[i].rel_path,
    ensures
        ({
            let was = files[i];
            let r = scanned(files, d, hs, now)[i];
            &&& !r.is_deleted
            &&& r.id == was.id && r.rel_path == was.rel_path && r.name == was.name && r.ext == was.ext && r.media_type
                == was.media_type
            &&& r.added_at == was.added_at && r.resume_ms == was.resume_ms && r.width == was.width && r.height
                == was.height && r.duration_ms == was.duration_ms
            &&& r.size == d[j].size && r.mtime == d[j].mtime
            &&& d[j].size != was.size || d[j].mtime != was.mtime ==> r.hash is None && r.thumb_state == 0
            &&& d[j].size == was.size && d[j].mtime == was.mtime ==> r.hash == was.hash && r.thumb_state
                == was.thumb_state
        }),
{
    lemma_met_as(d, j);
    assert(scanned(files, d, hs, now)[i] == fate(files[i], d, appeared(files, d), renames(files, d, hs)));
}

/// A row whose file is found nowhere is marked as deleted, and stays as it is otherwise.
/// One whose file moved keeps its id, its date, its hash, its thumbnail and its position
/// of playback. Rows come after the others for files that no row is for; they have
/// nothing but what the walk saw, and the time of the scan.
pub proof fn law_what_becomes_of_rows(
    files: Seq<FileRec>,
    d: Seq<DiskRec>,
    hs: Seq<Option<u64>>,
    now: i64,
    i: int,
)
    requires
        0 <= i < scanned(files, d, hs, now).len(),
    ensures
        ({
            let r = scanned(files, d, hs, now)[i];
            &&& scanned(files, d, hs, now).len() >= files.len()
            &&& i < files.len() && r.is_deleted ==> r == (FileRec { is_deleted: true, ..files[i] })
            &&& i < files.len() && !r.is_deleted ==> r.id == files[i].id && r.added_at == files[i].added_at && r.resume_ms
                == files[i].resume_ms && r.width == files[i].width && r.height == files[i].height && r.duration_ms
                == files[i].duration_ms && !files[i].is_deleted
            &&& i < files.len() && !r.is_deleted && !met(d, files[i].rel_path) ==> r.hash == files[i].hash
                && r.thumb_state == files[i].thumb_state
            &&& i >= files.len() ==> !r.is_deleted && r.added_at == now && r.hash is None && r.thumb_state == 0
                && r.width is None && r.height is None && r.duration_ms is None && r.resume_ms is None
        }),
{
    let all = scanned(files, d, hs, now);
    if i < files.len() {
        assert(all[i] == fate(files[i], d, appeared(files, d), renames(files, d, hs)));
    } else {
        assert(all[i] == new_rows(files, added(files, d, hs), now)[i - files.len()]);
    }
}

// ---------------------------------------------------------------------------
// Which row belongs to which file.

/// A row is taken for that of a file only where both have one size, and either one name,
/// or the content of the file has the hash of the row, or the row has no hash and both
/// have one extension and one time. An empty file goes by its name alone.
pub proof fn law_row_goes_to_its_file(m: Seq<MissingRec>, f: Seq<DiskRec>, hs: Seq<Option<u64>>, k: int)
    requires
        0 <= k < rematch(m, f, hs).len(),
    ensures
        ({
            let row = m[rematch(m, f, hs)[k].0];
            let file = f[rematch(m, f, hs)[k].1];
            let h = hs[rematch(m, f, hs)[k].1];
            &&& row.size == file.size
            &&& ({
                ||| row.name == file.name && row.ext == file.ext
                ||| file.size != 0 && h is Some && row.hash == Some(h->0 as i64)
                ||| file.size != 0 && row.hash is None && row.ext == file.ext && row.mtime == file.mtime
            })
        }),
{
    law_match_is_justified(m, f, hs);
    law_match_keeps_content(m, f, hs, k);
    assert(justified(m, f, hs, rematch(m, f, hs), k));
}

/// A row and a file that have one name, one extension and one size are never both left
/// over, nor are a row and a file whose content has its hash.
pub proof fn law_nothing_that_fits_is_left_over(
    m: Seq<MissingRec>,
    f: Seq<DiskRec>,
    hs: Seq<Option<u64>>,
    i: int,
    j: int,
)
    requires
        0 <= i < m.len(),
        0 <= j < f.len(),
        m[i].size == f[j].size,
        ({
            ||| m[i].name == f[j].name && m[i].ext == f[j].ext
            ||| f[j].size != 0 && hs[j] is Some && m[i].hash == Some(hs[j]->0 as i64)
        }),
    ensures
        exists|k: int|
            0 <= k < rematch(m, f, hs).len() && ((#[trigger] rematch(m, f, hs)[k]).0 == i || rematch(m, f, hs)[k].1 == j),
{
    let pairs = rematch(m, f, hs);
    if same_name(m[i], f[j]) {
        law_same_name_is_not_left_over(m, f, hs, i, j);
    } else {
        assert(same_content(m[i], f[j], hs[j]));
        law_same_content_is_not_left_over(m, f, hs, i, j);
    }
    if row_paired(pairs, pairs.len() as int, i) {
        let k = choose|k: int| 0 <= k < pairs.len() && (#[trigger] pairs[k]).0 == i;
        assert(pairs[k].0 == i);
    } else {
        assert(file_paired(pairs, pairs.len() as int, j));
        let k = choose|k: int| 0 <= k < pairs.len() && (#[trigger] pairs[k]).1 == j;
        assert(pairs[k].1 == j);
    }
}

} // verus!
