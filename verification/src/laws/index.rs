//! The rows of the index: what a change does to a row, and what it leaves alone.

use vstd::prelude::*;
use crate::db::{deleted, file_ids_grow, inserted, limited, live, moved, moved_all, touched, waiting, waits};
use crate::db::queue::{id_path_kinds, id_path_videos, id_paths};
use crate::db::rows::rows_ok;
use crate::db::schema::stored_version;
use crate::db::{has_file, has_tag, shown_recs, DbError, FileRec, NewFile, Pending, RenameRec, Tables, TagRec};
use crate::media::MediaType;
use crate::order::{increasing, same_nocase};
use super::texts::{law_numbers_are_read, law_small_letters, same_letters};
use crate::text::decimal;
use crate::seqs::{lemma_filter_from, lemma_filter_increasing};
use crate::workers::{with_dims, with_duration, with_hash, with_thumb, ThumbFacts};

verus! {

/// Whether two rows say the same of where a file is and what it is called.
pub open spec fn same_place(a: FileRec, b: FileRec) -> bool {
    &&& a.id == b.id
    &&& a.rel_path == b.rel_path
    &&& a.name == b.name
    &&& a.ext == b.ext
    &&& a.media_type == b.media_type
    &&& a.added_at == b.added_at
    &&& a.is_deleted == b.is_deleted
}

/// Whether two rows say the same of what was found in a file.
pub open spec fn same_measures(a: FileRec, b: FileRec) -> bool {
    &&& a.width == b.width
    &&& a.height == b.height
    &&& a.duration_ms == b.duration_ms
    &&& a.resume_ms == b.resume_ms
}

/// A file in its place gets the size and the time that were found. Where neither is
/// new its row stays as it was; else its hash and its thumbnail are made again, and
/// the rest stays. Other rows stay.
pub proof fn law_touching_a_row(files: Seq<FileRec>, id: i64, size: i64, mtime: i64, k: int)
    requires
        0 <= k < files.len(),
    ensures
        touched(files, id, size, mtime).len() == files.len(),
        ({
            let a = files[k];
            let b = touched(files, id, size, mtime)[k];
            &&& a.id != id ==> b == a
            &&& a.id == id ==> b.size == size && b.mtime == mtime && same_place(a, b) && same_measures(a, b)
            &&& a.id == id && a.size == size && a.mtime == mtime ==> b == a
            &&& a.id == id && (a.size != size || a.mtime != mtime) ==> b.hash is None && b.thumb_state == 0
        }),
{
}

/// Whether a row is where a move took it, and tells the rest as it did before.
pub open spec fn carried(a: FileRec, b: FileRec, m: RenameRec) -> bool {
    &&& b.rel_path == m.rel_path
    &&& b.name == m.name
    &&& b.ext == m.ext
    &&& b.media_type == m.media_type
    &&& b.size == m.size
    &&& b.mtime == m.mtime
    &&& b.id == a.id
    &&& b.added_at == a.added_at
    &&& b.hash == a.hash
    &&& b.thumb_state == a.thumb_state
    &&& b.is_deleted == a.is_deleted
    &&& same_measures(a, b)
}

/// A move takes its own row to its new place and no other.
pub proof fn law_moving_a_row(files: Seq<FileRec>, m: RenameRec, k: int)
    requires
        0 <= k < files.len(),
    ensures
        moved(files, m).len() == files.len(),
        files[k].id != m.id ==> moved(files, m)[k] == files[k],
        files[k].id == m.id ==> carried(files[k], moved(files, m)[k], m),
{
}

/// Whether the first `n` moves have none of a row after position `i`.
pub open spec fn none_after(moves: Seq<RenameRec>, i: int, n: int, id: i64) -> bool {
    forall|j: int| i < j < n ==> (#[trigger] moves[j]).id != id
}

/// A row without a move stays where it was.
pub proof fn law_row_without_a_move_stays(files: Seq<FileRec>, moves: Seq<RenameRec>, n: int, k: int)
    requires
        0 <= n <= moves.len(),
        0 <= k < files.len(),
        moved_all(files, moves, n) is Some,
        none_after(moves, -1, n, files[k].id),
    ensures
        moved_all(files, moves, n)->0[k] == files[k],
    decreases n,
{
    if n > 0 {
        law_row_without_a_move_stays(files, moves, n - 1, k);
        lemma_moves_keep(files, moves, n - 1, k);
        law_moving_a_row(moved_all(files, moves, n - 1)->0, moves[n - 1], k);
    }
}

/// After moves one after the other a row is where the last of its moves took it.
pub proof fn law_moves_take_effect(files: Seq<FileRec>, moves: Seq<RenameRec>, i: int, n: int, k: int)
    requires
        0 <= i < n <= moves.len(),
        0 <= k < files.len(),
        moved_all(files, moves, n) is Some,
        moves[i].id == files[k].id,
        none_after(moves, i, n, files[k].id),
    ensures
        moved_all(files, moves, n)->0.len() == files.len(),
        carried(files[k], moved_all(files, moves, n)->0[k], moves[i]),
    decreases n,
{
    let before = moved_all(files, moves, n - 1)->0;
    lemma_moves_keep(files, moves, n - 1, k);
    law_moving_a_row(before, moves[n - 1], k);
    if i < n - 1 {
        assert(moves[n - 1].id != files[k].id);
        law_moves_take_effect(files, moves, i, n - 1, k);
    }
}

/// Moves leave alone what is no matter of the place.
proof fn lemma_moves_keep(files: Seq<FileRec>, moves: Seq<RenameRec>, n: int, k: int)
    requires
        0 <= n <= moves.len(),
        0 <= k < files.len(),
        moved_all(files, moves, n) is Some,
    ensures
        ({
            let a = files[k];
            let b = moved_all(files, moves, n)->0[k];
            &&& moved_all(files, moves, n)->0.len() == files.len()
            &&& b.id == a.id && b.added_at == a.added_at && b.hash == a.hash && b.thumb_state == a.thumb_state
            &&& b.is_deleted == a.is_deleted && same_measures(a, b)
        }),
    decreases n,
{
    if n > 0 {
        lemma_moves_keep(files, moves, n - 1, k);
    }
}

/// Whether a live row of a table other than the one with an id is at a path.
pub open spec fn other_is_at(files: Seq<FileRec>, path: Seq<char>, id: i64, j: int) -> bool {
    0 <= j < files.len() && !files[j].is_deleted && files[j].id != id && files[j].rel_path == path
}

/// Moves are refused, all of them, where one is of a live row to the path that
/// another live row has by that time; else none is refused.
pub proof fn law_moves_to_a_taken_path_are_refused(files: Seq<FileRec>, moves: Seq<RenameRec>, n: int)
    requires
        0 <= n < moves.len(),
        moved_all(files, moves, n) is Some,
    ensures
        ({
            let now = moved_all(files, moves, n)->0;
            let m = moves[n];
            moved_all(files, moves, n + 1) is None <==> (exists|k: int|
                0 <= k < now.len() && (#[trigger] now[k]).id == m.id && !now[k].is_deleted) && (exists|j: int|
                #[trigger]
                other_is_at(now, m.rel_path, m.id, j))
        }),
{
    let now = moved_all(files, moves, n)->0;
    let m = moves[n];
    if exists|j: int| #[trigger] other_is_at(now, m.rel_path, m.id, j) {
        let j = choose|j: int| #[trigger] other_is_at(now, m.rel_path, m.id, j);
        assert(!now[j].is_deleted);
        assert(crate::db::path_taken(now, m.rel_path, m.id));
    }
    if crate::db::path_taken(now, m.rel_path, m.id) {
        let j = choose|j: int|
            0 <= j < now.len() && !(#[trigger] now[j]).is_deleted && now[j].rel_path == m.rel_path && now[j].id
                != m.id;
        assert(other_is_at(now, m.rel_path, m.id, j));
    }
}

/// One move that is refused has all later ones refused with it.
pub proof fn law_moves_are_made_together(files: Seq<FileRec>, moves: Seq<RenameRec>, i: int, n: int)
    requires
        0 <= i <= n <= moves.len(),
        moved_all(files, moves, i) is None,
    ensures
        moved_all(files, moves, n) is None,
    decreases n,
{
    if i < n {
        law_moves_are_made_together(files, moves, i, n - 1);
    }
}

/// The rows of files that are gone are marked and stay in the table as they were;
/// other rows stay.
pub proof fn law_rows_are_marked(files: Seq<FileRec>, ids: Seq<i64>, k: int)
    requires
        0 <= k < files.len(),
    ensures
        deleted(files, ids).len() == files.len(),
        ({
            let a = files[k];
            let b = deleted(files, ids)[k];
            &&& !ids.contains(a.id) ==> b == a
            &&& ids.contains(a.id) ==> b.is_deleted && b.id == a.id && b.rel_path == a.rel_path && b.name == a.name
                && b.ext == a.ext && b.media_type == a.media_type && b.added_at == a.added_at && b.size == a.size
                && b.mtime == a.mtime && b.hash == a.hash && b.thumb_state == a.thumb_state && same_measures(a, b)
        }),
{
}

/// A new file gets a row at the end of the table, with an id that no row has, and
/// with nothing found in it yet. It is refused only where a live row has its path
/// or no id is left.
pub proof fn law_new_row(files: Seq<FileRec>, f: NewFile)
    requires
        file_ids_grow(files),
    ensures
        inserted(files, f) matches Ok(after) ==> {
            &&& after.len() == files.len() + 1
            &&& forall|k: int| 0 <= k < files.len() ==> #[trigger] after[k] == files[k] && files[k].id < after.last().id
            &&& after.last().rel_path == f.rel_path@ && after.last().name == f.name@ && after.last().ext == f.ext@
            &&& after.last().media_type == f.media_type && after.last().size == f.size && after.last().mtime == f.mtime
            &&& after.last().added_at == f.added_at
            &&& after.last().width is None && after.last().height is None && after.last().duration_ms is None
            &&& after.last().resume_ms is None && after.last().hash is None && after.last().thumb_state == 0
            &&& !after.last().is_deleted
        },
        inserted(files, f) == Err::<Seq<FileRec>, DbError>(DbError::IdsExhausted) <==> files.len() > 0
            && files.last().id == i64::MAX,
        !(files.len() > 0 && files.last().id == i64::MAX) ==> (inserted(files, f) == Err::<Seq<FileRec>, DbError>(
            DbError::Conflict,
        ) <==> exists|k: int|
            0 <= k < files.len() && !(#[trigger] files[k]).is_deleted && files[k].rel_path == f.rel_path@),
        inserted(files, f) is Err ==> inserted(files, f) == Err::<Seq<FileRec>, DbError>(DbError::Conflict)
            || inserted(files, f) == Err::<Seq<FileRec>, DbError>(DbError::IdsExhausted),
{
    if let Ok(after) = inserted(files, f) {
        assert forall|k: int| 0 <= k < files.len() implies #[trigger] after[k] == files[k] && files[k].id
            < after.last().id by {
            assert(files[k].id <= files.last().id);
        }
    }
}

/// The live rows are those that are not marked, in the order of the table.
pub proof fn law_live_rows(files: Seq<FileRec>, r: FileRec)
    ensures
        live(files).contains(r) <==> files.contains(r) && !r.is_deleted,
        file_ids_grow(files) ==> file_ids_grow(live(files)),
{
    let keep = |r: FileRec| !r.is_deleted;
    lemma_filter_from(files, keep);
    if file_ids_grow(files) {
        lemma_grows_filtered(files, keep);
    }
}

/// Rows that are left out leave the others in their order.
proof fn lemma_grows_filtered(files: Seq<FileRec>, keep: spec_fn(FileRec) -> bool)
    requires
        file_ids_grow(files),
    ensures
        file_ids_grow(files.filter(keep)),
{
    let lt = |a: FileRec, b: FileRec| a.id < b.id;
    assert(increasing(files, lt));
    lemma_filter_increasing(files, keep, lt);
    let f = files.filter(keep);
    assert forall|i: int, j: int| 0 <= i < j < f.len() implies (#[trigger] f[i]).id < (#[trigger] f[j]).id by {
        assert(lt(f[i], f[j]));
    }
}

/// A row that is marked waits for nothing. A live one waits for a hash, a height
/// and, where it is a video, a length for as long as it has none; and for a
/// thumbnail until one is made or cannot be made.
pub proof fn law_what_a_row_waits_for(r: FileRec, p: Pending)
    ensures
        r.is_deleted ==> !waits(p, r),
        waits(Pending::Hash, r) <==> !r.is_deleted && r.hash is None,
        waits(Pending::Resolution, r) <==> !r.is_deleted && r.height is None,
        waits(Pending::Duration, r) <==> !r.is_deleted && r.duration_ms is None && r.media_type == MediaType::Video,
        waits(Pending::Thumb, r) <==> !r.is_deleted && (r.thumb_state == 0 || r.thumb_state == 3),
{
}

/// The next rows of a queue are rows of the table that wait, each of them once, in
/// the order of their ids; no more than were asked for, and none is passed over.
/// Fewer come only where no other row waits.
pub proof fn law_queue_goes_by_id(files: Seq<FileRec>, p: Pending, limit: int, r: FileRec)
    requires
        file_ids_grow(files),
    ensures
        ({
            let next = limited(waiting(files, p), limit);
            &&& file_ids_grow(next)
            &&& next.contains(r) ==> files.contains(r) && waits(p, r)
            &&& limit >= 0 ==> next.len() <= limit
            &&& files.contains(r) && waits(p, r) && !next.contains(r) ==> 0 <= limit && next.len() == limit && forall|
                k: int,
            |
                0 <= k < next.len() ==> (#[trigger] next[k]).id < r.id
        }),
{
    let keep = |r: FileRec| waits(p, r);
    let all = waiting(files, p);
    let next = limited(all, limit);
    lemma_filter_from(files, keep);
    lemma_grows_filtered(files, keep);
    if next.contains(r) {
        let k = choose|k: int| 0 <= k < next.len() && next[k] == r;
        assert(all[k] == r);
        assert(all.contains(r));
    }
    if files.contains(r) && waits(p, r) && !next.contains(r) {
        assert(all.contains(r));
        let m = choose|m: int| 0 <= m < all.len() && all[m] == r;
        if m < next.len() {
            assert(next[m] == r);
        }
        assert forall|k: int| 0 <= k < next.len() implies (#[trigger] next[k]).id < r.id by {
            assert(next[k] == all[k]);
        }
    }
}

/// What a pass found is written into the row of its file and no other: of a
/// thumbnail that was made its state, and the measures that were found with it.
pub proof fn law_thumbnail_is_recorded(files: Seq<FileRec>, id: i64, made: Option<ThumbFacts>, k: int)
    requires
        0 <= k < files.len(),
    ensures
        with_thumb(files, id, made).len() == files.len(),
        ({
            let a = files[k];
            let b = with_thumb(files, id, made)[k];
            &&& a.id != id ==> b == a
            &&& a.id == id ==> same_place(a, b) && same_content_facts(a, b) && b.resume_ms == a.resume_ms
            &&& a.id == id && made is None ==> b.thumb_state == 2 && same_measures(a, b)
            &&& a.id == id && made is Some ==> b.thumb_state == 1
            &&& a.id == id && made is Some && made->0.duration_ms is Some ==> b.duration_ms == made->0.duration_ms
            &&& a.id == id && made is Some && made->0.duration_ms is None ==> b.duration_ms == a.duration_ms
            &&& a.id == id && made is Some && made->0.dims is Some ==> b.width == Some((made->0.dims->0).0) && b.height
                == Some((made->0.dims->0).1)
            &&& a.id == id && made is Some && made->0.dims is None ==> b.width == a.width && b.height == a.height
            &&& a.id == id ==> !waits(Pending::Thumb, b)
        }),
{
}

/// Whether two rows say the same of what tells contents apart.
pub open spec fn same_content_facts(a: FileRec, b: FileRec) -> bool {
    a.size == b.size && a.mtime == b.mtime && a.hash == b.hash
}

/// A hash is written into the row of its file; the row waits for it no longer. One
/// that could not be taken changes nothing.
pub proof fn law_hash_is_recorded(files: Seq<FileRec>, id: i64, hash: Option<u64>, k: int)
    requires
        0 <= k < files.len(),
    ensures
        with_hash(files, id, hash).len() == files.len(),
        hash is None ==> with_hash(files, id, hash) == files,
        ({
            let a = files[k];
            let b = with_hash(files, id, hash)[k];
            &&& a.id != id ==> b == a
            &&& a.id == id ==> same_place(a, b) && same_measures(a, b) && b.thumb_state == a.thumb_state && b.size
                == a.size && b.mtime == a.mtime
            &&& a.id == id && hash is Some ==> b.hash == Some(hash->0 as i64) && !waits(Pending::Hash, b)
        }),
{
}

/// A length is written into the row of its file, or that there is none to be found;
/// the row waits for it no longer.
pub proof fn law_length_is_recorded(files: Seq<FileRec>, id: i64, ms: Option<i64>, k: int)
    requires
        0 <= k < files.len(),
    ensures
        with_duration(files, id, ms).len() == files.len(),
        ({
            let a = files[k];
            let b = with_duration(files, id, ms)[k];
            &&& a.id != id ==> b == a
            &&& a.id == id ==> same_place(a, b) && same_content_facts(a, b) && b.thumb_state == a.thumb_state && b.width
                == a.width && b.height == a.height && b.resume_ms == a.resume_ms && !waits(Pending::Duration, b)
            &&& a.id == id && ms is Some ==> b.duration_ms == ms
            &&& a.id == id && ms is None ==> b.duration_ms == Some(-1i64)
        }),
{
}

/// A width and a height are written into the row of their file, or that there are
/// none to be found; the row waits for them no longer.
pub proof fn law_measures_are_recorded(files: Seq<FileRec>, id: i64, dims: Option<(i64, i64)>, k: int)
    requires
        0 <= k < files.len(),
    ensures
        with_dims(files, id, dims).len() == files.len(),
        ({
            let a = files[k];
            let b = with_dims(files, id, dims)[k];
            &&& a.id != id ==> b == a
            &&& a.id == id ==> same_place(a, b) && same_content_facts(a, b) && b.thumb_state == a.thumb_state
                && b.duration_ms == a.duration_ms && b.resume_ms == a.resume_ms && !waits(Pending::Resolution, b)
            &&& a.id == id && dims is Some ==> b.width == Some((dims->0).0) && b.height == Some((dims->0).1)
            &&& a.id == id && dims is None ==> b.width == Some(-1i64) && b.height == Some(-1i64)
        }),
{
}

/// Rows make an index where their ids and their pairs grow, no two live files have one
/// path, no two tags have names that differ in the case of letters alone, and every pair
/// is of a file and a tag that there are; and only there.
pub proof fn law_rules_of_the_tables(files: Seq<FileRec>, tags: Seq<TagRec>, links: Seq<(i64, i64)>)
    ensures
        rows_ok(files, tags, links) <==> {
            &&& forall|i: int, j: int| 0 <= i < j < files.len() ==> (#[trigger] files[i]).id < (#[trigger] files[j]).id
            &&& forall|i: int, j: int|
                0 <= i < j < files.len() && (#[trigger] files[i]).rel_path == (#[trigger] files[j]).rel_path
                    ==> files[i].is_deleted || files[j].is_deleted
            &&& forall|i: int, j: int| 0 <= i < j < tags.len() ==> (#[trigger] tags[i]).id < (#[trigger] tags[j]).id
            &&& forall|i: int, j: int|
                0 <= i < j < tags.len() ==> !same_letters((#[trigger] tags[i]).name, (#[trigger] tags[j]).name)
            &&& forall|i: int, j: int|
                0 <= i < j < links.len() ==> (#[trigger] links[i]).0 < (#[trigger] links[j]).0 || (links[i].0
                    == links[j].0 && links[i].1 < links[j].1)
            &&& forall|k: int| 0 <= k < links.len() ==> is_of_rows(files, tags, #[trigger] links[k])
        },
{
    let t = Tables { files, tags, links: links.to_set() };
    assert forall|i: int, j: int| 0 <= i < j < tags.len() implies same_letters(
        (#[trigger] tags[i]).name,
        (#[trigger] tags[j]).name,
    ) == same_nocase(tags[i].name, tags[j].name) by {
        law_small_letters(tags[i].name, tags[j].name);
    }
    if rows_ok(files, tags, links) {
        assert forall|k: int| 0 <= k < links.len() implies is_of_rows(files, tags, #[trigger] links[k]) by {
            assert(t.links.contains((links[k].0, links[k].1)));
        }
    }
    if forall|k: int| 0 <= k < links.len() ==> is_of_rows(files, tags, #[trigger] links[k]) {
        assert forall|f: i64, g: i64| #[trigger] t.links.contains((f, g)) implies has_file(files, f) && has_tag(
            tags,
            g,
        ) by {
            let k = choose|k: int| 0 <= k < links.len() && links[k] == (f, g);
            assert(is_of_rows(files, tags, links[k]));
        }
    }
}

/// Whether a pair is of a file and a tag that there are.
pub open spec fn is_of_rows(files: Seq<FileRec>, tags: Seq<TagRec>, l: (i64, i64)) -> bool {
    &&& exists|i: int| 0 <= i < files.len() && (#[trigger] files[i]).id == l.0
    &&& exists|i: int| 0 <= i < tags.len() && (#[trigger] tags[i]).id == l.1
}

/// Storage that says nothing of its version, or nothing that is a number, is of the first
/// one; else it is of the one that it says.
pub proof fn law_version_of_storage(text: Seq<char>, v: i64)
    ensures
        stored_version(None) == 0,
        stored_version(Some(decimal(v as int))) == v,
        text.len() == 0 ==> stored_version(Some(text)) == 0,
        (exists|k: int| 0 < k < text.len() && !('0' <= #[trigger] text[k] <= '9')) ==> stored_version(Some(text)) == 0,
{
    law_numbers_are_read(v as int, i64::MIN as int, i64::MAX as int, text, 0);
    assert(text.len() == 0 ==> text =~= Seq::empty());
    if exists|k: int| 0 < k < text.len() && !('0' <= #[trigger] text[k] <= '9') {
        let k = choose|k: int| 0 < k < text.len() && !('0' <= #[trigger] text[k] <= '9');
        law_numbers_are_read(v as int, i64::MIN as int, i64::MAX as int, text, k);
    }
}

/// Rows are told of by their ids and their paths, and by their kinds where that is asked
/// for; tags by their ids and their names.
pub proof fn law_rows_are_told_of(rows: Seq<FileRec>, tags: Seq<TagRec>, k: int)
    ensures
        id_paths(rows).len() == rows.len(),
        id_path_kinds(rows).len() == rows.len(),
        id_path_videos(rows).len() == rows.len(),
        shown_recs(tags).len() == tags.len(),
        0 <= k < rows.len() ==> id_paths(rows)[k] == (rows[k].id, rows[k].rel_path),
        0 <= k < rows.len() ==> id_path_kinds(rows)[k] == (rows[k].id, rows[k].rel_path, rows[k].media_type),
        0 <= k < rows.len() ==> id_path_videos(rows)[k] == (
            rows[k].id,
            rows[k].rel_path,
            rows[k].media_type == MediaType::Video,
        ),
        0 <= k < tags.len() ==> shown_recs(tags)[k] == (tags[k].id, tags[k].name),
{
}

} // verus!
