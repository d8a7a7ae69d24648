//! The index of the media library: its tables, and the operations on them.
//!
//! A [`Db`] holds the rows of the `files`, `tags` and `file_tags` tables as
//! plain values. What stores them on disk loads the rows, runs an operation
//! here and writes the rows back.

use vstd::prelude::*;
use crate::order::{same_nocase, text_order};
use crate::text::ascii_lowered;

pub use crate::media::MediaType;
pub use self::query::{GalleryFile, SortKey};

pub mod query;
pub mod queue;
pub mod rows;
pub mod schema;
pub mod tags;

verus! {

broadcast use vstd::string::group_string_axioms;

// ---------------------------------------------------------------------------
// Rows.

/// A row of the `files` table.
pub struct FileRow {
    pub id: i64,
    /// The path below the media folder, with forward slashes.
    pub rel_path: String,
    pub name: String,
    pub ext: String,
    pub media_type: MediaType,
    pub size: i64,
    pub mtime: i64,
    pub added_at: i64,
    pub width: Option<i64>,
    pub height: Option<i64>,
    pub duration_ms: Option<i64>,
    pub resume_ms: Option<i64>,
    /// The content hash, once it has been computed.
    pub hash: Option<i64>,
    /// 0 none, 1 ready, 2 failed, 3 put off.
    pub thumb_state: i64,
    pub is_deleted: bool,
}

/// What a row of the `files` table says.
#[verifier::ext_equal]
pub struct FileRec {
    pub id: i64,
    pub rel_path: Seq<char>,
    pub name: Seq<char>,
    pub ext: Seq<char>,
    pub media_type: MediaType,
    pub size: i64,
    pub mtime: i64,
    pub added_at: i64,
    pub width: Option<i64>,
    pub height: Option<i64>,
    pub duration_ms: Option<i64>,
    pub resume_ms: Option<i64>,
    pub hash: Option<i64>,
    pub thumb_state: i64,
    pub is_deleted: bool,
}

impl View for FileRow {
    type V = FileRec;

    open spec fn view(&self) -> FileRec {
        FileRec {
            id: self.id,
            rel_path: self.rel_path@,
            name: self.name@,
            ext: self.ext@,
            media_type: self.media_type,
            size: self.size,
            mtime: self.mtime,
            added_at: self.added_at,
            width: self.width,
            height: self.height,
            duration_ms: self.duration_ms,
            resume_ms: self.resume_ms,
            hash: self.hash,
            thumb_state: self.thumb_state,
            is_deleted: self.is_deleted,
        }
    }
}

/// What a scan gives for a file that is new to the index.
pub struct NewFile<'a> {
    pub rel_path: &'a str,
    pub name: &'a str,
    pub ext: &'a str,
    pub media_type: MediaType,
    pub size: i64,
    pub mtime: i64,
    pub added_at: i64,
}

impl<'a> NewFile<'a> {
    /// The row that the file gets: its hash, its measures and its thumbnail are
    /// still to be found.
    pub open spec fn row(self, id: i64) -> FileRec {
        FileRec {
            id,
            rel_path: self.rel_path@,
            name: self.name@,
            ext: self.ext@,
            media_type: self.media_type,
            size: self.size,
            mtime: self.mtime,
            added_at: self.added_at,
            width: None,
            height: None,
            duration_ms: None,
            resume_ms: None,
            hash: None,
            thumb_state: 0,
            is_deleted: false,
        }
    }
}

/// A live row, as far as a scan needs it.
pub struct ActiveFile {
    pub id: i64,
    pub rel_path: String,
    pub size: i64,
    pub mtime: i64,
    /// `None` while the background pass has not reached the file.
    pub hash: Option<i64>,
}

/// What an [`ActiveFile`] says.
#[verifier::ext_equal]
pub struct ActiveRec {
    pub id: i64,
    pub rel_path: Seq<char>,
    pub size: i64,
    pub mtime: i64,
    pub hash: Option<i64>,
}

impl View for ActiveFile {
    type V = ActiveRec;

    open spec fn view(&self) -> ActiveRec {
        ActiveRec {
            id: self.id,
            rel_path: self.rel_path@,
            size: self.size,
            mtime: self.mtime,
            hash: self.hash,
        }
    }
}

/// The move of an existing row to a new path. The row keeps its id, and with it
/// its tags, its resume position, its date and its thumbnail.
pub struct RenameFile<'a> {
    pub id: i64,
    pub rel_path: &'a str,
    pub name: &'a str,
    pub ext: &'a str,
    pub media_type: MediaType,
    pub size: i64,
    pub mtime: i64,
}

/// What a [`RenameFile`] says.
#[verifier::ext_equal]
pub struct RenameRec {
    pub id: i64,
    pub rel_path: Seq<char>,
    pub name: Seq<char>,
    pub ext: Seq<char>,
    pub media_type: MediaType,
    pub size: i64,
    pub mtime: i64,
}

impl<'a> View for RenameFile<'a> {
    type V = RenameRec;

    open spec fn view(&self) -> RenameRec {
        RenameRec {
            id: self.id,
            rel_path: self.rel_path@,
            name: self.name@,
            ext: self.ext@,
            media_type: self.media_type,
            size: self.size,
            mtime: self.mtime,
        }
    }
}

/// A tag.
pub struct Tag {
    pub id: i64,
    pub name: String,
}

/// A row of the `tags` table.
pub struct TagRow {
    pub id: i64,
    pub name: String,
    pub created_at: i64,
}

/// What a row of the `tags` table says.
#[verifier::ext_equal]
pub struct TagRec {
    pub id: i64,
    pub name: Seq<char>,
    pub created_at: i64,
}

impl View for TagRow {
    type V = TagRec;

    open spec fn view(&self) -> TagRec {
        TagRec { id: self.id, name: self.name@, created_at: self.created_at }
    }
}

/// What the index holds: the rows of the tables in the order of their ids, and
/// the pairs of a file and a tag that it has.
#[verifier::ext_equal]
pub struct Tables {
    pub files: Seq<FileRec>,
    pub tags: Seq<TagRec>,
    pub links: Set<(i64, i64)>,
}

/// Why an operation on the index is refused.
#[derive(Debug, Clone, Copy, PartialEq, Eq, Structural)]
pub enum DbError {
    /// Two live files would have one path, or two tags one name.
    Conflict,
    /// There is no file or no tag with the id.
    NoSuchRow,
    /// The largest id is taken.
    IdsExhausted,
}

/// The index of the media library.
pub struct Db {
    files: Vec<FileRow>,
    tags: Vec<TagRow>,
    links: Vec<(i64, i64)>,
}

/// The records of a table.
pub open spec fn file_recs(v: Seq<FileRow>) -> Seq<FileRec> {
    v.map_values(|r: FileRow| r@)
}

/// The records of a table.
pub open spec fn tag_recs(v: Seq<TagRow>) -> Seq<TagRec> {
    v.map_values(|r: TagRow| r@)
}

// ---------------------------------------------------------------------------
// The rules of the tables.

/// The ids of the rows grow from row to row.
pub open spec fn file_ids_grow(files: Seq<FileRec>) -> bool {
    forall|i: int, j: int| 0 <= i < j < files.len() ==> (#[trigger] files[i]).id < (#[trigger] files[j]).id
}

/// The ids of the rows grow from row to row.
pub open spec fn tag_ids_grow(tags: Seq<TagRec>) -> bool {
    forall|i: int, j: int| 0 <= i < j < tags.len() ==> (#[trigger] tags[i]).id < (#[trigger] tags[j]).id
}

/// No two live rows have one path. Deleted rows may share a path with a live one.
pub open spec fn live_paths_differ(files: Seq<FileRec>) -> bool {
    forall|i: int, j: int|
        0 <= i < j < files.len() && !(#[trigger] files[i]).is_deleted && !(#[trigger] files[j]).is_deleted
            ==> files[i].rel_path != files[j].rel_path
}

/// Whether a row has the id.
pub open spec fn has_file(files: Seq<FileRec>, id: i64) -> bool {
    exists|i: int| 0 <= i < files.len() && (#[trigger] files[i]).id == id
}

/// Whether a live row other than `id` has the path.
pub open spec fn path_taken(files: Seq<FileRec>, path: Seq<char>, id: i64) -> bool {
    exists|i: int|
        0 <= i < files.len() && !(#[trigger] files[i]).is_deleted && files[i].rel_path == path
            && files[i].id != id
}

/// The live rows.
pub open spec fn live(files: Seq<FileRec>) -> Seq<FileRec> {
    files.filter(|r: FileRec| !r.is_deleted)
}

/// A row as a scan sees it.
pub open spec fn as_active(r: FileRec) -> ActiveRec {
    ActiveRec { id: r.id, rel_path: r.rel_path, size: r.size, mtime: r.mtime, hash: r.hash }
}

/// The files after the row with `id` was changed by `f`.
pub open spec fn updated(files: Seq<FileRec>, id: i64, f: spec_fn(FileRec) -> FileRec) -> Seq<FileRec> {
    files.map_values(
        |r: FileRec|
            if r.id == id {
                f(r)
            } else {
                r
            },
    )
}

/// The files after the one with `id` was found with this size and this time:
/// where one of them is new, the content may be, so its hash and its thumbnail
/// have to be made again.
pub open spec fn touched(files: Seq<FileRec>, id: i64, size: i64, mtime: i64) -> Seq<FileRec> {
    updated(
        files,
        id,
        |r: FileRec|
            if r.size != size || r.mtime != mtime {
                FileRec { size, mtime, hash: None, thumb_state: 0, ..r }
            } else {
                r
            },
    )
}

/// The files after a move; everything but the place, the name, the kind, the
/// size and the time of the row stays.
pub open spec fn moved(files: Seq<FileRec>, m: RenameRec) -> Seq<FileRec> {
    updated(
        files,
        m.id,
        |r: FileRec|
            FileRec {
                rel_path: m.rel_path,
                name: m.name,
                ext: m.ext,
                media_type: m.media_type,
                size: m.size,
                mtime: m.mtime,
                ..r
            },
    )
}

/// Whether a move would give two live rows one path.
pub open spec fn move_conflicts(files: Seq<FileRec>, m: RenameRec) -> bool {
    &&& exists|i: int| 0 <= i < files.len() && (#[trigger] files[i]).id == m.id && !files[i].is_deleted
    &&& path_taken(files, m.rel_path, m.id)
}

/// The files after the first `n` of the moves, one after the other; `None` where
/// one of them conflicts.
pub open spec fn moved_all(files: Seq<FileRec>, moves: Seq<RenameRec>, n: int) -> Option<Seq<FileRec>>
    decreases n,
{
    if n <= 0 {
        Some(files)
    } else {
        match moved_all(files, moves, n - 1) {
            None => None,
            Some(f) => if move_conflicts(f, moves[n - 1]) {
                None
            } else {
                Some(moved(f, moves[n - 1]))
            },
        }
    }
}

/// The files with the given ones marked as deleted.
pub open spec fn deleted(files: Seq<FileRec>, ids: Seq<i64>) -> Seq<FileRec> {
    files.map_values(
        |r: FileRec|
            if ids.contains(r.id) {
                FileRec { is_deleted: true, ..r }
            } else {
                r
            },
    )
}

/// The id that the next row gets.
pub open spec fn next_file_id(files: Seq<FileRec>) -> int {
    if files.len() == 0 {
        1
    } else {
        files.last().id + 1
    }
}

/// What a pass over the index has still to find for a file.
#[derive(Debug, Clone, Copy, PartialEq, Eq, Structural)]
pub enum Pending {
    Thumb,
    Hash,
    Duration,
    Resolution,
}

/// Whether a row waits for a pass.
pub open spec fn waits(p: Pending, r: FileRec) -> bool {
    !r.is_deleted && match p {
        Pending::Thumb => r.thumb_state == 0 || r.thumb_state == 3,
        Pending::Hash => r.hash is None,
        Pending::Duration => r.media_type is Video && r.duration_ms is None,
        Pending::Resolution => r.height is None,
    }
}

/// The first `limit` of the elements, or all of them where `limit` is negative.
pub open spec fn limited<T>(s: Seq<T>, limit: int) -> Seq<T> {
    if 0 <= limit < s.len() {
        s.take(limit)
    } else {
        s
    }
}

/// The rows that wait for a pass, in the order of their ids.
pub open spec fn waiting(files: Seq<FileRec>, p: Pending) -> Seq<FileRec> {
    files.filter(|r: FileRec| waits(p, r))
}

/// No two tags have names that differ only in the case of ASCII letters.
pub open spec fn tag_names_differ(tags: Seq<TagRec>) -> bool {
    forall|i: int, j: int|
        0 <= i < j < tags.len() ==> !same_nocase((#[trigger] tags[i]).name, (#[trigger] tags[j]).name)
}

/// Whether a tag has the id.
pub open spec fn has_tag(tags: Seq<TagRec>, id: i64) -> bool {
    exists|i: int| 0 <= i < tags.len() && (#[trigger] tags[i]).id == id
}

/// Whether the tag at a position is called `name`.
pub open spec fn named(t: TagRec, name: Seq<char>) -> bool {
    same_nocase(t.name, name)
}

/// Whether a tag other than `id` is called `name`.
pub open spec fn name_taken(tags: Seq<TagRec>, name: Seq<char>, id: i64) -> bool {
    exists|i: int| 0 <= i < tags.len() && named(#[trigger] tags[i], name) && tags[i].id != id
}

/// The id that the next tag gets.
pub open spec fn next_tag_id(tags: Seq<TagRec>) -> int {
    if tags.len() == 0 {
        1
    } else {
        tags.last().id + 1
    }
}

/// The pairs without those of a tag.
pub open spec fn without_tag(links: Set<(i64, i64)>, tag: i64) -> Set<(i64, i64)> {
    links.filter(|l: (i64, i64)| l.1 != tag)
}

/// The tags other than `id`.
pub open spec fn other_tags(tags: Seq<TagRec>, id: i64) -> Seq<TagRec> {
    tags.filter(|t: TagRec| t.id != id)
}

/// The tags by name, without regard to the case of ASCII letters.
pub open spec fn by_name(tags: Seq<TagRec>) -> Seq<TagRec> {
    text_order(tags.map_values(|t: TagRec| ascii_lowered(t.name))).map_values(|i: int| tags[i])
}

/// The tags of a file, in the order of their ids.
pub open spec fn tags_of(t: Tables, file: i64) -> Seq<TagRec> {
    t.tags.filter(|r: TagRec| t.links.contains((file, r.id)))
}

/// Tags as the callers see them.
pub open spec fn shown(v: Seq<Tag>) -> Seq<(i64, Seq<char>)> {
    v.map_values(|t: Tag| (t.id, t.name@))
}

/// Tag records as the callers see them.
pub open spec fn shown_recs(v: Seq<TagRec>) -> Seq<(i64, Seq<char>)> {
    v.map_values(|t: TagRec| (t.id, t.name))
}

impl Tables {
    /// The rules that the tables keep.
    pub open spec fn wf(self) -> bool {
        &&& file_ids_grow(self.files)
        &&& live_paths_differ(self.files)
        &&& tag_ids_grow(self.tags)
        &&& tag_names_differ(self.tags)
        &&& forall|f: i64, t: i64| #[trigger]
            self.links.contains((f, t)) ==> has_file(self.files, f) && has_tag(self.tags, t)
    }
}

impl View for Db {
    type V = Tables;

    closed spec fn view(&self) -> Tables {
        Tables {
            files: file_recs(self.files@),
            tags: tag_recs(self.tags@),
            links: self.links@.to_set(),
        }
    }
}

impl Db {
    /// The rules that the tables keep.
    pub closed spec fn wf(&self) -> bool {
        &&& self@.wf()
        &&& self.links@.no_duplicates()
    }

    /// An index that keeps its rules has tables that do.
    pub proof fn lemma_wf(&self)
        requires
            self.wf(),
        ensures
            self@.wf(),
    {
    }

    /// The position of the row with the id.
    fn find(&self, id: i64) -> (r: Option<usize>)
        requires
            file_ids_grow(file_recs(self.files@)),
        ensures
            match r {
                Some(i) => i < self.files@.len() && self.files@[i as int].id == id,
                None => !has_file(file_recs(self.files@), id),
            },
    {
        let ghost recs = file_recs(self.files@);
        let mut lo: usize = 0;
        let mut hi: usize = self.files.len();
        while lo < hi
            invariant
                lo <= hi <= self.files@.len(),
                recs == file_recs(self.files@),
                file_ids_grow(recs),
                forall|k: int| 0 <= k < lo ==> (#[trigger] recs[k]).id < id,
                forall|k: int| hi <= k < recs.len() ==> (#[trigger] recs[k]).id > id,
            decreases hi - lo,
        {
            let mid: usize = lo + (hi - lo) / 2;
            let x: i64 = self.files[mid].id;
            assert(recs[mid as int].id == x);
            if x == id {
                return Some(mid);
            } else if x < id {
                lo = mid + 1;
            } else {
                hi = mid;
            }
        }
        None
    }

    /// Records the size and the time of a file that is in its place. Where one of
    /// them is new, the hash and the thumbnail have to be made again.
    pub fn touch_file(&mut self, id: i64, size: i64, mtime: i64)
        requires
            old(self).wf(),
        ensures
            final(self).wf(),
            final(self)@ == (Tables { files: touched(old(self)@.files, id, size, mtime), ..old(self)@ }),
    {
        let ghost before = file_recs(self.files@);
        let ghost f = |r: FileRec|
            if r.size != size || r.mtime != mtime {
                FileRec { size, mtime, hash: None, thumb_state: 0, ..r }
            } else {
                r
            };
        proof {
            lemma_updated_keeps(before, id, f);
        }
        match self.find(id) {
            Some(i) => {
                if self.files[i].size != size || self.files[i].mtime != mtime {
                    self.files[i].size = size;
                    self.files[i].mtime = mtime;
                    self.files[i].hash = None;
                    self.files[i].thumb_state = 0;
                }
                proof {
                    lemma_updated_at(before, file_recs(self.files@), i as int, id, f);
                }
            },
            None => {
                proof {
                    lemma_updated_none(before, id, f);
                }
            },
        }
    }

    /// Records the content hash of a file.
    pub fn set_hash(&mut self, id: i64, hash: u64)
        requires
            old(self).wf(),
        ensures
            final(self).wf(),
            final(self)@ == (Tables {
                files: updated(
                    old(self)@.files,
                    id,
                    |r: FileRec| FileRec { hash: Some(hash as i64), ..r },
                ),
                ..old(self)@
            }),
    {
        let ghost before = file_recs(self.files@);
        let ghost f = |r: FileRec| FileRec { hash: Some(hash as i64), ..r };
        proof {
            lemma_updated_keeps(before, id, f);
        }
        match self.find(id) {
            Some(i) => {
                self.files[i].hash = Some(hash as i64);
                proof {
                    lemma_updated_at(before, file_recs(self.files@), i as int, id, f);
                }
            },
            None => {
                proof {
                    lemma_updated_none(before, id, f);
                }
            },
        }
    }

    /// Records the length of a video in milliseconds; a negative one stands for
    /// a length that could not be found.
    pub fn set_duration(&mut self, id: i64, ms: i64)
        requires
            old(self).wf(),
        ensures
            final(self).wf(),
            final(self)@ == (Tables {
                files: updated(
                    old(self)@.files,
                    id,
                    |r: FileRec| FileRec { duration_ms: Some(ms), ..r },
                ),
                ..old(self)@
            }),
    {
        let ghost before = file_recs(self.files@);
        let ghost f = |r: FileRec| FileRec { duration_ms: Some(ms), ..r };
        proof {
            lemma_updated_keeps(before, id, f);
        }
        match self.find(id) {
            Some(i) => {
                self.files[i].duration_ms = Some(ms);
                proof {
                    lemma_updated_at(before, file_recs(self.files@), i as int, id, f);
                }
            },
            None => {
                proof {
                    lemma_updated_none(before, id, f);
                }
            },
        }
    }

    /// Records the height and the width of a picture or a video.
    pub fn set_resolution(&mut self, id: i64, height: i64, width: i64)
        requires
            old(self).wf(),
        ensures
            final(self).wf(),
            final(self)@ == (Tables {
                files: updated(
                    old(self)@.files,
                    id,
                    |r: FileRec| FileRec { height: Some(height), width: Some(width), ..r },
                ),
                ..old(self)@
            }),
    {
        let ghost before = file_recs(self.files@);
        let ghost f = |r: FileRec| FileRec { height: Some(height), width: Some(width), ..r };
        proof {
            lemma_updated_keeps(before, id, f);
        }
        match self.find(id) {
            Some(i) => {
                self.files[i].height = Some(height);
                self.files[i].width = Some(width);
                proof {
                    lemma_updated_at(before, file_recs(self.files@), i as int, id, f);
                }
            },
            None => {
                proof {
                    lemma_updated_none(before, id, f);
                }
            },
        }
    }

    /// Records the state of a file's thumbnail.
    pub fn set_thumb_state(&mut self, id: i64, state: i64)
        requires
            old(self).wf(),
        ensures
            final(self).wf(),
            final(self)@ == (Tables {
                files: updated(
                    old(self)@.files,
                    id,
                    |r: FileRec| FileRec { thumb_state: state, ..r },
                ),
                ..old(self)@
            }),
    {
        let ghost before = file_recs(self.files@);
        let ghost f = |r: FileRec| FileRec { thumb_state: state, ..r };
        proof {
            lemma_updated_keeps(before, id, f);
        }
        match self.find(id) {
            Some(i) => {
                self.files[i].thumb_state = state;
                proof {
                    lemma_updated_at(before, file_recs(self.files@), i as int, id, f);
                }
            },
            None => {
                proof {
                    lemma_updated_none(before, id, f);
                }
            },
        }
    }

    /// Whether a live row other than `id` has the path.
    fn taken(&self, path: &String, id: i64) -> (r: bool)
        ensures
            r == path_taken(file_recs(self.files@), path@, id),
    {
        let ghost recs = file_recs(self.files@);
        let mut i: usize = 0;
        while i < self.files.len()
            invariant
                i <= self.files@.len(),
                recs == file_recs(self.files@),
                forall|k: int|
                    0 <= k < i ==> (#[trigger] recs[k]).is_deleted || recs[k].rel_path != path@
                        || recs[k].id == id,
            decreases self.files.len() - i,
        {
            assert(recs[i as int] == self.files@[i as int]@);
            if !self.files[i].is_deleted && self.files[i].id != id && self.files[i].rel_path == *path {
                return true;
            }
            i += 1;
        }
        false
    }

    /// How many more rows the table can take.
    pub fn ids_left(&self) -> (r: u64)
        ensures
            r == i64::MAX + 1 - next_file_id(self@.files),
    {
        let n: usize = self.files.len();
        if n == 0 {
            i64::MAX as u64
        } else {
            assert(self@.files.last() == self.files@[n - 1]@);
            let last: i64 = self.files[n - 1].id;
            (i64::MAX as i128 - last as i128) as u64
        }
    }

    /// Adds a file; gives the id of its row.
    pub fn insert_file(&mut self, f: &NewFile) -> (r: Result<i64, DbError>)
        requires
            old(self).wf(),
        ensures
            final(self).wf(),
            match inserted(old(self)@.files, *f) {
                Ok(files) => r == Ok::<i64, DbError>(next_file_id(old(self)@.files) as i64) && final(self)@
                    == (Tables { files, ..old(self)@ }),
                Err(e) => r == Err::<i64, DbError>(e) && final(self)@ == old(self)@,
            },
    {
        let ghost before = file_recs(self.files@);
        let path = f.rel_path.to_owned();
        let n: usize = self.files.len();
        let id: i64 = if n == 0 {
            1
        } else {
            let last: i64 = self.files[n - 1].id;
            assert(before.last().id == last);
            if last == i64::MAX {
                return Err(DbError::IdsExhausted);
            }
            last + 1
        };
        proof {
            assert(!has_file(before, id)) by {
                assert forall|k: int| 0 <= k < before.len() implies (#[trigger] before[k]).id != id by {
                    if k < before.len() - 1 {
                        assert(before[k].id < before[before.len() - 1].id);
                    }
                }
            }
            assert(path_taken(before, f.rel_path@, id) <==> path_live(before, f.rel_path@));
        }
        if self.taken(&path, id) {
            return Err(DbError::Conflict);
        }
        let row = FileRow {
            id,
            rel_path: path,
            name: f.name.to_owned(),
            ext: f.ext.to_owned(),
            media_type: f.media_type,
            size: f.size,
            mtime: f.mtime,
            added_at: f.added_at,
            width: None,
            height: None,
            duration_ms: None,
            resume_ms: None,
            hash: None,
            thumb_state: 0,
            is_deleted: false,
        };
        self.files.push(row);
        proof {
            let after = file_recs(self.files@);
            assert(after =~= before.push(f.row(id)));
            lemma_inserted_keeps(before, f.row(id));
            lemma_push_has_file(before, f.row(id));
        }
        Ok(id)
    }
}

/// Whether a live row has the path.
pub open spec fn path_live(files: Seq<FileRec>, path: Seq<char>) -> bool {
    exists|i: int| 0 <= i < files.len() && !(#[trigger] files[i]).is_deleted && files[i].rel_path == path
}

/// The files with a new one.
pub open spec fn inserted(files: Seq<FileRec>, f: NewFile) -> Result<Seq<FileRec>, DbError> {
    if next_file_id(files) > i64::MAX {
        Err(DbError::IdsExhausted)
    } else if path_live(files, f.rel_path@) {
        Err(DbError::Conflict)
    } else {
        Ok(files.push(f.row(next_file_id(files) as i64)))
    }
}

// ---------------------------------------------------------------------------
// Why the operations keep the rules.

proof fn lemma_updated_keeps(files: Seq<FileRec>, id: i64, f: spec_fn(FileRec) -> FileRec)
    requires
        file_ids_grow(files),
        live_paths_differ(files),
        forall|r: FileRec|
            (#[trigger] f(r)).id == r.id && f(r).rel_path == r.rel_path && f(r).is_deleted
                == r.is_deleted,
    ensures
        file_ids_grow(updated(files, id, f)),
        live_paths_differ(updated(files, id, f)),
        forall|x: i64| #[trigger] has_file(updated(files, id, f), x) == has_file(files, x),
{
    let after = updated(files, id, f);
    assert forall|i: int| 0 <= i < files.len() implies (#[trigger] after[i]).id == files[i].id
        && after[i].rel_path == files[i].rel_path && after[i].is_deleted == files[i].is_deleted by {
        assert(f(files[i]).id == files[i].id);
    }
    assert forall|x: i64| #[trigger] has_file(after, x) == has_file(files, x) by {
        if has_file(files, x) {
            let i = choose|i: int| 0 <= i < files.len() && (#[trigger] files[i]).id == x;
            assert(after[i].id == x);
        }
        if has_file(after, x) {
            let i = choose|i: int| 0 <= i < after.len() && (#[trigger] after[i]).id == x;
            assert(files[i].id == x);
        }
    }
}

proof fn lemma_updated_at(
    before: Seq<FileRec>,
    after: Seq<FileRec>,
    i: int,
    id: i64,
    f: spec_fn(FileRec) -> FileRec,
)
    requires
        file_ids_grow(before),
        0 <= i < before.len() == after.len(),
        before[i].id == id,
        after[i] == f(before[i]),
        forall|k: int| 0 <= k < before.len() && k != i ==> #[trigger] after[k] == before[k],
    ensures
        after == updated(before, id, f),
{
    assert forall|k: int| 0 <= k < before.len() implies #[trigger] after[k] == updated(before, id, f)[k] by {
        if k != i {
            assert(before[k].id != before[i].id);
        }
    }
    assert(after =~= updated(before, id, f));
}

proof fn lemma_updated_none(files: Seq<FileRec>, id: i64, f: spec_fn(FileRec) -> FileRec)
    requires
        !has_file(files, id),
    ensures
        files == updated(files, id, f),
{
    assert(files =~= updated(files, id, f));
}

proof fn lemma_inserted_keeps(files: Seq<FileRec>, r: FileRec)
    requires
        file_ids_grow(files),
        live_paths_differ(files),
        files.len() > 0 ==> r.id > files.last().id,
        !path_live(files, r.rel_path),
    ensures
        file_ids_grow(files.push(r)),
        live_paths_differ(files.push(r)),
{
    let after = files.push(r);
    assert forall|i: int, j: int| 0 <= i < j < after.len() implies (#[trigger] after[i]).id < (
    #[trigger] after[j]).id by {
        if j == files.len() && i < files.len() - 1 {
            assert(files[i].id < files[files.len() - 1].id);
        }
    }
}

proof fn lemma_push_has_file(files: Seq<FileRec>, r: FileRec)
    ensures
        forall|x: i64| has_file(files, x) ==> #[trigger] has_file(files.push(r), x),
{
    assert forall|x: i64| has_file(files, x) implies #[trigger] has_file(files.push(r), x) by {
        let i = choose|i: int| 0 <= i < files.len() && (#[trigger] files[i]).id == x;
        assert(files.push(r)[i].id == x);
    }
}


proof fn lemma_moved_keeps(files: Seq<FileRec>, m: RenameRec)
    requires
        file_ids_grow(files),
        live_paths_differ(files),
        !move_conflicts(files, m),
    ensures
        file_ids_grow(moved(files, m)),
        live_paths_differ(moved(files, m)),
        forall|x: i64| #[trigger] has_file(moved(files, m), x) == has_file(files, x),
{
    let after = moved(files, m);
    assert forall|i: int, j: int|
        0 <= i < j < after.len() && !(#[trigger] after[i]).is_deleted && !(#[trigger] after[j]).is_deleted implies after[i].rel_path
        != after[j].rel_path by {
        assert(files[i].id < files[j].id);
        if files[i].id == m.id {
            assert(!path_taken(files, m.rel_path, m.id));
        } else if files[j].id == m.id {
            assert(!path_taken(files, m.rel_path, m.id));
        }
    }
    assert forall|x: i64| #[trigger] has_file(after, x) == has_file(files, x) by {
        if has_file(files, x) {
            let i = choose|i: int| 0 <= i < files.len() && (#[trigger] files[i]).id == x;
            assert(after[i].id == x);
        }
        if has_file(after, x) {
            let i = choose|i: int| 0 <= i < after.len() && (#[trigger] after[i]).id == x;
            assert(files[i].id == x);
        }
    }
}

proof fn lemma_moved_all_none(files: Seq<FileRec>, moves: Seq<RenameRec>, n: int, m: int)
    requires
        0 <= n <= m,
        moved_all(files, moves, n) is None,
    ensures
        moved_all(files, moves, m) is None,
    decreases m - n,
{
    if n < m {
        lemma_moved_all_none(files, moves, n + 1, m);
    }
}

/// Moves that do not conflict keep the rules of the table.
pub proof fn lemma_moved_all_keeps(files: Seq<FileRec>, moves: Seq<RenameRec>, n: int)
    requires
        file_ids_grow(files),
        live_paths_differ(files),
    ensures
        moved_all(files, moves, n) matches Some(f) ==> f.len() == files.len() && file_ids_grow(f)
            && live_paths_differ(f) && (forall|x: i64| #[trigger]
            has_file(f, x) == has_file(files, x)) && (forall|k: int|
            0 <= k < files.len() ==> (#[trigger] f[k]).id == files[k].id && f[k].is_deleted
                == files[k].is_deleted),
    decreases n,
{
    if n > 0 {
        lemma_moved_all_keeps(files, moves, n - 1);
        match moved_all(files, moves, n - 1) {
            None => {},
            Some(f) => {
                if !move_conflicts(f, moves[n - 1]) {
                    lemma_moved_keeps(f, moves[n - 1]);
                }
            },
        }
    }
}

/// What the moves of a vector say.
pub open spec fn rename_recs(v: Seq<RenameFile>) -> Seq<RenameRec> {
    v.map_values(|r: RenameFile| r@)
}

spec fn paths_match(paths: Seq<String>, files: Seq<FileRec>) -> bool {
    paths.len() == files.len() && forall|k: int|
        0 <= k < files.len() ==> (#[trigger] paths[k])@ == files[k].rel_path
}

impl Db {
    /// Whether a live row other than the one at `at` has the path, where the
    /// paths of the rows are `paths`.
    fn taken_in(&self, paths: &Vec<String>, path: &String, at: usize, Ghost(files): Ghost<Seq<FileRec>>) -> (r: bool)
        requires
            at < files.len(),
            files.len() == self.files@.len(),
            file_ids_grow(files),
            paths_match(paths@, files),
            forall|k: int| 0 <= k < files.len() ==> (#[trigger] files[k]).is_deleted == self.files@[k].is_deleted,
        ensures
            r == path_taken(files, path@, files[at as int].id),
    {
        let mut i: usize = 0;
        while i < self.files.len()
            invariant
                i <= self.files@.len(),
                at < files.len(),
                files.len() == self.files@.len(),
                file_ids_grow(files),
                paths_match(paths@, files),
                forall|k: int| 0 <= k < files.len() ==> (#[trigger] files[k]).is_deleted
                    == self.files@[k].is_deleted,
                forall|k: int|
                    0 <= k < i ==> (#[trigger] files[k]).is_deleted || files[k].rel_path != path@ || k == at,
            decreases self.files.len() - i,
        {
            assert(files[i as int].rel_path == paths@[i as int]@);
            if i != at && !self.files[i].is_deleted && paths[i] == *path {
                assert(files[i as int].id != files[at as int].id);
                return true;
            }
            i += 1;
        }
        proof {
            assert forall|k: int| 0 <= k < files.len() && k != at implies (#[trigger] files[k]).id
                != files[at as int].id by {}
        }
        false
    }

    /// Moves rows to new paths, all of them or none.
    ///
    /// Everything else that the rows say stays: the content is the same.
    pub fn apply_renames(&mut self, renames: &Vec<RenameFile>) -> (r: Result<(), DbError>)
        requires
            old(self).wf(),
        ensures
            final(self).wf(),
            match moved_all(old(self)@.files, rename_recs(renames@), renames@.len() as int) {
                Some(files) => r == Ok::<(), DbError>(()) && final(self)@ == (Tables { files, ..old(self)@ }),
                None => r == Err::<(), DbError>(DbError::Conflict) && final(self)@ == old(self)@,
            },
    {
        let ghost before = file_recs(self.files@);
        let ghost moves = rename_recs(renames@);
        let ghost db0 = *self;
        let mut paths: Vec<String> = Vec::new();
        let mut i: usize = 0;
        while i < self.files.len()
            invariant
                i <= self.files@.len(),
                before == file_recs(self.files@),
                paths@.len() == i,
                forall|k: int| 0 <= k < i ==> (#[trigger] paths@[k])@ == before[k].rel_path,
            decreases self.files.len() - i,
        {
            paths.push(self.files[i].rel_path.clone());
            i += 1;
        }
        let ghost mut files = before;
        let mut n: usize = 0;
        while n < renames.len()
            invariant
                n <= renames@.len(),
                self.wf(),
                before == file_recs(self.files@),
                file_ids_grow(before),
                live_paths_differ(before),
                moves == rename_recs(renames@),
                moved_all(before, moves, n as int) == Some(files),
                files.len() == before.len(),
                file_ids_grow(files),
                live_paths_differ(files),
                forall|k: int| 0 <= k < files.len() ==> (#[trigger] files[k]).id == before[k].id
                    && files[k].is_deleted == before[k].is_deleted,
                paths_match(paths@, files),
                *self == db0,
                db0 == *old(self),
            decreases renames.len() - n,
        {
            let ghost m = moves[n as int];
            assert(m == renames@[n as int]@);
            match self.find(renames[n].id) {
                Some(at) => {
                    assert(before[at as int].id == m.id);
                    assert(files[at as int].id == m.id);
                    let path = renames[n].rel_path.to_owned();
                    if !self.files[at].is_deleted && self.taken_in(&paths, &path, at, Ghost(files)) {
                        assert(!files[at as int].is_deleted);
                        assert(move_conflicts(files, m));
                        proof {
                            lemma_moved_all_none(before, moves, n + 1, renames@.len() as int);
                        }
                        return Err(DbError::Conflict);
                    }
                    proof {
                        assert(!move_conflicts(files, m)) by {
                            if move_conflicts(files, m) {
                                let k = choose|k: int|
                                    0 <= k < files.len() && (#[trigger] files[k]).id == m.id
                                        && !files[k].is_deleted;
                                assert(k == at);
                            }
                        }
                        lemma_moved_keeps(files, m);
                    }
                    paths.set(at, path);
                    proof {
                        let after = moved(files, m);
                        assert forall|k: int| 0 <= k < after.len() implies (#[trigger] paths@[k])@ == after[k].rel_path by {
                            if k != at {
                                assert(files[k].id != files[at as int].id);
                            }
                        }
                        files = after;
                    }
                },
                None => {
                    proof {
                        assert forall|k: int| 0 <= k < files.len() implies (#[trigger] files[k]).id
                            != m.id by {
                            assert(before[k].id != m.id);
                        }
                        assert(moved(files, m) =~= files);
                    }
                },
            }
            n += 1;
        }
        let mut j: usize = 0;
        while j < renames.len()
            invariant
                j <= renames@.len(),
                moves == rename_recs(renames@),
                self.tags == old(self).tags,
                self.links == old(self).links,
                file_ids_grow(before),
                live_paths_differ(before),
                moved_all(before, moves, j as int) == Some(file_recs(self.files@)),
                moved_all(before, moves, renames@.len() as int) is Some,
            decreases renames.len() - j,
        {
            let ghost m = moves[j as int];
            let ghost now = file_recs(self.files@);
            assert(m == renames@[j as int]@);
            proof {
                if moved_all(before, moves, j + 1) is None {
                    lemma_moved_all_none(before, moves, j + 1, renames@.len() as int);
                }
                lemma_moved_all_keeps(before, moves, j as int);
            }
            let ghost f = |r: FileRec|
                FileRec {
                    rel_path: m.rel_path,
                    name: m.name,
                    ext: m.ext,
                    media_type: m.media_type,
                    size: m.size,
                    mtime: m.mtime,
                    ..r
                };
            match self.find(renames[j].id) {
                Some(at) => {
                    self.files[at].rel_path = renames[j].rel_path.to_owned();
                    self.files[at].name = renames[j].name.to_owned();
                    self.files[at].ext = renames[j].ext.to_owned();
                    self.files[at].media_type = renames[j].media_type;
                    self.files[at].size = renames[j].size;
                    self.files[at].mtime = renames[j].mtime;
                    proof {
                        lemma_updated_at(now, file_recs(self.files@), at as int, m.id, f);
                    }
                },
                None => {
                    proof {
                        lemma_updated_none(now, m.id, f);
                    }
                },
            }
            j += 1;
        }
        proof {
            lemma_moved_all_keeps(before, moves, renames@.len() as int);
        }
        Ok(())
    }

    /// Marks rows as deleted: their files are no longer on disk.
    pub fn mark_deleted(&mut self, ids: &Vec<i64>)
        requires
            old(self).wf(),
        ensures
            final(self).wf(),
            final(self)@ == (Tables { files: deleted(old(self)@.files, ids@), ..old(self)@ }),
    {
        let ghost before = file_recs(self.files@);
        let mut n: usize = 0;
        assert(deleted(before, ids@.take(0)) =~= before);
        while n < ids.len()
            invariant
                n <= ids@.len(),
                self.tags == old(self).tags,
                self.links == old(self).links,
                file_ids_grow(before),
                file_recs(self.files@) == deleted(before, ids@.take(n as int)),
            decreases ids.len() - n,
        {
            let id: i64 = ids[n];
            let ghost now = file_recs(self.files@);
            let ghost part = ids@.take(n as int);
            let ghost next = ids@.take(n + 1);
            assert(next == part.push(id));
            assert(file_ids_grow(now));
            assert(next.contains(id)) by {
                assert(next[n as int] == id);
            }
            assert forall|x: i64| #[trigger] next.contains(x) <==> (part.contains(x) || x == id) by {
                if part.contains(x) {
                    let k = choose|k: int| 0 <= k < part.len() && part[k] == x;
                    assert(next[k] == x);
                }
            }
            match self.find(id) {
                Some(at) => {
                    let ghost rows = self.files@;
                    self.files[at].is_deleted = true;
                    proof {
                        let after = file_recs(self.files@);
                        assert(now.len() == before.len());
                        assert(rows.len() == now.len());
                        assert forall|k: int| 0 <= k < before.len() implies #[trigger] after[k] == deleted(before, next)[k] by {
                            assert(now[k] == deleted(before, part)[k]);
                            assert(next.contains(before[k].id) <==> (part.contains(before[k].id) || before[k].id == id));
                            assert(now[at as int].id == before[at as int].id);
                            if k != at {
                                assert(self.files@[k] == rows[k]);
                                assert(after[k] == now[k]);
                                assert(before[k].id != before[at as int].id);
                            } else {
                                assert(now[k].id == before[k].id);
                            }
                        }
                        assert(after =~= deleted(before, next));
                    }
                },
                None => {
                    proof {
                        assert forall|k: int| 0 <= k < before.len() implies #[trigger] now[k] == deleted(before, next)[k] by {
                            assert(now[k].id == before[k].id);
                        }
                        assert(now =~= deleted(before, next));
                    }
                },
            }
            n += 1;
        }
        proof {
            assert(ids@.take(n as int) == ids@);
            lemma_deleted_keeps(before, ids@);
        }
    }
}

/// Marking rows as deleted keeps the rules of the table.
pub proof fn lemma_deleted_keeps(files: Seq<FileRec>, ids: Seq<i64>)
    requires
        file_ids_grow(files),
        live_paths_differ(files),
    ensures
        file_ids_grow(deleted(files, ids)),
        live_paths_differ(deleted(files, ids)),
        forall|x: i64| #[trigger] has_file(deleted(files, ids), x) == has_file(files, x),
{
    let after = deleted(files, ids);
    assert forall|x: i64| #[trigger] has_file(after, x) == has_file(files, x) by {
        if has_file(files, x) {
            let i = choose|i: int| 0 <= i < files.len() && (#[trigger] files[i]).id == x;
            assert(after[i].id == x);
        }
        if has_file(after, x) {
            let i = choose|i: int| 0 <= i < after.len() && (#[trigger] after[i]).id == x;
            assert(files[i].id == x);
        }
    }
}

} // verus!
