//! Which of the rows that lost their file moved to which of the files that have
//! no row.
//!
//! Three passes, from the strong rule to the weak one: the same name, the same
//! content, and last the same size, extension and time where there is only one
//! row and only one file to choose.

use vstd::prelude::*;
use crate::db::{ActiveFile, ActiveRec};
use crate::media::MediaType;
use crate::names::{base_name, basename, ext_of, extension, parent, parent_of};

verus! {

broadcast use vstd::string::group_string_axioms;

/// A file on disk that no live row has the path of.
pub struct DiskFile {
    pub rel: String,
    pub name: String,
    pub ext: String,
    pub media_type: MediaType,
    pub size: i64,
    pub mtime: i64,
    /// Which entry of the walk it is.
    pub source: usize,
}

/// What a [`DiskFile`] says.
#[verifier::ext_equal]
pub struct DiskRec {
    pub rel: Seq<char>,
    pub name: Seq<char>,
    pub ext: Seq<char>,
    pub media_type: MediaType,
    pub size: i64,
    pub mtime: i64,
    pub source: usize,
}

impl View for DiskFile {
    type V = DiskRec;

    open spec fn view(&self) -> DiskRec {
        DiskRec {
            rel: self.rel@,
            name: self.name@,
            ext: self.ext@,
            media_type: self.media_type,
            size: self.size,
            mtime: self.mtime,
            source: self.source,
        }
    }
}

/// A row whose file was not met on disk.
pub struct MissingRow {
    pub id: i64,
    pub size: i64,
    pub mtime: i64,
    pub hash: Option<i64>,
    pub name: String,
    pub ext: String,
    pub parent: String,
}

/// What a [`MissingRow`] says.
#[verifier::ext_equal]
pub struct MissingRec {
    pub id: i64,
    pub size: i64,
    pub mtime: i64,
    pub hash: Option<i64>,
    pub name: Seq<char>,
    pub ext: Seq<char>,
    pub parent: Seq<char>,
}

impl View for MissingRow {
    type V = MissingRec;

    open spec fn view(&self) -> MissingRec {
        MissingRec {
            id: self.id,
            size: self.size,
            mtime: self.mtime,
            hash: self.hash,
            name: self.name@,
            ext: self.ext@,
            parent: self.parent@,
        }
    }
}

/// A live row as the match sees it once its file is missing.
pub open spec fn missing_rec(a: ActiveRec) -> MissingRec {
    MissingRec {
        id: a.id,
        size: a.size,
        mtime: a.mtime,
        hash: a.hash,
        name: base_name(a.rel_path),
        ext: extension(a.rel_path),
        parent: parent(a.rel_path),
    }
}

impl MissingRow {
    /// A live row whose file is missing.
    pub fn from_active(a: &ActiveFile) -> (r: MissingRow)
        ensures
            r@ == missing_rec(a@),
    {
        MissingRow {
            id: a.id,
            size: a.size,
            mtime: a.mtime,
            hash: a.hash,
            name: basename(a.rel_path.as_str()),
            ext: ext_of(a.rel_path.as_str()),
            parent: parent_of(a.rel_path.as_str()),
        }
    }
}

/// What the rows say.
pub open spec fn missing_recs(v: Seq<MissingRow>) -> Seq<MissingRec> {
    v.map_values(|r: MissingRow| r@)
}

/// What the files say.
pub open spec fn disk_recs(v: Seq<DiskFile>) -> Seq<DiskRec> {
    v.map_values(|f: DiskFile| f@)
}

// ---------------------------------------------------------------------------
// The least of the candidates.

/// How well a candidate fits; the least rank fits best.
pub type Rank = (bool, bool, i64);

/// The order of the ranks: a fault in the first place weighs most.
pub open spec fn rank_lt(a: Rank, b: Rank) -> bool {
    if a.0 != b.0 {
        !a.0
    } else if a.1 != b.1 {
        !a.1
    } else {
        a.2 < b.2
    }
}

/// Whether position `i` holds the least rank, and is the first that does.
pub open spec fn is_least(ranks: Seq<Option<Rank>>, i: int) -> bool {
    &&& 0 <= i < ranks.len()
    &&& ranks[i] is Some
    &&& forall|j: int|
        0 <= j < ranks.len() && (#[trigger] ranks[j]) is Some ==> !rank_lt(ranks[j]->0, ranks[i]->0) && (j < i
            ==> rank_lt(ranks[i]->0, ranks[j]->0))
}

/// The position of the first least rank, where there is a rank at all.
pub open spec fn least(ranks: Seq<Option<Rank>>) -> Option<int> {
    if exists|i: int| is_least(ranks, i) {
        Some(choose|i: int| is_least(ranks, i))
    } else {
        None
    }
}

fn rank_before(a: Rank, b: Rank) -> (r: bool)
    ensures
        r == rank_lt(a, b),
{
    if a.0 != b.0 {
        !a.0
    } else if a.1 != b.1 {
        !a.1
    } else {
        a.2 < b.2
    }
}

fn pick_least(ranks: &Vec<Option<Rank>>) -> (r: Option<usize>)
    ensures
        match r {
            Some(i) => least(ranks@) == Some(i as int) && is_least(ranks@, i as int),
            None => least(ranks@) is None && forall|j: int|
                0 <= j < ranks@.len() ==> (#[trigger] ranks@[j]) is None,
        },
{
    let mut best: Option<(usize, Rank)> = None;
    let mut i: usize = 0;
    while i < ranks.len()
        invariant
            i <= ranks@.len(),
            match best {
                Some((b, r)) => b < i && ranks@[b as int] == Some(r) && forall|j: int|
                    0 <= j < i && (#[trigger] ranks@[j]) is Some ==> !rank_lt(ranks@[j]->0, r) && (j < b
                        ==> rank_lt(r, ranks@[j]->0)),
                None => forall|j: int| 0 <= j < i ==> (#[trigger] ranks@[j]) is None,
            },
        decreases ranks.len() - i,
    {
        match ranks[i] {
            None => {},
            Some(r) => {
                match best {
                    None => {
                        best = Some((i, r));
                    },
                    Some((b, s)) => {
                        if rank_before(r, s) {
                            best = Some((i, r));
                        }
                    },
                }
            },
        }
        i += 1;
    }
    match best {
        None => None,
        Some((b, r)) => {
            assert(is_least(ranks@, b as int));
            proof {
                lemma_least_unique(ranks@, b as int, least(ranks@)->0);
            }
            Some(b)
        },
    }
}

proof fn lemma_least_unique(ranks: Seq<Option<Rank>>, i: int, j: int)
    requires
        is_least(ranks, i),
        is_least(ranks, j),
    ensures
        i == j,
{
    assert(ranks[i] is Some && ranks[j] is Some);
}

// ---------------------------------------------------------------------------
// The match.

/// What is matched so far: which rows and which files are taken, and the pairs
/// of a row and a file, by position.
#[verifier::ext_equal]
pub struct Matched {
    pub rows: Seq<bool>,
    pub files: Seq<bool>,
    pub pairs: Seq<(int, int)>,
}

/// Nothing is matched.
pub open spec fn unmatched(m: Seq<MissingRec>, f: Seq<DiskRec>) -> Matched {
    Matched {
        rows: Seq::new(m.len(), |i: int| false),
        files: Seq::new(f.len(), |i: int| false),
        pairs: Seq::empty(),
    }
}

/// The match with a row, if one was picked, for a file.
pub open spec fn claimed(st: Matched, pick: Option<int>, fi: int) -> Matched {
    match pick {
        None => st,
        Some(mi) => Matched {
            rows: st.rows.update(mi, true),
            files: st.files.update(fi, true),
            pairs: st.pairs.push((mi, fi)),
        },
    }
}

/// The same name, size and extension: the file went to another folder.
pub open spec fn same_name(r: MissingRec, f: DiskRec) -> bool {
    r.size == f.size && r.ext == f.ext && r.name == f.name
}

/// The ranks of the free rows that have the name of the file: first those from
/// its folder, those of its time, those of a smaller id.
pub open spec fn name_ranks(m: Seq<MissingRec>, f: DiskRec, taken: Seq<bool>) -> Seq<Option<Rank>> {
    Seq::new(
        m.len(),
        |i: int|
            if !taken[i] && same_name(m[i], f) {
                Some((m[i].parent != parent(f.rel), m[i].mtime != f.mtime, m[i].id))
            } else {
                None
            },
    )
}

/// The match by name of the first `n` files.
pub open spec fn by_names(m: Seq<MissingRec>, f: Seq<DiskRec>, n: int) -> Matched
    decreases n,
{
    if n <= 0 {
        unmatched(m, f)
    } else {
        let st = by_names(m, f, n - 1);
        claimed(st, least(name_ranks(m, f[n - 1], st.rows)), n - 1)
    }
}

/// Whether the content of a file has to be read: it is free and not empty, and
/// there is a free row of its size with a hash to compare with.
pub open spec fn asks(m: Seq<MissingRec>, f: Seq<DiskRec>, st: Matched, fi: int) -> bool {
    &&& !st.files[fi]
    &&& f[fi].size != 0
    &&& exists|i: int| 0 <= i < m.len() && #[trigger] hash_fits(m[i], f[fi]) && !st.rows[i]
}

/// Whether a row has a hash, and the size of the file.
pub open spec fn hash_fits(r: MissingRec, f: DiskRec) -> bool {
    r.hash is Some && r.size == f.size
}

/// The ranks of the free rows of the size and the hash of the file: first those
/// of its time, those of a smaller id.
pub open spec fn hash_ranks(m: Seq<MissingRec>, f: DiskRec, taken: Seq<bool>, h: i64) -> Seq<Option<Rank>> {
    Seq::new(
        m.len(),
        |i: int|
            if !taken[i] && m[i].hash == Some(h) && m[i].size == f.size {
                Some((false, m[i].mtime != f.mtime, m[i].id))
            } else {
                None
            },
    )
}

/// What the content of a file says once it is known; `None` stands for a file
/// that cannot be read.
pub open spec fn content_step(
    m: Seq<MissingRec>,
    f: Seq<DiskRec>,
    st: Matched,
    fi: int,
    h: Option<u64>,
) -> Matched {
    match h {
        None => st,
        Some(h) => claimed(st, least(hash_ranks(m, f[fi], st.rows, h as i64)), fi),
    }
}

/// The match by content of the first `n` files, after the match by name; `hs`
/// holds for each file the hash of its content.
pub open spec fn by_content(m: Seq<MissingRec>, f: Seq<DiskRec>, hs: Seq<Option<u64>>, n: int) -> Matched
    decreases n,
{
    if n <= 0 {
        by_names(m, f, f.len() as int)
    } else {
        let st = by_content(m, f, hs, n - 1);
        if asks(m, f, st, n - 1) {
            content_step(m, f, st, n - 1, hs[n - 1])
        } else {
            st
        }
    }
}

/// The same size, extension and time.
pub open spec fn look_alike(size: i64, ext: Seq<char>, mtime: i64, f: DiskRec) -> bool {
    size == f.size && ext == f.ext && mtime == f.mtime
}

/// Whether a free row looks like the file.
pub open spec fn row_alike(m: Seq<MissingRec>, f: DiskRec, taken: Seq<bool>, i: int) -> bool {
    0 <= i < m.len() && !taken[i] && look_alike(m[i].size, m[i].ext, m[i].mtime, f)
}

/// Whether the row is the only free one that looks like the file.
pub open spec fn only_row(m: Seq<MissingRec>, f: DiskRec, taken: Seq<bool>, i: int) -> bool {
    row_alike(m, f, taken, i) && forall|j: int| #[trigger] row_alike(m, f, taken, j) ==> j == i
}

/// Whether another free file looks like the file.
pub open spec fn rival(f: Seq<DiskRec>, taken: Seq<bool>, fi: int, j: int) -> bool {
    0 <= j < f.len() && j != fi && !taken[j] && look_alike(f[j].size, f[j].ext, f[j].mtime, f[fi])
}

/// The row that nothing but its looks speaks for: the only one, without a hash,
/// for a file that is the only one and not empty.
pub open spec fn guess(m: Seq<MissingRec>, f: Seq<DiskRec>, st: Matched, fi: int) -> Option<int> {
    if !st.files[fi] && f[fi].size != 0 && (exists|i: int| only_row(m, f[fi], st.rows, i)) && m[choose|i: int|
        only_row(m, f[fi], st.rows, i)].hash is None && !(exists|j: int| rival(f, st.files, fi, j)) {
        Some(choose|i: int| only_row(m, f[fi], st.rows, i))
    } else {
        None
    }
}

/// The match by looks of the first `n` files, after the match by name and by
/// content.
pub open spec fn by_looks(m: Seq<MissingRec>, f: Seq<DiskRec>, hs: Seq<Option<u64>>, n: int) -> Matched
    decreases n,
{
    if n <= 0 {
        by_content(m, f, hs, f.len() as int)
    } else {
        let st = by_looks(m, f, hs, n - 1);
        claimed(st, guess(m, f, st, n - 1), n - 1)
    }
}

/// The rows and the files that belong together, by position.
pub open spec fn rematch(m: Seq<MissingRec>, f: Seq<DiskRec>, hs: Seq<Option<u64>>) -> Seq<(int, int)> {
    by_looks(m, f, hs, f.len() as int).pairs
}

/// Whether the match has the shape of its rows and files.
pub open spec fn fits(m: Seq<MissingRec>, f: Seq<DiskRec>, st: Matched) -> bool {
    &&& st.rows.len() == m.len()
    &&& st.files.len() == f.len()
    &&& forall|k: int|
        0 <= k < st.pairs.len() ==> 0 <= (#[trigger] st.pairs[k]).0 < m.len() && 0 <= st.pairs[k].1 < f.len()
}

// ---------------------------------------------------------------------------
// The match, step by step.

/// A match under way. It asks for the hash of a file only where the content has
/// to decide.
pub struct Rematch {
    rows: Vec<MissingRow>,
    files: Vec<DiskFile>,
    row_taken: Vec<bool>,
    file_taken: Vec<bool>,
    pairs: Vec<(usize, usize)>,
    /// For each file: whether its hash was asked for, and what came back.
    hashes: Vec<Option<Option<u64>>>,
    /// The files before this one are done, as far as their content goes.
    at: usize,
}

/// Pairs of positions, as integers.
pub open spec fn int_pairs(v: Seq<(usize, usize)>) -> Seq<(int, int)> {
    v.map_values(|p: (usize, usize)| (p.0 as int, p.1 as int))
}

/// The hashes that came back; a file that was not asked for has none.
pub open spec fn known(v: Seq<Option<Option<u64>>>) -> Seq<Option<u64>> {
    v.map_values(
        |h: Option<Option<u64>>|
            match h {
                Some(h) => h,
                None => None,
            },
    )
}

impl Rematch {
    /// The rows of the match.
    pub closed spec fn row_recs(&self) -> Seq<MissingRec> {
        missing_recs(self.rows@)
    }

    /// The files of the match.
    pub closed spec fn file_recs(&self) -> Seq<DiskRec> {
        disk_recs(self.files@)
    }

    /// The hashes that were asked for.
    pub closed spec fn answers(&self) -> Seq<Option<Option<u64>>> {
        self.hashes@
    }

    /// How many files are done, as far as their content goes.
    pub closed spec fn done(&self) -> int {
        self.at as int
    }

    /// What is matched so far.
    pub closed spec fn state(&self) -> Matched {
        Matched {
            rows: self.row_taken@,
            files: self.file_taken@,
            pairs: int_pairs(self.pairs@),
        }
    }

    /// The match is where its rows, its files and the hashes so far bring it.
    pub open spec fn wf(&self) -> bool {
        &&& self.answers().len() == self.file_recs().len()
        &&& 0 <= self.done() <= self.file_recs().len()
        &&& fits(self.row_recs(), self.file_recs(), self.state())
        &&& self.state() == by_content(self.row_recs(), self.file_recs(), known(self.answers()), self.done())
        &&& forall|i: int| self.done() <= i < self.answers().len() ==> (#[trigger] self.answers()[i]) is None
        &&& forall|i: int|
            0 <= i < self.done() ==> ((#[trigger] self.answers()[i]) is Some <==> asks(
                self.row_recs(),
                self.file_recs(),
                by_content(self.row_recs(), self.file_recs(), known(self.answers()), i),
                i,
            ))
    }

    fn claim(&mut self, mi: usize, fi: usize)
        requires
            fits(old(self).row_recs(), old(self).file_recs(), old(self).state()),
            mi < old(self).row_recs().len(),
            fi < old(self).file_recs().len(),
        ensures
            final(self).rows == old(self).rows,
            final(self).files == old(self).files,
            final(self).hashes == old(self).hashes,
            final(self).at == old(self).at,
            fits(final(self).row_recs(), final(self).file_recs(), final(self).state()),
            final(self).state() == claimed(old(self).state(), Some(mi as int), fi as int),
    {
        let ghost pairs0 = self.pairs@;
        self.row_taken.set(mi, true);
        self.file_taken.set(fi, true);
        self.pairs.push((mi, fi));
        assert(int_pairs(self.pairs@) =~= int_pairs(pairs0).push((mi as int, fi as int)));
        assert forall|k: int| 0 <= k < self.state().pairs.len() implies 0 <= (#[trigger] self.state().pairs[k]).0
            < self.row_recs().len() && 0 <= self.state().pairs[k].1 < self.file_recs().len() by {
            if k < pairs0.len() {
                assert(self.state().pairs[k] == old(self).state().pairs[k]);
            }
        }
    }

    /// The ranks by name of the rows for a file.
    fn rank_names(&self, fi: usize) -> (r: Vec<Option<Rank>>)
        requires
            fits(self.row_recs(), self.file_recs(), self.state()),
            fi < self.file_recs().len(),
        ensures
            r@ == name_ranks(self.row_recs(), self.file_recs()[fi as int], self.state().rows),
    {
        let f = &self.files[fi];
        let folder = parent_of(f.rel.as_str());
        let mut out: Vec<Option<Rank>> = Vec::new();
        let mut i: usize = 0;
        while i < self.rows.len()
            invariant
                i <= self.rows@.len(),
                fits(self.row_recs(), self.file_recs(), self.state()),
                f == self.files@[fi as int],
                folder@ == parent(f.rel@),
                out@.len() == i,
                forall|k: int|
                    0 <= k < i ==> #[trigger] out@[k] == name_ranks(self.row_recs(), f@, self.state().rows)[k],
            decreases self.rows.len() - i,
        {
            let r = &self.rows[i];
            assert(self.row_recs()[i as int] == r@);
            if !self.row_taken[i] && r.size == f.size && r.ext == f.ext && r.name == f.name {
                out.push(Some((r.parent != folder, r.mtime != f.mtime, r.id)));
            } else {
                out.push(None);
            }
            i += 1;
        }
        assert(out@ =~= name_ranks(self.row_recs(), f@, self.state().rows));
        out
    }

    /// Begins a match: the files that kept their names get their rows.
    pub fn start(rows: Vec<MissingRow>, files: Vec<DiskFile>) -> (r: Rematch)
        ensures
            r.wf(),
            r.row_recs() == missing_recs(rows@),
            r.file_recs() == disk_recs(files@),
            r.done() == 0,
    {
        let mut row_taken: Vec<bool> = Vec::new();
        let mut i: usize = 0;
        while i < rows.len()
            invariant
                i <= rows@.len(),
                row_taken@ =~= Seq::new(i as nat, |k: int| false),
            decreases rows.len() - i,
        {
            row_taken.push(false);
            i += 1;
        }
        let mut file_taken: Vec<bool> = Vec::new();
        let mut hashes: Vec<Option<Option<u64>>> = Vec::new();
        let mut j: usize = 0;
        while j < files.len()
            invariant
                j <= files@.len(),
                file_taken@ =~= Seq::new(j as nat, |k: int| false),
                hashes@ =~= Seq::new(j as nat, |k: int| None),
            decreases files.len() - j,
        {
            file_taken.push(false);
            hashes.push(None);
            j += 1;
        }
        let ghost m = missing_recs(rows@);
        let ghost f = disk_recs(files@);
        let mut r = Rematch { rows, files, row_taken, file_taken, pairs: Vec::new(), hashes, at: 0 };
        assert(r.state() =~= unmatched(m, f));
        let mut fi: usize = 0;
        while fi < r.files.len()
            invariant
                fi <= f.len(),
                r.row_recs() == m,
                r.file_recs() == f,
                r.at == 0,
                r.hashes == hashes,
                fits(m, f, r.state()),
                r.state() == by_names(m, f, fi as int),
            decreases f.len() - fi,
        {
            let ranks = r.rank_names(fi);
            let best = pick_least(&ranks);
            match best {
                Some(mi) => {
                    r.claim(mi, fi);
                },
                None => {},
            }
            fi += 1;
        }
        r
    }

    /// Whether a free row of the size of the file has a hash.
    fn has_hashed(&self, fi: usize) -> (r: bool)
        requires
            fits(self.row_recs(), self.file_recs(), self.state()),
            fi < self.file_recs().len(),
        ensures
            r == exists|i: int|
                0 <= i < self.row_recs().len() && #[trigger] hash_fits(
                    self.row_recs()[i],
                    self.file_recs()[fi as int],
                ) && !self.state().rows[i],
    {
        let size: i64 = self.files[fi].size;
        let mut i: usize = 0;
        while i < self.rows.len()
            invariant
                i <= self.rows@.len(),
                fi < self.files@.len(),
                size == self.files@[fi as int].size,
                fits(self.row_recs(), self.file_recs(), self.state()),
                forall|k: int|
                    0 <= k < i && #[trigger] hash_fits(self.row_recs()[k], self.file_recs()[fi as int])
                        ==> self.state().rows[k],
            decreases self.rows.len() - i,
        {
            assert(self.row_recs()[i as int] == self.rows@[i as int]@);
            if !self.row_taken[i] && self.rows[i].hash.is_some() && self.rows[i].size == size {
                assert(hash_fits(self.row_recs()[i as int], self.file_recs()[fi as int]));
                return true;
            }
            i += 1;
        }
        false
    }

    /// The next file whose content has to be read, if there is one.
    pub fn next_to_hash(&mut self) -> (r: Option<usize>)
        requires
            old(self).wf(),
        ensures
            final(self).wf(),
            final(self).row_recs() == old(self).row_recs(),
            final(self).file_recs() == old(self).file_recs(),
            final(self).answers() == old(self).answers(),
            old(self).done() <= final(self).done(),
            match r {
                Some(fi) => fi == final(self).done() && fi < final(self).file_recs().len() && asks(
                    final(self).row_recs(),
                    final(self).file_recs(),
                    final(self).state(),
                    fi as int,
                ),
                None => final(self).done() == final(self).file_recs().len(),
            },
    {
        while self.at < self.files.len()
            invariant
                self.wf(),
                self.row_recs() == old(self).row_recs(),
                self.file_recs() == old(self).file_recs(),
                self.answers() == old(self).answers(),
                old(self).done() <= self.done(),
            decreases self.files.len() - self.at,
        {
            let fi: usize = self.at;
            assert(self.file_recs()[fi as int] == self.files@[fi as int]@);
            if !self.file_taken[fi] && self.files[fi].size != 0 && self.has_hashed(fi) {
                return Some(fi);
            }
            assert(!asks(self.row_recs(), self.file_recs(), self.state(), fi as int));
            let ghost before = *self;
            self.at = fi + 1;
            assert(self.answers()[fi as int] is None);
            assert(self.state() == before.state());
            assert(self.row_recs() == before.row_recs());
            assert(self.file_recs() == before.file_recs());
            assert(self.answers() == before.answers());
        }
        None
    }

    /// Which entry of the walk a file is.
    pub fn source_of(&self, fi: usize) -> (r: usize)
        requires
            fi < self.file_recs().len(),
        ensures
            r == self.file_recs()[fi as int].source,
    {
        self.files[fi].source
    }

    /// At the start no hash is known.
    pub proof fn lemma_answers_start(&self)
        requires
            self.wf(),
            self.done() == 0,
        ensures
            forall|i: int| 0 <= i < self.answers().len() ==> (#[trigger] self.answers()[i]) is None,
    {
    }

    /// The ranks by content of the rows for a file.
    fn rank_hashes(&self, fi: usize, h: i64) -> (r: Vec<Option<Rank>>)
        requires
            fits(self.row_recs(), self.file_recs(), self.state()),
            fi < self.file_recs().len(),
        ensures
            r@ == hash_ranks(self.row_recs(), self.file_recs()[fi as int], self.state().rows, h),
    {
        let f = &self.files[fi];
        let mut out: Vec<Option<Rank>> = Vec::new();
        let mut i: usize = 0;
        while i < self.rows.len()
            invariant
                i <= self.rows@.len(),
                fits(self.row_recs(), self.file_recs(), self.state()),
                f == self.files@[fi as int],
                out@.len() == i,
                forall|k: int|
                    0 <= k < i ==> #[trigger] out@[k] == hash_ranks(self.row_recs(), f@, self.state().rows, h)[k],
            decreases self.rows.len() - i,
        {
            let r = &self.rows[i];
            assert(self.row_recs()[i as int] == r@);
            let same = match r.hash {
                Some(x) => x == h,
                None => false,
            };
            if !self.row_taken[i] && same && r.size == f.size {
                out.push(Some((false, r.mtime != f.mtime, r.id)));
            } else {
                out.push(None);
            }
            i += 1;
        }
        assert(out@ =~= hash_ranks(self.row_recs(), f@, self.state().rows, h));
        out
    }

    /// Takes the hash of the file that was asked for; `None` where it cannot be
    /// read.
    pub fn supply(&mut self, hash: Option<u64>)
        requires
            old(self).wf(),
            old(self).done() < old(self).file_recs().len(),
            asks(old(self).row_recs(), old(self).file_recs(), old(self).state(), old(self).done()),
        ensures
            final(self).wf(),
            final(self).row_recs() == old(self).row_recs(),
            final(self).file_recs() == old(self).file_recs(),
            final(self).done() == old(self).done() + 1,
            final(self).answers() == old(self).answers().update(old(self).done(), Some(hash)),
    {
        let fi: usize = self.at;
        let ghost m = self.row_recs();
        let ghost f = self.file_recs();
        let ghost st = self.state();
        let ghost before = self.answers();
        assert(fi < self.files.len());
        self.hashes.set(fi, Some(hash));
        let ghost after = self.answers();
        assert(self.row_recs() == m && self.file_recs() == f && self.state() == st);
        match hash {
            None => {},
            Some(h) => {
                let ranks = self.rank_hashes(fi, h as i64);
                let best = pick_least(&ranks);
                match best {
                    Some(mi) => {
                        self.claim(mi, fi);
                    },
                    None => {},
                }
            },
        }
        self.at = fi + 1;
        proof {
            assert(self.row_recs() == m);
            assert(self.file_recs() == f);
            assert(self.answers() == after);
            assert(known(after)[fi as int] == hash);
            assert forall|i: int| 0 <= i <= fi implies by_content(m, f, known(before), i) == by_content(
                m,
                f,
                known(after),
                i,
            ) by {
                assert forall|k: int| 0 <= k < i implies known(before)[k] == known(after)[k] by {}
                lemma_content_prefix(m, f, known(before), known(after), i);
            }
            assert(by_content(m, f, known(after), fi as int) == st);
            assert(self.state() == content_step(m, f, st, fi as int, hash));
            assert forall|i: int| 0 <= i < self.done() implies ((#[trigger] self.answers()[i]) is Some <==> asks(
                m,
                f,
                by_content(m, f, known(self.answers()), i),
                i,
            )) by {
                if i < fi {
                    assert(after[i] == before[i]);
                }
            }
        }
    }

    /// The only free row that looks like the file, if there is just one.
    fn lone_row(&self, fi: usize) -> (r: Option<usize>)
        requires
            fits(self.row_recs(), self.file_recs(), self.state()),
            fi < self.file_recs().len(),
        ensures
            match r {
                Some(i) => only_row(self.row_recs(), self.file_recs()[fi as int], self.state().rows, i as int),
                None => forall|i: int|
                    !only_row(self.row_recs(), self.file_recs()[fi as int], self.state().rows, i),
            },
    {
        let f = &self.files[fi];
        let ghost m = self.row_recs();
        let ghost taken = self.state().rows;
        let mut found: Option<usize> = None;
        let mut i: usize = 0;
        while i < self.rows.len()
            invariant
                i <= self.rows@.len(),
                m == self.row_recs(),
                taken == self.state().rows,
                fits(m, self.file_recs(), self.state()),
                fi < self.files@.len(),
                f == self.files@[fi as int],
                match found {
                    Some(k) => k < i && row_alike(m, f@, taken, k as int) && forall|j: int|
                        0 <= j < i && #[trigger] row_alike(m, f@, taken, j) ==> j == k,
                    None => forall|j: int| 0 <= j < i ==> !#[trigger] row_alike(m, f@, taken, j),
                },
            decreases self.rows.len() - i,
        {
            let r = &self.rows[i];
            assert(m[i as int] == r@);
            if !self.row_taken[i] && r.size == f.size && r.ext == f.ext && r.mtime == f.mtime {
                assert(row_alike(m, f@, taken, i as int));
                match found {
                    Some(k) => {
                        assert forall|x: int| !only_row(m, f@, taken, x) by {
                            assert(row_alike(m, f@, taken, k as int));
                        }
                        return None;
                    },
                    None => {
                        found = Some(i);
                    },
                }
            }
            i += 1;
        }
        assert forall|x: int| #[trigger] row_alike(m, f@, taken, x) implies found is Some && x == found->0 by {
            assert(0 <= x < m.len());
        }
        found
    }

    /// Whether another free file looks like the file.
    fn has_rival(&self, fi: usize) -> (r: bool)
        requires
            fits(self.row_recs(), self.file_recs(), self.state()),
            fi < self.file_recs().len(),
        ensures
            r == exists|j: int| rival(self.file_recs(), self.state().files, fi as int, j),
    {
        let ghost all = self.file_recs();
        let ghost taken = self.state().files;
        let f = &self.files[fi];
        assert(all[fi as int] == f@);
        let mut i: usize = 0;
        while i < self.files.len()
            invariant
                i <= self.files@.len(),
                all == self.file_recs(),
                taken == self.state().files,
                fits(self.row_recs(), all, self.state()),
                fi < all.len(),
                f@ == all[fi as int],
                f == self.files@[fi as int],
                forall|j: int| 0 <= j < i ==> !rival(all, taken, fi as int, j),
            decreases self.files.len() - i,
        {
            let g = &self.files[i];
            assert(all[i as int] == g@);
            if i != fi && !self.file_taken[i] && g.size == f.size && g.ext == f.ext && g.mtime == f.mtime {
                assert(rival(all, taken, fi as int, i as int));
                return true;
            }
            i += 1;
        }
        false
    }

    /// Ends a match: what is left and unmistakable is matched by its looks. Gives
    /// the ids of the rows with the positions of their files, and the files.
    pub fn finish(self) -> (r: (Vec<(i64, usize)>, Vec<DiskFile>))
        requires
            self.wf(),
            self.done() == self.file_recs().len(),
        ensures
            disk_recs(r.1@) == self.file_recs(),
            id_pairs(r.0@) == with_ids(
                self.row_recs(),
                rematch(self.row_recs(), self.file_recs(), known(self.answers())),
            ),
    {
        let ghost m = self.row_recs();
        let ghost f = self.file_recs();
        let ghost hs = known(self.answers());
        let mut s = self;
        let mut fi: usize = 0;
        while fi < s.files.len()
            invariant
                fi <= f.len(),
                s.row_recs() == m,
                s.file_recs() == f,
                fits(m, f, s.state()),
                s.state() == by_looks(m, f, hs, fi as int),
            decreases f.len() - fi,
        {
            let ghost st = s.state();
            assert(f[fi as int] == s.files@[fi as int]@);
            if !s.file_taken[fi] && s.files[fi].size != 0 {
                match s.lone_row(fi) {
                    None => {},
                    Some(mi) => {
                        proof {
                            let c = choose|i: int| only_row(m, f[fi as int], st.rows, i);
                            assert(only_row(m, f[fi as int], st.rows, mi as int));
                            assert(row_alike(m, f[fi as int], st.rows, mi as int));
                            assert(c == mi);
                            assert(m[mi as int] == s.rows@[mi as int]@);
                        }
                        if s.rows[mi].hash.is_none() && !s.has_rival(fi) {
                            s.claim(mi, fi);
                        }
                    },
                }
            }
            fi += 1;
        }
        let mut out: Vec<(i64, usize)> = Vec::new();
        let ghost pairs = s.state().pairs;
        let mut k: usize = 0;
        while k < s.pairs.len()
            invariant
                k <= s.pairs@.len(),
                s.row_recs() == m,
                fits(m, f, s.state()),
                pairs == s.state().pairs,
                out@.len() == k,
                forall|j: int|
                    0 <= j < k ==> (#[trigger] out@[j]).0 == m[pairs[j].0].id && out@[j].1 == pairs[j].1,
            decreases s.pairs.len() - k,
        {
            let p = s.pairs[k];
            assert(pairs[k as int] == (p.0 as int, p.1 as int));
            assert(m[p.0 as int] == s.rows@[p.0 as int]@);
            out.push((s.rows[p.0].id, p.1));
            k += 1;
        }
        assert(id_pairs(out@) =~= with_ids(m, pairs));
        (out, s.files)
    }
}

/// The match by content of the first files rests on their hashes alone.
proof fn lemma_content_prefix(
    m: Seq<MissingRec>,
    f: Seq<DiskRec>,
    a: Seq<Option<u64>>,
    b: Seq<Option<u64>>,
    n: int,
)
    requires
        forall|k: int| 0 <= k < n ==> #[trigger] a[k] == b[k],
    ensures
        by_content(m, f, a, n) == by_content(m, f, b, n),
    decreases n,
{
    if n > 0 {
        lemma_content_prefix(m, f, a, b, n - 1);
        assert(a[n - 1] == b[n - 1]);
    }
}

proof fn lemma_content_unasked(
    m: Seq<MissingRec>,
    f: Seq<DiskRec>,
    a: Seq<Option<u64>>,
    b: Seq<Option<u64>>,
    n: int,
)
    requires
        forall|i: int|
            0 <= i < n && asks(m, f, #[trigger] by_content(m, f, a, i), i) ==> a[i] == b[i],
    ensures
        by_content(m, f, a, n) == by_content(m, f, b, n),
    decreases n,
{
    if n > 0 {
        lemma_content_unasked(m, f, a, b, n - 1);
        assert(asks(m, f, by_content(m, f, a, n - 1), n - 1) ==> a[n - 1] == b[n - 1]);
    }
}

proof fn lemma_looks_prefix(
    m: Seq<MissingRec>,
    f: Seq<DiskRec>,
    a: Seq<Option<u64>>,
    b: Seq<Option<u64>>,
    n: int,
)
    requires
        by_content(m, f, a, f.len() as int) == by_content(m, f, b, f.len() as int),
    ensures
        by_looks(m, f, a, n) == by_looks(m, f, b, n),
    decreases n,
{
    if n > 0 {
        lemma_looks_prefix(m, f, a, b, n - 1);
    }
}

/// The match rests on the hashes of the files that it asks for, and on no other:
/// the rest need not be read.
pub proof fn law_only_asked_hashes_matter(
    m: Seq<MissingRec>,
    f: Seq<DiskRec>,
    a: Seq<Option<u64>>,
    b: Seq<Option<u64>>,
)
    requires
        forall|i: int|
            0 <= i < f.len() && asks(m, f, #[trigger] by_content(m, f, a, i), i) ==> a[i] == b[i],
    ensures
        rematch(m, f, a) == rematch(m, f, b),
{
    lemma_content_unasked(m, f, a, b, f.len() as int);
    lemma_looks_prefix(m, f, a, b, f.len() as int);
}

/// Matches rows that lost their file with files that have no row; `hashes` holds
/// for each file the hash of its content, `None` where it cannot be read. Gives
/// the ids of the rows with the positions of their files, and the files.
pub fn match_renames(rows: Vec<MissingRow>, files: Vec<DiskFile>, hashes: &Vec<Option<u64>>) -> (r: (
    Vec<(i64, usize)>,
    Vec<DiskFile>,
))
    requires
        hashes@.len() == files@.len(),
    ensures
        disk_recs(r.1@) == disk_recs(files@),
        id_pairs(r.0@) == with_ids(
            missing_recs(rows@),
            rematch(missing_recs(rows@), disk_recs(files@), hashes@),
        ),
{
    let ghost m = missing_recs(rows@);
    let ghost f = disk_recs(files@);
    let mut s = Rematch::start(rows, files);
    let mut asked = s.next_to_hash();
    while asked.is_some()
        invariant
            s.wf(),
            s.row_recs() == m,
            s.file_recs() == f,
            hashes@.len() == f.len(),
            forall|i: int|
                0 <= i < f.len() && (#[trigger] s.answers()[i]) is Some ==> s.answers()[i] == Some(hashes@[i]),
            match asked {
                Some(fi) => fi == s.done() && fi < f.len() && asks(m, f, s.state(), fi as int),
                None => s.done() == f.len(),
            },
        decreases f.len() - s.done(),
    {
        match asked {
            Some(fi) => {
                let ghost before = s.answers();
                s.supply(hashes[fi]);
                assert(s.answers() == before.update(fi as int, Some(hashes@[fi as int])));
                assert forall|i: int| 0 <= i < f.len() && (#[trigger] s.answers()[i]) is Some implies s.answers()[i]
                    == Some(hashes@[i]) by {
                    if i != fi {
                        assert(s.answers()[i] == before[i]);
                    }
                }
                asked = s.next_to_hash();
            },
            None => {},
        }
    }
    proof {
        let hs = known(s.answers());
        assert forall|i: int| 0 <= i < f.len() && asks(m, f, #[trigger] by_content(m, f, hs, i), i) implies hs[i]
            == hashes@[i] by {
            assert(s.answers()[i] is Some);
        }
        law_only_asked_hashes_matter(m, f, hs, hashes@);
    }
    s.finish()
}

/// Pairs of an id and a position, with the position as an integer.
pub open spec fn id_pairs(v: Seq<(i64, usize)>) -> Seq<(i64, int)> {
    v.map_values(|p: (i64, usize)| (p.0, p.1 as int))
}

/// Pairs of positions with the id of the row in its place.
pub open spec fn with_ids(m: Seq<MissingRec>, pairs: Seq<(int, int)>) -> Seq<(i64, int)> {
    pairs.map_values(|p: (int, int)| (m[p.0].id, p.1))
}

} // verus!
