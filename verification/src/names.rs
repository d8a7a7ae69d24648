//! Paths below the media folder: texts with forward slashes.

use vstd::prelude::*;
use crate::text::{ascii_lowered, chars_of, last_at, lemma_last_at, rfind, string_of, to_ascii_lower};

verus! {

broadcast use vstd::string::group_string_axioms;

/// The part of a path after its last slash.
pub open spec fn base_name(rel: Seq<char>) -> Seq<char> {
    rel.skip(last_at(rel, '/') + 1)
}

/// The part of a path before its last slash; empty at the top.
pub open spec fn parent(rel: Seq<char>) -> Seq<char> {
    if last_at(rel, '/') < 0 {
        Seq::empty()
    } else {
        rel.take(last_at(rel, '/'))
    }
}

/// What follows the last dot of the name, in lower case; empty where there is no
/// dot.
pub open spec fn extension(rel: Seq<char>) -> Seq<char> {
    let name = base_name(rel);
    if last_at(name, '.') < 0 {
        Seq::empty()
    } else {
        ascii_lowered(name.skip(last_at(name, '.') + 1))
    }
}

/// Texts with a slash between each two.
pub open spec fn joined(parts: Seq<Seq<char>>) -> Seq<char>
    decreases parts.len(),
{
    if parts.len() == 0 {
        Seq::empty()
    } else if parts.len() == 1 {
        parts[0]
    } else {
        joined(parts.drop_last()) + seq!['/'] + parts.last()
    }
}

/// The file name in a path.
pub fn basename(rel: &str) -> (r: String)
    ensures
        r@ == base_name(rel@),
{
    let v = chars_of(rel);
    let n: usize = v.len();
    let from: usize = match rfind(&v, '/') {
        Some(i) => i + 1,
        None => 0,
    };
    string_of(&v, from, n)
}

/// The folder in a path; empty at the top of the library.
pub fn parent_of(rel: &str) -> (r: String)
    ensures
        r@ == parent(rel@),
{
    let v = chars_of(rel);
    match rfind(&v, '/') {
        Some(i) => string_of(&v, 0, i),
        None => String::new(),
    }
}

/// The extension in a path, in lower case, as the scan writes it.
pub fn ext_of(rel: &str) -> (r: String)
    ensures
        r@ == extension(rel@),
{
    let name = basename(rel);
    let v = chars_of(name.as_str());
    let n: usize = v.len();
    match rfind(&v, '.') {
        Some(i) => {
            let tail = string_of(&v, i + 1, n);
            to_ascii_lower(tail.as_str())
        },
        None => String::new(),
    }
}

/// The extension of a file name, as the file system sees it: there is none where
/// the only dot comes first.
pub open spec fn name_extension(name: Seq<char>) -> Option<Seq<char>> {
    if last_at(name, '.') <= 0 {
        None
    } else {
        Some(ascii_lowered(name.skip(last_at(name, '.') + 1)))
    }
}

/// The extension of a file name, in lower case.
pub fn ext_of_name(name: &str) -> (r: Option<String>)
    ensures
        match r {
            Some(e) => name_extension(name@) == Some(e@),
            None => name_extension(name@) is None,
        },
{
    let v = chars_of(name);
    let n: usize = v.len();
    match rfind(&v, '.') {
        Some(i) => {
            if i == 0 {
                None
            } else {
                let tail = string_of(&v, i + 1, n);
                Some(to_ascii_lower(tail.as_str()))
            }
        },
        None => None,
    }
}

/// The parts of a path that are all text.
pub open spec fn all_text(parts: Seq<Option<String>>) -> bool {
    forall|i: int| 0 <= i < parts.len() ==> (#[trigger] parts[i]) is Some
}

/// The texts of the parts.
pub open spec fn part_texts(parts: Seq<Option<String>>) -> Seq<Seq<char>> {
    parts.map_values(|p: Option<String>| p->0@)
}

/// The path below the media folder that its parts make: `None` where a part is
/// not text, or where nothing comes out.
pub open spec fn rel_of(parts: Seq<Option<String>>) -> Option<Seq<char>> {
    if !all_text(parts) || joined(part_texts(parts)).len() == 0 {
        None
    } else {
        Some(joined(part_texts(parts)))
    }
}

/// The path below the media folder, with its parts joined by slashes.
pub fn rel_path(parts: &Vec<Option<String>>) -> (r: Option<String>)
    ensures
        match r {
            Some(s) => rel_of(parts@) == Some(s@),
            None => rel_of(parts@) is None,
        },
{
    let ghost all = part_texts(parts@);
    let mut s = String::new();
    let mut empty = true;
    let mut i: usize = 0;
    while i < parts.len()
        invariant
            i <= parts@.len(),
            all == part_texts(parts@),
            forall|k: int| 0 <= k < i ==> (#[trigger] parts@[k]) is Some,
            s@ == joined(all.take(i as int)),
            empty == (s@.len() == 0),
        decreases parts.len() - i,
    {
        match &parts[i] {
            None => {
                return None;
            },
            Some(p) => {
                proof {
                    let t = all.take(i + 1);
                    assert(t.last() == p@);
                    assert(t.drop_last() =~= all.take(i as int));
                    if i == 0 {
                        assert(t[0] == p@);
                    }
                }
                if i > 0 {
                    s.push('/');
                    empty = false;
                }
                let v = chars_of(p.as_str());
                if v.len() > 0 {
                    empty = false;
                }
                s.append(p.as_str());
            },
        }
        i += 1;
    }
    assert(all.take(i as int) =~= all);
    if empty {
        None
    } else {
        Some(s)
    }
}

/// A path is its folder, a slash and its name, or the name alone.
pub proof fn law_path_splits(rel: Seq<char>)
    ensures
        last_at(rel, '/') < 0 ==> parent(rel) == Seq::<char>::empty() && base_name(rel) == rel,
        last_at(rel, '/') >= 0 ==> rel == parent(rel) + seq!['/'] + base_name(rel),
        !base_name(rel).contains('/'),
{
    lemma_last_at(rel, '/');
    let b = base_name(rel);
    let n = last_at(rel, '/') + 1;
    assert forall|i: int| 0 <= i < b.len() implies b[i] != '/' by {
        assert(b[i] == rel[n + i]);
    }
    if last_at(rel, '/') >= 0 {
        assert(rel =~= parent(rel) + seq!['/'] + base_name(rel));
    }
}

} // verus!
