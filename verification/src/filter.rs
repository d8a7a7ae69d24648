//! The text of the tag filter: words that are names of tags, with a `-` before
//! those that a file must not have.

use vstd::prelude::*;
use vstd::hash_map::StringHashMap;
use vstd::hash_set::StringHashSet;
use crate::db::Tag;
use crate::order::{contains_part, has_part, same_text};
use crate::text::{chars_of, is_space, lemma_word_len, lowercase, lowercased, space, split_words, string_of, texts, word_len, words};

verus! {

broadcast use vstd::string::group_string_axioms;

// ---------------------------------------------------------------------------
// What the words ask for.

/// What the words of the filter ask for.
pub struct Filter {
    /// The tags that a file has to have.
    pub want: Vec<i64>,
    /// The tags that it must not have.
    pub unwanted: Vec<i64>,
    /// Whether a tag is asked for that there is not.
    pub impossible: bool,
}

/// What a [`Filter`] says.
#[verifier::ext_equal]
pub struct FilterRec {
    pub want: Seq<i64>,
    pub unwanted: Seq<i64>,
    pub impossible: bool,
}

impl View for Filter {
    type V = FilterRec;

    open spec fn view(&self) -> FilterRec {
        FilterRec { want: self.want@, unwanted: self.unwanted@, impossible: self.impossible }
    }
}

/// Whether a word begins with `-`.
pub open spec fn is_negative(w: Seq<char>) -> bool {
    w.len() > 0 && w[0] == '-'
}

/// The word without the `-` that it begins with.
pub open spec fn bare(w: Seq<char>) -> Seq<char> {
    if is_negative(w) {
        w.skip(1)
    } else {
        w
    }
}

/// What a name adds to a filter, when the tag with the name is found or not. That
/// there is no tag matters only where it is asked for.
pub open spec fn with_name(f: FilterRec, negative: bool, found: Option<i64>) -> FilterRec {
    match found {
        Some(id) => if negative {
            FilterRec { unwanted: f.unwanted.push(id), ..f }
        } else {
            FilterRec { want: f.want.push(id), ..f }
        },
        None => if negative {
            f
        } else {
            FilterRec { impossible: true, ..f }
        },
    }
}

/// What a map says of a name.
pub open spec fn looked_up(ids: Map<Seq<char>, i64>, name: Seq<char>) -> Option<i64> {
    if ids.contains_key(name) {
        Some(ids[name])
    } else {
        None
    }
}

/// What a word adds to a filter; a `-` alone adds nothing.
pub open spec fn with_word(f: FilterRec, w: Seq<char>, ids: Map<Seq<char>, i64>) -> FilterRec {
    if bare(w).len() == 0 {
        f
    } else {
        with_name(f, is_negative(w), looked_up(ids, lowercased(bare(w))))
    }
}

/// What the first `n` words ask for.
pub open spec fn filter_of(ws: Seq<Seq<char>>, ids: Map<Seq<char>, i64>, n: int) -> FilterRec
    decreases n,
{
    if n <= 0 {
        FilterRec { want: Seq::empty(), unwanted: Seq::empty(), impossible: false }
    } else {
        with_word(filter_of(ws, ids, n - 1), ws[n - 1], ids)
    }
}

impl Filter {
    /// Takes a name, when the tag with the name is found or not.
    pub fn take_name(&mut self, negative: bool, found: Option<i64>)
        ensures
            final(self)@ == with_name(old(self)@, negative, found),
    {
        match found {
            Some(id) => {
                if negative {
                    self.unwanted.push(id);
                } else {
                    self.want.push(id);
                }
            },
            None => {
                if !negative {
                    self.impossible = true;
                }
            },
        }
    }
}

/// The word without the `-` that it begins with, and whether it does.
pub fn split_sign(w: &str) -> (r: (bool, String))
    ensures
        r.0 == is_negative(w@),
        r.1@ == bare(w@),
{
    let v = chars_of(w);
    let n: usize = v.len();
    if n > 0 && v[0] == '-' {
        let s = string_of(&v, 1, n);
        assert(s@ =~= w@.skip(1));
        (true, s)
    } else {
        let s = string_of(&v, 0, n);
        assert(s@ =~= w@);
        (false, s)
    }
}

/// Reads the text of the filter. The keys of `name_to_id` are names in lower case.
pub fn parse_filter(text: &str, name_to_id: &StringHashMap<i64>) -> (r: Filter)
    ensures
        r@ == filter_of(words(text@), name_to_id@, words(text@).len() as int),
{
    let ws = split_words(text);
    let ghost all = words(text@);
    assert(all.len() == ws@.len());
    let mut f = Filter { want: Vec::new(), unwanted: Vec::new(), impossible: false };
    assert(f@ =~= filter_of(all, name_to_id@, 0));
    let mut i: usize = 0;
    while i < ws.len()
        invariant
            i <= ws@.len(),
            texts(ws@) == all,
            f@ == filter_of(all, name_to_id@, i as int),
        decreases ws.len() - i,
    {
        assert(all[i as int] == ws@[i as int]@);
        let (negative, name) = split_sign(ws[i].as_str());
        if chars_of(name.as_str()).len() > 0 {
            let key = lowercase(name.as_str());
            let found: Option<i64> = match name_to_id.get(key.as_str()) {
                Some(id) => Some(*id),
                None => None,
            };
            f.take_name(negative, found);
        }
        i += 1;
    }
    f
}

/// The ids of the first `n` tags by their names in lower case; of two with one
/// name, the later holds.
pub open spec fn ids_by_name(tags: Seq<(i64, Seq<char>)>, n: int) -> Map<Seq<char>, i64>
    decreases n,
{
    if n <= 0 {
        Map::empty()
    } else {
        ids_by_name(tags, n - 1).insert(lowercased(tags[n - 1].1), tags[n - 1].0)
    }
}

/// The ids of the tags by their names in lower case.
pub fn name_to_id(tags: &Vec<Tag>) -> (r: StringHashMap<i64>)
    ensures
        r@ == ids_by_name(crate::db::shown(tags@), tags@.len() as int),
{
    let ghost all = crate::db::shown(tags@);
    let mut map: StringHashMap<i64> = StringHashMap::new();
    let mut i: usize = 0;
    while i < tags.len()
        invariant
            i <= tags@.len(),
            all == crate::db::shown(tags@),
            map@ == ids_by_name(all, i as int),
        decreases tags.len() - i,
    {
        assert(all[i as int] == (tags@[i as int].id, tags@[i as int].name@));
        map.insert(lowercase(tags[i].name.as_str()), tags[i].id);
        i += 1;
    }
    map
}

// ---------------------------------------------------------------------------
// The word that is being written.

/// The position of the last white space, or -1.
pub open spec fn last_space(s: Seq<char>) -> int
    decreases s.len(),
{
    if s.len() == 0 {
        -1
    } else if is_space(s.last()) {
        s.len() - 1
    } else {
        last_space(s.drop_last())
    }
}

/// The last word, up to the end of the text; empty where the text ends with white
/// space.
pub open spec fn last_word(s: Seq<char>) -> Seq<char> {
    s.skip(last_space(s) + 1)
}

/// A text without the `-` signs that it begins with.
pub open spec fn without_signs(s: Seq<char>) -> Seq<char>
    decreases s.len(),
{
    if is_negative(s) {
        without_signs(s.skip(1))
    } else {
        s
    }
}

proof fn lemma_last_space(s: Seq<char>)
    ensures
        -1 <= last_space(s) < s.len(),
        last_space(s) >= 0 ==> is_space(s[last_space(s)]),
        forall|j: int| last_space(s) < j < s.len() ==> !is_space(#[trigger] s[j]),
    decreases s.len(),
{
    if s.len() > 0 && !is_space(s.last()) {
        lemma_last_space(s.drop_last());
        assert forall|j: int| last_space(s) < j < s.len() implies !is_space(#[trigger] s[j]) by {
            if j < s.len() - 1 {
                assert(s[j] == s.drop_last()[j]);
            }
        }
    }
}

fn word_start(v: &Vec<char>) -> (r: usize)
    ensures
        r == last_space(v@) + 1,
        r <= v@.len(),
{
    proof {
        lemma_last_space(v@);
    }
    let mut i: usize = v.len();
    while i > 0
        invariant
            i <= v@.len(),
            forall|j: int| i <= j < v@.len() ==> !is_space(#[trigger] v@[j]),
            -1 <= last_space(v@) < v@.len(),
            last_space(v@) >= 0 ==> is_space(v@[last_space(v@)]),
            forall|j: int| last_space(v@) < j < v@.len() ==> !is_space(#[trigger] v@[j]),
        decreases i,
    {
        if space(v[i - 1]) {
            assert(last_space(v@) == i - 1);
            return i;
        }
        i -= 1;
    }
    0
}

/// The word that is being written, without the `-` signs before it.
pub fn last_token_query(text: &str) -> (r: String)
    ensures
        r@ == without_signs(last_word(text@)),
{
    let v = chars_of(text);
    let n: usize = v.len();
    let mut i: usize = word_start(&v);
    let ghost w = last_word(text@);
    while i < n && v[i] == '-'
        invariant
            i <= n == v@.len(),
            without_signs(v@.skip(i as int)) == without_signs(w),
        decreases n - i,
    {
        assert(v@.skip(i as int).skip(1) =~= v@.skip(i + 1));
        i += 1;
    }
    let s = string_of(&v, i, n);
    assert(s@ =~= v@.skip(i as int));
    s
}

/// The text with the last word replaced by a name and a space; a `-` before the
/// word stays.
pub open spec fn completed(s: Seq<char>, chosen: Seq<char>) -> Seq<char> {
    s.take(last_space(s) + 1) + (if is_negative(last_word(s)) {
        seq!['-']
    } else {
        Seq::empty()
    }) + chosen + seq![' ']
}

/// Replaces the word that is being written by the chosen tag.
pub fn replace_last_token(text: &str, chosen: &str) -> (r: String)
    ensures
        r@ == completed(text@, chosen@),
{
    let v = chars_of(text);
    let n: usize = v.len();
    let start: usize = word_start(&v);
    let mut s = string_of(&v, 0, start);
    if start < n && v[start] == '-' {
        assert(last_word(text@)[0] == '-');
        s.push('-');
    } else {
        assert(!is_negative(last_word(text@)));
    }
    s.append(chosen);
    s.push(' ');
    assert(s@ =~= completed(text@, chosen@));
    s
}

// ---------------------------------------------------------------------------
// Putting a tag into the filter and taking it out.

/// What is done with a tag in the filter.
#[derive(Debug, Clone, Copy, PartialEq, Eq, Structural)]
pub enum TokenOp {
    Include,
    Exclude,
    Remove,
}

/// Those of the first `n` words whose text without sign is not the name. The texts
/// and the name are given in lower case.
pub open spec fn other_words(ws: Seq<Seq<char>>, lower: Seq<Seq<char>>, name: Seq<char>, n: int) -> Seq<Seq<char>>
    decreases n,
{
    if n <= 0 {
        Seq::empty()
    } else if lower[n - 1] == name {
        other_words(ws, lower, name, n - 1)
    } else {
        other_words(ws, lower, name, n - 1).push(ws[n - 1])
    }
}

/// The words without sign, in lower case.
pub open spec fn lower_words(ws: Seq<Seq<char>>) -> Seq<Seq<char>> {
    ws.map_values(|w: Seq<char>| lowercased(bare(w)))
}

/// The words but for those of the name, in either sign.
pub open spec fn words_without(ws: Seq<Seq<char>>, name: Seq<char>) -> Seq<Seq<char>> {
    other_words(ws, lower_words(ws), lowercased(name), ws.len() as int)
}

/// The words after a tag was put in or taken out.
pub open spec fn with_op(kept: Seq<Seq<char>>, name: Seq<char>, op: TokenOp) -> Seq<Seq<char>> {
    match op {
        TokenOp::Include => kept.push(name),
        TokenOp::Exclude => kept.push(seq!['-'] + name),
        TokenOp::Remove => kept,
    }
}

/// Words with a space between each two.
pub open spec fn spaced(ws: Seq<Seq<char>>) -> Seq<char>
    decreases ws.len(),
{
    if ws.len() == 0 {
        Seq::empty()
    } else if ws.len() == 1 {
        ws[0]
    } else {
        spaced(ws.drop_last()) + seq![' '] + ws.last()
    }
}

/// Joins words with a space between each two.
pub fn join_words(ws: &Vec<String>) -> (r: String)
    ensures
        r@ == spaced(texts(ws@)),
{
    let ghost all = texts(ws@);
    let mut s = String::new();
    let mut i: usize = 0;
    assert(s@ =~= spaced(all.take(0)));
    while i < ws.len()
        invariant
            i <= ws@.len(),
            all == texts(ws@),
            s@ == spaced(all.take(i as int)),
        decreases ws.len() - i,
    {
        proof {
            let t = all.take(i + 1);
            assert(t.last() == ws@[i as int]@);
            assert(t.drop_last() =~= all.take(i as int));
            if i == 0 {
                assert(t[0] == ws@[0]@);
            }
        }
        let ghost s0 = s@;
        if i > 0 {
            s.push(' ');
        }
        s.append(ws[i].as_str());
        proof {
            if i == 0 {
                assert(s0 =~= Seq::<char>::empty());
                assert(s@ =~= ws@[0]@);
            } else {
                assert(s@ =~= s0 + seq![' '] + ws@[i as int]@);
            }
        }
        i += 1;
    }
    assert(all.take(i as int) =~= all);
    s
}

/// The words whose text without sign is not the name. The texts and the name are
/// given in lower case.
pub fn drop_words(ws: &Vec<String>, lower: &Vec<String>, name: &str) -> (r: Vec<String>)
    requires
        lower@.len() == ws@.len(),
    ensures
        texts(r@) == other_words(texts(ws@), texts(lower@), name@, ws@.len() as int),
{
    let ghost all = texts(ws@);
    let ghost ls = texts(lower@);
    let mut kept: Vec<String> = Vec::new();
    let mut i: usize = 0;
    assert(texts(kept@) =~= other_words(all, ls, name@, 0));
    while i < ws.len()
        invariant
            i <= ws@.len() == lower@.len(),
            all == texts(ws@),
            ls == texts(lower@),
            texts(kept@) == other_words(all, ls, name@, i as int),
        decreases ws.len() - i,
    {
        assert(all[i as int] == ws@[i as int]@);
        assert(ls[i as int] == lower@[i as int]@);
        if !same_text(lower[i].as_str(), name) {
            let ghost kept0 = texts(kept@);
            kept.push(ws[i].clone());
            assert(texts(kept@) =~= kept0.push(all[i as int]));
        }
        i += 1;
    }
    kept
}

/// The text of the filter with a tag in the wanted state: every word of its name is
/// taken out, and the one that is asked for put at the end.
pub fn set_filter_token(text: &str, name: &str, op: TokenOp) -> (r: String)
    ensures
        r@ == spaced(with_op(words_without(words(text@), name@), name@, op)),
{
    let ws = split_words(text);
    let ghost all = words(text@);
    assert(all.len() == ws@.len());
    let name_lc = lowercase(name);
    let mut lower: Vec<String> = Vec::new();
    let mut i: usize = 0;
    while i < ws.len()
        invariant
            i <= ws@.len(),
            texts(ws@) == all,
            lower@.len() == i,
            forall|k: int| 0 <= k < i ==> (#[trigger] lower@[k])@ == lowercased(bare(all[k])),
        decreases ws.len() - i,
    {
        assert(all[i as int] == ws@[i as int]@);
        let (negative, word) = split_sign(ws[i].as_str());
        lower.push(lowercase(word.as_str()));
        i += 1;
    }
    assert(texts(lower@) =~= lower_words(all));
    let mut kept = drop_words(&ws, &lower, name_lc.as_str());
    let ghost rest = texts(kept@);
    match op {
        TokenOp::Include => {
            kept.push(name.to_string());
            assert(texts(kept@) =~= rest.push(name@));
        },
        TokenOp::Exclude => {
            let mut s = "-".to_string();
            s.append(name);
            proof {
                reveal_strlit("-");
            }
            assert(s@ =~= seq!['-'] + name@);
            let ghost t = s@;
            kept.push(s);
            assert(texts(kept@) =~= rest.push(t));
        },
        TokenOp::Remove => {},
    }
    join_words(&kept)
}

/// A text that is one word.
pub open spec fn is_word(s: Seq<char>) -> bool {
    s.len() > 0 && forall|i: int| 0 <= i < s.len() ==> !is_space(#[trigger] s[i])
}

/// Texts each of which is one word.
pub open spec fn are_words(ws: Seq<Seq<char>>) -> bool {
    forall|i: int| 0 <= i < ws.len() ==> is_word(#[trigger] ws[i])
}

proof fn lemma_word_then(w: Seq<char>, rest: Seq<char>)
    requires
        is_word(w),
        rest.len() == 0 || is_space(rest[0]),
    ensures
        words(w + rest) == seq![w] + words(rest),
{
    let s = w + rest;
    lemma_word_len(s);
    let k = word_len(s);
    assert(s[0] == w[0]);
    if k < w.len() {
        assert(s[k] == w[k]);
    }
    if k > w.len() {
        assert(s[w.len() as int] == rest[0]);
    }
    assert(k == w.len());
    assert(s.take(k) =~= w);
    assert(s.skip(k) =~= rest);
}

/// The words of a text that ends with a word: those before it, and the word.
proof fn lemma_words_push(s: Seq<char>, w: Seq<char>)
    requires
        is_word(w),
    ensures
        words(s + seq![' '] + w) == words(s).push(w),
    decreases s.len(),
{
    let t = s + seq![' '] + w;
    if s.len() == 0 {
        assert(t =~= seq![' '] + w);
        assert(is_space(t[0]));
        assert(t.skip(1) =~= w + Seq::<char>::empty());
        lemma_word_then(w, Seq::empty());
        assert(words(Seq::<char>::empty()) =~= Seq::<Seq<char>>::empty());
        assert(words(t) =~= words(s).push(w));
    } else if is_space(s[0]) {
        assert(t[0] == s[0]);
        assert(t.skip(1) =~= s.skip(1) + seq![' '] + w);
        lemma_words_push(s.skip(1), w);
    } else {
        lemma_word_len(s);
        let k = word_len(s);
        let a = s.take(k);
        let rest = s.skip(k);
        assert(is_word(a)) by {
            assert forall|i: int| 0 <= i < a.len() implies !is_space(#[trigger] a[i]) by {
                assert(a[i] == s[i]);
            }
        }
        assert(k > 0);
        let more = rest + seq![' '] + w;
        assert(t =~= a + more);
        assert(is_space(more[0])) by {
            if rest.len() > 0 {
                assert(more[0] == s[k]);
            }
        }
        lemma_word_then(a, more);
        lemma_words_push(rest, w);
        assert(words(t) =~= words(s).push(w));
    }
}

/// Words that are joined come apart again.
pub proof fn law_joined_words_come_apart(ws: Seq<Seq<char>>)
    requires
        are_words(ws),
    ensures
        words(spaced(ws)) == ws,
    decreases ws.len(),
{
    if ws.len() == 0 {
        assert(words(spaced(ws)) =~= ws);
    } else if ws.len() == 1 {
        assert(is_word(ws[0]));
        assert(ws[0] =~= ws[0] + Seq::<char>::empty());
        lemma_word_then(ws[0], Seq::empty());
        assert(words(Seq::<char>::empty()) =~= Seq::<Seq<char>>::empty());
        assert(words(spaced(ws)) =~= ws);
    } else {
        let rest = ws.drop_last();
        assert(are_words(rest)) by {
            assert forall|i: int| 0 <= i < rest.len() implies is_word(#[trigger] rest[i]) by {
                assert(is_word(ws[i]));
            }
        }
        law_joined_words_come_apart(rest);
        assert(is_word(ws[ws.len() - 1]));
        lemma_words_push(spaced(rest), ws.last());
        assert(words(spaced(ws)) =~= ws);
    }
}

proof fn lemma_words_are_words(s: Seq<char>)
    ensures
        are_words(words(s)),
    decreases s.len(),
{
    if s.len() > 0 {
        if is_space(s[0]) {
            lemma_words_are_words(s.skip(1));
        } else {
            lemma_word_len(s);
            let k = word_len(s);
            lemma_words_are_words(s.skip(k));
            let a = s.take(k);
            assert(is_word(a)) by {
                assert forall|i: int| 0 <= i < a.len() implies !is_space(#[trigger] a[i]) by {
                    assert(a[i] == s[i]);
                }
            }
            let all = words(s);
            assert forall|i: int| 0 <= i < all.len() implies is_word(#[trigger] all[i]) by {
                if i > 0 {
                    assert(all[i] == words(s.skip(k))[i - 1]);
                }
            }
        }
    }
}

proof fn lemma_other_words(ws: Seq<Seq<char>>, lower: Seq<Seq<char>>, name: Seq<char>, n: int)
    requires
        0 <= n <= ws.len() == lower.len(),
    ensures
        forall|k: int|
            0 <= k < other_words(ws, lower, name, n).len() ==> exists|i: int|
                0 <= i < n && #[trigger] ws[i] == #[trigger] other_words(ws, lower, name, n)[k] && lower[i] != name,
    decreases n,
{
    if n > 0 {
        lemma_other_words(ws, lower, name, n - 1);
        let before = other_words(ws, lower, name, n - 1);
        let now = other_words(ws, lower, name, n);
        assert forall|k: int| 0 <= k < now.len() implies exists|i: int|
            0 <= i < n && #[trigger] ws[i] == #[trigger] now[k] && lower[i] != name by {
            if k < before.len() {
                assert(now[k] == before[k]);
                let i = choose|i: int| 0 <= i < n - 1 && #[trigger] ws[i] == before[k] && lower[i] != name;
                assert(ws[i] == now[k]);
            } else {
                assert(ws[n - 1] == now[k]);
            }
        }
    }
}

/// After a tag was put into the filter, the filter holds the words that it held,
/// but for those of the tag, and the one that was asked for; after it was taken
/// out, no word of the filter is its name. The name has to be one word.
pub proof fn law_token_is_set(text: Seq<char>, name: Seq<char>, op: TokenOp)
    requires
        is_word(name),
    ensures
        ({
            let kept = words_without(words(text), name);
            &&& words(spaced(with_op(kept, name, op))) == with_op(kept, name, op)
            &&& forall|k: int| 0 <= k < kept.len() ==> lowercased(bare(#[trigger] kept[k])) != lowercased(name)
        }),
{
    let ws = words(text);
    let lower = lower_words(ws);
    let kept = words_without(ws, name);
    lemma_words_are_words(text);
    lemma_other_words(ws, lower, lowercased(name), ws.len() as int);
    let all = with_op(kept, name, op);
    assert forall|k: int| 0 <= k < kept.len() implies is_word(#[trigger] kept[k]) && lowercased(bare(kept[k]))
        != lowercased(name) by {
        let i = choose|i: int|
            0 <= i < ws.len() && #[trigger] ws[i] == kept[k] && lower[i] != lowercased(name);
        assert(is_word(ws[i]));
        assert(lower[i] == lowercased(bare(ws[i])));
    }
    assert(is_word(seq!['-'] + name)) by {
        let w = seq!['-'] + name;
        assert forall|i: int| 0 <= i < w.len() implies !is_space(#[trigger] w[i]) by {
            if i > 0 {
                assert(w[i] == name[i - 1]);
            }
        }
    }
    assert forall|k: int| 0 <= k < all.len() implies is_word(#[trigger] all[k]) by {
        if k < kept.len() {
            assert(all[k] == kept[k]);
        }
    }
    law_joined_words_come_apart(all);
}

/// A tag that was put into the filter is asked for, or ruled out, when the filter is
/// read again. The name has to be one word without a sign, and that of a tag.
pub proof fn law_tag_in_filter_counts(text: Seq<char>, name: Seq<char>, ids: Map<Seq<char>, i64>)
    requires
        is_word(name),
        !is_negative(name),
        ids.contains_key(lowercased(name)),
    ensures
        ({
            let kept = words_without(words(text), name);
            let wanted = words(spaced(with_op(kept, name, TokenOp::Include)));
            let banned = words(spaced(with_op(kept, name, TokenOp::Exclude)));
            &&& filter_of(wanted, ids, wanted.len() as int).want.contains(ids[lowercased(name)])
            &&& filter_of(banned, ids, banned.len() as int).unwanted.contains(ids[lowercased(name)])
        }),
{
    let kept = words_without(words(text), name);
    let id = ids[lowercased(name)];
    law_token_is_set(text, name, TokenOp::Include);
    law_token_is_set(text, name, TokenOp::Exclude);
    let wanted = kept.push(name);
    let n = wanted.len() as int;
    assert(wanted[n - 1] == name);
    let f = filter_of(wanted, ids, n);
    assert(f.want[f.want.len() - 1] == id);
    let banned = kept.push(seq!['-'] + name);
    assert(banned[n - 1] == seq!['-'] + name);
    assert(bare(seq!['-'] + name) =~= name);
    let g = filter_of(banned, ids, n);
    assert(g.unwanted[g.unwanted.len() - 1] == id);
}

/// After a suggestion was taken, no word is being written.
pub proof fn law_completed_word_is_over(text: Seq<char>, chosen: Seq<char>)
    ensures
        last_word(completed(text, chosen)) == Seq::<char>::empty(),
{
    let s = completed(text, chosen);
    assert(s.last() == ' ');
    assert(last_space(s) == s.len() - 1);
    assert(last_word(s) =~= Seq::<char>::empty());
}

// ---------------------------------------------------------------------------
// Suggestions.

/// How many tags are suggested at most.
pub const SUGGESTIONS: usize = 8;

/// The names of tags, as a set.
pub fn names_of(tags: &Vec<Tag>) -> (r: StringHashSet)
    ensures
        forall|x: Seq<char>| #[trigger] r@.contains(x) <==> exists|k: int|
            0 <= k < tags@.len() && (#[trigger] tags@[k]).name@ == x,
{
    let mut out = StringHashSet::new();
    let mut i: usize = 0;
    while i < tags.len()
        invariant
            i <= tags@.len(),
            forall|x: Seq<char>| #[trigger] out@.contains(x) <==> exists|k: int|
                0 <= k < i && (#[trigger] tags@[k]).name@ == x,
        decreases tags.len() - i,
    {
        let ghost out0 = out@;
        out.insert(tags[i].name.clone());
        assert forall|x: Seq<char>| #[trigger] out@.contains(x) <==> exists|k: int|
            0 <= k < i + 1 && (#[trigger] tags@[k]).name@ == x by {
            if out0.contains(x) {
                let k = choose|k: int| 0 <= k < i && (#[trigger] tags@[k]).name@ == x;
                assert(tags@[k].name@ == x);
            }
            if x == tags@[i as int].name@ {
                assert(out@.contains(x));
            }
        }
        i += 1;
    }
    out
}

/// The first of the names that hold the query, but for those left out. The query
/// and the names that it is looked for in are given in lower case.
pub open spec fn suggested(
    query: Seq<char>,
    lower: Seq<Seq<char>>,
    names: Seq<Seq<char>>,
    leave_out: Set<Seq<char>>,
    n: int,
) -> Seq<Seq<char>>
    decreases n,
{
    if n <= 0 {
        Seq::empty()
    } else {
        let before = suggested(query, lower, names, leave_out, n - 1);
        if before.len() < SUGGESTIONS && has_part(lower[n - 1], query) && !leave_out.contains(names[n - 1]) {
            before.push(names[n - 1])
        } else {
            before
        }
    }
}

/// The first of the names that hold the query, but for those left out. The query
/// and the names that it is looked for in are given in lower case.
pub fn suggest_from(query: &str, lower: &Vec<String>, names: &Vec<String>, leave_out: &StringHashSet) -> (r: Vec<
    String,
>)
    requires
        lower@.len() == names@.len(),
    ensures
        texts(r@) == suggested(query@, texts(lower@), texts(names@), leave_out@, names@.len() as int),
{
    let ghost ls = texts(lower@);
    let ghost ns = texts(names@);
    let mut out: Vec<String> = Vec::new();
    let mut i: usize = 0;
    assert(texts(out@) =~= suggested(query@, ls, ns, leave_out@, 0));
    while i < names.len()
        invariant
            i <= names@.len() == lower@.len(),
            ls == texts(lower@),
            ns == texts(names@),
            texts(out@) == suggested(query@, ls, ns, leave_out@, i as int),
        decreases names.len() - i,
    {
        assert(ls[i as int] == lower@[i as int]@);
        assert(ns[i as int] == names@[i as int]@);
        assert(texts(out@).len() == out@.len());
        if out.len() < SUGGESTIONS && contains_part(lower[i].as_str(), query) && !leave_out.contains(names[i].as_str()) {
            let ghost out0 = texts(out@);
            out.push(names[i].clone());
            assert(texts(out@) =~= out0.push(ns[i as int]));
        }
        i += 1;
    }
    out
}

/// The first tags whose names hold the query, without regard to case, but for those
/// left out. An empty query suggests nothing.
pub fn suggest(query: &str, names: &Vec<String>, leave_out: &StringHashSet) -> (r: Vec<String>)
    ensures
        texts(r@) == if query@.len() == 0 {
            Seq::empty()
        } else {
            suggested(
                lowercased(query@),
                texts(names@).map_values(|s: Seq<char>| lowercased(s)),
                texts(names@),
                leave_out@,
                names@.len() as int,
            )
        },
{
    if chars_of(query).len() == 0 {
        let out: Vec<String> = Vec::new();
        assert(texts(out@) =~= Seq::<Seq<char>>::empty());
        return out;
    }
    let q = lowercase(query);
    let mut lower: Vec<String> = Vec::new();
    let mut i: usize = 0;
    while i < names.len()
        invariant
            i <= names@.len(),
            lower@.len() == i,
            forall|k: int| 0 <= k < i ==> (#[trigger] lower@[k])@ == lowercased(names@[k]@),
        decreases names.len() - i,
    {
        lower.push(lowercase(names[i].as_str()));
        i += 1;
    }
    assert(texts(lower@) =~= texts(names@).map_values(|s: Seq<char>| lowercased(s)));
    suggest_from(q.as_str(), &lower, names, leave_out)
}

} // verus!
