//! Orders on texts and numbers, and the sort that the crate uses.
//!
//! Texts are ordered character by character, by code point, which is the order
//! of `str` in the standard library.

use vstd::prelude::*;
use crate::sort::{order_of, sort_positions, Ranked};
use crate::text::{ascii_lowered, chars_of, texts, to_ascii_lower};

verus! {

broadcast use vstd::string::group_string_axioms;

/// Whether `a` stands before `b`.
pub open spec fn text_lt(a: Seq<char>, b: Seq<char>) -> bool
    decreases a.len(),
{
    if b.len() == 0 {
        false
    } else if a.len() == 0 {
        true
    } else if a[0] == b[0] {
        text_lt(a.skip(1), b.skip(1))
    } else {
        a[0] < b[0]
    }
}

/// No text stands before itself.
pub proof fn lemma_text_lt_irreflexive(a: Seq<char>)
    ensures
        !text_lt(a, a),
    decreases a.len(),
{
    if a.len() > 0 {
        lemma_text_lt_irreflexive(a.skip(1));
    }
}

/// The order on texts is transitive.
pub proof fn lemma_text_lt_transitive(a: Seq<char>, b: Seq<char>, c: Seq<char>)
    requires
        text_lt(a, b),
        text_lt(b, c),
    ensures
        text_lt(a, c),
    decreases a.len(),
{
    if a.len() > 0 && b.len() > 0 && c.len() > 0 && a[0] == b[0] && b[0] == c[0] {
        lemma_text_lt_transitive(a.skip(1), b.skip(1), c.skip(1));
    }
}

/// Of two different texts one stands before the other.
pub proof fn lemma_text_lt_total(a: Seq<char>, b: Seq<char>)
    ensures
        a == b || text_lt(a, b) || text_lt(b, a),
    decreases a.len(),
{
    if a.len() == 0 || b.len() == 0 {
        if a.len() == b.len() {
            assert(a == b);
        }
    } else if a[0] == b[0] {
        lemma_text_lt_total(a.skip(1), b.skip(1));
        if a.skip(1) == b.skip(1) {
            assert(a == seq![a[0]] + a.skip(1));
            assert(b == seq![b[0]] + b.skip(1));
        }
    }
}

/// A proper prefix stands before the text that it begins.
pub proof fn lemma_prefix_before(a: Seq<char>, t: Seq<char>)
    requires
        t.len() > 0,
    ensures
        text_lt(a, a + t),
    decreases a.len(),
{
    let b = a + t;
    if a.len() > 0 {
        lemma_prefix_before(a.skip(1), t);
        assert(b.skip(1) == a.skip(1) + t);
    }
}

proof fn lemma_text_lt_skip(a: Seq<char>, b: Seq<char>, n: int)
    requires
        0 <= n <= a.len(),
        n <= b.len(),
        a.take(n) == b.take(n),
    ensures
        text_lt(a, b) == text_lt(a.skip(n), b.skip(n)),
    decreases n,
{
    if n == 0 {
        assert(a.skip(0) == a);
        assert(b.skip(0) == b);
    } else {
        assert(a.take(n)[0] == a[0]);
        assert(b.take(n)[0] == b[0]);
        assert(a.skip(1).take(n - 1) == a.take(n).skip(1));
        assert(b.skip(1).take(n - 1) == b.take(n).skip(1));
        lemma_text_lt_skip(a.skip(1), b.skip(1), n - 1);
        assert(a.skip(1).skip(n - 1) == a.skip(n));
        assert(b.skip(1).skip(n - 1) == b.skip(n));
    }
}

/// Whether one vector of characters stands before the other.
pub fn chars_before(a: &Vec<char>, b: &Vec<char>) -> (r: bool)
    ensures
        r == text_lt(a@, b@),
{
    let mut i: usize = 0;
    while i < a.len() && i < b.len() && a[i] == b[i]
        invariant
            i <= a@.len(),
            i <= b@.len(),
            a@.take(i as int) == b@.take(i as int),
        decreases a.len() - i,
    {
        i += 1;
        assert(a@.take(i as int) == a@.take(i - 1).push(a@[i - 1]));
        assert(b@.take(i as int) == b@.take(i - 1).push(b@[i - 1]));
    }
    proof {
        lemma_text_lt_skip(a@, b@, i as int);
        if i < a@.len() {
            assert(a@.skip(i as int)[0] == a@[i as int]);
        }
        if i < b@.len() {
            assert(b@.skip(i as int)[0] == b@[i as int]);
        }
    }
    if i >= b.len() {
        false
    } else if i >= a.len() {
        true
    } else {
        a[i] < b[i]
    }
}

/// Whether one text stands before the other.
pub fn text_before(a: &str, b: &str) -> (r: bool)
    ensures
        r == text_lt(a@, b@),
{
    let x = chars_of(a);
    let y = chars_of(b);
    chars_before(&x, &y)
}

/// Of three texts: what is before one that is not after a third is before that one,
/// and so on.
pub proof fn lemma_text_lt_weak(x: Seq<char>, y: Seq<char>, z: Seq<char>)
    ensures
        text_lt(x, y) ==> !text_lt(y, x),
        text_lt(x, y) && text_lt(y, z) ==> text_lt(x, z),
        text_lt(x, y) && !text_lt(z, y) ==> text_lt(x, z),
        !text_lt(y, x) && text_lt(y, z) ==> text_lt(x, z),
        !text_lt(y, x) && !text_lt(z, y) ==> !text_lt(z, x),
{
    lemma_text_lt_irreflexive(x);
    lemma_text_lt_irreflexive(y);
    lemma_text_lt_total(x, y);
    lemma_text_lt_total(y, z);
    lemma_text_lt_total(x, z);
    if text_lt(x, y) && text_lt(y, x) {
        lemma_text_lt_transitive(x, y, x);
    }
    if text_lt(x, y) && text_lt(y, z) {
        lemma_text_lt_transitive(x, y, z);
    }
    if text_lt(z, y) && text_lt(y, x) {
        lemma_text_lt_transitive(z, y, x);
    }
    if text_lt(z, x) && text_lt(x, y) {
        lemma_text_lt_transitive(z, x, y);
    }
    if text_lt(y, z) && text_lt(z, x) {
        lemma_text_lt_transitive(y, z, x);
    }
    if text_lt(y, x) && text_lt(x, z) {
        lemma_text_lt_transitive(y, x, z);
    }
    if text_lt(x, z) && text_lt(z, y) {
        lemma_text_lt_transitive(x, z, y);
    }
}

// ---------------------------------------------------------------------------
// Sorted sequences.

/// Every element stands before every later one.
pub open spec fn increasing<T>(s: Seq<T>, lt: spec_fn(T, T) -> bool) -> bool {
    forall|i: int, j: int| 0 <= i < j < s.len() ==> lt(#[trigger] s[i], #[trigger] s[j])
}

/// Whether a relation is never true in both directions.
pub open spec fn asymmetric<T>(lt: spec_fn(T, T) -> bool) -> bool {
    forall|x: T, y: T| #[trigger] lt(x, y) ==> !lt(y, x)
}

/// There is at most one way to put given elements in increasing order.
pub proof fn lemma_increasing_unique<T>(a: Seq<T>, b: Seq<T>, lt: spec_fn(T, T) -> bool)
    requires
        asymmetric(lt),
        increasing(a, lt),
        increasing(b, lt),
        forall|x: T| a.contains(x) <==> b.contains(x),
    ensures
        a == b,
    decreases a.len(),
{
    if a.len() == 0 {
        if b.len() > 0 {
            assert(b.contains(b[0]));
            assert(a.contains(b[0]));
        }
        assert(a == b);
    } else {
        assert(a.contains(a.last()));
        assert(b.contains(a.last()));
        let k = choose|k: int| 0 <= k < b.len() && b[k] == a.last();
        assert(b.contains(b.last()));
        assert(a.contains(b.last()));
        let j = choose|j: int| 0 <= j < a.len() && a[j] == b.last();
        if k < b.len() - 1 {
            assert(lt(b[k], b[b.len() - 1]));
            if j < a.len() - 1 {
                assert(lt(a[j], a[a.len() - 1]));
            }
        }
        assert(a.last() == b.last());
        let a1 = a.drop_last();
        let b1 = b.drop_last();
        assert forall|x: T| a1.contains(x) <==> b1.contains(x) by {
            if a1.contains(x) {
                let i = choose|i: int| 0 <= i < a1.len() && a1[i] == x;
                assert(lt(a[i], a[a.len() - 1]));
                assert(a.contains(a[i]));
                let m = choose|m: int| 0 <= m < b.len() && b[m] == x;
                assert(m != b.len() - 1);
                assert(b1[m] == x);
            }
            if b1.contains(x) {
                let i = choose|i: int| 0 <= i < b1.len() && b1[i] == x;
                assert(lt(b[i], b[b.len() - 1]));
                assert(b.contains(b[i]));
                let m = choose|m: int| 0 <= m < a.len() && a[m] == x;
                assert(m != a.len() - 1);
                assert(a1[m] == x);
            }
        }
        lemma_increasing_unique(a1, b1, lt);
        assert(a == a1.push(a.last()));
        assert(b == b1.push(b.last()));
    }
}

/// The order on positions by the text at each, and by position where the texts
/// are equal.
pub open spec fn key_lt(keys: Seq<Seq<char>>) -> spec_fn(int, int) -> bool {
    |i: int, j: int| text_lt(keys[i], keys[j]) || (keys[i] == keys[j] && i < j)
}

/// Whether `p` lists every position of `keys` once, by text and, among equal
/// texts, by position.
pub open spec fn sorts(keys: Seq<Seq<char>>, p: Seq<int>) -> bool {
    &&& increasing(p, key_lt(keys))
    &&& forall|i: int| p.contains(i) <==> 0 <= i < keys.len()
}

/// The positions of `keys` in the order of their texts; equal texts keep their order.
pub open spec fn text_order(keys: Seq<Seq<char>>) -> Seq<int> {
    choose|p: Seq<int>| sorts(keys, p)
}

proof fn lemma_key_lt_asymmetric(keys: Seq<Seq<char>>)
    ensures
        asymmetric(key_lt(keys)),
{
    let lt = key_lt(keys);
    assert forall|i: int, j: int| #[trigger] lt(i, j) implies !lt(j, i) by {
        lemma_text_lt_irreflexive(keys[i]);
        lemma_text_lt_irreflexive(keys[j]);
        if text_lt(keys[i], keys[j]) && text_lt(keys[j], keys[i]) {
            lemma_text_lt_transitive(keys[i], keys[j], keys[i]);
        }
    }
}

/// What sorts the keys is their text order.
pub proof fn lemma_sorts_unique(keys: Seq<Seq<char>>, p: Seq<int>)
    requires
        sorts(keys, p),
    ensures
        p == text_order(keys),
{
    let q = text_order(keys);
    assert(sorts(keys, q));
    lemma_key_lt_asymmetric(keys);
    lemma_increasing_unique(p, q, key_lt(keys));
}

/// Whether a relation is transitive, and holds one way or the other.
pub open spec fn linear(lt: spec_fn(int, int) -> bool) -> bool {
    &&& forall|i: int, j: int, k: int| #[trigger] lt(i, j) && #[trigger] lt(j, k) ==> lt(i, k)
    &&& forall|i: int, j: int| #![trigger lt(i, j)] i == j || lt(i, j) || lt(j, i)
}

proof fn lemma_insert(lt: spec_fn(int, int) -> bool, p: Seq<int>, x: int) -> (q: Seq<int>)
    requires
        linear(lt),
        increasing(p, lt),
        !p.contains(x),
    ensures
        increasing(q, lt),
        forall|i: int| q.contains(i) <==> p.contains(i) || i == x,
    decreases p.len(),
{
    if p.len() == 0 {
        let q = seq![x];
        assert(q[0] == x);
        q
    } else {
        let last = p.last();
        let rest = p.drop_last();
        assert forall|i: int, j: int| 0 <= i < j < rest.len() implies lt(#[trigger] rest[i], #[trigger] rest[j]) by {
            assert(lt(p[i], p[j]));
        }
        assert(p.contains(last)) by {
            assert(p[p.len() - 1] == last);
        }
        assert forall|i: int| p.contains(i) <==> rest.contains(i) || i == last by {
            if p.contains(i) && i != last {
                let k = choose|k: int| 0 <= k < p.len() && p[k] == i;
                assert(rest[k] == i);
            }
            if rest.contains(i) {
                let k = choose|k: int| 0 <= k < rest.len() && rest[k] == i;
                assert(p[k] == i);
            }
        }
        assert(last == x || lt(last, x) || lt(x, last));
        if lt(last, x) {
            let q = p.push(x);
            assert forall|i: int, j: int| 0 <= i < j < q.len() implies lt(#[trigger] q[i], #[trigger] q[j]) by {
                if j < p.len() {
                    assert(lt(p[i], p[j]));
                } else if i < p.len() - 1 {
                    assert(lt(p[i], p[p.len() - 1]));
                }
            }
            assert forall|i: int| q.contains(i) <==> p.contains(i) || i == x by {
                lemma_push_contains(p, x, i);
            }
            q
        } else {
            let r = lemma_insert(lt, rest, x);
            let q = r.push(last);
            assert forall|i: int, j: int| 0 <= i < j < q.len() implies lt(#[trigger] q[i], #[trigger] q[j]) by {
                if j < r.len() {
                    assert(lt(r[i], r[j]));
                } else {
                    assert(r.contains(r[i]));
                    if r[i] != x {
                        let k = choose|k: int| 0 <= k < rest.len() && rest[k] == r[i];
                        assert(lt(p[k], p[p.len() - 1]));
                    }
                }
            }
            assert forall|i: int| q.contains(i) <==> p.contains(i) || i == x by {
                lemma_push_contains(r, last, i);
            }
            q
        }
    }
}

/// Positions can be put in any linear order.
pub proof fn lemma_sorted_upto(lt: spec_fn(int, int) -> bool, n: int) -> (p: Seq<int>)
    requires
        0 <= n,
        linear(lt),
    ensures
        increasing(p, lt),
        forall|i: int| p.contains(i) <==> 0 <= i < n,
    decreases n,
{
    if n == 0 {
        Seq::empty()
    } else {
        let p = lemma_sorted_upto(lt, n - 1);
        lemma_insert(lt, p, n - 1)
    }
}

/// What lists the positions up to a number in an order has as many of them.
pub proof fn lemma_sorted_len(lt: spec_fn(int, int) -> bool, p: Seq<int>, n: int)
    requires
        0 <= n,
        asymmetric(lt),
        increasing(p, lt),
        forall|i: int| p.contains(i) <==> 0 <= i < n,
    ensures
        p.len() == n,
{
    assert(p.no_duplicates()) by {
        assert forall|i: int, j: int| 0 <= i < p.len() && 0 <= j < p.len() && i != j implies p[i] != p[j] by {
            if i < j {
                assert(lt(p[i], p[j]));
            } else {
                assert(lt(p[j], p[i]));
            }
        }
    }
    p.unique_seq_to_set();
    let all = vstd::set_lib::set_int_range(0, n);
    vstd::set_lib::lemma_int_range(0, n);
    assert(p.to_set() =~= all) by {
        assert forall|i: int| p.to_set().contains(i) <==> all.contains(i) by {
            assert(p.contains(i) <==> 0 <= i < n);
        }
    }
}

/// All keys can be sorted.
pub proof fn lemma_text_order(keys: Seq<Seq<char>>)
    ensures
        sorts(keys, text_order(keys)),
        text_order(keys).len() == keys.len(),
{
    let lt = key_lt(keys);
    assert forall|i: int, j: int, k: int| #[trigger] lt(i, j) && #[trigger] lt(j, k) implies lt(i, k) by {
        lemma_key_lt_transitive(keys, i, j, k);
    }
    assert forall|i: int, j: int| #![trigger lt(i, j)] i == j || lt(i, j) || lt(j, i) by {
        lemma_key_lt_total(keys, i, j);
    }
    let p = lemma_sorted_upto(lt, keys.len() as int);
    assert(sorts(keys, p));
    lemma_key_lt_asymmetric(keys);
    lemma_sorted_len(lt, text_order(keys), keys.len() as int);
}

/// A vector of positions, as integers.
pub open spec fn positions(v: Seq<usize>) -> Seq<int> {
    v.map_values(|i: usize| i as int)
}

spec fn char_texts(v: Seq<Vec<char>>) -> Seq<Seq<char>> {
    v.map_values(|s: Vec<char>| s@)
}

proof fn lemma_key_lt_transitive(keys: Seq<Seq<char>>, i: int, j: int, k: int)
    requires
        key_lt(keys)(i, j),
        key_lt(keys)(j, k),
    ensures
        key_lt(keys)(i, k),
{
    if text_lt(keys[i], keys[j]) && text_lt(keys[j], keys[k]) {
        lemma_text_lt_transitive(keys[i], keys[j], keys[k]);
    }
}

proof fn lemma_key_lt_total(keys: Seq<Seq<char>>, i: int, j: int)
    ensures
        i == j || key_lt(keys)(i, j) || key_lt(keys)(j, i),
{
    lemma_text_lt_total(keys[i], keys[j]);
}

/// What a longer sequence holds.
pub proof fn lemma_push_contains<T>(s: Seq<T>, x: T, z: T)
    ensures
        s.push(x).contains(z) <==> (s.contains(z) || z == x),
{
    if s.contains(z) {
        let i = choose|i: int| 0 <= i < s.len() && s[i] == z;
        assert(s.push(x)[i] == z);
    }
    assert(s.push(x)[s.len() as int] == x);
}

struct TextKeys {
    keys: Vec<Vec<char>>,
}

impl Ranked for TextKeys {
    closed spec fn count(&self) -> nat {
        self.keys@.len()
    }

    closed spec fn lt(&self, i: int, j: int) -> bool {
        key_lt(char_texts(self.keys@))(i, j)
    }

    proof fn transitive(&self, i: int, j: int, k: int) {
        lemma_key_lt_transitive(char_texts(self.keys@), i, j, k);
    }

    proof fn total(&self, i: int, j: int) {
        lemma_key_lt_total(char_texts(self.keys@), i, j);
    }

    fn before(&self, i: usize, j: usize) -> (r: bool) {
    if chars_before(&self.keys[i], &self.keys[j]) {
        true
    } else if chars_before(&self.keys[j], &self.keys[i]) {
        proof {
            lemma_text_lt_irreflexive(self.keys@[i as int]@);
        }
        false
    } else {
        proof {
            lemma_text_lt_total(self.keys@[i as int]@, self.keys@[j as int]@);
        }
        i < j
    }
}
}

/// The positions of the keys in the order of their texts.
pub fn sort_texts(keys: &Vec<String>) -> (r: Vec<usize>)
    ensures
        sorts(texts(keys@), positions(r@)),
        positions(r@) == text_order(texts(keys@)),
{
    let mut cs: Vec<Vec<char>> = Vec::new();
    let mut i: usize = 0;
    while i < keys.len()
        invariant
            i <= keys@.len(),
            cs@.len() == i,
            forall|k: int| 0 <= k < i ==> (#[trigger] cs@[k])@ == keys@[k]@,
        decreases keys.len() - i,
    {
        cs.push(chars_of(keys[i].as_str()));
        i += 1;
    }
    assert(char_texts(cs@) == texts(keys@));
    let n: usize = cs.len();
    let ks = TextKeys { keys: cs };
    let r = sort_positions(&ks, n);
    proof {
        assert(order_of(&ks) =~= key_lt(texts(keys@)));
        lemma_sorts_unique(texts(keys@), positions(r@));
    }
    r
}

/// The order of texts.
pub open spec fn in_text_order() -> spec_fn(Seq<char>, Seq<char>) -> bool {
    |a: Seq<char>, b: Seq<char>| text_lt(a, b)
}

/// Texts in their order, each once.
pub fn sorted_once(v: &Vec<String>) -> (r: Vec<String>)
    ensures
        increasing(texts(r@), in_text_order()),
        forall|p: Seq<char>| #[trigger] texts(r@).contains(p) <==> texts(v@).contains(p),
{
    let ghost keys = texts(v@);
    let ghost lt = in_text_order();
    let order = sort_texts(v);
    let ghost ord = positions(order@);
    let ghost klt = key_lt(keys);
    let mut out: Vec<String> = Vec::new();
    let mut i: usize = 0;
    proof {
        assert forall|k: int| 0 <= k < ord.len() implies 0 <= #[trigger] ord[k] < keys.len() by {
            assert(ord.contains(ord[k]));
        }
    }
    while i < order.len()
        invariant
            i <= order@.len(),
            keys == texts(v@),
            lt == in_text_order(),
            klt == key_lt(keys),
            ord == positions(order@),
            increasing(ord, klt),
            forall|k: int| 0 <= k < ord.len() ==> 0 <= #[trigger] ord[k] < keys.len(),
            increasing(texts(out@), lt),
            i > 0 <==> out@.len() > 0,
            i > 0 ==> texts(out@).last() == keys[ord[i - 1]],
            forall|p: Seq<char>| #[trigger] texts(out@).contains(p) <==> exists|k: int|
                0 <= k < i && keys[#[trigger] ord[k]] == p,
        decreases order.len() - i,
    {
        assert(ord[i as int] == order@[i as int]);
        assert(keys.len() == v@.len());
        let s = &v[order[i]];
        assert(keys[ord[i as int]] == s@);
        let n: usize = out.len();
        let ghost out0 = texts(out@);
        let again = n > 0 && out[n - 1] == *s;
        assert(n > 0 ==> out0.last() == out@[n - 1]@);
        if !again {
            out.push(s.clone());
            assert(texts(out@) =~= out0.push(s@));
            proof {
                assert forall|a: int, b: int| 0 <= a < b < texts(out@).len() implies lt(
                    #[trigger] texts(out@)[a],
                    #[trigger] texts(out@)[b],
                ) by {
                    if b < n {
                        assert(lt(out0[a], out0[b]));
                    } else {
                        assert(klt(ord[i - 1], ord[i as int]));
                        assert(text_lt(out0.last(), s@));
                        if a < n - 1 {
                            assert(lt(out0[a], out0[n - 1]));
                            lemma_text_lt_transitive(out0[a], out0[n - 1], s@);
                        }
                    }
                }
            }
        }
        proof {
            assert forall|p: Seq<char>| #[trigger] texts(out@).contains(p) <==> exists|k: int|
                0 <= k < i + 1 && keys[#[trigger] ord[k]] == p by {
                if !again {
                    lemma_push_contains(out0, s@, p);
                }
                if out0.contains(p) {
                    let k = choose|k: int| 0 <= k < i && keys[#[trigger] ord[k]] == p;
                    assert(keys[ord[k]] == p);
                }
                if p == s@ {
                    assert(keys[ord[i as int]] == p);
                    if again {
                        assert(out0[n - 1] == p);
                    }
                }
            }
        }
        i += 1;
    }
    assert forall|p: Seq<char>| #[trigger] texts(out@).contains(p) <==> keys.contains(p) by {
        if texts(out@).contains(p) {
            let k = choose|k: int| 0 <= k < i && keys[#[trigger] ord[k]] == p;
            assert(keys[ord[k]] == p);
        }
        if keys.contains(p) {
            let a = choose|a: int| 0 <= a < keys.len() && keys[a] == p;
            assert(ord.contains(a));
            let k = choose|k: int| 0 <= k < ord.len() && ord[k] == a;
            assert(keys[ord[k]] == p);
        }
    }
    out
}

// ---------------------------------------------------------------------------
// Substrings.

/// Whether `part` occurs in `s` at position `i`.
pub open spec fn occurs_at(s: Seq<char>, part: Seq<char>, i: int) -> bool {
    0 <= i && i + part.len() <= s.len() && s.subrange(i, i + part.len()) == part
}

/// Whether `part` occurs in `s`.
pub open spec fn has_part(s: Seq<char>, part: Seq<char>) -> bool {
    exists|i: int| occurs_at(s, part, i)
}

fn part_at(s: &Vec<char>, part: &Vec<char>, i: usize) -> (r: bool)
    requires
        i + part@.len() <= s@.len(),
    ensures
        r == occurs_at(s@, part@, i as int),
{
    let n: usize = s.len();
    let mut k: usize = 0;
    while k < part.len()
        invariant
            k <= part@.len(),
            i + part@.len() <= s@.len() == n,
            forall|m: int| 0 <= m < k ==> s@[i + m] == part@[m],
        decreases part.len() - k,
    {
        if s[i + k] != part[k] {
            assert(s@.subrange(i as int, i + part@.len())[k as int] == s@[i + k]);
            return false;
        }
        k += 1;
    }
    assert(s@.subrange(i as int, i + part@.len()) == part@);
    true
}

/// Whether `part` occurs in `s`.
pub fn contains_part(s: &str, part: &str) -> (r: bool)
    ensures
        r == has_part(s@, part@),
{
    let a = chars_of(s);
    let b = chars_of(part);
    if b.len() > a.len() {
        return false;
    }
    let last: usize = a.len() - b.len();
    let mut i: usize = 0;
    while i <= last
        invariant
            last == a@.len() - b@.len(),
            i <= last + 1,
            a@ == s@,
            b@ == part@,
            forall|k: int| 0 <= k < i ==> !occurs_at(a@, b@, k),
        decreases last + 1 - i,
    {
        if part_at(&a, &b, i) {
            return true;
        }
        if i == last {
            return false;
        }
        i += 1;
    }
    false
}

/// Whether a text begins with another.
pub open spec fn starts_with(s: Seq<char>, part: Seq<char>) -> bool {
    part.len() <= s.len() && s.take(part.len() as int) == part
}

/// Whether a text ends with another.
pub open spec fn ends_with(s: Seq<char>, part: Seq<char>) -> bool {
    part.len() <= s.len() && s.skip(s.len() - part.len()) == part
}

/// Whether `s` begins with `part`.
pub fn begins(s: &str, part: &str) -> (r: bool)
    ensures
        r == starts_with(s@, part@),
{
    let a = chars_of(s);
    let b = chars_of(part);
    if b.len() > a.len() {
        return false;
    }
    assert(s@.take(part@.len() as int) == s@.subrange(0, part@.len() as int));
    part_at(&a, &b, 0)
}

/// Whether `s` ends with `part`.
pub fn ends(s: &str, part: &str) -> (r: bool)
    ensures
        r == ends_with(s@, part@),
{
    let a = chars_of(s);
    let b = chars_of(part);
    if b.len() > a.len() {
        return false;
    }
    assert(s@.skip(s@.len() - part@.len()) == s@.subrange(
        s@.len() - part@.len(),
        s@.len() as int,
    ));
    part_at(&a, &b, a.len() - b.len())
}

/// Whether two texts are the same.
pub fn same_text(a: &str, b: &str) -> (r: bool)
    ensures
        r == (a@ == b@),
{
    let x = chars_of(a);
    let y = chars_of(b);
    if x.len() != y.len() {
        return false;
    }
    assert(y@.subrange(0, y@.len() as int) == y@);
    assert(x@.subrange(0, y@.len() as int) == x@);
    part_at(&x, &y, 0)
}

/// Whether two texts differ at most in the case of ASCII letters.
pub open spec fn same_nocase(a: Seq<char>, b: Seq<char>) -> bool {
    ascii_lowered(a) == ascii_lowered(b)
}

/// Whether two texts differ at most in the case of ASCII letters.
pub fn eq_nocase(a: &str, b: &str) -> (r: bool)
    ensures
        r == same_nocase(a@, b@),
{
    let x = to_ascii_lower(a);
    let y = to_ascii_lower(b);
    x == y
}

} // verus!
