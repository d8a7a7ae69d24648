//! Text as sequences of characters: the small string operations that the
//! rest of the crate is written with.
//!
//! A `String` or `&str` is viewed as a `Seq<char>`; the executable code works
//! on `Vec<char>` and turns the outcome back into a `String` at the end.

use vstd::prelude::*;

verus! {

broadcast use vstd::string::group_string_axioms;

/// `String::push`: appends one character to the end of the string.
pub assume_specification[ String::push ](s: &mut String, c: char)
    ensures
        final(s)@ == old(s)@.push(c),
;

/// The lower-case form of a text, by the Unicode mapping that
/// `str::to_lowercase` applies.
pub uninterp spec fn lowercased(s: Seq<char>) -> Seq<char>;

/// `str::to_lowercase`. The mapping follows the Unicode tables of the standard
/// library; the contract says only that the outcome is a function of the text.
#[verifier::external_body]
pub(crate) fn lowercase(s: &str) -> (r: String)
    ensures
        r@ == lowercased(s@),
{
    s.to_lowercase()
}

/// Whether a character has the Unicode property White_Space.
pub open spec fn is_space(c: char) -> bool {
    ||| '\u{9}' <= c <= '\u{d}'
    ||| c == '\u{20}'
    ||| c == '\u{85}'
    ||| c == '\u{a0}'
    ||| c == '\u{1680}'
    ||| '\u{2000}' <= c <= '\u{200a}'
    ||| c == '\u{2028}'
    ||| c == '\u{2029}'
    ||| c == '\u{202f}'
    ||| c == '\u{205f}'
    ||| c == '\u{3000}'
}

/// Whether `c` is white space.
pub fn space(c: char) -> (b: bool)
    ensures
        b == is_space(c),
{
    ('\u{9}' <= c && c <= '\u{d}') || c == '\u{20}' || c == '\u{85}' || c == '\u{a0}' || c
        == '\u{1680}' || ('\u{2000}' <= c && c <= '\u{200a}') || c == '\u{2028}' || c == '\u{2029}'
        || c == '\u{202f}' || c == '\u{205f}' || c == '\u{3000}'
}

/// The characters of a text, as a vector.
pub fn chars_of(s: &str) -> (v: Vec<char>)
    ensures
        v@ == s@,
{
    let mut v: Vec<char> = Vec::new();
    for c in it: s.chars()
        invariant
            v@ == it.seq().take(it.index() as int),
            it.seq() == s@,
    {
        v.push(c);
    }
    v
}

/// The characters `from..to` of `v` as a `String`.
pub fn string_of(v: &Vec<char>, from: usize, to: usize) -> (s: String)
    requires
        from <= to <= v@.len(),
    ensures
        s@ == v@.subrange(from as int, to as int),
{
    let mut s = String::new();
    let mut i: usize = from;
    while i < to
        invariant
            from <= i <= to <= v@.len(),
            s@ == v@.subrange(from as int, i as int),
        decreases to - i,
    {
        s.push(v[i]);
        i += 1;
    }
    s
}


/// A vector of strings as a sequence of texts.
pub open spec fn texts(v: Seq<String>) -> Seq<Seq<char>> {
    v.map_values(|s: String| s@)
}

// ---------------------------------------------------------------------------
// Positions of a character.

/// The index of the first `c` in `s`, or the length of `s` where there is none.
pub open spec fn first_at(s: Seq<char>, c: char) -> int
    decreases s.len(),
{
    if s.len() == 0 || s[0] == c {
        0
    } else {
        1 + first_at(s.skip(1), c)
    }
}

/// The index of the last `c` in `s`, or -1 where there is none.
pub open spec fn last_at(s: Seq<char>, c: char) -> int
    decreases s.len(),
{
    if s.len() == 0 {
        -1
    } else if s.last() == c {
        s.len() - 1
    } else {
        last_at(s.drop_last(), c)
    }
}

/// `first_at` is the position before which there is no `c`.
pub proof fn lemma_first_at(s: Seq<char>, c: char)
    ensures
        0 <= first_at(s, c) <= s.len(),
        forall|j: int| 0 <= j < first_at(s, c) ==> s[j] != c,
        first_at(s, c) < s.len() ==> s[first_at(s, c)] == c,
    decreases s.len(),
{
    if s.len() != 0 && s[0] != c {
        lemma_first_at(s.skip(1), c);
        assert forall|j: int| 0 <= j < first_at(s, c) implies s[j] != c by {
            if j > 0 {
                assert(s[j] == s.skip(1)[j - 1]);
            }
        }
    }
}

/// `last_at` is the position after which there is no `c`.
pub proof fn lemma_last_at(s: Seq<char>, c: char)
    ensures
        -1 <= last_at(s, c) < s.len(),
        forall|j: int| last_at(s, c) < j < s.len() ==> s[j] != c,
        last_at(s, c) >= 0 ==> s[last_at(s, c)] == c,
    decreases s.len(),
{
    if s.len() != 0 && s.last() != c {
        lemma_last_at(s.drop_last(), c);
        assert forall|j: int| last_at(s, c) < j < s.len() implies s[j] != c by {
            if j < s.len() - 1 {
                assert(s[j] == s.drop_last()[j]);
            }
        }
    }
}

/// The position of the first `c` at or after `from`, or the length.
pub fn find_from(v: &Vec<char>, from: usize, c: char) -> (r: usize)
    requires
        from <= v@.len(),
    ensures
        r == from + first_at(v@.skip(from as int), c),
        from <= r <= v@.len(),
{
    let mut i: usize = from;
    while i < v.len() && v[i] != c
        invariant
            from <= i <= v@.len(),
            forall|j: int| from <= j < i ==> v@[j] != c,
        decreases v.len() - i,
    {
        i += 1;
    }
    proof {
        let t = v@.skip(from as int);
        lemma_first_at(t, c);
        let f = first_at(t, c);
        if f < i - from {
            assert(t[f] == v@[from + f]);
        }
        if f > i - from {
            assert(t[i - from] == v@[i as int]);
        }
    }
    i
}

/// The position of the last `c`, if there is one.
pub fn rfind(v: &Vec<char>, c: char) -> (r: Option<usize>)
    ensures
        match r {
            Some(i) => i == last_at(v@, c) && i < v@.len(),
            None => last_at(v@, c) == -1,
        },
{
    proof {
        lemma_last_at(v@, c);
    }
    let mut i: usize = v.len();
    while i > 0
        invariant
            i <= v@.len(),
            forall|j: int| i <= j < v@.len() ==> v@[j] != c,
            last_at(v@, c) < v@.len(),
            last_at(v@, c) >= 0 ==> v@[last_at(v@, c)] == c,
            forall|j: int| last_at(v@, c) < j < v@.len() ==> v@[j] != c,
        decreases i,
    {
        i -= 1;
        if v[i] == c {
            return Some(i);
        }
    }
    None
}

// ---------------------------------------------------------------------------
// White space.

/// A text without the white space at its two ends.
pub open spec fn trimmed(s: Seq<char>) -> Seq<char>
    decreases s.len(),
{
    if s.len() == 0 {
        s
    } else if is_space(s.first()) {
        trimmed(s.drop_first())
    } else if is_space(s.last()) {
        trimmed(s.drop_last())
    } else {
        s
    }
}

/// The text without the white space at its two ends.
pub fn trim(s: &str) -> (r: String)
    ensures
        r@ == trimmed(s@),
{
    let v = chars_of(s);
    let n: usize = v.len();
    let mut i: usize = 0;
    assert(v@.subrange(0, n as int) == v@);
    while i < n && space(v[i])
        invariant
            0 <= i <= n == v@.len(),
            trimmed(v@.subrange(i as int, n as int)) == trimmed(v@),
        decreases n - i,
    {
        proof {
            let t = v@.subrange(i as int, n as int);
            assert(t.drop_first() == v@.subrange(i + 1, n as int));
        }
        i += 1;
    }
    let mut j: usize = n;
    while j > i && space(v[j - 1])
        invariant
            0 <= i <= j <= n == v@.len(),
            i < n ==> !is_space(v@[i as int]),
            trimmed(v@.subrange(i as int, j as int)) == trimmed(v@),
        decreases j,
    {
        proof {
            let t = v@.subrange(i as int, j as int);
            assert(t.drop_last() == v@.subrange(i as int, j - 1));
        }
        j -= 1;
    }
    string_of(&v, i, j)
}

/// The number of characters before the first white space.
pub open spec fn word_len(s: Seq<char>) -> int
    decreases s.len(),
{
    if s.len() == 0 || is_space(s[0]) {
        0
    } else {
        1 + word_len(s.skip(1))
    }
}

/// `word_len` counts the characters up to the first white space.
pub proof fn lemma_word_len(s: Seq<char>)
    ensures
        0 <= word_len(s) <= s.len(),
        forall|j: int| 0 <= j < word_len(s) ==> !is_space(#[trigger] s[j]),
        word_len(s) < s.len() ==> is_space(s[word_len(s)]),
    decreases s.len(),
{
    if s.len() != 0 && !is_space(s[0]) {
        lemma_word_len(s.skip(1));
        assert forall|j: int| 0 <= j < word_len(s) implies !is_space(#[trigger] s[j]) by {
            if j > 0 {
                assert(s[j] == s.skip(1)[j - 1]);
            }
        }
    }
}

/// The words of a text: its runs of characters that are not white space, in order.
pub open spec fn words(s: Seq<char>) -> Seq<Seq<char>>
    decreases s.len(),
    via words_decreases
{
    if s.len() == 0 {
        Seq::empty()
    } else if is_space(s[0]) {
        words(s.skip(1))
    } else {
        seq![s.take(word_len(s))] + words(s.skip(word_len(s)))
    }
}

#[via_fn]
proof fn words_decreases(s: Seq<char>) {
    lemma_word_len(s);
}

/// Splits a text at white space.
pub fn split_words(s: &str) -> (r: Vec<String>)
    ensures
        texts(r@) == words(s@),
{
    let v = chars_of(s);
    let n: usize = v.len();
    let mut out: Vec<String> = Vec::new();
    let mut i: usize = 0;
    assert(v@.skip(0) == v@);
    while i < n
        invariant
            0 <= i <= n == v@.len(),
            v@ == s@,
            texts(out@) + words(v@.skip(i as int)) == words(s@),
        decreases n - i,
    {
        let ghost t = v@.skip(i as int);
        if space(v[i]) {
            assert(t.skip(1) == v@.skip(i + 1));
            i += 1;
        } else {
            let mut j: usize = i;
            while j < n && !space(v[j])
                invariant
                    i <= j <= n == v@.len(),
                    forall|k: int| i <= k < j ==> !is_space(#[trigger] v@[k]),
                decreases n - j,
            {
                j += 1;
            }
            let w = string_of(&v, i, j);
            proof {
                lemma_word_len(t);
                let k = word_len(t);
                if k < j - i {
                    assert(t[k] == v@[i + k]);
                }
                if k > j - i {
                    assert(t[j - i] == v@[j as int]);
                }
                assert(w@ == t.take(k));
                assert(t.skip(k) == v@.skip(j as int));
                assert(texts(out@.push(w)) == texts(out@).push(w@));
                assert(texts(out@).push(w@) + words(v@.skip(j as int)) == texts(out@) + (seq![w@]
                    + words(v@.skip(j as int))));
            }
            out.push(w);
            i = j;
        }
    }
    proof {
        assert(v@.skip(n as int) == Seq::<char>::empty());
        assert(texts(out@) + Seq::empty() == texts(out@));
    }
    out
}


// ---------------------------------------------------------------------------
// ASCII case.

/// A character with an ASCII capital turned into its small letter.
pub open spec fn ascii_lower(c: char) -> char {
    if 'A' <= c <= 'Z' {
        (c as u32 + 32) as char
    } else {
        c
    }
}

/// A text with its ASCII capitals turned into small letters.
pub open spec fn ascii_lowered(s: Seq<char>) -> Seq<char> {
    s.map_values(|c: char| ascii_lower(c))
}

fn lower_char(c: char) -> (r: char)
    ensures
        r == ascii_lower(c),
{
    if 'A' <= c && c <= 'Z' {
        ((c as u8) + 32) as char
    } else {
        c
    }
}

/// The text with its ASCII capitals turned into small letters.
pub fn to_ascii_lower(s: &str) -> (r: String)
    ensures
        r@ == ascii_lowered(s@),
{
    let v = chars_of(s);
    let mut out = String::new();
    let mut i: usize = 0;
    while i < v.len()
        invariant
            0 <= i <= v@.len(),
            out@ == ascii_lowered(v@.take(i as int)),
        decreases v.len() - i,
    {
        let c = lower_char(v[i]);
        out.push(c);
        i += 1;
        assert(ascii_lowered(v@.take(i as int)) == ascii_lowered(v@.take(i - 1)).push(c));
    }
    assert(v@.take(i as int) == v@);
    out
}

// ---------------------------------------------------------------------------
// Numbers.

/// The character of a decimal digit.
pub open spec fn digit_char(d: int) -> char {
    ('0' as u32 + d) as char
}

/// Whether a character is a decimal digit.
pub open spec fn is_digit(c: char) -> bool {
    '0' <= c <= '9'
}

/// The decimal digits of a natural number.
pub open spec fn digits(n: nat) -> Seq<char>
    decreases n,
{
    if n < 10 {
        seq![digit_char(n as int)]
    } else {
        digits(n / 10).push(digit_char(n as int % 10))
    }
}

/// An integer in decimal notation, with a minus sign where it is negative.
pub open spec fn decimal(i: int) -> Seq<char> {
    if i < 0 {
        seq!['-'] + digits((-i) as nat)
    } else {
        digits(i as nat)
    }
}

fn push_digits(out: &mut String, n: u64)
    ensures
        final(out)@ == old(out)@ + digits(n as nat),
    decreases n,
{
    if n >= 10 {
        push_digits(out, n / 10);
    }
    let d: u8 = (n % 10) as u8;
    let c = (48 + d) as char;
    out.push(c);
}

/// Appends an integer in decimal notation.
pub fn push_decimal(out: &mut String, i: i64)
    ensures
        final(out)@ == old(out)@ + decimal(i as int),
{
    if i < 0 {
        out.push('-');
        let m: u64 = (-(i as i128)) as u64;
        push_digits(out, m);
    } else {
        push_digits(out, i as u64);
    }
}

/// Appends a count in decimal notation.
pub fn push_count(out: &mut String, n: usize)
    ensures
        final(out)@ == old(out)@ + decimal(n as int),
{
    push_digits(out, n as u64);
}

/// The value of a row of decimal digits.
pub open spec fn digits_value(s: Seq<char>) -> int
    decreases s.len(),
{
    if s.len() == 0 {
        0
    } else {
        digits_value(s.drop_last()) * 10 + (s.last() as int - '0' as int)
    }
}

/// Whether every character is a decimal digit.
pub open spec fn all_digits(s: Seq<char>) -> bool {
    forall|i: int| 0 <= i < s.len() ==> is_digit(#[trigger] s[i])
}

/// The integer that a text denotes: an optional sign and at least one digit,
/// within the given bounds.
pub open spec fn parsed_int(s: Seq<char>, lo: int, hi: int) -> Option<int> {
    let neg = s.len() > 0 && s[0] == '-';
    let body = if s.len() > 0 && (s[0] == '-' || s[0] == '+') {
        s.skip(1)
    } else {
        s
    };
    let v = if neg {
        -digits_value(body)
    } else {
        digits_value(body)
    };
    if body.len() > 0 && all_digits(body) && lo <= v <= hi {
        Some(v)
    } else {
        None
    }
}

proof fn lemma_digits_value_grows(s: Seq<char>, n: int)
    requires
        all_digits(s),
        0 <= n <= s.len(),
    ensures
        0 <= digits_value(s.take(n)) <= digits_value(s),
    decreases s.len(),
{
    if s.len() == 0 {
        assert(s.take(n) == s);
    } else if n == s.len() {
        assert(s.take(n) == s);
        assert(s.drop_last().take(n - 1) == s.drop_last());
        lemma_digits_value_grows(s.drop_last(), n - 1);
        assert(is_digit(s.last()));
    } else {
        lemma_digits_value_grows(s.drop_last(), n);
        assert(s.take(n) == s.drop_last().take(n));
        assert(is_digit(s.last()));
    }
}

/// Reads a text as an `i64`.
pub fn parse_i64(s: &str) -> (r: Option<i64>)
    ensures
        match r {
            Some(v) => parsed_int(s@, i64::MIN as int, i64::MAX as int) == Some(v as int),
            None => parsed_int(s@, i64::MIN as int, i64::MAX as int) is None,
        },
{
    let v = chars_of(s);
    let n: usize = v.len();
    let neg = n > 0 && v[0] == '-';
    let start: usize = if n > 0 && (v[0] == '-' || v[0] == '+') {
        1
    } else {
        0
    };
    let ghost body = v@.skip(start as int);
    assert(start == 0 ==> body == v@);
    if start == n {
        return None;
    }
    let mut acc: i128 = 0;
    let mut i: usize = start;
    assert(body.take(0) == Seq::<char>::empty());
    while i < n
        invariant
            start <= i <= n == v@.len(),
            body == v@.skip(start as int),
            v@ == s@,
            neg == (n > 0 && v@[0] == '-'),
            start == (if n > 0 && (v@[0] == '-' || v@[0] == '+') {
                1int
            } else {
                0int
            }),
            start == 0 ==> body == v@,
            all_digits(body.take(i - start)),
            acc == digits_value(body.take(i - start)),
            0 <= acc <= 0x8000_0000_0000_0000,
        decreases n - i,
    {
        let c = v[i];
        assert(body[i - start] == c);
        if !('0' <= c && c <= '9') {
            assert(!is_digit(body[i - start]));
            return None;
        }
        let d: i128 = ((c as u8) - 48) as i128;
        acc = acc * 10 + d;
        i += 1;
        proof {
            let t = body.take(i - start);
            assert(t.drop_last() == body.take(i - start - 1));
            assert forall|k: int| 0 <= k < t.len() implies is_digit(#[trigger] t[k]) by {
                if k < t.len() - 1 {
                    assert(t[k] == t.drop_last()[k]);
                }
            }
        }
        if acc > 0x8000_0000_0000_0000 {
            proof {
                if all_digits(body) {
                    lemma_digits_value_grows(body, i - start);
                }
            }
            return None;
        }
    }
    assert(body.take(i - start) == body);
    if neg {
        Some((-acc) as i64)
    } else if acc <= 0x7fff_ffff_ffff_ffff {
        Some(acc as i64)
    } else {
        None
    }
}

/// Reads a text as an `i32`.
pub fn parse_i32(s: &str) -> (r: Option<i32>)
    ensures
        match r {
            Some(v) => parsed_int(s@, i32::MIN as int, i32::MAX as int) == Some(v as int),
            None => parsed_int(s@, i32::MIN as int, i32::MAX as int) is None,
        },
{
    match parse_i64(s) {
        Some(v) => {
            if -0x8000_0000 <= v && v <= 0x7fff_ffff {
                Some(v as i32)
            } else {
                None
            }
        },
        None => None,
    }
}

proof fn lemma_digits_round_trip(n: nat)
    ensures
        digits(n).len() > 0,
        all_digits(digits(n)),
        digits_value(digits(n)) == n,
    decreases n,
{
    if n < 10 {
        assert(digits(n).drop_last() == Seq::<char>::empty());
        assert(digits_value(Seq::<char>::empty()) == 0);
    } else {
        lemma_digits_round_trip(n / 10);
        let s = digits(n);
        assert(s.drop_last() == digits(n / 10));
        assert forall|k: int| 0 <= k < s.len() implies is_digit(#[trigger] s[k]) by {
            if k < s.len() - 1 {
                assert(s[k] == digits(n / 10)[k]);
            }
        }
    }
}

/// Decimal notation is made of digits, after a sign where the number is negative.
pub proof fn lemma_decimal_chars(i: int)
    ensures
        decimal(i).len() > 0,
        forall|k: int| 0 <= k < decimal(i).len() ==> is_digit(#[trigger] decimal(i)[k]) || decimal(i)[k] == '-',
{
    if i < 0 {
        lemma_digits_round_trip((-i) as nat);
        let d = digits((-i) as nat);
        assert forall|k: int| 0 <= k < decimal(i).len() implies is_digit(#[trigger] decimal(i)[k]) || decimal(i)[k]
            == '-' by {
            if k > 0 {
                assert(decimal(i)[k] == d[k - 1]);
            }
        }
    } else {
        lemma_digits_round_trip(i as nat);
    }
}

/// Reading back a number written in decimal notation gives the number.
pub proof fn lemma_decimal_round_trip(i: int, lo: int, hi: int)
    requires
        lo <= i <= hi,
    ensures
        parsed_int(decimal(i), lo, hi) == Some(i),
{
    if i < 0 {
        lemma_digits_round_trip((-i) as nat);
        assert(decimal(i).skip(1) == digits((-i) as nat));
    } else {
        lemma_digits_round_trip(i as nat);
        assert(is_digit(decimal(i)[0]));
    }
}

} // verus!
