//! Texts: white space, words, case, order and numbers.

use vstd::prelude::*;
use crate::order::{ends_with, has_part, occurs_at, same_nocase, starts_with, text_lt};
use crate::text::{all_digits, ascii_lower, ascii_lowered, decimal, digits, is_digit, is_space, lemma_decimal_round_trip, lemma_word_len, parsed_int, trimmed, word_len, words};

verus! {

/// Whether a text is white space from its beginning to its end.
pub open spec fn blank(s: Seq<char>) -> bool {
    forall|i: int| 0 <= i < s.len() ==> is_space(#[trigger] s[i])
}

/// White space are the tab, the line feed and what lies between it and the carriage return,
/// the space, the next line, the space that does not break, and the spaces and separators
/// beyond ASCII; nothing else.
pub proof fn law_white_space(c: char)
    ensures
        is_space(c) <==> c == ' ' || c == '\t' || c == '\n' || c == '\x0b' || c == '\x0c' || c == '\r' || c == '\u{85}'
            || c == '\u{a0}' || c == '\u{1680}' || (0x2000 <= c as int <= 0x200a) || c == '\u{2028}' || c == '\u{2029}'
            || c == '\u{202f}' || c == '\u{205f}' || c == '\u{3000}',
{
}

/// White space round a text is taken away, and nothing else.
pub proof fn law_trimming_takes_white_space(before: Seq<char>, text: Seq<char>, after: Seq<char>)
    requires
        blank(before),
        blank(after),
        text.len() > 0 ==> !is_space(text.first()) && !is_space(text.last()),
    ensures
        trimmed(before + text + after) == text,
    decreases before.len() + after.len(),
{
    let s = before + text + after;
    if before.len() > 0 {
        assert(s.first() == before[0]);
        assert(s.drop_first() =~= before.drop_first() + text + after);
        assert forall|i: int| 0 <= i < before.drop_first().len() implies is_space(#[trigger] before.drop_first()[i]) by {
            assert(is_space(before[i + 1]));
        }
        law_trimming_takes_white_space(before.drop_first(), text, after);
    } else if after.len() > 0 {
        assert(s.last() == after.last());
        assert(is_space(after[after.len() - 1]));
        assert(s.drop_last() =~= before + text + after.drop_last());
        assert forall|i: int| 0 <= i < after.drop_last().len() implies is_space(#[trigger] after.drop_last()[i]) by {
            assert(is_space(after[i]));
        }
        law_trimming_takes_white_space(before, text, after.drop_last());
        if text.len() == 0 {
            assert(s.first() == after[0]);
            assert(s.drop_first() =~= before + text + after.drop_first());
            assert forall|i: int| 0 <= i < after.drop_first().len() implies is_space(#[trigger] after.drop_first()[i]) by {
                assert(is_space(after[i + 1]));
            }
            law_trimming_takes_white_space(before, text, after.drop_first());
        } else {
            assert(s.first() == text.first());
        }
    } else {
        assert(s =~= text);
    }
}

/// A text without white space is one word, an empty one none, and white space stands
/// between the words before it and those after it.
pub proof fn law_white_space_divides_words(a: Seq<char>, gap: char, b: Seq<char>)
    requires
        is_space(gap),
    ensures
        words(Seq::empty()) == Seq::<Seq<char>>::empty(),
        a.len() > 0 && (forall|i: int| 0 <= i < a.len() ==> !is_space(#[trigger] a[i])) ==> words(a) == seq![a],
        words(a + seq![gap] + b) == words(a) + words(b),
    decreases a.len(),
{
    let s = a + seq![gap] + b;
    lemma_word_len(a);
    lemma_word_len(s);
    if a.len() == 0 {
        assert(s[0] == gap);
        assert(s.skip(1) =~= b);
        assert(words(s) == words(b));
        assert(words(a) + words(b) =~= words(b));
    } else if is_space(a[0]) {
        assert(s[0] == a[0]);
        assert(s.skip(1) =~= a.skip(1) + seq![gap] + b);
        law_white_space_divides_words(a.skip(1), gap, b);
    } else {
        let n = word_len(a);
        assert(n > 0);
        lemma_word_len_of(a, n);
        assert(word_len(s) == n) by {
            assert forall|j: int| 0 <= j < n implies !is_space(#[trigger] s[j]) by {
                assert(s[j] == a[j]);
            }
            assert(is_space(s[n])) by {
                if n < a.len() {
                    assert(s[n] == a[n]);
                }
            }
            lemma_word_len_of(s, n);
        }
        assert(s[0] == a[0]);
        assert(s.take(n) =~= a.take(n));
        assert(s.skip(n) =~= a.skip(n) + seq![gap] + b);
        law_white_space_divides_words(a.skip(n), gap, b);
        assert(words(s) =~= seq![a.take(n)] + (words(a.skip(n)) + words(b)));
        assert(words(a) + words(b) =~= seq![a.take(n)] + words(a.skip(n)) + words(b));
        if forall|i: int| 0 <= i < a.len() ==> !is_space(#[trigger] a[i]) {
            assert(n == a.len());
            assert(a.take(n) =~= a);
            assert(a.skip(n) =~= Seq::empty());
            assert(words(a) =~= seq![a]);
        }
    }
}

proof fn lemma_word_len_of(s: Seq<char>, n: int)
    requires
        0 <= n <= s.len(),
        forall|j: int| 0 <= j < n ==> !is_space(#[trigger] s[j]),
        n < s.len() ==> is_space(s[n]),
    ensures
        word_len(s) == n,
{
    lemma_word_len(s);
    if word_len(s) < n {
        assert(!is_space(s[word_len(s)]));
    } else if word_len(s) > n {
        assert(!is_space(s[n]));
    }
}

/// Whether two characters are the same, or one ASCII letter in its two cases.
pub open spec fn same_letter(c: char, d: char) -> bool {
    ||| c == d
    ||| 'a' <= c <= 'z' && d as int == c as int - 'a' as int + 'A' as int
    ||| 'a' <= d <= 'z' && c as int == d as int - 'a' as int + 'A' as int
}

/// Whether two texts are the same but for the case of ASCII letters.
pub open spec fn same_letters(s: Seq<char>, t: Seq<char>) -> bool {
    s.len() == t.len() && forall|i: int| 0 <= i < s.len() ==> same_letter(#[trigger] s[i], t[i])
}

/// Texts are the same in small letters where they differ in the case of ASCII letters
/// alone. Small letters are small.
pub proof fn law_small_letters(s: Seq<char>, t: Seq<char>)
    ensures
        ascii_lowered(s) == ascii_lowered(t) <==> same_letters(s, t),
        same_nocase(s, t) <==> same_letters(s, t),
        same_letters(ascii_lowered(s), s),
        forall|i: int| 0 <= i < ascii_lowered(s).len() ==> !('A' <= #[trigger] ascii_lowered(s)[i] <= 'Z'),
{
    let a = ascii_lowered(s);
    let b = ascii_lowered(t);
    if a == b {
        assert(s.len() == a.len() && t.len() == b.len());
        assert forall|i: int| 0 <= i < s.len() implies same_letter(#[trigger] s[i], t[i]) by {
            assert(a[i] == ascii_lower(s[i]));
            assert(b[i] == ascii_lower(t[i]));
        }
    }
    if same_letters(s, t) {
        assert forall|i: int| 0 <= i < s.len() implies a[i] == b[i] by {
            assert(same_letter(s[i], t[i]));
        }
        assert(a =~= b);
    }
}

/// The first character in which two texts differ says which one stands before the
/// other, and a text stands before what it is the beginning of.
pub proof fn law_first_difference_decides(p: Seq<char>, x: char, a: Seq<char>, y: char, b: Seq<char>)
    ensures
        x < y ==> text_lt(p + seq![x] + a, p + seq![y] + b) && !text_lt(p + seq![y] + b, p + seq![x] + a),
        text_lt(p, p + seq![x] + a),
        !text_lt(p + seq![x] + a, p),
        !text_lt(p, p),
    decreases p.len(),
{
    let s = p + seq![x] + a;
    let t = p + seq![y] + b;
    if p.len() > 0 {
        law_first_difference_decides(p.skip(1), x, a, y, b);
        assert(s.skip(1) =~= p.skip(1) + seq![x] + a);
        assert(t.skip(1) =~= p.skip(1) + seq![y] + b);
    }
}

/// A text holds what stands anywhere in it, begins with what stands at its beginning,
/// and ends with what stands at its end.
pub proof fn law_parts_of_texts(s: Seq<char>, part: Seq<char>)
    ensures
        has_part(s, part) <==> exists|a: Seq<char>, b: Seq<char>| s == #[trigger] (a + part + b),
        starts_with(s, part) <==> exists|b: Seq<char>| s == #[trigger] (part + b),
        ends_with(s, part) <==> exists|a: Seq<char>| s == #[trigger] (a + part),
{
    if has_part(s, part) {
        let i = choose|i: int| occurs_at(s, part, i);
        let a = s.take(i);
        let b = s.skip(i + part.len());
        assert(s =~= a + s.subrange(i, i + part.len()) + b);
        assert(s == a + part + b);
    }
    if exists|a: Seq<char>, b: Seq<char>| s == #[trigger] (a + part + b) {
        let (a, b) = choose|a: Seq<char>, b: Seq<char>| s == #[trigger] (a + part + b);
        assert(s.subrange(a.len() as int, (a.len() + part.len()) as int) =~= part);
        assert(occurs_at(s, part, a.len() as int));
    }
    if starts_with(s, part) {
        let b = s.skip(part.len() as int);
        assert(s =~= part + b);
    }
    if exists|b: Seq<char>| s == #[trigger] (part + b) {
        let b = choose|b: Seq<char>| s == #[trigger] (part + b);
        assert(s.take(part.len() as int) =~= part);
    }
    if ends_with(s, part) {
        let a = s.take(s.len() - part.len());
        assert(s =~= a + part);
    }
    if exists|a: Seq<char>| s == #[trigger] (a + part) {
        let a = choose|a: Seq<char>| s == #[trigger] (a + part);
        assert(s.skip(s.len() - part.len()) =~= part);
    }
}

/// Numbers are written in tens: a further digit stands behind those of the number that
/// it is put to, and a number below zero has a `-` before it.
pub proof fn law_numbers_are_written_in_tens(n: int, d: int)
    requires
        0 <= d < 10,
    ensures
        decimal(d) == seq![(('0' as u32) + d) as char],
        n > 0 ==> decimal(10 * n + d) == decimal(n).push((('0' as u32) + d) as char),
        n > 0 ==> decimal(-n) == seq!['-'] + decimal(n),
{
    if n > 0 {
        let m = (10 * n + d) as nat;
        assert(m >= 10 && m / 10 == n && m % 10 == d);
        assert(digits(m) == digits(m / 10).push(crate::text::digit_char(m as int % 10)));
    }
}

/// A number is read as it is written, where it lies between the bounds. A `+` before
/// digits says nothing, and a text with anything but digits behind its sign
/// is no number.
pub proof fn law_numbers_are_read(n: int, lo: int, hi: int, s: Seq<char>, k: int)
    ensures
        lo <= n <= hi ==> parsed_int(decimal(n), lo, hi) == Some(n),
        parsed_int(s, lo, hi) is Some ==> lo <= parsed_int(s, lo, hi)->0 <= hi,
        parsed_int(Seq::empty(), lo, hi) is None,
        parsed_int(seq!['-'], lo, hi) is None,
        parsed_int(seq!['+'], lo, hi) is None,
        0 <= k < s.len() && !('0' <= s[k] <= '9') && (k > 0 || (s[0] != '-' && s[0] != '+')) ==> parsed_int(s, lo, hi)
            is None,
        s.len() > 0 && s[0] != '-' && s[0] != '+' ==> parsed_int(seq!['+'] + s, lo, hi) == parsed_int(s, lo, hi),
{
    if lo <= n <= hi {
        lemma_decimal_round_trip(n, lo, hi);
    }
    assert(seq!['-'].skip(1).len() == 0);
    assert(seq!['+'].skip(1).len() == 0);
    assert((seq!['+'] + s).skip(1) =~= s);
    if 0 <= k < s.len() && !('0' <= s[k] <= '9') && (k > 0 || (s[0] != '-' && s[0] != '+')) {
        if s[0] == '-' || s[0] == '+' {
            let body = s.skip(1);
            assert(body[k - 1] == s[k]);
            assert(!all_digits(body));
        } else {
            assert(!is_digit(s[k]));
            assert(!all_digits(s));
        }
    }
}

} // verus!
