//! The settings: what their lines say, and how they are written.

use vstd::prelude::*;
use super::texts::{blank, law_trimming_takes_white_space};
use crate::config::{config_of, config_text, escaped, inside_quotes, lines, no_config, unescaped, with_line, with_lines, ConfigRec};
use crate::text::{decimal, first_at, is_space, lemma_decimal_round_trip, lemma_first_at, parsed_int, trimmed};

verus! {

/// Whether a text neither begins nor ends with white space.
pub open spec fn is_tight(s: Seq<char>) -> bool {
    s.len() > 0 ==> !is_space(s.first()) && !is_space(s.last())
}

/// The line of a setting, with white space round its parts.
pub open spec fn setting(a: Seq<char>, key: Seq<char>, b: Seq<char>, c: Seq<char>, val: Seq<char>, d: Seq<char>) -> Seq<char> {
    a + (key + b + seq!['='] + c + val) + d
}

proof fn lemma_tight_parts(key: Seq<char>, b: Seq<char>, c: Seq<char>, val: Seq<char>)
    requires
        blank(b),
        blank(c),
        is_tight(key),
        is_tight(val),
        key.len() > 0,
        val.len() > 0,
        !key.contains('='),
    ensures
        ({
            let l = key + b + seq!['='] + c + val;
            let at = first_at(l, '=');
            &&& is_tight(l) && l.len() > 0 && l[0] == key[0]
            &&& at == key.len() + b.len()
            &&& trimmed(l.take(at)) == key
            &&& trimmed(l.skip(at + 1)) == val
        }),
{
    let l = key + b + seq!['='] + c + val;
    let n = (key.len() + b.len()) as int;
    lemma_first_at(l, '=');
    assert(l[n] == '=');
    assert forall|i: int| 0 <= i < n implies l[i] != '=' by {
        if i < key.len() {
            assert(l[i] == key[i]);
            assert(key.contains(key[i]));
        } else {
            assert(l[i] == b[i - key.len()]);
            assert(is_space(b[i - key.len()]));
            assert(!is_space('='));
        }
    }
    assert(l.take(n) =~= Seq::<char>::empty() + key + b);
    law_trimming_takes_white_space(Seq::empty(), key, b);
    assert(l.skip(n + 1) =~= c + val + Seq::<char>::empty());
    law_trimming_takes_white_space(c, val, Seq::empty());
    assert(l.last() == val.last());
}

/// A line gives its value to the setting that stands before the `=`, whatever white
/// space is round them, and to no other. A setting that is not known says nothing.
pub proof fn law_line_sets_its_setting(
    s: ConfigRec,
    a: Seq<char>,
    key: Seq<char>,
    b: Seq<char>,
    c: Seq<char>,
    val: Seq<char>,
    d: Seq<char>,
)
    requires
        blank(a),
        blank(b),
        blank(c),
        blank(d),
        is_tight(key),
        is_tight(val),
        key.len() > 0,
        val.len() > 0,
        key[0] != '#',
        !key.contains('='),
    ensures
        ({
            let t = with_line(s, setting(a, key, b, c, val, d));
            &&& key == "filter_text"@ ==> t.filter_text == unescaped(inside_quotes(val))
            &&& key != "filter_text"@ ==> t.filter_text == s.filter_text
            &&& key == "volume"@ ==> t.volumes == s.volumes.push(val)
            &&& key != "volume"@ ==> t.volumes == s.volumes
            &&& key == "sort_index"@ ==> forall|n: int|
                i32::MIN <= n <= i32::MAX && val == #[trigger] decimal(n) ==> t.sort_index == n
            &&& key == "sort_index"@ && parsed_int(val, i32::MIN as int, i32::MAX as int) is None ==> t.sort_index
                == s.sort_index
            &&& key != "sort_index"@ ==> t.sort_index == s.sort_index
        }),
{
    let l = key + b + seq!['='] + c + val;
    lemma_tight_parts(key, b, c, val);
    law_trimming_takes_white_space(a, l, d);
    reveal_strlit("filter_text");
    reveal_strlit("volume");
    reveal_strlit("sort_index");
    let t = with_line(s, setting(a, key, b, c, val, d));
    assert("filter_text"@.len() != "volume"@.len());
    assert("sort_index"@.len() != "volume"@.len());
    assert("sort_index"@.len() != "filter_text"@.len());
    if key == "sort_index"@ {
        assert forall|n: int| i32::MIN <= n <= i32::MAX && val == #[trigger] decimal(n) implies t.sort_index == n by {
            lemma_decimal_round_trip(n, i32::MIN as int, i32::MAX as int);
        }
    }
}

/// Empty lines, remarks and lines without a `=` say nothing.
pub proof fn law_other_lines_say_nothing(s: ConfigRec, a: Seq<char>, line: Seq<char>, d: Seq<char>)
    requires
        blank(a),
        blank(d),
        is_tight(line),
        line.len() == 0 || line[0] == '#' || !line.contains('='),
    ensures
        with_line(s, a + line + d) == s,
{
    law_trimming_takes_white_space(a, line, d);
    lemma_first_at(line, '=');
    let at = first_at(line, '=');
    if at < line.len() {
        assert(line.contains(line[at]));
    }
}

/// Lines end at line feeds, and nowhere else.
pub proof fn law_lines_end_at_line_feeds(a: Seq<char>, b: Seq<char>)
    requires
        !a.contains('\n'),
    ensures
        lines(a) == seq![a],
        lines(a + seq!['\n'] + b) == seq![a] + lines(b),
{
    lemma_first_at(a, '\n');
    if first_at(a, '\n') < a.len() {
        assert(a.contains(a[first_at(a, '\n')]));
    }
    let s = a + seq!['\n'] + b;
    let n = a.len() as int;
    lemma_first_at(s, '\n');
    assert(s[n] == '\n');
    assert forall|i: int| 0 <= i < n implies s[i] != '\n' by {
        assert(s[i] == a[i]);
        assert(a.contains(a[i]));
    }
    assert(first_at(s, '\n') == n);
    assert(s.take(n) =~= a);
    assert(s.skip(n + 1) =~= b);
}

proof fn lemma_lines_end(a: Seq<char>, b: Seq<char>)
    requires
        !b.contains('\n'),
    ensures
        lines(a + seq!['\n'] + b) == lines(a) + seq![b],
    decreases a.len(),
{
    let n = first_at(a, '\n');
    lemma_first_at(a, '\n');
    law_lines_end_at_line_feeds(b, a);
    if n >= a.len() {
        assert(!a.contains('\n'));
        law_lines_end_at_line_feeds(a, b);
    } else {
        let x = a.take(n);
        let y = a.skip(n + 1);
        assert(!x.contains('\n'));
        assert(a =~= x + seq!['\n'] + y);
        law_lines_end_at_line_feeds(x, y);
        law_lines_end_at_line_feeds(x, y + seq!['\n'] + b);
        assert(a + seq!['\n'] + b =~= x + seq!['\n'] + (y + seq!['\n'] + b));
        lemma_lines_end(y, b);
        assert(seq![x] + (lines(y) + seq![b]) =~= seq![x] + lines(y) + seq![b]);
    }
}

proof fn lemma_with_lines(a: Seq<Seq<char>>, b: Seq<char>, n: int)
    requires
        0 <= n <= a.len(),
    ensures
        with_lines(a + seq![b], n) == with_lines(a, n),
    decreases n,
{
    if n > 0 {
        lemma_with_lines(a, b, n - 1);
        assert((a + seq![b])[n - 1] == a[n - 1]);
    }
}

/// Settings are read line by line: where nothing is said the first order holds, and no
/// filter and no volume; each line counts on top of those before it.
pub proof fn law_settings_are_read_line_by_line(text: Seq<char>, line: Seq<char>)
    requires
        !line.contains('\n'),
    ensures
        config_of(line) == with_line(no_config(), line),
        config_of(text + seq!['\n'] + line) == with_line(config_of(text), line),
        no_config().sort_index == 0,
        no_config().filter_text.len() == 0,
        no_config().volumes.len() == 0,
{
    law_lines_end_at_line_feeds(line, text);
    reveal_with_fuel(with_lines, 2);
    assert(seq![line][0] == line);
    lemma_lines_end(text, line);
    let ls = lines(text);
    lemma_with_lines(ls, line, ls.len() as int);
    assert((ls + seq![line]).len() == ls.len() + 1);
    assert((ls + seq![line])[ls.len() as int] == line);
}

/// A mark is put before each backslash and each quotation mark, and nothing else is
/// changed.
pub proof fn law_marks_are_put_in(a: Seq<char>, c: char)
    ensures
        escaped(Seq::empty()) == Seq::<char>::empty(),
        c == '"' ==> escaped(a.push(c)) == escaped(a).push('\\').push('"'),
        c == '\\' ==> escaped(a.push(c)) == escaped(a).push('\\').push('\\'),
        c != '"' && c != '\\' ==> escaped(a.push(c)) == escaped(a).push(c),
{
    assert(a.push(c).drop_last() =~= a);
    assert(escaped(a) + seq!['\\', c] =~= escaped(a).push('\\').push(c));
}

/// A mark is taken away before a backslash and before a quotation mark; before anything
/// else it stands for itself.
pub proof fn law_marks_are_taken_away(c: char, s: Seq<char>)
    ensures
        unescaped(Seq::empty()) == Seq::<char>::empty(),
        c != '\\' ==> unescaped(seq![c] + s) == seq![c] + unescaped(s),
        c == '\\' || c == '"' ==> unescaped(seq!['\\', c] + s) == seq![c] + unescaped(s),
        c != '\\' && c != '"' ==> unescaped(seq!['\\', c] + s) == seq!['\\', c] + unescaped(s),
{
    assert((seq![c] + s).skip(1) =~= s);
    assert((seq!['\\', c] + s).skip(2) =~= s);
}

/// Quotation marks at both ends are taken away; where one of them is missing neither is.
pub proof fn law_quotation_marks(s: Seq<char>)
    ensures
        inside_quotes(seq!['"'] + s + seq!['"']) == s,
        s.len() < 2 || s.first() != '"' || s.last() != '"' ==> inside_quotes(s) == s,
{
    assert(inside_quotes(seq!['"'] + s + seq!['"']) =~= s);
}

/// Settings are written a line each: the order, the volume, and the filter between
/// quotation marks.
pub proof fn law_settings_are_written(sort_index: int, volume: Seq<char>, filter_text: Seq<char>)
    ensures
        config_text(sort_index, volume, filter_text) == "sort_index = "@ + decimal(sort_index) + seq!['\n'] + "volume = "@
            + volume + seq!['\n'] + "filter_text = \""@ + escaped(filter_text) + seq!['"', '\n'],
{
    assert(config_text(sort_index, volume, filter_text) =~= "sort_index = "@ + decimal(sort_index) + seq!['\n']
        + "volume = "@ + volume + seq!['\n'] + "filter_text = \""@ + escaped(filter_text) + seq!['"', '\n']);
}

} // verus!
