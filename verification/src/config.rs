//! The small state that the program keeps in `appdata/config.toml`: the order of
//! the gallery, the text of the tag filter and the volume.
//!
//! The format is `key = value`, one to a line. The volume is kept as it is
//! written: what number it is, the caller says.

use vstd::prelude::*;
use crate::text::{chars_of, decimal, find_from, first_at, is_space, lemma_decimal_round_trip, lemma_first_at, parse_i32, parsed_int, push_decimal, string_of, texts, trim, trimmed};
use crate::order::same_text;

verus! {

broadcast use vstd::string::group_string_axioms;

/// What the file says.
pub struct Config {
    pub sort_index: i32,
    pub filter_text: String,
    /// The volumes that the file gives, as they are written. The last one that is
    /// a number holds.
    pub volumes: Vec<String>,
}

/// What a [`Config`] says.
#[verifier::ext_equal]
pub struct ConfigRec {
    pub sort_index: int,
    pub filter_text: Seq<char>,
    pub volumes: Seq<Seq<char>>,
}

impl View for Config {
    type V = ConfigRec;

    open spec fn view(&self) -> ConfigRec {
        ConfigRec {
            sort_index: self.sort_index as int,
            filter_text: self.filter_text@,
            volumes: texts(self.volumes@),
        }
    }
}

/// What holds where the file says nothing.
pub open spec fn no_config() -> ConfigRec {
    ConfigRec { sort_index: 0, filter_text: Seq::empty(), volumes: Seq::empty() }
}

impl Default for Config {
    fn default() -> (r: Config)
        ensures
            r@ == no_config(),
    {
        let r = Config { sort_index: 0, filter_text: String::new(), volumes: Vec::new() };
        assert(texts(r.volumes@) =~= Seq::<Seq<char>>::empty());
        assert(r.filter_text@ =~= Seq::<char>::empty());
        r
    }
}

// ---------------------------------------------------------------------------
// Quotes.

/// Whether a character is written with a backslash before it.
pub open spec fn is_special(c: char) -> bool {
    c == '\\' || c == '"'
}

/// A text with a backslash before each backslash and each quotation mark.
pub open spec fn escaped(s: Seq<char>) -> Seq<char>
    decreases s.len(),
{
    if s.len() == 0 {
        Seq::empty()
    } else if is_special(s.last()) {
        escaped(s.drop_last()) + seq!['\\', s.last()]
    } else {
        escaped(s.drop_last()).push(s.last())
    }
}

/// A text with the backslash taken away before each backslash and each quotation
/// mark.
pub open spec fn unescaped(s: Seq<char>) -> Seq<char>
    decreases s.len(),
{
    if s.len() == 0 {
        Seq::empty()
    } else if s[0] == '\\' && s.len() > 1 {
        if is_special(s[1]) {
            seq![s[1]] + unescaped(s.skip(2))
        } else {
            seq!['\\', s[1]] + unescaped(s.skip(2))
        }
    } else {
        seq![s[0]] + unescaped(s.skip(1))
    }
}

/// The text between quotation marks, or all of it where they do not stand at both
/// ends.
pub open spec fn inside_quotes(s: Seq<char>) -> Seq<char> {
    if s.len() >= 2 && s.first() == '"' && s.last() == '"' {
        s.subrange(1, s.len() - 1)
    } else {
        s
    }
}

/// Puts a backslash before each backslash and each quotation mark.
pub fn escape(s: &str) -> (r: String)
    ensures
        r@ == escaped(s@),
{
    let v = chars_of(s);
    let mut out = String::new();
    let mut i: usize = 0;
    assert(escaped(v@.take(0)) =~= Seq::<char>::empty());
    while i < v.len()
        invariant
            i <= v@.len(),
            out@ == escaped(v@.take(i as int)),
        decreases v.len() - i,
    {
        proof {
            assert(v@.take(i + 1).drop_last() =~= v@.take(i as int));
            assert(v@.take(i + 1).last() == v@[i as int]);
        }
        let c = v[i];
        let ghost out0 = out@;
        if c == '\\' || c == '"' {
            out.push('\\');
            out.push(c);
            assert(out@ =~= out0 + seq!['\\', c]);
        } else {
            out.push(c);
        }
        i += 1;
    }
    assert(v@.take(i as int) =~= v@);
    out
}

/// Takes the quotation marks off, and the backslashes that `escape` puts in.
pub fn unquote(s: &str) -> (r: String)
    ensures
        r@ == unescaped(inside_quotes(s@)),
{
    let v = chars_of(s);
    let n: usize = v.len();
    let (from, to): (usize, usize) = if n >= 2 && v[0] == '"' && v[n - 1] == '"' {
        (1, n - 1)
    } else {
        (0, n)
    };
    let ghost inner = v@.subrange(from as int, to as int);
    assert(inner =~= inside_quotes(s@));
    let mut out = String::new();
    let mut i: usize = from;
    assert(inner.skip(0) =~= inner);
    assert(out@ + unescaped(inner.skip(0)) =~= unescaped(inner));
    while i < to
        invariant
            from <= i <= to <= v@.len(),
            inner == v@.subrange(from as int, to as int),
            out@ + unescaped(inner.skip(i - from)) == unescaped(inner),
        decreases to - i,
    {
        let ghost rest = inner.skip(i - from);
        let ghost out0 = out@;
        let c = v[i];
        assert(rest[0] == c);
        if c == '\\' && to - i > 1 {
            let e = v[i + 1];
            assert(rest[1] == e);
            assert(rest.skip(2) =~= inner.skip(i + 2 - from));
            if e == '"' || e == '\\' {
                out.push(e);
                assert(out@ + unescaped(rest.skip(2)) =~= out0 + (seq![e] + unescaped(rest.skip(2))));
            } else {
                out.push('\\');
                out.push(e);
                assert(out@ + unescaped(rest.skip(2)) =~= out0 + (seq!['\\', e] + unescaped(rest.skip(2))));
            }
            i += 2;
        } else {
            assert(rest.skip(1) =~= inner.skip(i + 1 - from));
            out.push(c);
            assert(out@ + unescaped(rest.skip(1)) =~= out0 + (seq![c] + unescaped(rest.skip(1))));
            i += 1;
        }
    }
    assert(inner.skip(i - from) =~= Seq::<char>::empty());
    assert(out@ =~= out@ + unescaped(Seq::<char>::empty()));
    out
}

proof fn lemma_escaped_front(c: char, s: Seq<char>)
    ensures
        escaped(seq![c] + s) == if is_special(c) {
            seq!['\\', c] + escaped(s)
        } else {
            seq![c] + escaped(s)
        },
    decreases s.len(),
{
    let t = seq![c] + s;
    if s.len() == 0 {
        assert(t.drop_last() =~= Seq::<char>::empty());
        assert(t.last() == c);
        assert(escaped(s) =~= Seq::<char>::empty());
        assert(escaped(t.drop_last()) =~= Seq::<char>::empty());
        if is_special(c) {
            assert(escaped(t) =~= seq!['\\', c] + escaped(s));
        } else {
            assert(escaped(t) =~= seq![c] + escaped(s));
        }
    } else {
        lemma_escaped_front(c, s.drop_last());
        assert(t.drop_last() =~= seq![c] + s.drop_last());
        assert(t.last() == s.last());
        if is_special(c) {
            assert(escaped(t) =~= seq!['\\', c] + escaped(s));
        } else {
            assert(escaped(t) =~= seq![c] + escaped(s));
        }
    }
}

/// What `escape` puts in, `unquote` takes away.
pub proof fn law_unescape_undoes_escape(s: Seq<char>)
    ensures
        unescaped(escaped(s)) == s,
    decreases s.len(),
{
    if s.len() > 0 {
        let c = s[0];
        let rest = s.skip(1);
        assert(s =~= seq![c] + rest);
        lemma_escaped_front(c, rest);
        law_unescape_undoes_escape(rest);
        let e = escaped(s);
        if is_special(c) {
            assert(e[0] == '\\' && e[1] == c);
            assert(e.skip(2) =~= escaped(rest));
        } else {
            assert(e[0] == c);
            assert(e.skip(1) =~= escaped(rest));
        }
        assert(unescaped(e) =~= s);
    } else {
        assert(escaped(s) =~= Seq::<char>::empty());
        assert(unescaped(escaped(s)) =~= s);
    }
}

/// What is escaped and put between quotation marks comes back whole.
pub proof fn law_quoted_text_comes_back(s: Seq<char>)
    ensures
        unescaped(inside_quotes(seq!['"'] + escaped(s) + seq!['"'])) == s,
{
    let q = seq!['"'] + escaped(s) + seq!['"'];
    assert(q.subrange(1, q.len() - 1) =~= escaped(s));
    law_unescape_undoes_escape(s);
}

// ---------------------------------------------------------------------------
// Lines.

/// The lines of a text.
pub open spec fn lines(s: Seq<char>) -> Seq<Seq<char>>
    decreases s.len(),
    via lines_decreases
{
    let n = first_at(s, '\n');
    if n >= s.len() {
        seq![s]
    } else {
        seq![s.take(n)] + lines(s.skip(n + 1))
    }
}

#[via_fn]
proof fn lines_decreases(s: Seq<char>) {
    lemma_first_at(s, '\n');
}

/// What a line adds to what the lines before it say. Lines without a key and
/// those that begin with `#` add nothing, nor do keys that are not known and a
/// number that cannot be read.
pub open spec fn with_line(c: ConfigRec, line: Seq<char>) -> ConfigRec {
    let l = trimmed(line);
    let at = first_at(l, '=');
    if l.len() == 0 || l[0] == '#' || at >= l.len() {
        c
    } else {
        let key = trimmed(l.take(at));
        let val = trimmed(l.skip(at + 1));
        if key == "sort_index"@ {
            match parsed_int(val, i32::MIN as int, i32::MAX as int) {
                Some(v) => ConfigRec { sort_index: v, ..c },
                None => c,
            }
        } else if key == "volume"@ {
            ConfigRec { volumes: c.volumes.push(val), ..c }
        } else if key == "filter_text"@ {
            ConfigRec { filter_text: unescaped(inside_quotes(val)), ..c }
        } else {
            c
        }
    }
}

/// What the first `n` lines say.
pub open spec fn with_lines(ls: Seq<Seq<char>>, n: int) -> ConfigRec
    decreases n,
{
    if n <= 0 {
        no_config()
    } else {
        with_line(with_lines(ls, n - 1), ls[n - 1])
    }
}

/// What a text says.
pub open spec fn config_of(s: Seq<char>) -> ConfigRec {
    with_lines(lines(s), lines(s).len() as int)
}

/// The text of a file that says this.
pub open spec fn config_text(sort_index: int, volume: Seq<char>, filter_text: Seq<char>) -> Seq<char> {
    "sort_index = "@ + decimal(sort_index) + seq!['\n'] + ("volume = "@ + volume + seq!['\n']) + ("filter_text = \""@
        + escaped(filter_text) + seq!['"', '\n'])
}

fn split_lines(s: &str) -> (r: Vec<String>)
    ensures
        texts(r@) == lines(s@),
{
    let v = chars_of(s);
    let n: usize = v.len();
    let mut out: Vec<String> = Vec::new();
    let mut i: usize = 0;
    assert(v@.skip(0) =~= v@);
    assert(texts(out@) + lines(v@) =~= lines(v@));
    loop
        invariant
            i <= n == v@.len(),
            v@ == s@,
            texts(out@) + lines(v@.skip(i as int)) == lines(s@),
        decreases n - i,
    {
        let ghost rest = v@.skip(i as int);
        let e: usize = find_from(&v, i, '\n');
        let ghost k = first_at(rest, '\n');
        let ghost out0 = texts(out@);
        let line = string_of(&v, i, e);
        let ghost l = line@;
        out.push(line);
        assert(texts(out@) =~= out0.push(l));
        if e == n {
            assert(l =~= rest);
            assert(texts(out@) =~= out0 + seq![rest]);
            return out;
        }
        assert(l =~= rest.take(k));
        assert(rest.skip(k + 1) =~= v@.skip(e + 1));
        assert(texts(out@) + lines(v@.skip(e + 1)) =~= out0 + (seq![l] + lines(rest.skip(k + 1))));
        i = e + 1;
    }
}

impl Config {
    fn take_line(&mut self, line: &str)
        ensures
            final(self)@ == with_line(old(self)@, line@),
    {
        let l = trim(line);
        let v = chars_of(l.as_str());
        let n: usize = v.len();
        if n == 0 || v[0] == '#' {
            return ;
        }
        let at: usize = find_from(&v, 0, '=');
        assert(v@.skip(0) =~= v@);
        if at == n {
            return ;
        }
        let key = string_of(&v, 0, at);
        let val = string_of(&v, at + 1, n);
        assert(key@ =~= v@.take(at as int));
        assert(val@ =~= v@.skip(at + 1));
        let key = trim(key.as_str());
        let val = trim(val.as_str());
        if same_text(key.as_str(), "sort_index") {
            match parse_i32(val.as_str()) {
                Some(x) => {
                    self.sort_index = x;
                },
                None => {},
            }
        } else if same_text(key.as_str(), "volume") {
            let ghost vol0 = texts(self.volumes@);
            let ghost w = val@;
            self.volumes.push(val);
            assert(texts(self.volumes@) =~= vol0.push(w));
        } else if same_text(key.as_str(), "filter_text") {
            self.filter_text = unquote(val.as_str());
        }
    }

    /// Reads the text of the file.
    pub fn load(text: &str) -> (r: Config)
        ensures
            r@ == config_of(text@),
    {
        let ls = split_lines(text);
        let ghost all = lines(text@);
        let mut c: Config = Default::default();
        let mut i: usize = 0;
        while i < ls.len()
            invariant
                i <= ls@.len(),
                texts(ls@) == all,
                c@ == with_lines(all, i as int),
            decreases ls.len() - i,
        {
            assert(all[i as int] == ls@[i as int]@);
            c.take_line(ls[i].as_str());
            i += 1;
        }
        assert(all.len() == ls@.len());
        c
    }

    /// The text of a file with this order, this volume and this filter.
    pub fn save(sort_index: i32, volume: &str, filter_text: &str) -> (r: String)
        ensures
            r@ == config_text(sort_index as int, volume@, filter_text@),
    {
        let mut s = "sort_index = ".to_string();
        push_decimal(&mut s, sort_index as i64);
        s.push('\n');
        s.append("volume = ");
        s.append(volume);
        s.push('\n');
        s.append("filter_text = \"");
        let e = escape(filter_text);
        s.append(e.as_str());
        s.push('"');
        s.push('\n');
        assert(s@ =~= config_text(sort_index as int, volume@, filter_text@));
        s
    }
}

// ---------------------------------------------------------------------------
// What is written is read back.

proof fn lemma_first_line(a: Seq<char>, rest: Seq<char>)
    requires
        !a.contains('\n'),
    ensures
        lines(a + seq!['\n'] + rest) == seq![a] + lines(rest),
{
    let s = a + seq!['\n'] + rest;
    lemma_first_at(s, '\n');
    let n = first_at(s, '\n');
    assert(s[a.len() as int] == '\n');
    if n < a.len() {
        assert(s[n] == a[n]);
        assert(a.contains(a[n]));
    }
    assert(n == a.len());
    assert(s.take(n) =~= a);
    assert(s.skip(n + 1) =~= rest);
}

proof fn lemma_trimmed_same(s: Seq<char>)
    requires
        s.len() > 0,
        !is_space(s.first()),
        !is_space(s.last()),
    ensures
        trimmed(s) == s,
{
}

proof fn lemma_trimmed_front(s: Seq<char>)
    requires
        s.len() > 0,
        !is_space(s.first()),
        !is_space(s.last()),
    ensures
        trimmed(seq![' '] + s) == s,
        trimmed(s.push(' ')) == s,
{
    lemma_trimmed_same(s);
    let a = seq![' '] + s;
    assert(a.first() == ' ');
    assert(is_space(' '));
    assert(a.drop_first() =~= s);
    let b = s.push(' ');
    assert(b.first() == s.first());
    assert(b.last() == ' ');
    assert(b.drop_last() =~= s);
}

/// A line `key = value` says what its key and its value say.
proof fn lemma_entry(key: Seq<char>, val: Seq<char>)
    requires
        key.len() > 0,
        !is_space(key.first()),
        !is_space(key.last()),
        !key.contains('='),
        key[0] != '#',
        val.len() > 0,
        !is_space(val.first()),
        !is_space(val.last()),
    ensures
        ({
            let line = key + seq![' ', '=', ' '] + val;
            let l = trimmed(line);
            let at = first_at(l, '=');
            l.len() > 0 && l[0] != '#' && at < l.len() && trimmed(l.take(at)) == key && trimmed(l.skip(at + 1)) == val
        }),
{
    let line = key + seq![' ', '=', ' '] + val;
    assert(line.first() == key.first());
    assert(line.last() == val.last());
    lemma_trimmed_same(line);
    lemma_first_at(line, '=');
    let at = first_at(line, '=');
    assert(line[key.len() as int + 1] == '=');
    if at < key.len() {
        assert(line[at] == key[at]);
        assert(key.contains(key[at]));
    } else if at == key.len() {
        assert(line[at] == ' ');
    }
    assert(at == key.len() + 1);
    assert(line.take(at) =~= key.push(' '));
    assert(line.skip(at + 1) =~= seq![' '] + val);
    lemma_trimmed_front(key);
    lemma_trimmed_front(val);
}

proof fn lemma_decimal_ends(i: int)
    ensures
        decimal(i).len() > 0,
        !is_space(decimal(i).first()),
        !is_space(decimal(i).last()),
        !decimal(i).contains('\n'),
{
    crate::text::lemma_decimal_chars(i);
}

/// What is written is read back: the order, the filter whatever marks it holds,
/// and the volume as it was written. The volume has to be a word, and the filter
/// one line.
pub proof fn law_saved_config_is_loaded(sort_index: int, volume: Seq<char>, filter_text: Seq<char>)
    requires
        i32::MIN <= sort_index <= i32::MAX,
        volume.len() > 0,
        forall|i: int| 0 <= i < volume.len() ==> !is_space(#[trigger] volume[i]),
        !filter_text.contains('\n'),
    ensures
        config_of(config_text(sort_index, volume, filter_text)) == (ConfigRec {
            sort_index,
            filter_text,
            volumes: seq![volume],
        }),
{
    reveal_strlit("sort_index = ");
    reveal_strlit("volume = ");
    reveal_strlit("filter_text = \"");
    reveal_strlit("sort_index");
    reveal_strlit("volume");
    reveal_strlit("filter_text");
    let s = config_text(sort_index, volume, filter_text);
    let k1 = "sort_index"@;
    let k2 = "volume"@;
    let k3 = "filter_text"@;
    let v1 = decimal(sort_index);
    let v3 = seq!['"'] + escaped(filter_text) + seq!['"'];
    let mid = seq![' ', '=', ' '];
    let l1 = k1 + mid + v1;
    let l2 = k2 + mid + volume;
    let l3 = k3 + mid + v3;
    lemma_decimal_ends(sort_index);
    lemma_escaped_lines(filter_text);
    assert(!l1.contains('\n')) by {
        assert forall|i: int| 0 <= i < l1.len() implies l1[i] != '\n' by {
            if i >= k1.len() + 3 {
                assert(l1[i] == v1[i - k1.len() - 3]);
                assert(v1.contains(v1[i - k1.len() - 3]));
            }
        }
    }
    assert(!l2.contains('\n')) by {
        assert forall|i: int| 0 <= i < l2.len() implies l2[i] != '\n' by {
            if i >= k2.len() + 3 {
                assert(l2[i] == volume[i - k2.len() - 3]);
            }
        }
    }
    assert(!l3.contains('\n')) by {
        assert forall|i: int| 0 <= i < l3.len() implies l3[i] != '\n' by {
            if i >= k3.len() + 3 {
                assert(l3[i] == v3[i - k3.len() - 3]);
                let j = i - k3.len() - 4;
                if 0 <= j < escaped(filter_text).len() {
                    assert(l3[i] == escaped(filter_text)[j]);
                    assert(escaped(filter_text).contains(escaped(filter_text)[j]));
                }
            }
        }
    }
    let e = Seq::<char>::empty();
    let t3 = l3 + seq!['\n'] + e;
    let t2 = l2 + seq!['\n'] + t3;
    let t1 = l1 + seq!['\n'] + t2;
    assert(s =~= t1);
    lemma_first_line(l1, t2);
    lemma_first_line(l2, t3);
    lemma_first_line(l3, e);
    assert(lines(e) =~= seq![e]) by {
        lemma_first_at(e, '\n');
    }
    assert(lines(s) =~= seq![l1, l2, l3, e]);
    let ls = lines(s);
    let c0 = no_config();
    assert(!k1.contains('=') && !k2.contains('=') && !k3.contains('='));
    lemma_entry(k1, v1);
    lemma_entry(k2, volume);
    lemma_entry(k3, v3);
    lemma_decimal_round_trip(sort_index, i32::MIN as int, i32::MAX as int);
    law_quoted_text_comes_back(filter_text);
    let c1 = with_line(c0, l1);
    assert(c1 == ConfigRec { sort_index, ..c0 });
    assert(k2 != k1) by {
        assert(k2.len() != k1.len());
    }
    assert(k3 != k1 && k3 != k2) by {
        assert(k3.len() != k1.len() && k3.len() != k2.len());
    }
    let c2 = with_line(c1, l2);
    assert(c2 == ConfigRec { volumes: c1.volumes.push(volume), ..c1 });
    let c3 = with_line(c2, l3);
    assert(c3 == ConfigRec { filter_text, ..c2 });
    let c4 = with_line(c3, e);
    assert(c4 == c3);
    reveal_with_fuel(with_lines, 5);
    assert(with_lines(ls, 4) == c4);
    assert(c4.volumes =~= seq![volume]);
}

proof fn lemma_escaped_lines(s: Seq<char>)
    requires
        !s.contains('\n'),
    ensures
        !escaped(s).contains('\n'),
    decreases s.len(),
{
    if s.len() > 0 {
        assert(!s.drop_last().contains('\n')) by {
            assert forall|i: int| 0 <= i < s.drop_last().len() implies s.drop_last()[i] != '\n' by {
                assert(s.contains(s[i]));
            }
        }
        lemma_escaped_lines(s.drop_last());
        assert(s.contains(s[s.len() - 1]));
        let a = escaped(s.drop_last());
        let b = escaped(s);
        assert forall|i: int| 0 <= i < b.len() implies b[i] != '\n' by {
            if i < a.len() {
                assert(b[i] == a[i]);
                assert(a.contains(a[i]));
            }
        }
    }
}

} // verus!
