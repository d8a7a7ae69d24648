//! The filter: what its words ask for, what it shows, and how it is written.

use vstd::prelude::*;
use super::gallery::law_gallery_shows_what_is_asked_for;
use super::tags::law_tags_are_listed_by_name;
use crate::db::query::{gallery_rec, in_order, law_every_file_is_shown_once, passes, SortKey};
use crate::db::{by_name, shown_recs, FileRec, Tables};
use crate::filter::{completed, filter_of, ids_by_name, is_word, last_space, last_word, law_token_is_set, lower_words, other_words, spaced, suggested, with_op, without_signs, words_without, TokenOp};
use crate::order::has_part;
use crate::seqs::lemma_filter_from;
use crate::tagging::{gallery_of, ids_of_tags};
use crate::text::{is_space, lowercased, words};

verus! {

/// Whether a word asks for a tag: one that does not begin with `-`.
pub open spec fn asks_for(w: Seq<char>, name: Seq<char>) -> bool {
    w.len() > 0 && w[0] != '-' && name == w
}

/// Whether a word rules a tag out: one that begins with `-`, before the name.
pub open spec fn rules_out(w: Seq<char>, name: Seq<char>) -> bool {
    name.len() > 0 && w == seq!['-'] + name
}

/// Whether a word, wherever it stands, asks for the name.
pub open spec fn some_asks(ws: Seq<Seq<char>>, n: int, name: Seq<char>) -> bool {
    exists|k: int| 0 <= k < n && asks_for(#[trigger] ws[k], name)
}

/// Whether a word, wherever it stands, rules the name out.
pub open spec fn some_rules_out(ws: Seq<Seq<char>>, n: int, name: Seq<char>) -> bool {
    exists|k: int| 0 <= k < n && rules_out(#[trigger] ws[k], name)
}

proof fn lemma_filter(ws: Seq<Seq<char>>, ids: Map<Seq<char>, i64>, n: int)
    requires
        0 <= n <= ws.len(),
    ensures
        ({
            let f = filter_of(ws, ids, n);
            &&& f.impossible <==> exists|name: Seq<char>| #[trigger]
                some_asks(ws, n, name) && !ids.contains_key(lowercased(name))
            &&& forall|id: i64| #[trigger]
                f.want.contains(id) <==> exists|name: Seq<char>| #[trigger]
                    some_asks(ws, n, name) && ids.contains_key(lowercased(name)) && ids[lowercased(name)] == id
            &&& forall|id: i64| #[trigger]
                f.unwanted.contains(id) <==> exists|name: Seq<char>| #[trigger]
                    some_rules_out(ws, n, name) && ids.contains_key(lowercased(name)) && ids[lowercased(name)] == id
        }),
    decreases n,
{
    if n > 0 {
        lemma_filter(ws, ids, n - 1);
        let w = ws[n - 1];
        let g = filter_of(ws, ids, n - 1);
        let f = filter_of(ws, ids, n);
        assert forall|name: Seq<char>| #[trigger] some_asks(ws, n, name) <==> some_asks(ws, n - 1, name) || asks_for(
            w,
            name,
        ) by {
            if some_asks(ws, n - 1, name) {
                let k = choose|k: int| 0 <= k < n - 1 && asks_for(#[trigger] ws[k], name);
                assert(asks_for(ws[k], name));
            }
        }
        assert forall|name: Seq<char>| #[trigger] some_rules_out(ws, n, name) <==> some_rules_out(ws, n - 1, name)
            || rules_out(w, name) by {
            if some_rules_out(ws, n - 1, name) {
                let k = choose|k: int| 0 <= k < n - 1 && rules_out(#[trigger] ws[k], name);
                assert(rules_out(ws[k], name));
            }
        }
        assert forall|s: Seq<i64>, x: i64, z: i64| #[trigger] s.push(x).contains(z) <==> s.contains(z) || z == x by {
            crate::order::lemma_push_contains(s, x, z);
        }
        if w.len() > 0 && w[0] == '-' {
            let name = w.skip(1);
            assert(w =~= seq!['-'] + name);
            assert forall|x: Seq<char>| rules_out(w, x) implies x == name by {
                assert((seq!['-'] + x).skip(1) =~= x);
            }
            if name.len() > 0 {
                assert(rules_out(w, name));
                assert(some_rules_out(ws, n, name));
            }
        } else {
            assert forall|x: Seq<char>| !rules_out(w, x) by {
                if rules_out(w, x) {
                    assert((seq!['-'] + x)[0] == '-');
                }
            }
            if w.len() > 0 {
                assert(asks_for(w, w));
                assert(some_asks(ws, n, w));
            }
        }
        assert forall|id: i64| #[trigger] f.want.contains(id) <==> exists|name: Seq<char>| #[trigger]
            some_asks(ws, n, name) && ids.contains_key(lowercased(name)) && ids[lowercased(name)] == id by {
            if g.want.contains(id) {
                let name = choose|name: Seq<char>| #[trigger]
                    some_asks(ws, n - 1, name) && ids.contains_key(lowercased(name)) && ids[lowercased(name)] == id;
                assert(some_asks(ws, n, name));
            }
            if exists|name: Seq<char>| #[trigger]
                some_asks(ws, n, name) && ids.contains_key(lowercased(name)) && ids[lowercased(name)] == id {
                let name = choose|name: Seq<char>| #[trigger]
                    some_asks(ws, n, name) && ids.contains_key(lowercased(name)) && ids[lowercased(name)] == id;
                if some_asks(ws, n - 1, name) {
                    assert(g.want.contains(id));
                }
            }
        }
        assert forall|id: i64| #[trigger] f.unwanted.contains(id) <==> exists|name: Seq<char>| #[trigger]
            some_rules_out(ws, n, name) && ids.contains_key(lowercased(name)) && ids[lowercased(name)] == id by {
            if g.unwanted.contains(id) {
                let name = choose|name: Seq<char>| #[trigger]
                    some_rules_out(ws, n - 1, name) && ids.contains_key(lowercased(name)) && ids[lowercased(name)]
                        == id;
                assert(some_rules_out(ws, n, name));
            }
            if exists|name: Seq<char>| #[trigger]
                some_rules_out(ws, n, name) && ids.contains_key(lowercased(name)) && ids[lowercased(name)] == id {
                let name = choose|name: Seq<char>| #[trigger]
                    some_rules_out(ws, n, name) && ids.contains_key(lowercased(name)) && ids[lowercased(name)] == id;
                if some_rules_out(ws, n - 1, name) {
                    assert(g.unwanted.contains(id));
                }
            }
        }
        if g.impossible {
            let name = choose|name: Seq<char>| #[trigger]
                some_asks(ws, n - 1, name) && !ids.contains_key(lowercased(name));
            assert(some_asks(ws, n, name));
        }
        if exists|name: Seq<char>| #[trigger] some_asks(ws, n, name) && !ids.contains_key(lowercased(name)) {
            let name = choose|name: Seq<char>| #[trigger]
                some_asks(ws, n, name) && !ids.contains_key(lowercased(name));
            if some_asks(ws, n - 1, name) {
                assert(g.impossible);
            }
        }
    }
}

/// A filter is impossible where a word without a `-`, at any place, is not the name of a
/// tag; it wants the tags that such words name, and rules those out that words with a
/// `-` name. Names are looked up in lower case.
pub proof fn law_filter_asks_for_its_words(text: Seq<char>, ids: Map<Seq<char>, i64>)
    ensures
        ({
            let ws = words(text);
            let n = ws.len() as int;
            let f = filter_of(ws, ids, n);
            &&& f.impossible <==> exists|name: Seq<char>| #[trigger]
                some_asks(ws, n, name) && !ids.contains_key(lowercased(name))
            &&& forall|id: i64| #[trigger]
                f.want.contains(id) <==> exists|name: Seq<char>| #[trigger]
                    some_asks(ws, n, name) && ids.contains_key(lowercased(name)) && ids[lowercased(name)] == id
            &&& forall|id: i64| #[trigger]
                f.unwanted.contains(id) <==> exists|name: Seq<char>| #[trigger]
                    some_rules_out(ws, n, name) && ids.contains_key(lowercased(name)) && ids[lowercased(name)] == id
        }),
{
    lemma_filter(words(text), ids, words(text).len() as int);
}

proof fn lemma_ids_by_name(tags: Seq<(i64, Seq<char>)>, n: int)
    requires
        0 <= n <= tags.len(),
    ensures
        forall|x: Seq<char>| #[trigger]
            ids_by_name(tags, n).contains_key(x) ==> exists|k: int|
                0 <= k < n && lowercased((#[trigger] tags[k]).1) == x && tags[k].0 == ids_by_name(tags, n)[x],
        forall|k: int| 0 <= k < n ==> ids_by_name(tags, n).contains_key(lowercased((#[trigger] tags[k]).1)),
    decreases n,
{
    if n > 0 {
        lemma_ids_by_name(tags, n - 1);
        let was = ids_by_name(tags, n - 1);
        let now = ids_by_name(tags, n);
        assert forall|x: Seq<char>| #[trigger] now.contains_key(x) implies exists|k: int|
            0 <= k < n && lowercased((#[trigger] tags[k]).1) == x && tags[k].0 == now[x] by {
            if x == lowercased(tags[n - 1].1) {
                assert(tags[n - 1].0 == now[x]);
            } else {
                assert(was.contains_key(x));
                let k = choose|k: int|
                    0 <= k < n - 1 && lowercased((#[trigger] tags[k]).1) == x && tags[k].0 == was[x];
                assert(tags[k].0 == now[x]);
            }
        }
    }
}

/// The filter knows every tag by its name in lower case, and nothing else.
pub proof fn law_filter_knows_tags_by_name(t: Tables)
    ensures
        forall|x: Seq<char>| #[trigger]
            ids_of_tags(t).contains_key(x) ==> exists|k: int|
                0 <= k < t.tags.len() && lowercased((#[trigger] t.tags[k]).name) == x && t.tags[k].id
                    == ids_of_tags(t)[x],
        forall|k: int| 0 <= k < t.tags.len() ==> ids_of_tags(t).contains_key(lowercased((#[trigger] t.tags[k]).name)),
{
    let listed = by_name(t.tags);
    let shown = shown_recs(listed);
    law_tags_are_listed_by_name(t.tags);
    lemma_ids_by_name(shown, listed.len() as int);
    assert forall|x: Seq<char>| #[trigger] ids_of_tags(t).contains_key(x) implies exists|k: int|
        0 <= k < t.tags.len() && lowercased((#[trigger] t.tags[k]).name) == x && t.tags[k].id == ids_of_tags(t)[x] by {
        let k = choose|k: int|
            0 <= k < listed.len() && lowercased((#[trigger] shown[k]).1) == x && shown[k].0 == ids_of_tags(t)[x];
        assert(listed.contains(listed[k]));
        let l = choose|l: int| 0 <= l < t.tags.len() && t.tags[l] == listed[k];
        assert(lowercased(t.tags[l].name) == x);
    }
    assert forall|k: int| 0 <= k < t.tags.len() implies ids_of_tags(t).contains_key(
        lowercased((#[trigger] t.tags[k]).name),
    ) by {
        assert(t.tags.contains(t.tags[k]));
        assert(listed.contains(t.tags[k]));
        let l = choose|l: int| 0 <= l < listed.len() && listed[l] == t.tags[k];
        assert(shown[l].1 == t.tags[k].name);
    }
}

/// The gallery under a filter shows a file where every word without a `-` names a tag
/// that it has, and no word with a `-` names one. Where a word without a `-` names no
/// tag, nothing is shown. What else is searched for counts as without a filter.
pub proof fn law_filter_shows_files_with_its_tags(
    t: Tables,
    text: Seq<char>,
    search: Seq<char>,
    type_filter: i32,
    sort: SortKey,
    i: int,
)
    requires
        t.wf(),
        0 <= i < t.files.len(),
    ensures
        ({
            let g = gallery_of(t, text, search, type_filter, sort);
            let ws = words(text);
            let n = ws.len() as int;
            let ids = ids_of_tags(t);
            let r = t.files[i];
            (exists|k: int| 0 <= k < g.len() && (#[trigger] g[k]).id == r.id) <==> {
                &&& passes(t, r, Seq::empty(), Seq::empty(), true, search, 0)
                &&& type_filter == 1 ==> r.media_type is Image
                &&& type_filter == 2 ==> r.media_type is Video
                &&& forall|name: Seq<char>| #[trigger]
                    some_asks(ws, n, name) ==> ids.contains_key(lowercased(name)) && t.links.contains(
                        (r.id, ids[lowercased(name)]),
                    )
                &&& forall|name: Seq<char>| #[trigger]
                    some_rules_out(ws, n, name) && ids.contains_key(lowercased(name)) ==> !t.links.contains(
                        (r.id, ids[lowercased(name)]),
                    )
            }
        }),
{
    let ws = words(text);
    let n = ws.len() as int;
    let ids = ids_of_tags(t);
    let f = filter_of(ws, ids, n);
    let g = gallery_of(t, text, search, type_filter, sort);
    let r = t.files[i];
    law_filter_asks_for_its_words(text, ids);
    law_gallery_shows_what_is_asked_for(t, r, f.want, f.unwanted, search, type_filter);
    if !f.impossible {
        let keep = |r: FileRec| passes(t, r, f.want, f.unwanted, true, search, type_filter);
        let rows = t.files.filter(keep);
        let out = in_order(sort, rows);
        lemma_filter_from(t.files, keep);
        law_every_file_is_shown_once(sort, rows);
        assert(g == out.map_values(|r: FileRec| gallery_rec(r)));
        assert((exists|k: int| 0 <= k < g.len() && (#[trigger] g[k]).id == r.id) <==> keep(r)) by {
            if exists|k: int| 0 <= k < g.len() && (#[trigger] g[k]).id == r.id {
                let k = choose|k: int| 0 <= k < g.len() && (#[trigger] g[k]).id == r.id;
                assert(g[k] == gallery_rec(out[k]));
                assert(out.contains(out[k]));
                assert(rows.contains(out[k]));
                let j = choose|j: int| 0 <= j < t.files.len() && t.files[j] == out[k];
                if j < i {
                    assert(t.files[j].id < t.files[i].id);
                } else if i < j {
                    assert(t.files[i].id < t.files[j].id);
                }
            }
            if keep(r) {
                assert(t.files.contains(r));
                assert(rows.contains(r));
                assert(out.contains(r));
                let k = choose|k: int| 0 <= k < out.len() && out[k] == r;
                assert(g[k].id == r.id);
            }
        }
        assert((forall|tag: i64| #[trigger] f.want.contains(tag) ==> t.links.contains((r.id, tag))) <==> forall|
            name: Seq<char>,
        | #[trigger]
            some_asks(ws, n, name) ==> ids.contains_key(lowercased(name)) && t.links.contains(
                (r.id, ids[lowercased(name)]),
            )) by {
            if forall|tag: i64| #[trigger] f.want.contains(tag) ==> t.links.contains((r.id, tag)) {
                assert forall|name: Seq<char>| #[trigger] some_asks(ws, n, name) implies ids.contains_key(
                    lowercased(name),
                ) && t.links.contains((r.id, ids[lowercased(name)])) by {
                    assert(f.want.contains(ids[lowercased(name)]));
                }
            }
        }
        assert((forall|tag: i64| #[trigger] f.unwanted.contains(tag) ==> !t.links.contains((r.id, tag))) <==> forall|
            name: Seq<char>,
        | #[trigger]
            some_rules_out(ws, n, name) && ids.contains_key(lowercased(name)) ==> !t.links.contains(
                (r.id, ids[lowercased(name)]),
            )) by {
            if forall|tag: i64| #[trigger] f.unwanted.contains(tag) ==> !t.links.contains((r.id, tag)) {
                assert forall|name: Seq<char>| #[trigger] some_rules_out(ws, n, name) && ids.contains_key(
                    lowercased(name),
                ) implies !t.links.contains((r.id, ids[lowercased(name)])) by {
                    assert(f.unwanted.contains(ids[lowercased(name)]));
                }
            }
        }
    }
}

/// The word that is being written is what follows the last white space, without the
/// `-` signs that it begins with; behind white space there is none.
pub proof fn law_word_being_written(before: Seq<char>, gap: char, signs: Seq<char>, word: Seq<char>)
    requires
        is_space(gap),
        forall|i: int| 0 <= i < signs.len() ==> #[trigger] signs[i] == '-',
        forall|i: int| 0 <= i < word.len() ==> !is_space(#[trigger] word[i]),
        word.len() > 0 ==> word[0] != '-',
    ensures
        without_signs(last_word(before + seq![gap] + signs + word)) == word,
        without_signs(last_word(signs + word)) == word,
{
    let w = signs + word;
    let s = before + seq![gap] + signs + word;
    assert forall|i: int| 0 <= i < w.len() implies !is_space(#[trigger] w[i]) by {
        if i < signs.len() {
            assert(w[i] == signs[i]);
        } else {
            assert(w[i] == word[i - signs.len()]);
        }
    }
    assert(s =~= before + seq![gap] + w);
    lemma_last_space_at(before + seq![gap], w);
    assert((before + seq![gap]).last() == gap);
    assert(last_word(s) =~= w);
    assert(w =~= Seq::<char>::empty() + w);
    lemma_last_space_at(Seq::empty(), w);
    assert(last_word(w) =~= w);
    lemma_without_signs(signs, word);
}

proof fn lemma_last_space_at(p: Seq<char>, w: Seq<char>)
    requires
        p.len() > 0 ==> is_space(p.last()),
        forall|i: int| 0 <= i < w.len() ==> !is_space(#[trigger] w[i]),
    ensures
        last_space(p + w) == p.len() - 1,
    decreases w.len(),
{
    let s = p + w;
    if w.len() > 0 {
        assert(s.last() == w.last());
        assert(!is_space(w[w.len() - 1]));
        assert(s.drop_last() =~= p + w.drop_last());
        assert forall|i: int| 0 <= i < w.drop_last().len() implies !is_space(#[trigger] w.drop_last()[i]) by {
            assert(!is_space(w[i]));
        }
        lemma_last_space_at(p, w.drop_last());
    } else {
        assert(s =~= p);
    }
}

proof fn lemma_without_signs(signs: Seq<char>, word: Seq<char>)
    requires
        forall|i: int| 0 <= i < signs.len() ==> #[trigger] signs[i] == '-',
        word.len() > 0 ==> word[0] != '-',
    ensures
        without_signs(signs + word) == word,
    decreases signs.len(),
{
    let w = signs + word;
    if signs.len() > 0 {
        assert(w[0] == signs[0]);
        assert(w.skip(1) =~= signs.skip(1) + word);
        assert forall|i: int| 0 <= i < signs.skip(1).len() implies #[trigger] signs.skip(1)[i] == '-' by {
            assert(signs[i + 1] == '-');
        }
        lemma_without_signs(signs.skip(1), word);
    } else {
        assert(w =~= word);
    }
}

/// A suggestion that is taken stands in the place of the word that was being written,
/// keeps the `-` of the word, and is followed by a space. What stands before it stays.
pub proof fn law_suggestion_takes_the_place_of_the_word(
    before: Seq<char>,
    gap: char,
    word: Seq<char>,
    chosen: Seq<char>,
)
    requires
        is_space(gap),
        forall|i: int| 0 <= i < word.len() ==> !is_space(#[trigger] word[i]),
    ensures
        word.len() > 0 && word[0] == '-' ==> completed(before + seq![gap] + word, chosen) == before + seq![gap] + seq![
            '-',
        ] + chosen + seq![' '],
        !(word.len() > 0 && word[0] == '-') ==> completed(before + seq![gap] + word, chosen) == before + seq![gap]
            + chosen + seq![' '],
        word.len() > 0 && word[0] == '-' ==> completed(word, chosen) == seq!['-'] + chosen + seq![' '],
        !(word.len() > 0 && word[0] == '-') ==> completed(word, chosen) == chosen + seq![' '],
{
    let p = before + seq![gap];
    let s = p + word;
    assert(p.last() == gap);
    lemma_last_space_at(p, word);
    assert(last_word(s) =~= word);
    assert(s.take(p.len() as int) =~= p);
    assert(word =~= Seq::<char>::empty() + word);
    lemma_last_space_at(Seq::empty(), word);
    assert(last_word(word) =~= word);
    assert(word.take(0) =~= Seq::empty());
    if word.len() > 0 && word[0] == '-' {
        assert(completed(s, chosen) =~= p + seq!['-'] + chosen + seq![' ']);
        assert(completed(word, chosen) =~= seq!['-'] + chosen + seq![' ']);
    } else {
        assert(completed(s, chosen) =~= p + chosen + seq![' ']);
        assert(completed(word, chosen) =~= chosen + seq![' ']);
    }
}

/// Whether a name holds the query in lower case and is not left out.
pub open spec fn may_suggest(query: Seq<char>, name: Seq<char>, leave_out: Set<Seq<char>>) -> bool {
    !leave_out.contains(name) && exists|a: Seq<char>, b: Seq<char>|
        lowercased(name) == #[trigger] (a + lowercased(query) + b)
}

/// The names that are suggested hold the query and are not left out. There are eight at
/// most, and where there are fewer, no such name is missing. Names further down the
/// list come after those before them.
pub proof fn law_suggestions_hold_the_query(query: Seq<char>, names: Seq<Seq<char>>, leave_out: Set<Seq<char>>, n: int)
    requires
        0 <= n <= names.len(),
    ensures
        ({
            let lower = names.map_values(|s: Seq<char>| lowercased(s));
            let r = suggested(lowercased(query), lower, names, leave_out, n);
            &&& r.len() <= 8
            &&& forall|k: int|
                0 <= k < r.len() ==> may_suggest(query, #[trigger] r[k], leave_out) && names.take(n).contains(r[k])
            &&& r.len() < 8 ==> forall|k: int|
                0 <= k < n && may_suggest(query, #[trigger] names[k], leave_out) ==> r.contains(names[k])
            &&& forall|m: int|
                0 <= m <= n ==> (#[trigger] suggested(lowercased(query), lower, names, leave_out, m)).len() <= r.len()
                    && r.take(suggested(lowercased(query), lower, names, leave_out, m).len() as int) == suggested(
                    lowercased(query),
                    lower,
                    names,
                    leave_out,
                    m,
                )
        }),
    decreases n,
{
    let lower = names.map_values(|s: Seq<char>| lowercased(s));
    let q = lowercased(query);
    let r = suggested(q, lower, names, leave_out, n);
    if n > 0 {
        law_suggestions_hold_the_query(query, names, leave_out, n - 1);
        let was = suggested(q, lower, names, leave_out, n - 1);
        let name = names[n - 1];
        super::texts::law_parts_of_texts(lowercased(name), q);
        assert(lower[n - 1] == lowercased(name));
        assert(has_part(lower[n - 1], q) && !leave_out.contains(name) <==> may_suggest(query, name, leave_out));
        assert forall|x: Seq<char>| names.take(n - 1).contains(x) implies names.take(n).contains(x) by {
            let shorter = names.take(n - 1);
            let i = choose|i: int| 0 <= i < shorter.len() && shorter[i] == x;
            assert(names.take(n)[i] == x);
        }
        assert(names.take(n)[n - 1] == name);
        assert forall|k: int| 0 <= k < r.len() implies may_suggest(query, #[trigger] r[k], leave_out) && names.take(
            n,
        ).contains(r[k]) by {
            if k < was.len() {
                assert(r[k] == was[k]);
            }
        }
        if r.len() < 8 {
            assert forall|k: int| 0 <= k < n && may_suggest(query, #[trigger] names[k], leave_out) implies r.contains(
                names[k],
            ) by {
                if k < n - 1 {
                    assert(was.contains(names[k]));
                    let i = choose|i: int| 0 <= i < was.len() && was[i] == names[k];
                    assert(r[i] == names[k]);
                } else {
                    assert(r[r.len() - 1] == names[k]);
                }
            }
        }
        assert forall|m: int| 0 <= m <= n implies (#[trigger] suggested(q, lower, names, leave_out, m)).len() <= r.len()
            && r.take(suggested(q, lower, names, leave_out, m).len() as int) == suggested(q, lower, names, leave_out, m) by {
            let x = suggested(q, lower, names, leave_out, m);
            if m < n {
                assert(was.take(x.len() as int) == x);
                assert(r.take(x.len() as int) =~= was.take(x.len() as int));
            } else {
                assert(r.take(r.len() as int) =~= r);
            }
        }
    } else {
        assert forall|m: int| 0 <= m <= n implies (#[trigger] suggested(q, lower, names, leave_out, m)).len() <= r.len()
            && r.take(suggested(q, lower, names, leave_out, m).len() as int) == suggested(q, lower, names, leave_out, m) by {
            assert(r.take(0) =~= r);
        }
    }
}

/// Whether a word is the name, with a `-` before it or not, in whatever case.
pub open spec fn is_token(w: Seq<char>, name: Seq<char>) -> bool {
    if w.len() > 0 && w[0] == '-' {
        lowercased(w.skip(1)) == lowercased(name)
    } else {
        lowercased(w) == lowercased(name)
    }
}

proof fn lemma_other_words(ws: Seq<Seq<char>>, name: Seq<char>, n: int)
    requires
        0 <= n <= ws.len(),
    ensures
        forall|w: Seq<char>| #[trigger]
            other_words(ws, lower_words(ws), lowercased(name), n).contains(w) <==> ws.take(n).contains(w) && !is_token(
                w,
                name,
            ),
    decreases n,
{
    if n > 0 {
        lemma_other_words(ws, name, n - 1);
        let was = other_words(ws, lower_words(ws), lowercased(name), n - 1);
        let now = other_words(ws, lower_words(ws), lowercased(name), n);
        let w = ws[n - 1];
        assert(ws.take(n) =~= ws.take(n - 1).push(w));
        assert((lower_words(ws)[n - 1] == lowercased(name)) == is_token(w, name));
        assert forall|x: Seq<char>| #[trigger] now.contains(x) <==> ws.take(n).contains(x) && !is_token(x, name) by {
            crate::order::lemma_push_contains(ws.take(n - 1), w, x);
            crate::order::lemma_push_contains(was, w, x);
            assert(was.contains(x) <==> ws.take(n - 1).contains(x) && !is_token(x, name));
        }
    } else {
        assert(ws.take(0) =~= Seq::empty());
    }
}

/// To put a tag into the filter keeps every word that is not its name, takes out all
/// that are, and puts the name, or the name with a `-`, at the end; to take it out puts
/// nothing there.
pub proof fn law_tag_in_the_filter(text: Seq<char>, name: Seq<char>, op: TokenOp)
    requires
        is_word(name),
    ensures
        ({
            let r = words(spaced(with_op(words_without(words(text), name), name, op)));
            let old_words = if op is Remove {
                r
            } else {
                r.drop_last()
            };
            &&& op is Include ==> r.len() > 0 && r.last() == name
            &&& op is Exclude ==> r.len() > 0 && r.last() == seq!['-'] + name
            &&& forall|w: Seq<char>| #[trigger]
                old_words.contains(w) <==> words(text).contains(w) && !is_token(w, name)
        }),
{
    law_token_is_set(text, name, op);
    let ws = words(text);
    let kept = words_without(ws, name);
    lemma_other_words(ws, name, ws.len() as int);
    assert(ws.take(ws.len() as int) =~= ws);
    let r = with_op(kept, name, op);
    if !(op is Remove) {
        assert(r.drop_last() =~= kept);
    }
}

} // verus!
