//! Facts on sequences of which a part is kept.

use vstd::prelude::*;
use crate::order::increasing;

verus! {

/// One element more.
pub proof fn lemma_filter_step<T>(s: Seq<T>, i: int, keep: spec_fn(T) -> bool)
    requires
        0 <= i < s.len(),
    ensures
        s.take(i + 1).filter(keep) == if keep(s[i]) {
            s.take(i).filter(keep).push(s[i])
        } else {
            s.take(i).filter(keep)
        },
{
    reveal(Seq::filter);
    assert(s.take(i + 1).drop_last() == s.take(i));
    assert(s.take(i + 1).last() == s[i]);
}

/// What is kept of a prefix is a prefix of what is kept.
pub proof fn lemma_filter_prefix<T>(s: Seq<T>, i: int, keep: spec_fn(T) -> bool)
    requires
        0 <= i <= s.len(),
    ensures
        s.take(i).filter(keep).len() <= s.filter(keep).len(),
        s.filter(keep).take(s.take(i).filter(keep).len() as int) == s.take(i).filter(keep),
    decreases s.len() - i,
{
    if i == s.len() {
        assert(s.take(i) == s);
        let f = s.filter(keep);
        assert(f.take(f.len() as int) == f);
    } else {
        lemma_filter_step(s, i, keep);
        lemma_filter_prefix(s, i + 1, keep);
        let f = s.filter(keep);
        let a = s.take(i).filter(keep);
        let b = s.take(i + 1).filter(keep);
        assert(f.take(b.len() as int).take(a.len() as int) == f.take(a.len() as int));
        assert(b.take(a.len() as int) == a);
    }
}

/// What is kept was there, and is what it was kept for.
pub proof fn lemma_filter_from<T>(s: Seq<T>, keep: spec_fn(T) -> bool)
    ensures
        forall|x: T| #[trigger] s.filter(keep).contains(x) <==> s.contains(x) && keep(x),
    decreases s.len(),
{
    let f = s.filter(keep);
    assert forall|x: T| #[trigger] s.contains(x) && keep(x) implies f.contains(x) by {
        let i = choose|i: int| 0 <= i < s.len() && s[i] == x;
        s.lemma_filter_contains(keep, i);
    }
    reveal(Seq::filter);
    if s.len() > 0 {
        let rest = s.drop_last();
        lemma_filter_from(rest, keep);
        assert forall|x: T| #[trigger] f.contains(x) implies s.contains(x) && keep(x) by {
            let i = choose|i: int| 0 <= i < f.len() && f[i] == x;
            let r = rest.filter(keep);
            if i < r.len() {
                assert(r[i] == x);
                assert(r.contains(x));
                let k = choose|k: int| 0 <= k < rest.len() && rest[k] == x;
                assert(s[k] == x);
            } else {
                assert(s[s.len() - 1] == x);
            }
        }
    }
}

/// What stands in an order stays in it.
pub proof fn lemma_filter_increasing<T>(s: Seq<T>, keep: spec_fn(T) -> bool, lt: spec_fn(T, T) -> bool)
    requires
        increasing(s, lt),
    ensures
        increasing(s.filter(keep), lt),
    decreases s.len(),
{
    reveal(Seq::filter);
    if s.len() > 0 {
        let rest = s.drop_last();
        assert forall|i: int, j: int| 0 <= i < j < rest.len() implies lt(#[trigger] rest[i], #[trigger] rest[j]) by {
            assert(lt(s[i], s[j]));
        }
        lemma_filter_increasing(rest, keep, lt);
        let r = rest.filter(keep);
        let f = s.filter(keep);
        assert forall|i: int, j: int| 0 <= i < j < f.len() implies lt(#[trigger] f[i], #[trigger] f[j]) by {
            assert(f[i] == r[i]);
            if j == r.len() {
                lemma_filter_from(rest, keep);
                assert(r.contains(r[i]));
                let k = choose|k: int| 0 <= k < rest.len() && rest[k] == r[i];
                assert(lt(s[k], s[s.len() - 1]));
            } else {
                assert(f[j] == r[j]);
            }
        }
    }
}

} // verus!
