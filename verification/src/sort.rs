//! Sorting by merging: the positions of keys in their order.

use vstd::prelude::*;
use crate::order::{increasing, lemma_push_contains, positions};

verus! {

/// Keys that stand in a strict order, no two of them alike.
pub trait Ranked {
    /// How many keys there are.
    spec fn count(&self) -> nat;

    /// Whether key `i` comes before key `j`.
    spec fn lt(&self, i: int, j: int) -> bool;

    proof fn transitive(&self, i: int, j: int, k: int)
        requires
            self.lt(i, j),
            self.lt(j, k),
        ensures
            self.lt(i, k),
    ;

    proof fn total(&self, i: int, j: int)
        ensures
            i == j || self.lt(i, j) || self.lt(j, i),
    ;

    fn before(&self, i: usize, j: usize) -> (r: bool)
        requires
            i < self.count(),
            j < self.count(),
        ensures
            r == self.lt(i as int, j as int),
    ;
}

/// The order of keys, as a relation on positions.
pub open spec fn order_of<K: Ranked>(keys: &K) -> spec_fn(int, int) -> bool {
    |i: int, j: int| keys.lt(i, j)
}

spec fn sorted_range<K: Ranked>(keys: &K, p: Seq<int>, lo: int, hi: int) -> bool {
    &&& increasing(p, order_of(keys))
    &&& forall|i: int| p.contains(i) <==> lo <= i < hi
}

fn merge<K: Ranked>(
    keys: &K,
    a: &Vec<usize>,
    b: &Vec<usize>,
    Ghost(lo): Ghost<int>,
    Ghost(mid): Ghost<int>,
    Ghost(hi): Ghost<int>,
) -> (r: Vec<usize>)
    requires
        0 <= lo <= mid <= hi <= keys.count(),
        sorted_range(keys, positions(a@), lo, mid),
        sorted_range(keys, positions(b@), mid, hi),
    ensures
        sorted_range(keys, positions(r@), lo, hi),
{
    let ghost lt = order_of(keys);
    let ghost pa = positions(a@);
    let ghost pb = positions(b@);
    let mut r: Vec<usize> = Vec::new();
    let mut i: usize = 0;
    let mut j: usize = 0;
    proof {
        assert forall|k: int| 0 <= k < pa.len() implies lo <= #[trigger] pa[k] < mid by {
            assert(pa.contains(pa[k]));
        }
        assert forall|k: int| 0 <= k < pb.len() implies mid <= #[trigger] pb[k] < hi by {
            assert(pb.contains(pb[k]));
        }
    }
    while i < a.len() || j < b.len()
        invariant
            0 <= lo <= mid <= hi <= keys.count(),
            lt == order_of(keys),
            pa == positions(a@),
            pb == positions(b@),
            i <= a@.len(),
            j <= b@.len(),
            increasing(pa, lt),
            increasing(pb, lt),
            forall|k: int| 0 <= k < pa.len() ==> lo <= #[trigger] pa[k] < mid,
            forall|k: int| 0 <= k < pb.len() ==> mid <= #[trigger] pb[k] < hi,
            increasing(positions(r@), lt),
            forall|x: int, k: int| #![trigger positions(r@)[x], pa[k]]
                0 <= x < r@.len() && i <= k < pa.len() ==> lt(positions(r@)[x], pa[k]),
            forall|x: int, k: int| #![trigger positions(r@)[x], pb[k]]
                0 <= x < r@.len() && j <= k < pb.len() ==> lt(positions(r@)[x], pb[k]),
            forall|x: int| positions(r@).contains(x) <==> (pa.take(i as int).contains(x) || pb.take(
                j as int,
            ).contains(x)),
        decreases a.len() - i + b.len() - j,
    {
        let ghost r0 = positions(r@);
        let first = if i >= a.len() {
            false
        } else if j >= b.len() {
            true
        } else {
            let x: usize = a[i];
            let y: usize = b[j];
            assert(pa[i as int] == x);
            assert(pb[j as int] == y);
            keys.before(x, y)
        };
        if first {
            let ghost i0 = i as int;
            let x: usize = a[i];
            assert(pa[i0] == x);
            r.push(x);
            i += 1;
            proof {
                assert(positions(r@) == r0.push(x as int));
                assert(pa.take(i as int) == pa.take(i0).push(x as int));
                assert forall|k: int| j <= k < pb.len() implies lt(x as int, #[trigger] pb[k]) by {
                    if k > j {
                        keys.transitive(x as int, pb[j as int], pb[k]);
                    }
                }
                assert forall|z: int| positions(r@).contains(z) <==> (pa.take(i as int).contains(z)
                    || pb.take(j as int).contains(z)) by {
                    lemma_push_contains(r0, x as int, z);
                    lemma_push_contains(pa.take(i0), x as int, z);
                }
            }
        } else {
            let ghost j0 = j as int;
            let y: usize = b[j];
            assert(pb[j0] == y);
            r.push(y);
            j += 1;
            proof {
                assert(positions(r@) == r0.push(y as int));
                assert(pb.take(j as int) == pb.take(j0).push(y as int));
                assert forall|k: int| i <= k < pa.len() implies lt(y as int, #[trigger] pa[k]) by {
                    keys.total(pa[i as int], y as int);
                    if k > i {
                        keys.transitive(y as int, pa[i as int], pa[k]);
                    }
                }
                assert forall|z: int| positions(r@).contains(z) <==> (pa.take(i as int).contains(z)
                    || pb.take(j as int).contains(z)) by {
                    lemma_push_contains(r0, y as int, z);
                    lemma_push_contains(pb.take(j0), y as int, z);
                }
            }
        }
    }
    proof {
        assert(pa.take(i as int) == pa);
        assert(pb.take(j as int) == pb);
    }
    r
}

fn sort_range<K: Ranked>(keys: &K, lo: usize, hi: usize) -> (r: Vec<usize>)
    requires
        lo <= hi <= keys.count(),
    ensures
        sorted_range(keys, positions(r@), lo as int, hi as int),
    decreases hi - lo,
{
    if hi - lo == 0 {
        Vec::new()
    } else if hi - lo == 1 {
        let mut r: Vec<usize> = Vec::new();
        r.push(lo);
        assert(positions(r@)[0] == lo);
        r
    } else {
        let mid: usize = lo + (hi - lo) / 2;
        let a = sort_range(keys, lo, mid);
        let b = sort_range(keys, mid, hi);
        merge(keys, &a, &b, Ghost(lo as int), Ghost(mid as int), Ghost(hi as int))
    }
}

/// The positions of all keys, in their order.
pub fn sort_positions<K: Ranked>(keys: &K, n: usize) -> (r: Vec<usize>)
    requires
        n == keys.count(),
    ensures
        increasing(positions(r@), order_of(keys)),
        forall|i: int| positions(r@).contains(i) <==> 0 <= i < n,
{
    sort_range(keys, 0, n)
}

} // verus!
