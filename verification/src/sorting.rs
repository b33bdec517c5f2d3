//! Sorting scores.

use vstd::prelude::*;
use vstd::relations::*;
use vstd::seq_lib::*;

verus! {

/// The order of integers.
pub open spec fn ascending() -> spec_fn(i64, i64) -> bool {
    |a: i64, b: i64| a <= b
}

/// The scores in ascending order.
pub fn sort_scores(v: &Vec<i64>) -> (r: Vec<i64>)
    ensures
        r@ == v@.sort_by(ascending()),
        r@.len() == v@.len(),
{
    let mut r: Vec<i64> = Vec::new();
    let mut i: usize = 0;
    assert(v@.take(0) =~= r@);
    while i < v.len()
        invariant
            i <= v@.len(),
            r@.len() == i,
            r@.to_multiset() == v@.take(i as int).to_multiset(),
            forall|a: int, b: int| 0 <= a < b < r@.len() ==> r@[a] <= r@[b],
        decreases v@.len() - i,
    {
        let x: i64 = v[i];
        let mut at: usize = 0;
        while at < r.len() && r[at] <= x
            invariant
                at <= r@.len(),
                forall|a: int| 0 <= a < at ==> r@[a] <= x,
            decreases r@.len() - at,
        {
            at += 1;
        }
        let ghost before = r@;
        r.insert(at, x);
        proof {
            to_multiset_insert(before, at as int, x);
            v@.take(i as int).to_multiset_ensures();
            assert(v@.take(i + 1) =~= v@.take(i as int).push(x));
            assert forall|a: int, b: int| 0 <= a < b < r@.len() implies r@[a] <= r@[b] by {
                if b < at {
                    assert(r@[a] == before[a] && r@[b] == before[b]);
                } else if b == at {
                    assert(r@[a] == before[a]);
                } else if a < at {
                    assert(r@[a] == before[a]);
                    assert(r@[b] == before[b - 1]);
                } else if a == at {
                    assert(r@[b] == before[b - 1]);
                    assert(before[at as int] > x);
                    if b - 1 > at {
                        assert(before[at as int] <= before[b - 1]);
                    }
                } else {
                    assert(r@[a] == before[a - 1] && r@[b] == before[b - 1]);
                }
            }
        }
        i += 1;
    }
    proof {
        assert(v@.take(i as int) =~= v@);
        let leq = ascending();
        assert(total_ordering(leq));
        v@.lemma_sort_by_ensures(leq);
        assert(sorted_by(r@, leq));
        lemma_sorted_unique(r@, v@.sort_by(leq), leq);
    }
    r
}

} // verus!
