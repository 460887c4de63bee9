//! Reduction of repeated timings of a candidate to one representative
//! duration: the first run is a warm-up and is dropped, the median of the
//! others is kept.
use vstd::prelude::*;
use vstd::relations::{sorted_by, total_ordering};

verus! {

broadcast use vstd::seq_lib::group_to_multiset_ensures;

/// Ascending order of durations.
pub open spec fn ascending() -> spec_fn(u64, u64) -> bool {
    |a: u64, b: u64| a <= b
}

/// The median of `samples`: the element at position `len / 2` once they are
/// sorted in ascending order.
pub open spec fn median_of(samples: Seq<u64>) -> u64
    recommends
        samples.len() > 0,
{
    samples.sort_by(ascending())[(samples.len() / 2) as int]
}

/// The duration that a series of runs stands for: the median of every run
/// but the first.
pub open spec fn aggregate_of(runs: Seq<u64>) -> u64
    recommends
        runs.len() >= 2,
{
    median_of(runs.skip(1))
}

proof fn lemma_ascending_total()
    ensures
        total_ordering(ascending()),
{
}

/// Sorts a copy of `v` in ascending order.
fn sorted_copy(v: &Vec<u64>) -> (r: Vec<u64>)
    ensures
        r@ == v@.sort_by(ascending()),
{
    let mut r: Vec<u64> = Vec::new();
    let mut i: usize = 0;
    while i < v.len()
        invariant
            i <= v.len(),
            sorted_by(r@, ascending()),
            r@.to_multiset() == v@.take(i as int).to_multiset(),
        decreases v.len() - i,
    {
        let x = v[i];
        let mut p: usize = r.len();
        while p > 0 && r[p - 1] > x
            invariant
                p <= r.len(),
                forall|k: int| p <= k < r.len() ==> r@[k] > x,
            decreases p,
        {
            p = p - 1;
        }
        let ghost before = r@;
        r.insert(p, x);
        proof {
            assert(r@ == before.insert(p as int, x));
            assert forall|a: int, b: int| 0 <= a < b < r@.len() implies #[trigger] (
            ascending())(r@[a], r@[b]) by {
                if b < p {
                    assert((ascending())(before[a], before[b]));
                } else if b == p {
                    if a < p - 1 {
                        assert((ascending())(before[a], before[p - 1]));
                    }
                } else if a < p {
                    assert(before[b - 1] > x);
                    if a < p - 1 {
                        assert((ascending())(before[a], before[p - 1]));
                    }
                } else if a > p {
                    assert((ascending())(before[a - 1], before[b - 1]));
                }
            }
            assert(v@.take(i + 1) =~= v@.take(i as int).push(x));
        }
        i = i + 1;
    }
    proof {
        assert(v@.take(i as int) =~= v@);
        lemma_ascending_total();
        v@.lemma_sort_by_ensures(ascending());
        vstd::seq_lib::lemma_sorted_unique(r@, v@.sort_by(ascending()), ascending());
    }
    r
}

/// The median of `samples`.
pub fn median(samples: &Vec<u64>) -> (r: u64)
    requires
        samples@.len() > 0,
    ensures
        r == median_of(samples@),
{
    let sorted = sorted_copy(samples);
    proof {
        lemma_ascending_total();
        samples@.lemma_sort_by_ensures(ascending());
        assert(sorted@.to_multiset().len() == samples@.to_multiset().len());
    }
    sorted[samples.len() / 2]
}

/// The representative duration of a series of runs: the first run warms
/// caches and compiles kernels, so it is dropped and the median of the others
/// is kept.
pub fn aggregate(runs: &Vec<u64>) -> (r: u64)
    requires
        runs@.len() >= 2,
    ensures
        r == aggregate_of(runs@),
{
    let mut rest: Vec<u64> = Vec::new();
    let mut i: usize = 1;
    while i < runs.len()
        invariant
            1 <= i <= runs.len(),
            rest@ == runs@.subrange(1, i as int),
        decreases runs.len() - i,
    {
        rest.push(runs[i]);
        i = i + 1;
        proof {
            assert(rest@ =~= runs@.subrange(1, i as int));
        }
    }
    proof {
        assert(rest@ =~= runs@.skip(1));
    }
    median(&rest)
}

} // verus!
