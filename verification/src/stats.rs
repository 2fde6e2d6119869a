//! Latencies in order: what a percentile is picked from.

use vstd::prelude::*;

verus! {

/// Whether `values` rise, or stay, from one to the next.
pub open spec fn is_sorted(values: Seq<u64>) -> bool {
    forall|i: int, j: int| 0 <= i <= j < values.len() ==> values[i] <= values[j]
}

/// `<[u64]>::sort_unstable` puts the values in rising order; none comes, none goes.
#[verifier::external_body]
fn sort(values: &mut Vec<u64>)
    ensures
        is_sorted(final(values)@),
        final(values)@.to_multiset() == old(values)@.to_multiset(),
{
    values.sort_unstable();
}

/// Latencies in rising order, at least one.
pub struct Latencies {
    pub sorted: Vec<u64>,
}

impl Latencies {
    /// The latencies rise, and there are some.
    pub open spec fn inv(&self) -> bool {
        self.sorted@.len() > 0 && is_sorted(self.sorted@)
    }

    /// Puts samples in order; nothing where there are none.
    pub fn new(samples: &[u64]) -> (latencies: Option<Self>)
        ensures
            match latencies {
                Some(l) => {
                    &&& l.inv()
                    &&& l.sorted@.to_multiset() == samples@.to_multiset()
                    &&& l.sorted@.len() == samples@.len()
                },
                None => samples@.len() == 0,
            },
    {
        if samples.len() == 0 {
            return None;
        }
        let mut sorted: Vec<u64> = Vec::new();
        let mut i: usize = 0;
        while i < samples.len()
            invariant
                i <= samples@.len(),
                sorted@ == samples@.take(i as int),
            decreases samples@.len() - i,
        {
            sorted.push(samples[i]);
            assert(sorted@ =~= samples@.take(i + 1));
            i += 1;
        }
        assert(samples@.take(samples@.len() as int) =~= samples@);
        sort(&mut sorted);
        proof {
            sorted@.to_multiset_ensures();
            samples@.to_multiset_ensures();
        }
        Some(Latencies { sorted })
    }

    /// How many there are.
    pub fn count(&self) -> (n: usize)
        ensures
            n == self.sorted@.len(),
    {
        self.sorted.len()
    }

    /// The latency at place `rank`, or the last one where there are fewer.
    pub fn at_rank(&self, rank: usize) -> (latency: u64)
        requires
            self.inv(),
        ensures
            latency == self.sorted@[vstd::math::min(rank as int, self.sorted@.len() - 1)],
    {
        let last: usize = self.sorted.len() - 1;
        self.sorted[if rank < last {
            rank
        } else {
            last
        }]
    }

    /// The highest latency.
    pub fn max(&self) -> (latency: u64)
        requires
            self.inv(),
        ensures
            latency == self.sorted@.last(),
            forall|i: int| 0 <= i < self.sorted@.len() ==> self.sorted@[i] <= latency,
    {
        self.sorted[self.sorted.len() - 1]
    }
}

/// A higher rank has no lower latency.
pub proof fn law_ranks_rise(latencies: &Latencies, low: int, high: int)
    requires
        latencies.inv(),
        0 <= low <= high,
    ensures
        ({
            let last = latencies.sorted@.len() - 1;
            latencies.sorted@[vstd::math::min(low, last)] <= latencies.sorted@[vstd::math::min(
                high,
                last,
            )]
        }),
{
}

} // verus!
