use vstd::prelude::*;
use crate::bitset::strictly_increasing;

verus! {

/// The closing summary of a run.
#[derive(Clone, Copy, Debug, PartialEq, Eq, Structural)]
pub struct Summary {
    /// The largest prime found.
    pub largest: u32,
    /// How many primes were found.
    pub count: usize,
}

/// Sums a result list up: its last entry and its length. Of a strictly
/// increasing list the last entry is the largest.
///
/// An empty list has no summary.
pub fn summarize(primes: &[u32]) -> (summary: Option<Summary>)
    ensures
        summary is None <==> primes@.len() == 0,
        summary matches Some(s) ==> s.count == primes@.len() && s.largest == primes@.last(),
        summary matches Some(s) ==> strictly_increasing(primes@) ==> forall|i: int|
            0 <= i < primes@.len() ==> #[trigger] primes@[i] <= s.largest,
{
    let count = primes.len();
    if count == 0 {
        None
    } else {
        Some(Summary { largest: primes[count - 1], count })
    }
}

/// How many entries of the list to keep for an upper bound: all from that
/// count on are at or beyond the bound, and the one before is below it. Of a
/// strictly increasing list these are exactly the entries below the bound.
pub fn count_below(primes: &[u32], bound: u64) -> (count: usize)
    ensures
        count <= primes@.len(),
        forall|i: int| count <= i < primes@.len() ==> #[trigger] primes@[i] >= bound,
        count > 0 ==> primes@[count - 1] < bound,
        strictly_increasing(primes@) ==> forall|i: int|
            0 <= i < count ==> #[trigger] primes@[i] < bound,
{
    let mut count: usize = primes.len();
    while count > 0 && primes[count - 1] as u64 >= bound
        invariant
            count <= primes@.len(),
            forall|i: int| count <= i < primes@.len() ==> #[trigger] primes@[i] >= bound,
        decreases count,
    {
        count -= 1;
    }
    count
}

} // verus!
