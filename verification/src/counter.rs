//! Counting the solutions of a puzzle, saturating at a caller-chosen cap.

use vstd::prelude::*;

use crate::solver::SolutionIterator;

verus! {

/// Number of solutions left in a sequence, up to some value.
#[derive(Copy, Clone, Debug, PartialEq, Eq, Structural)]
pub enum CounterUpTo {
    /// The length of the sequence is exactly the value.
    Exactly(usize),
    /// The length of the sequence is strictly more than the value.
    MoreThan(usize),
}

/// Count how many solutions the iterator still yields, pulling at most one
/// solution past `up_to`.  The reported number is exactly how many boards
/// were appended to the iterator's yield history, and an exact count is
/// only ever reported once the sequence is exhausted; on a run that was
/// never cancelled, an exact count is therefore the number of solutions
/// the iterator still had to offer.
pub fn count_saturated(it: &mut SolutionIterator, up_to: usize) -> (r: CounterUpTo)
    ensures
        final(it).origin() == old(it).origin(),
        old(it).cancelled() ==> final(it).cancelled(),
        old(it).exhaustive() ==> final(it).exhaustive() || final(it).cancelled(),
        match r {
            CounterUpTo::Exactly(n) => n <= up_to && final(it).is_exhausted()
                && final(it).history().len() == old(it).history().len() + n,
            CounterUpTo::MoreThan(n) => n == up_to
                && final(it).history().len() == old(it).history().len() + n + 1,
        },
{
    let mut count: usize = 0;
    while count < up_to
        invariant
            count <= up_to,
            it.origin() == old(it).origin(),
            it.history().len() == old(it).history().len() + count,
            old(it).cancelled() ==> it.cancelled(),
            old(it).exhaustive() ==> it.exhaustive() || it.cancelled(),
        decreases up_to - count,
    {
        if it.next().is_none() {
            return CounterUpTo::Exactly(count);
        }
        count = count + 1;
    }
    if it.next().is_some() {
        CounterUpTo::MoreThan(up_to)
    } else {
        CounterUpTo::Exactly(count)
    }
}

} // verus!
