//! Counting.

use vstd::prelude::*;

verus! {

/// A count that is one more, but never more than fits.
pub open spec fn bumped(count: usize) -> usize {
    if count < usize::MAX {
        (count + 1) as usize
    } else {
        count
    }
}

pub fn bump(count: usize) -> (more: usize)
    ensures
        more == bumped(count),
{
    if count < usize::MAX {
        count + 1
    } else {
        count
    }
}

/// A count that is `by` more, but never more than fits.
pub open spec fn raised(count: usize, by: nat) -> usize {
    if count + by <= usize::MAX {
        (count + by) as usize
    } else {
        usize::MAX
    }
}

pub fn raise(count: usize, by: usize) -> (more: usize)
    ensures
        more == raised(count, by as nat),
{
    if by <= usize::MAX - count {
        count + by
    } else {
        usize::MAX
    }
}

} // verus!
