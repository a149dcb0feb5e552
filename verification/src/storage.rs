//! The room that vectors have.

use vstd::prelude::*;

verus! {

/// How many values the vector holds without growing.
///
/// Calls `Vec::capacity`, which is at least the length of the vector.
#[verifier::external_body]
pub(crate) fn capacity_of<T>(values: &Vec<T>) -> (capacity: usize)
    ensures
        capacity >= values@.len(),
{
    values.capacity()
}

/// Makes room for so many more values and no more than these, and tells whether
/// there is any.
///
/// Calls `Vec::try_reserve_exact`, which leaves the values as they are and fails
/// where the vector could not count them. Whether there is memory for them is up
/// to the machine.
#[verifier::external_body]
pub(crate) fn reserve_exact<T>(values: &mut Vec<T>, additional: usize) -> (reserved: bool)
    ensures
        final(values)@ == old(values)@,
        old(values)@.len() + additional > usize::MAX ==> !reserved,
{
    values.try_reserve_exact(additional).is_ok()
}

} // verus!
