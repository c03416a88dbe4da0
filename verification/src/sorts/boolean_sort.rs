//! The sort of booleans: the `false`s are counted and written first.

use crate::order::sorted;

use crate::sorts::counting_sort::counting_sort_body;
use vstd::arithmetic::power2::lemma2_to64;
use vstd::prelude::*;

verus! {

/// Sorts a slice of booleans, `false` before `true`.
pub fn boolean_sort(arr: &mut [bool])
    ensures
        final(arr)@.len() == old(arr)@.len(),
        final(arr)@.to_multiset() == old(arr)@.to_multiset(),
        sorted(final(arr)@),
        forall|i: int, j: int| 0 <= i < j < final(arr)@.len() && final(arr)@[i] ==> final(arr)@[j],
{
    proof {
        lemma2_to64();
    }
    counting_sort_body(arr, 1);
}

} // verus!
