//! The comparison sorts that the radix sorts fall back on for short slices.

use crate::order::sorted;
use crate::radixable::Radixable;
use vstd::prelude::*;
use vstd::seq_lib::{to_multiset_contains, to_multiset_update};

verus! {

/// Exchanging two elements rearranges a sequence and loses nothing.
pub proof fn lemma_swap_multiset<T>(s: Seq<T>, i: int, j: int)
    requires
        0 <= i < s.len(),
        0 <= j < s.len(),
    ensures
        s.update(i, s[j]).update(j, s[i]).to_multiset() == s.to_multiset(),
{
    broadcast use vstd::multiset::group_multiset_axioms;

    to_multiset_update(s, i, s[j]);
    to_multiset_update(s.update(i, s[j]), j, s[i]);
    to_multiset_contains(s, s[i]);
    to_multiset_contains(s, s[j]);
    assert(s.update(i, s[j]).update(j, s[i]).to_multiset() =~= s.to_multiset());
}

/// Exchanges the elements at `i` and `j`.
pub fn swap<T: Copy>(arr: &mut [T], i: usize, j: usize)
    requires
        i < old(arr)@.len(),
        j < old(arr)@.len(),
    ensures
        final(arr)@ == old(arr)@.update(i as int, old(arr)@[j as int]).update(
            j as int,
            old(arr)@[i as int],
        ),
        final(arr)@.to_multiset() == old(arr)@.to_multiset(),
{
    proof {
        lemma_swap_multiset(arr@, i as int, j as int);
    }
    let a: T = arr[i];
    let b: T = arr[j];
    arr[i] = b;
    arr[j] = a;
}

/// Insertion sort, in place: the base case of the recursive sorts.
pub fn insertion_sort<T: Radixable + Copy>(arr: &mut [T])
    ensures
        sorted(final(arr)@),
        final(arr)@.len() == old(arr)@.len(),
        final(arr)@.to_multiset() == old(arr)@.to_multiset(),
{
    let n: usize = arr.len();
    let mut i: usize = 1;
    while i < n
        invariant
            arr@.len() == n,
            1 <= i,
            arr@.to_multiset() == old(arr)@.to_multiset(),
            forall|a: int, b: int| 0 <= a <= b < i && b < n ==> arr@[a].key() <= arr@[b].key(),
        decreases n - i,
    {
        let mut j: usize = i;
        while j > 0 && arr[j - 1].into_key() > arr[j].into_key()
            invariant
                arr@.len() == n,
                j <= i < n,
                arr@.to_multiset() == old(arr)@.to_multiset(),
                forall|a: int, b: int|
                    0 <= a <= b <= i && a != j && b != j ==> arr@[a].key() <= arr@[b].key(),
                forall|b: int| j < b <= i ==> arr@[j as int].key() <= arr@[b].key(),
            decreases j,
        {
            swap(arr, j, j - 1);
            j = j - 1;
        }
        i = i + 1;
    }
}

/// `<[T]>::sort_unstable_by_key` of std, with the element's key as the key:
/// it leaves the slice in ascending order of the keys, holding the elements
/// that it held.
#[verifier::external_body]
pub(crate) fn sort_unstable_by_key<T: Radixable + Copy>(arr: &mut [T])
    ensures
        sorted(final(arr)@),
        final(arr)@.len() == old(arr)@.len(),
        final(arr)@.to_multiset() == old(arr)@.to_multiset(),
{
    arr.sort_unstable_by_key(|x| x.into_key());
}

} // verus!
