//! What holds of every sort of this library, whatever the algorithm and
//! the element type: each sort promises in its contract that its result
//! is sorted and holds the elements of its input; the rest follows.

use crate::order::{lemma_sorted_is_unique, sorted};
use crate::radixable::Radixable;
use vstd::prelude::*;
use vstd::seq_lib::{to_multiset_contains, to_multiset_len};

verus! {

/// `y` is what a sort makes of `x`: the elements of `x`, in ascending
/// order of their keys.
pub open spec fn is_sort_of<T: Radixable>(x: Seq<T>, y: Seq<T>) -> bool {
    sorted(y) && y.to_multiset() == x.to_multiset()
}

/// A sort keeps the length of its input.
pub proof fn law_length<T: Radixable>(x: Seq<T>, y: Seq<T>)
    requires
        is_sort_of(x, y),
    ensures
        y.len() == x.len(),
{
    to_multiset_len(x);
    to_multiset_len(y);
}

/// A sort leaves an empty slice and a slice of one element as they are.
pub proof fn law_short_unchanged<T: Radixable>(x: Seq<T>, y: Seq<T>)
    requires
        x.len() <= 1,
        is_sort_of(x, y),
    ensures
        y == x,
{
    to_multiset_len(x);
    to_multiset_len(y);
    if x.len() == 1 {
        assert(y.contains(y[0]));
        to_multiset_contains(y, y[0]);
        to_multiset_contains(x, y[0]);
    }
    assert(y =~= x);
}

/// All sorts agree: there is one sorted arrangement of given elements, so
/// any two sorts of one input give the same result, and each gives what a
/// comparison sort by the keys gives.
pub proof fn law_one_result<T: Radixable>(x: Seq<T>, a: Seq<T>, b: Seq<T>)
    requires
        T::bits() <= 128,
        is_sort_of(x, a),
        is_sort_of(x, b),
    ensures
        a == b,
{
    lemma_sorted_is_unique(a, b);
}

/// Sorting is idempotent: the sort of a sorted result is that result.
pub proof fn law_idempotent<T: Radixable>(x: Seq<T>, once: Seq<T>, twice: Seq<T>)
    requires
        T::bits() <= 128,
        is_sort_of(x, once),
        is_sort_of(once, twice),
    ensures
        twice == once,
{
    lemma_sorted_is_unique(once, twice);
}

/// A sorted slice is its own sort.
pub proof fn law_sorted_fixed<T: Radixable>(x: Seq<T>, y: Seq<T>)
    requires
        T::bits() <= 128,
        sorted(x),
        is_sort_of(x, y),
    ensures
        y == x,
{
    lemma_sorted_is_unique(x, y);
}

} // verus!
