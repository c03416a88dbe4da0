//! The dispatcher: it picks a sort by the length of the slice and the
//! width of its keys.

use crate::algo::k_way_merge::k_way_merge;
use crate::algo::verge_sort_heuristic::{verge_sort_preprocessing, RunSort};
use crate::digits::lemma_levels_cover;
use crate::order::{keys_below, sorted};
use crate::radixable::{Radixable, SortError};
use crate::sorts::comparative_sort::sort_unstable_by_key;
use crate::sorts::counting_sort::counting_sort_body;
use crate::sorts::dlsd_sort::dlsd_radixsort;
use crate::sorts::guard::{check_input, rejection};
use crate::sorts::lsd_sort::lemma_keys_below_wider;
use crate::sorts::utils::{compute_max_level, compute_offset};
use vstd::prelude::*;

verus! {

/// The digit width of the sorts that take none.
pub const DEFAULT_RADIX: usize = 8;

/// Least length at which keys of two digits go to counting sort.
pub const COUNTING_MIN_LENGTH: usize = 30_000;

/// Widest key that goes to Ska sort.
pub const SKA_MAX_BITS: usize = 16;

/// Widest key that goes to LSD sort; wider ones go to MSD sort.
pub const LSD_MAX_BITS: usize = 64;

/// The sort that the dispatcher applies to the pieces of a slice of keys
/// of `bits` bits.
pub open spec fn run_sort_for(bits: nat) -> RunSort {
    if bits <= SKA_MAX_BITS {
        RunSort::Ska
    } else if bits <= LSD_MAX_BITS {
        RunSort::Lsd
    } else {
        RunSort::Msd
    }
}

/// The choice of `run_sort_for`.
pub fn choose_run_sort(bits: usize) -> (alg: RunSort)
    ensures
        alg == run_sort_for(bits as nat),
{
    if bits <= SKA_MAX_BITS {
        RunSort::Ska
    } else if bits <= LSD_MAX_BITS {
        RunSort::Lsd
    } else {
        RunSort::Msd
    }
}

/// Every key of `T` fits in the width of `T`.
pub proof fn lemma_keys_fit<T: Radixable>(s: Seq<T>)
    requires
        T::bits() < 128,
    ensures
        keys_below(s, T::bits()),
{
    assert forall|i: int| 0 <= i < s.len() implies (#[trigger] s[i]).key()
        < vstd::arithmetic::power2::pow2(T::bits()) by {
        T::key_bound(s[i]);
    }
}

/// The adaptive sort, with digits of `radix` bits: slices of at most 128
/// elements go to the comparison sort of std, keys of at most 8 bits to
/// counting sort, keys of at most two digits in long slices to counting
/// sort as well; any other slice is cut into the runs that it holds, the
/// rest is sorted by radix, and a merge joins the pieces.
///
/// Sorts the slice by key. An input that `rejection` turns down is left as
/// it was and the reason returned.
pub fn voracious_sort<T: Radixable + Copy>(arr: &mut [T], radix: usize) -> (r: Result<
    (),
    SortError,
>)
    ensures
        final(arr)@.len() == old(arr)@.len(),
        match rejection(old(arr)@, radix) {
            Some(e) => r == Err::<(), SortError>(e) && final(arr)@ == old(arr)@,
            None => r.is_ok() && sorted(final(arr)@) && final(arr)@.to_multiset() == old(
                arr,
            )@.to_multiset(),
        },
{
    match check_input(arr, radix) {
        Some(e) => {
            return Err(e);
        },
        None => {},
    }
    if arr.len() <= 1 {
        return Ok(());
    }
    voracious_run(arr, radix);
    Ok(())
}

/// The sort of `voracious_sort`, for an input that was checked.
pub(crate) fn voracious_run<T: Radixable + Copy>(arr: &mut [T], radix: usize)
    requires
        1 <= radix <= 8,
        T::bits() <= 128,
    ensures
        final(arr)@.len() == old(arr)@.len(),
        final(arr)@.to_multiset() == old(arr)@.to_multiset(),
        sorted(final(arr)@),
{
    if arr.len() <= 128 {
        sort_unstable_by_key(arr);
        return ;
    }
    let bits: usize = T::type_size();
    if bits <= 8 {
        proof {
            lemma_keys_fit(arr@);
            lemma_keys_below_wider(arr@, T::bits(), 8);
        }
        counting_sort_body(arr, 8);
        return ;
    }
    let (offset, raw_offset) = compute_offset(arr, radix);
    let max_level: usize = compute_max_level(bits, offset, radix);
    if max_level <= 2 && arr.len() >= COUNTING_MIN_LENGTH {
        proof {
            let width = (T::bits() - offset) as nat;
            lemma_levels_cover(width, radix as nat);
            let r = radix as int;
            let m = max_level as int;
            assert(m * r <= 16) by (nonlinear_arith)
                requires
                    0 <= m <= 2,
                    1 <= r <= 8,
            ;
            lemma_keys_below_wider(arr@, (T::bits() - raw_offset) as nat, 16);
        }
        counting_sort_body(arr, 16);
        return ;
    }
    let alg: RunSort = choose_run_sort(bits);
    let separators = verge_sort_preprocessing(arr, radix, alg);
    k_way_merge(arr, &separators);
}

/// The sorts as methods of a slice.
pub trait RadixSort {
    /// The adaptive sort with the default digit width.
    fn voracious_sort(&mut self) -> Result<(), SortError>;

    /// Diverting LSD sort with the default digit width.
    fn dlsd_sort(&mut self) -> Result<(), SortError>;
}

impl<T: Radixable + Copy> RadixSort for [T] {
    fn voracious_sort(&mut self) -> (r: Result<(), SortError>)
        ensures
            final(self)@.len() == old(self)@.len(),
            match rejection(old(self)@, DEFAULT_RADIX) {
                Some(e) => r == Err::<(), SortError>(e) && final(self)@ == old(self)@,
                None => r.is_ok() && sorted(final(self)@) && final(self)@.to_multiset() == old(
                    self,
                )@.to_multiset(),
            },
    {
        voracious_sort(self, DEFAULT_RADIX)
    }

    fn dlsd_sort(&mut self) -> (r: Result<(), SortError>)
        ensures
            final(self)@.len() == old(self)@.len(),
            match rejection(old(self)@, DEFAULT_RADIX) {
                Some(e) => r == Err::<(), SortError>(e) && final(self)@ == old(self)@,
                None => r.is_ok() && sorted(final(self)@) && final(self)@.to_multiset() == old(
                    self,
                )@.to_multiset(),
            },
    {
        dlsd_radixsort(self, DEFAULT_RADIX)
    }
}

} // verus!
