//! Thiel sort: one MSD pass into a scratch buffer, then LSD passes on each
//! bucket.

use crate::buckets::{
    bucket_concat, in_range, lemma_bucket_concat_len, lemma_histogram_unique, lemma_perm_in_range,
    lemma_psum_monotone, lemma_psum_total, partitioned, psum,
};
use crate::digits::{lemma_digit_bound, lemma_levels_cover};
use crate::order::{
    digit_fn, lemma_below_shares_prefix, lemma_bucket_shares_prefix, lemma_buckets_sorted,
    lemma_equal_keys_sorted, lemma_short_sorted, shared_prefix, sorted,
};
use crate::radixable::{Radixable, SortError};
use crate::sorts::american_flag_sort::{
    lemma_bucket_rearranged, lemma_perm_shares_prefix, lemma_range_rearranged, range_rearranged,
};
use crate::sorts::comparative_sort::insertion_sort;
use crate::sorts::guard::{check_input, rejection};
use crate::sorts::lsd_sort::{lemma_keys_below_wider, lsd_radixsort_body};
use crate::sorts::msd_sort::scratch_partition;
use crate::sorts::utils::{
    compute_max_level, compute_offset, get_histogram, get_mask_and_shift, prefix_sums, Params,
};
use vstd::arithmetic::power2::lemma_pow2_pos;
use vstd::prelude::*;

verus! {

/// Sorts the range `lo..hi` of the slice by the LSD passes of the levels
/// from `p.level` on.
fn lsd_bucket<T: Radixable + Copy>(arr: &mut [T], lo: usize, hi: usize, p: Params)
    requires
        lo <= hi <= old(arr)@.len(),
        p.wf(),
        p.level <= p.max_level,
        p.max_level == 0 || p.radix * (p.max_level - 1) < 128,
    ensures
        range_rearranged(old(arr)@, final(arr)@, lo as int, hi as int),
        shared_prefix(
            old(arr)@.subrange(lo as int, hi as int),
            (p.radix * (p.max_level - p.level)) as nat,
        ) ==> sorted(final(arr)@.subrange(lo as int, hi as int)),
{
    let (_left, rest) = arr.split_at_mut(lo);
    let (mid, _right) = rest.split_at_mut(hi - lo);
    let ghost mid_before = mid@;
    lsd_radixsort_body(mid, p);
    proof {
        assert(old(arr)@.subrange(lo as int, hi as int) =~= mid_before);
        assert(final(arr)@.subrange(lo as int, hi as int) =~= mid@);
    }
}

/// Thiel sort with digits of `radix` bits.
///
/// Sorts the slice by key. An input that `rejection` turns down is left as
/// it was and the reason returned.
pub fn thiel_radixsort<T: Radixable + Copy>(arr: &mut [T], radix: usize) -> (r: Result<
    (),
    SortError,
>)
    ensures
        final(arr)@.len() == old(arr)@.len(),
        match rejection(old(arr)@, radix) {
            Some(e) => r == Err::<(), SortError>(e) && final(arr)@ == old(arr)@,
            None => r.is_ok() && sorted(final(arr)@) && final(arr)@.to_multiset() == old(
                arr,
            )@.to_multiset(),
        },
{
    match check_input(arr, radix) {
        Some(e) => {
            return Err(e);
        },
        None => {},
    }
    if arr.len() <= 1 {
        return Ok(());
    }
    thiel_run(arr, radix);
    Ok(())
}

/// The sort of `thiel_radixsort`, for an input that was checked.
pub(crate) fn thiel_run<T: Radixable + Copy>(arr: &mut [T], radix: usize)
    requires
        1 <= radix <= 8,
        T::bits() <= 128,
    ensures
        final(arr)@.len() == old(arr)@.len(),
        final(arr)@.to_multiset() == old(arr)@.to_multiset(),
        sorted(final(arr)@),
{
    if arr.len() <= 64 {
        insertion_sort(arr);
        return ;
    }
    let n: usize = arr.len();
    let (offset, raw_offset) = compute_offset(arr, radix);
    let max_level: usize = compute_max_level(T::type_size(), offset, radix);
    proof {
        lemma_levels_cover((T::bits() - offset) as nat, radix as nat);
        lemma_keys_below_wider(arr@, (T::bits() - raw_offset) as nat, (T::bits() - offset) as nat);
    }
    if max_level == 0 {
        proof {
            lemma_below_shares_prefix(arr@, 0);
            lemma_equal_keys_sorted(arr@);
        }
        return ;
    }
    let p: Params = Params::new(0, radix, offset, max_level);
    let below: Params = p.new_level(1);
    proof {
        lemma_pow2_pos(radix as nat);
        let r = radix as int;
        let m = max_level as int;
        assert((m - 1) * r == r * (m - 1)) by (nonlinear_arith);
        assert(m * r == r * (m - 1) + r) by (nonlinear_arith);
        assert(r * (m - 0 - 1) == r * (m - 1)) by (nonlinear_arith);
    }
    let (mask, shift) = get_mask_and_shift(&p);
    let ghost f = digit_fn::<T>(shift as nat, radix as nat);
    let ghost top = shift as nat + radix as nat;
    let histogram: Vec<usize> = get_histogram(arr, &p, mask, shift);
    let ghost h = histogram@;
    let k: usize = p.radix_range;
    proof {
        assert forall|i: int| #![trigger arr@[i]] 0 <= i < arr@.len() implies 0 <= f(arr@[i])
            < k by {
            lemma_digit_bound(arr@[i].key() as nat, shift as nat, radix as nat);
        }
        lemma_psum_total(arr@, f, h);
        lemma_keys_below_wider(arr@, (T::bits() - offset) as nat, top);
        lemma_below_shares_prefix(arr@, top);
    }
    let (p_sums, mut heads, _tails) = prefix_sums(histogram.as_slice());
    let mut buffer: Vec<T> = vec![arr[0]; n];
    proof {
        assert forall|d: int| 0 <= d <= mask implies #[trigger] heads@[d] == bucket_concat(
            arr@,
            f,
            d as nat,
        ).len() by {
            lemma_bucket_concat_len(arr@, f, h, d as nat);
        }
        lemma_histogram_unique(h, arr@, f);
    }
    scratch_partition(arr, buffer.as_mut_slice(), &mut heads, mask, shift, radix);
    proof {
        lemma_perm_in_range(old(arr)@, arr@, f, k as int);
        lemma_perm_shares_prefix(old(arr)@, arr@, top);
    }
    let mut i: usize = 0;
    while i < k
        invariant
            i <= k,
            k == p.radix_range,
            k == h.len(),
            h == histogram@,
            n == arr@.len(),
            p_sums@.len() == k + 1,
            forall|d: int| 0 <= d <= k ==> #[trigger] p_sums@[d] == psum(h, d),
            psum(h, k as int) == n,
            below.wf(),
            below.level == 1,
            below.max_level == max_level,
            below.radix == radix,
            max_level >= 1,
            radix * (max_level - 1) < 128,
            shift == radix * (max_level - 1),
            f == digit_fn::<T>(shift as nat, radix as nat),
            top == shift as nat + radix as nat,
            arr@.to_multiset() == old(arr)@.to_multiset(),
            partitioned(arr@, f, h),
            in_range(arr@, f, k as int),
            shared_prefix(arr@, top),
            forall|d: int|
                #![trigger psum(h, d)]
                0 <= d < i ==> sorted(arr@.subrange(psum(h, d), psum(h, d + 1))),
        decreases k - i,
    {
        let ghost d = i as int;
        let ghost before = arr@;
        proof {
            lemma_psum_monotone(h, 0, d);
            lemma_psum_monotone(h, d, d + 1);
            lemma_psum_monotone(h, d + 1, k as int);
        }
        if histogram[i] > 1 {
            lsd_bucket(arr, p_sums[i], p_sums[i + 1], below);
            proof {
                lemma_range_rearranged(before, arr@, psum(h, d), psum(h, d + 1));
                lemma_bucket_rearranged(before, arr@, f, h, d);
                lemma_perm_in_range(before, arr@, f, k as int);
                lemma_perm_shares_prefix(before, arr@, top);
                lemma_bucket_shares_prefix(before, h, shift as nat, radix as nat, d);
            }
        } else {
            proof {
                lemma_short_sorted(arr@.subrange(psum(h, d), psum(h, d + 1)));
            }
        }
        proof {
            assert forall|e: int| #![trigger psum(h, e)] 0 <= e < i + 1 implies sorted(
                arr@.subrange(psum(h, e), psum(h, e + 1)),
            ) by {
                if e < d {
                    lemma_psum_monotone(h, 0, e);
                    lemma_psum_monotone(h, e, e + 1);
                    lemma_psum_monotone(h, e + 1, d);
                    assert(arr@.subrange(psum(h, e), psum(h, e + 1)) =~= before.subrange(
                        psum(h, e),
                        psum(h, e + 1),
                    ));
                }
            }
        }
        i = i + 1;
    }
    proof {
        lemma_buckets_sorted(arr@, h, shift as nat, radix as nat);
    }
}

} // verus!
