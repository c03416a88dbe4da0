//! Ska sort: an in-place MSD radix sort that looks one level ahead, and
//! leaves short buckets to American flag sort.

use crate::buckets::{
    in_range, lemma_perm_in_range, lemma_psum_monotone, lemma_psum_total, partitioned, psum,
};
use crate::digits::{
    digit, lemma_digit_bound, lemma_digit_orders_prefix, lemma_levels_cover, prefix,
};
use crate::order::{digit_fn, shared_prefix, sorted};
use crate::radixable::{Radixable, SortError};
use crate::sorts::american_flag_sort::{
    lemma_bucket_rearranged, lemma_perm_shares_prefix, lemma_range_rearranged,
    lemma_shares_prefix_above, range_rearranged, serial_radixsort_rec, serial_swap,
};
use crate::sorts::comparative_sort::insertion_sort;
use crate::sorts::guard::{check_input, rejection};
use crate::sorts::lsd_sort::lemma_one_bucket;
use crate::sorts::msd_sort::{
    buckets_agree, lemma_bucket_range_agrees, lemma_buckets_agree, lemma_first_level_covers,
    lemma_levels, lemma_perm_buckets_agree,
};
use crate::sorts::utils::{
    compute_max_level, compute_offset, get_histogram, get_mask_and_shift_from_left,
    get_next_two_histograms, only_one_bucket_filled, prefix_sums, Params,
};
use vstd::arithmetic::power2::lemma_pow2_pos;
use vstd::prelude::*;

verus! {

/// Shortest slice that Ska sort handles itself; a shorter one goes to
/// American flag sort.
pub const SKA_MIN_LENGTH: usize = 1024;

/// Where every element has the same digit below the digit on which a slice
/// is partitioned, the elements of a bucket agree above that lower digit.
pub proof fn lemma_buckets_agree_below<T: Radixable>(s: Seq<T>, shift: nat, radix: nat)
    requires
        shift >= radix,
        shared_prefix(s, shift + radix),
        forall|i: int, j: int|
            0 <= i < s.len() && 0 <= j < s.len() ==> digit_fn::<T>((shift - radix) as nat, radix)(
                s[i],
            ) == digit_fn::<T>((shift - radix) as nat, radix)(s[j]),
    ensures
        buckets_agree(s, digit_fn::<T>(shift, radix), (shift - radix) as nat),
{
    let low = (shift - radix) as nat;
    assert forall|i: int, j: int|
        0 <= i < s.len() && 0 <= j < s.len() && digit_fn::<T>(shift, radix)(s[i]) == digit_fn::<T>(
            shift,
            radix,
        )(s[j]) implies prefix(s[i].key() as nat, low) == prefix(s[j].key() as nat, low) by {
        let a = s[i].key() as nat;
        let b = s[j].key() as nat;
        lemma_digit_orders_prefix(a, b, shift, radix);
        assert(digit_fn::<T>(low, radix)(s[i]) == digit_fn::<T>(low, radix)(s[j]));
        lemma_digit_orders_prefix(a, b, low, radix);
    }
}

/// Sorts the range `lo..hi` of the slice, one bucket of a level above
/// `p.level`, by the levels from `p.level` on.
fn sort_bucket_levels<T: Radixable + Copy>(arr: &mut [T], lo: usize, hi: usize, p: Params)
    requires
        lo <= hi <= old(arr)@.len(),
        p.covers(T::bits()),
        p.level < p.max_level,
    ensures
        range_rearranged(old(arr)@, final(arr)@, lo as int, hi as int),
        shared_prefix(
            old(arr)@.subrange(lo as int, hi as int),
            p.shift_from_left(T::bits()) + p.radix as nat,
        ) ==> sorted(final(arr)@.subrange(lo as int, hi as int)),
    decreases p.max_level - p.level, 3nat,
{
    let (_left, rest) = arr.split_at_mut(lo);
    let (mid, _right) = rest.split_at_mut(hi - lo);
    let ghost mid_before = mid@;
    ska_sort_rec(mid, p);
    proof {
        assert(old(arr)@.subrange(lo as int, hi as int) =~= mid_before);
        assert(final(arr)@.subrange(lo as int, hi as int) =~= mid@);
    }
}

/// Sorts the buckets of a slice that was partitioned on the digit of
/// `p.level`, each by the levels from `below` on.
///
/// The slice is rearranged; it comes out sorted where its keys agreed
/// above the digit, and the levels from `below` on cover the bits on which
/// the elements of a bucket may still differ (those under `floor`).
fn sort_buckets<T: Radixable + Copy>(
    arr: &mut [T],
    histogram: &Vec<usize>,
    p_sums: &Vec<usize>,
    p: Params,
    below: usize,
    Ghost(floor): Ghost<nat>,
)
    requires
        p.covers(T::bits()),
        p.level < below < p.max_level,
        histogram@.len() == p.radix_range,
        p_sums@.len() == p.radix_range + 1,
        forall|d: int| 0 <= d <= p.radix_range ==> #[trigger] p_sums@[d] == psum(histogram@, d),
        psum(histogram@, p.radix_range as int) == old(arr)@.len(),
        partitioned(
            old(arr)@,
            digit_fn::<T>(p.shift_from_left(T::bits()), p.radix as nat),
            histogram@,
        ),
        in_range(
            old(arr)@,
            digit_fn::<T>(p.shift_from_left(T::bits()), p.radix as nat),
            p.radix_range as int,
        ),
        floor <= p.new_level_spec(below).shift_from_left(T::bits()) + p.radix,
    ensures
        final(arr)@.len() == old(arr)@.len(),
        final(arr)@.to_multiset() == old(arr)@.to_multiset(),
        shared_prefix(old(arr)@, p.shift_from_left(T::bits()) + p.radix as nat) && buckets_agree(
            old(arr)@,
            digit_fn::<T>(p.shift_from_left(T::bits()), p.radix as nat),
            floor,
        ) ==> sorted(final(arr)@),
    decreases p.max_level - p.level, 1nat,
{
    let ghost shift = p.shift_from_left(T::bits());
    let ghost f = digit_fn::<T>(shift, p.radix as nat);
    let ghost top = shift + p.radix as nat;
    let ghost h = histogram@;
    let ghost good = shared_prefix(old(arr)@, top) && buckets_agree(old(arr)@, f, floor);
    let k: usize = p.radix_range;
    let n: usize = arr.len();
    let next: Params = p.new_level(below);
    let ghost top_below = next.shift_from_left(T::bits()) + p.radix as nat;
    let mut i: usize = 0;
    while i < k
        invariant
            i <= k,
            k == p.radix_range,
            k == h.len(),
            h == histogram@,
            n == arr@.len(),
            p_sums@.len() == k + 1,
            forall|d: int| 0 <= d <= k ==> #[trigger] p_sums@[d] == psum(h, d),
            psum(h, k as int) == n,
            next.covers(T::bits()),
            next.level == below,
            next.level < next.max_level,
            next.max_level == p.max_level,
            p.level < below,
            next.radix == p.radix,
            f == digit_fn::<T>(shift, p.radix as nat),
            top == shift + p.radix as nat,
            top_below == next.shift_from_left(T::bits()) + p.radix as nat,
            floor <= top_below,
            arr@.to_multiset() == old(arr)@.to_multiset(),
            partitioned(arr@, f, h),
            in_range(arr@, f, k as int),
            good ==> shared_prefix(arr@, top) && buckets_agree(arr@, f, floor),
            good ==> forall|d: int|
                #![trigger psum(h, d)]
                0 <= d < i ==> sorted(arr@.subrange(psum(h, d), psum(h, d + 1))),
        decreases k - i,
    {
        let ghost d = i as int;
        let ghost before = arr@;
        proof {
            lemma_psum_monotone(h, 0, d);
            lemma_psum_monotone(h, d, d + 1);
            lemma_psum_monotone(h, d + 1, k as int);
        }
        if histogram[i] > 1 {
            sort_bucket_levels(arr, p_sums[i], p_sums[i + 1], next);
            proof {
                lemma_range_rearranged(before, arr@, psum(h, d), psum(h, d + 1));
                lemma_bucket_rearranged(before, arr@, f, h, d);
                crate::buckets::lemma_perm_in_range(before, arr@, f, k as int);
                if good {
                    lemma_perm_shares_prefix(before, arr@, top);
                    lemma_perm_buckets_agree(before, arr@, f, floor);
                    lemma_bucket_range_agrees(before, f, h, floor, d);
                    lemma_shares_prefix_above(
                        before.subrange(psum(h, d), psum(h, d + 1)),
                        floor,
                        top_below,
                    );
                }
            }
        } else {
            proof {
                crate::order::lemma_short_sorted(arr@.subrange(psum(h, d), psum(h, d + 1)));
            }
        }
        proof {
            if good {
                assert forall|e: int| #![trigger psum(h, e)] 0 <= e < i + 1 implies sorted(
                    arr@.subrange(psum(h, e), psum(h, e + 1)),
                ) by {
                    if e < d {
                        lemma_psum_monotone(h, 0, e);
                        lemma_psum_monotone(h, e, e + 1);
                        lemma_psum_monotone(h, e + 1, d);
                        assert(arr@.subrange(psum(h, e), psum(h, e + 1)) =~= before.subrange(
                            psum(h, e),
                            psum(h, e + 1),
                        ));
                    }
                }
            }
        }
        i = i + 1;
    }
    proof {
        if good {
            crate::order::lemma_buckets_sorted(arr@, h, shift, p.radix as nat);
        }
    }
}

/// One level of the sort and, bucket by bucket, the levels below it.
///
/// The slice is rearranged; it comes out sorted where its keys agree above
/// the digit of `p.level`.
pub fn ska_sort_rec<T: Radixable + Copy>(arr: &mut [T], p: Params)
    requires
        p.covers(T::bits()),
        p.level < p.max_level,
    ensures
        final(arr)@.len() == old(arr)@.len(),
        final(arr)@.to_multiset() == old(arr)@.to_multiset(),
        shared_prefix(old(arr)@, p.shift_from_left(T::bits()) + p.radix as nat) ==> sorted(
            final(arr)@,
        ),
    decreases p.max_level - p.level, 2nat,
{
    if arr.len() <= 64 {
        insertion_sort(arr);
        return ;
    }
    if arr.len() < SKA_MIN_LENGTH {
        serial_radixsort_rec(arr, p);
        return ;
    }
    proof {
        lemma_levels::<T>(p);
        lemma_pow2_pos(p.radix as nat);
    }
    let (mask, shift) = get_mask_and_shift_from_left::<T>(&p);
    let ghost f = digit_fn::<T>(shift as nat, p.radix as nat);
    let ghost top = shift as nat + p.radix as nat;
    let k: usize = p.radix_range;
    let look_ahead: bool = shift >= p.radix;
    let mut same_below: bool = false;
    let histogram: Vec<usize> = if look_ahead {
        let mut both: Vec<Vec<usize>> = get_next_two_histograms(arr, &p);
        let second: Vec<usize> = both.pop().unwrap();
        let first: Vec<usize> = both.pop().unwrap();
        same_below = only_one_bucket_filled(second.as_slice());
        proof {
            if same_below {
                let g = digit_fn::<T>((shift - p.radix) as nat, p.radix as nat);
                assert forall|i: int| #![trigger arr@[i]] 0 <= i < arr@.len() implies 0 <= g(
                    arr@[i],
                ) < k by {
                    lemma_digit_bound(
                        arr@[i].key() as nat,
                        (shift - p.radix) as nat,
                        p.radix as nat,
                    );
                }
                lemma_one_bucket(arr@, g, second@);
            }
        }
        first
    } else {
        get_histogram(arr, &p, mask, shift)
    };
    let ghost h = histogram@;
    let ghost low = if look_ahead {
        (shift - p.radix) as nat
    } else {
        0nat
    };
    let ghost same = same_below && forall|i: int, j: int|
        0 <= i < old(arr)@.len() && 0 <= j < old(arr)@.len() ==> digit_fn::<T>(low, p.radix as nat)(
            old(arr)@[i],
        ) == digit_fn::<T>(low, p.radix as nat)(old(arr)@[j]);
    proof {
        assert(same_below ==> same);
        assert forall|i: int| #![trigger arr@[i]] 0 <= i < arr@.len() implies 0 <= f(arr@[i])
            < k by {
            lemma_digit_bound(arr@[i].key() as nat, shift as nat, p.radix as nat);
        }
        lemma_psum_total(arr@, f, h);
    }
    let (p_sums, mut heads, tails) = prefix_sums(histogram.as_slice());
    serial_swap(arr, &mut heads, tails.as_slice(), &p, mask, shift, Ghost(h));
    let ghost good = shared_prefix(old(arr)@, top);
    proof {
        lemma_perm_in_range(old(arr)@, arr@, f, k as int);
        if good {
            lemma_perm_shares_prefix(old(arr)@, arr@, top);
            lemma_buckets_agree(arr@, shift as nat, p.radix as nat);
            if same_below {
                lemma_buckets_agree_below(old(arr)@, shift as nat, p.radix as nat);
                lemma_perm_buckets_agree(
                    old(arr)@,
                    arr@,
                    f,
                    (shift - p.radix) as nat,
                );
            }
        }
    }
    if p.level < p.max_level - 1 {
        if same_below && p.level + 2 < p.max_level {
            proof {
                lemma_levels::<T>(p.new_level_spec((p.level + 1) as usize));
            }
            sort_buckets(
                arr,
                &histogram,
                &p_sums,
                p,
                p.level + 2,
                Ghost((shift - p.radix) as nat),
            );
        } else if same_below {
            proof {
                // the level below is the last one, and no element differs
                // from another there: every bucket holds equal keys
                lemma_levels::<T>(p.new_level_spec((p.level + 1) as usize));
                if good {
                    lemma_equal_buckets_sorted(arr@, h, shift as nat, p.radix as nat);
                }
            }
        } else {
            sort_buckets(arr, &histogram, &p_sums, p, p.level + 1, Ghost(shift as nat));
        }
    } else {
        proof {
            if good {
                crate::order::lemma_last_digit_sorted(arr@, h, p.radix as nat);
            }
        }
    }
}

/// A partitioned slice whose keys agree above the digit, and agree within
/// each bucket on every bit, is sorted.
pub proof fn lemma_equal_buckets_sorted<T: Radixable>(
    s: Seq<T>,
    h: Seq<usize>,
    shift: nat,
    radix: nat,
)
    requires
        partitioned(s, digit_fn::<T>(shift, radix), h),
        in_range(s, digit_fn::<T>(shift, radix), h.len() as int),
        psum(h, h.len() as int) == s.len(),
        shared_prefix(s, shift + radix),
        buckets_agree(s, digit_fn::<T>(shift, radix), 0),
    ensures
        sorted(s),
{
    let f = digit_fn::<T>(shift, radix);
    assert forall|d: int| #![trigger psum(h, d)] 0 <= d < h.len() implies sorted(
        s.subrange(psum(h, d), psum(h, d + 1)),
    ) by {
        lemma_psum_monotone(h, 0, d);
        lemma_psum_monotone(h, d, d + 1);
        lemma_psum_monotone(h, d + 1, h.len() as int);
        lemma_bucket_range_agrees(s, f, h, 0, d);
        crate::order::lemma_equal_keys_sorted(s.subrange(psum(h, d), psum(h, d + 1)));
    }
    crate::order::lemma_buckets_sorted(s, h, shift, radix);
}

/// Ska sort with digits of `radix` bits.
///
/// Sorts the slice by key, in place. An input that `rejection` turns down
/// is left as it was and the reason returned.
pub fn ska_sort<T: Radixable + Copy>(arr: &mut [T], radix: usize) -> (r: Result<(), SortError>)
    ensures
        final(arr)@.len() == old(arr)@.len(),
        match rejection(old(arr)@, radix) {
            Some(e) => r == Err::<(), SortError>(e) && final(arr)@ == old(arr)@,
            None => r.is_ok() && sorted(final(arr)@) && final(arr)@.to_multiset() == old(
                arr,
            )@.to_multiset(),
        },
{
    match check_input(arr, radix) {
        Some(e) => {
            return Err(e);
        },
        None => {},
    }
    if arr.len() <= 1 {
        return Ok(());
    }
    ska_run(arr, radix);
    Ok(())
}

/// The sort of `ska_sort`, for an input that was checked.
pub(crate) fn ska_run<T: Radixable + Copy>(arr: &mut [T], radix: usize)
    requires
        1 <= radix <= 8,
        T::bits() <= 128,
    ensures
        final(arr)@.len() == old(arr)@.len(),
        final(arr)@.to_multiset() == old(arr)@.to_multiset(),
        sorted(final(arr)@),
{
    if arr.len() <= 64 {
        insertion_sort(arr);
        return ;
    }
    let (_, raw_offset) = compute_offset(arr, radix);
    let max_level: usize = compute_max_level(T::type_size(), raw_offset, radix);
    if max_level == 0 {
        proof {
            lemma_levels_cover((T::bits() - raw_offset) as nat, radix as nat);
            crate::order::lemma_below_shares_prefix(arr@, 0);
            crate::order::lemma_equal_keys_sorted(arr@);
        }
        return ;
    }
    let params = Params::new(0, radix, raw_offset, max_level);
    proof {
        lemma_first_level_covers(arr@, params);
    }
    ska_sort_rec(arr, params);
}

} // verus!
