//! LSD radix sort: stable passes from the least significant digit up,
//! between the slice and a scratch buffer.

use crate::algo::k_way_merge::k_way_merge;
use crate::algo::verge_sort_heuristic::{verge_sort_preprocessing, RunSort};
use crate::buckets::{
    bucket_concat, in_range, is_histogram, lemma_bucket_concat_len, lemma_count_pos,
    lemma_perm_histogram, lemma_psum_total, ordered_by,
};
use crate::digits::{digit, lemma_digit_bound, lemma_levels_cover, lemma_pow2_monotone};
use crate::order::{
    digit_fn, keys_below, lemma_below_shares_prefix, lemma_prefix_zero_sorted, lemma_window_pass,
    lemma_window_skip, lemma_window_start, lemma_window_whole, shared_prefix, sorted, window_fn,
};
use crate::radixable::{Radixable, SortError};
use crate::sorts::american_flag_sort::lemma_perm_shares_prefix;
use crate::sorts::comparative_sort::sort_unstable_by_key;
use crate::sorts::counting_sort::counting_sort_body;
use crate::sorts::guard::{check_input, rejection};
use crate::sorts::msd_sort::copy_by_histogram;
use crate::sorts::utils::{
    at_most_one_filled, compute_max_level, compute_offset, copy_nonoverlapping,
    get_full_histograms_fast, only_one_bucket_filled, prefix_sums, shift_at, Params,
};
use vstd::arithmetic::power2::lemma_pow2_pos;
use vstd::prelude::*;

verus! {

/// Where at most one bucket holds an element, all elements fall into one
/// bucket.
pub proof fn lemma_one_bucket<T>(s: Seq<T>, f: spec_fn(T) -> int, h: Seq<usize>)
    requires
        is_histogram(h, s, f),
        in_range(s, f, h.len() as int),
        at_most_one_filled(h),
    ensures
        forall|i: int, j: int| 0 <= i < s.len() && 0 <= j < s.len() ==> f(s[i]) == f(s[j]),
{
    assert forall|i: int, j: int| 0 <= i < s.len() && 0 <= j < s.len() implies f(s[i]) == f(
        s[j],
    ) by {
        let a = f(s[i]);
        let b = f(s[j]);
        lemma_count_pos(s, f, a, i);
        lemma_count_pos(s, f, b, j);
        assert(h[a] as nat == crate::buckets::count(s, f, a));
        assert(h[b] as nat == crate::buckets::count(s, f, b));
    }
}

/// The last `passes` of the `total` histograms drive as many stable passes,
/// from the digit at bit `base` up, between the slice and the buffer; the
/// result stands in the slice, ordered by the bits that the passes covered.
/// A pass whose digit is the same in every element is skipped.
pub fn stable_passes<T: Radixable + Copy>(
    arr: &mut [T],
    buffer: &mut [T],
    histograms: &Vec<Vec<usize>>,
    p: &Params,
    base: usize,
    total: usize,
    passes: usize,
)
    requires
        p.wf(),
        old(buffer)@.len() == old(arr)@.len(),
        histograms@.len() == total,
        passes <= total,
        total == 0 || base + p.radix * (total - 1) < 128,
        forall|l: int|
            0 <= l < total ==> (#[trigger] histograms@[l])@.len() == p.radix_range
                && is_histogram(
                histograms@[l]@,
                old(arr)@,
                digit_fn::<T>(
                    shift_at(base as nat, p.radix as nat, total as nat, l),
                    p.radix as nat,
                ),
            ),
    ensures
        final(arr)@.len() == old(arr)@.len(),
        final(buffer)@.len() == old(buffer)@.len(),
        final(arr)@.to_multiset() == old(arr)@.to_multiset(),
        ordered_by(final(arr)@, window_fn::<T>(base as nat, (p.radix * passes) as nat)),
{
    let size: usize = arr.len();
    let ghost start = arr@;
    let k: usize = p.radix_range;
    let mut in_buffer: bool = false;
    let mut done: usize = 0;
    proof {
        lemma_window_start(start, base as nat);
        lemma_pow2_pos(p.radix as nat);
        assert(p.radix * done == 0) by (nonlinear_arith)
            requires
                done == 0,
        ;
    }
    while done < passes
        invariant
            done <= passes <= total,
            p.wf(),
            total == 0 || base + p.radix * (total - 1) < 128,
            k == p.radix_range,
            size == arr@.len(),
            size == buffer@.len(),
            histograms@.len() == total,
            start.len() == size,
            start.to_multiset() == old(arr)@.to_multiset(),
            forall|l: int|
                0 <= l < total ==> (#[trigger] histograms@[l])@.len() == p.radix_range
                    && is_histogram(
                    histograms@[l]@,
                    start,
                    digit_fn::<T>(
                        shift_at(base as nat, p.radix as nat, total as nat, l),
                        p.radix as nat,
                    ),
                ),
            (if in_buffer {
                buffer@
            } else {
                arr@
            }).to_multiset() == start.to_multiset(),
            ordered_by(
                if in_buffer {
                    buffer@
                } else {
                    arr@
                },
                window_fn::<T>(base as nat, (p.radix * done) as nat),
            ),
        decreases passes - done,
    {
        let level: usize = total - 1 - done;
        let ghost covered = (p.radix * done) as nat;
        let ghost cur = if in_buffer {
            buffer@
        } else {
            arr@
        };
        let ghost shift_spec = shift_at(base as nat, p.radix as nat, total as nat, level as int);
        let ghost f = digit_fn::<T>(shift_spec, p.radix as nat);
        let ghost h = histograms@[level as int]@;
        proof {
            let r = p.radix as int;
            let d = done as int;
            let t = (total - 1) as int;
            assert(0 <= r * d <= r * t) by (nonlinear_arith)
                requires
                    0 <= d <= t,
                    0 <= r,
            ;
            assert(r * (d + 1) == r * d + r) by (nonlinear_arith);
            assert(shift_spec == base + covered);
            assert(is_histogram(histograms@[level as int]@, start, f));
            lemma_perm_histogram(start, cur, f, h);
            assert forall|i: int| #![trigger cur[i]] 0 <= i < cur.len() implies 0 <= f(cur[i])
                < k by {
                lemma_digit_bound(cur[i].key() as nat, shift_spec, p.radix as nat);
            }
            vstd::seq_lib::to_multiset_len(cur);
            vstd::seq_lib::to_multiset_len(start);
            lemma_psum_total(cur, f, h);
        }
        if only_one_bucket_filled(histograms[level].as_slice()) {
            proof {
                lemma_one_bucket(cur, f, h);
                lemma_window_skip(cur, base as nat, covered, p.radix as nat);
            }
        } else {
            let mask: u64 = (p.radix_range - 1) as u64;
            let shift: usize = base + p.radix * done;
            let (_, mut heads, _) = prefix_sums(histograms[level].as_slice());
            proof {
                assert forall|d: int| 0 <= d <= mask implies #[trigger] heads@[d] == bucket_concat(
                    cur,
                    f,
                    d as nat,
                ).len() by {
                    lemma_bucket_concat_len(cur, f, h, d as nat);
                }
                lemma_window_pass(cur, base as nat, covered, p.radix as nat, k as nat);
            }
            if !in_buffer {
                copy_by_histogram(size, arr, buffer, &mut heads, mask, shift, p.radix);
            } else {
                copy_by_histogram(size, buffer, arr, &mut heads, mask, shift, p.radix);
            }
            in_buffer = !in_buffer;
        }
        done = done + 1;
    }
    if in_buffer {
        copy_nonoverlapping(buffer, arr, size);
        proof {
            assert(arr@ =~= buffer@);
        }
    }
}

/// The passes of the sort, for the levels from `p.level` on.
///
/// The slice is rearranged; it comes out sorted where its keys agree above
/// the digits of those levels, as they do where no key has a bit there.
pub fn lsd_radixsort_body<T: Radixable + Copy>(arr: &mut [T], p: Params)
    requires
        p.wf(),
        p.level <= p.max_level,
        p.max_level == 0 || p.radix * (p.max_level - 1) < 128,
    ensures
        final(arr)@.len() == old(arr)@.len(),
        final(arr)@.to_multiset() == old(arr)@.to_multiset(),
        shared_prefix(old(arr)@, (p.radix * (p.max_level - p.level)) as nat) ==> sorted(
            final(arr)@,
        ),
{
    if arr.len() <= 128 {
        sort_unstable_by_key(arr);
        return ;
    }
    let size: usize = arr.len();
    let mut buffer: Vec<T> = vec![arr[0]; size];
    let histograms: Vec<Vec<usize>> = get_full_histograms_fast(arr, &p);
    proof {
        assert forall|l: int| 0 <= l < p.max_level implies (#[trigger] histograms@[l])@.len()
            == p.radix_range && is_histogram(
            histograms@[l]@,
            arr@,
            digit_fn::<T>(shift_at(0, p.radix as nat, p.max_level as nat, l), p.radix as nat),
        ) by {
            assert(p.new_level_spec(l as usize).shift() == shift_at(
                0,
                p.radix as nat,
                p.max_level as nat,
                l,
            ));
        }
    }
    stable_passes(
        arr,
        buffer.as_mut_slice(),
        &histograms,
        &p,
        0,
        p.max_level,
        p.max_level - p.level,
    );
    proof {
        let w = (p.radix * (p.max_level - p.level)) as nat;
        if shared_prefix(old(arr)@, w) {
            lemma_perm_shares_prefix(old(arr)@, arr@, w);
            lemma_window_whole(arr@, 0, w);
            lemma_prefix_zero_sorted(arr@);
        }
    }
}

/// LSD radix sort of one run, with digits of `radix` bits.
///
/// With `heuristic`, keys that fit in one digit, and keys that fit in two
/// where the slice has at least `min_cs2` elements, are sorted by counting
/// sort. An input that `rejection` turns down is left as it was and the
/// reason returned.
pub fn lsd_radixsort_aux<T: Radixable + Copy>(
    arr: &mut [T],
    radix: usize,
    heuristic: bool,
    min_cs2: usize,
) -> (r: Result<(), SortError>)
    ensures
        final(arr)@.len() == old(arr)@.len(),
        match rejection(old(arr)@, radix) {
            Some(e) => r == Err::<(), SortError>(e) && final(arr)@ == old(arr)@,
            None => r.is_ok() && sorted(final(arr)@) && final(arr)@.to_multiset() == old(
                arr,
            )@.to_multiset(),
        },
{
    match check_input(arr, radix) {
        Some(e) => {
            return Err(e);
        },
        None => {},
    }
    if arr.len() <= 1 {
        return Ok(());
    }
    lsd_run(arr, radix, heuristic, min_cs2);
    Ok(())
}

/// LSD radix sort with digits of `radix` bits: the runs that the slice
/// already holds are kept, the rest is sorted by LSD passes, and a merge
/// joins the pieces.
///
/// Sorts the slice by key. An input that `rejection` turns down is left as
/// it was and the reason returned.
pub fn lsd_radixsort<T: Radixable + Copy>(arr: &mut [T], radix: usize) -> (r: Result<
    (),
    SortError,
>)
    ensures
        final(arr)@.len() == old(arr)@.len(),
        match rejection(old(arr)@, radix) {
            Some(e) => r == Err::<(), SortError>(e) && final(arr)@ == old(arr)@,
            None => r.is_ok() && sorted(final(arr)@) && final(arr)@.to_multiset() == old(
                arr,
            )@.to_multiset(),
        },
{
    match check_input(arr, radix) {
        Some(e) => {
            return Err(e);
        },
        None => {},
    }
    if arr.len() <= 1 {
        return Ok(());
    }
    if arr.len() <= 128 {
        sort_unstable_by_key(arr);
        return Ok(());
    }
    let separators = verge_sort_preprocessing(arr, radix, RunSort::Lsd);
    k_way_merge(arr, &separators);
    Ok(())
}

/// `lsd_radixsort` with counting sort for narrow keys: keys of one digit,
/// and keys of two digits in pieces of at least `min_cs2` elements.
///
/// Sorts the slice by key. An input that `rejection` turns down is left as
/// it was and the reason returned.
pub fn lsd_radixsort_heu<T: Radixable + Copy>(arr: &mut [T], radix: usize, min_cs2: usize) -> (r:
    Result<(), SortError>)
    ensures
        final(arr)@.len() == old(arr)@.len(),
        match rejection(old(arr)@, radix) {
            Some(e) => r == Err::<(), SortError>(e) && final(arr)@ == old(arr)@,
            None => r.is_ok() && sorted(final(arr)@) && final(arr)@.to_multiset() == old(
                arr,
            )@.to_multiset(),
        },
{
    match check_input(arr, radix) {
        Some(e) => {
            return Err(e);
        },
        None => {},
    }
    if arr.len() <= 1 {
        return Ok(());
    }
    if arr.len() <= 128 {
        sort_unstable_by_key(arr);
        return Ok(());
    }
    let separators = verge_sort_preprocessing(arr, radix, RunSort::LsdHeuristic(min_cs2));
    k_way_merge(arr, &separators);
    Ok(())
}

/// The sort of `lsd_radixsort_aux`, for an input that was checked.
pub(crate) fn lsd_run<T: Radixable + Copy>(
    arr: &mut [T],
    radix: usize,
    heuristic: bool,
    min_cs2: usize,
)
    requires
        1 <= radix <= 8,
        T::bits() <= 128,
    ensures
        final(arr)@.len() == old(arr)@.len(),
        final(arr)@.to_multiset() == old(arr)@.to_multiset(),
        sorted(final(arr)@),
{
    if arr.len() <= 128 {
        sort_unstable_by_key(arr);
        return ;
    }
    let (offset, raw_offset) = compute_offset(arr, radix);
    let max_level: usize = compute_max_level(T::type_size(), offset, radix);
    let params: Params = Params::new(0, radix, offset, max_level);
    proof {
        let width = (T::bits() - offset) as nat;
        let used = (T::bits() - raw_offset) as nat;
        lemma_levels_cover(width, radix as nat);
        let r = radix as int;
        let m = max_level as int;
        assert(r * m == m * r) by (nonlinear_arith);
        assert(r * (m - 1) == (m - 1) * r) by (nonlinear_arith);
        assert(r * (m - 0) == m * r) by (nonlinear_arith);
        lemma_keys_below_wider(arr@, used, (radix * max_level) as nat);
        lemma_below_shares_prefix(arr@, (radix * max_level) as nat);
        if max_level == 1 {
            lemma_keys_below_wider(arr@, used, 8);
        }
        if max_level == 2 {
            assert(r * 2 <= 16);
            lemma_keys_below_wider(arr@, used, 16);
        }
    }
    if heuristic {
        if max_level == 1 {
            counting_sort_body(arr, 8);
        } else if max_level == 2 && arr.len() >= min_cs2 {
            counting_sort_body(arr, 16);
        } else {
            lsd_radixsort_body(arr, params);
        }
    } else {
        lsd_radixsort_body(arr, params);
    }
}

/// Keys without bits above the lowest `w` have none above a wider range.
pub proof fn lemma_keys_below_wider<T: Radixable>(s: Seq<T>, w: nat, wider: nat)
    requires
        keys_below(s, w),
        w <= wider,
    ensures
        keys_below(s, wider),
{
    lemma_pow2_monotone(w, wider);
}

} // verus!
