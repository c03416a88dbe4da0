//! American flag sort: an in-place, unstable radix sort from the most
//! significant digit down.

use crate::buckets::{
    bucket_fn, histogram_of, in_range, is_histogram, lemma_bucket_unique, lemma_count_room,
    lemma_histogram_of, lemma_histogram_unique, lemma_partition_complete, lemma_partitioned_bucket,
    lemma_perm_all, lemma_perm_histogram, lemma_perm_in_range, lemma_psum_monotone,
    lemma_psum_total, lemma_same_buckets_histogram, lemma_same_buckets_partitioned, partitioned,
    psum, Bucketer,
};
use crate::digits::{digit, lemma_digit_bound, lemma_levels_cover, lemma_prefix_mono, prefix};
use crate::order::{
    digit_fn, lemma_below_shares_prefix, lemma_bucket_shares_prefix, lemma_buckets_sorted,
    lemma_last_digit_sorted, lemma_short_sorted, shared_prefix, sorted,
};
use crate::radixable::{Radixable, SortError};
use crate::sorts::comparative_sort::{insertion_sort, swap};
use crate::sorts::guard::{check_input, rejection};
use crate::sorts::utils::{
    compute_max_level, compute_offset, extract, get_histogram, get_mask_and_shift_from_left,
    prefix_sums, Params,
};
use vstd::arithmetic::power2::{lemma_pow2_pos, pow2};
use vstd::prelude::*;
use vstd::seq_lib::lemma_multiset_commutative;

verus! {

/// How far the cursors have moved from the starts of their buckets, over
/// the first `k` buckets.
pub open spec fn progress(heads: Seq<usize>, h: Seq<usize>, k: int) -> int
    decreases k,
{
    if k <= 0 {
        0
    } else {
        progress(heads, h, k - 1) + (heads[k - 1] - psum(h, k - 1))
    }
}

proof fn lemma_progress_bound(heads: Seq<usize>, h: Seq<usize>, k: int)
    requires
        0 <= k <= heads.len(),
        forall|d: int| 0 <= d < k ==> psum(h, d) <= #[trigger] heads[d] <= psum(h, d + 1),
    ensures
        0 <= progress(heads, h, k) <= psum(h, k),
    decreases k,
{
    if k > 0 {
        lemma_progress_bound(heads, h, k - 1);
    }
}

proof fn lemma_progress_step(heads: Seq<usize>, h: Seq<usize>, k: int, b: int)
    requires
        0 <= k <= heads.len(),
        0 <= b < heads.len(),
        heads[b] < usize::MAX,
    ensures
        progress(heads.update(b, (heads[b] + 1) as usize), h, k) == progress(heads, h, k) + if b
            < k {
            1int
        } else {
            0int
        },
    decreases k,
{
    if k > 0 {
        lemma_progress_step(heads, h, k - 1, b);
    }
}

/// The distribution pass in place: each element is moved into the range
/// of its bucket by exchanges, bucket after bucket; the last bucket then
/// holds what is left, which is its own. The cursors `heads` must stand at
/// the starts of the buckets, and `tails` hold their ends.
pub fn partition_in_place<T: Copy, B: Bucketer<T>>(
    arr: &mut [T],
    heads: &mut Vec<usize>,
    tails: &[usize],
    by: &B,
)
    requires
        by.wf(),
        by.buckets() >= 1,
        old(heads)@.len() == by.buckets(),
        tails@.len() == by.buckets(),
        forall|d: int|
            0 <= d < by.buckets() ==> #[trigger] old(heads)@[d] == psum(
                histogram_of(old(arr)@, bucket_fn::<T, B>(*by), by.buckets() as nat),
                d,
            ),
        forall|d: int|
            0 <= d < by.buckets() ==> #[trigger] tails@[d] == psum(
                histogram_of(old(arr)@, bucket_fn::<T, B>(*by), by.buckets() as nat),
                d + 1,
            ),
    ensures
        final(arr)@.len() == old(arr)@.len(),
        final(arr)@.to_multiset() == old(arr)@.to_multiset(),
        partitioned(
            final(arr)@,
            bucket_fn::<T, B>(*by),
            histogram_of(old(arr)@, bucket_fn::<T, B>(*by), by.buckets() as nat),
        ),
        final(heads)@.len() == old(heads)@.len(),
        forall|d: int| 0 <= d < by.buckets() - 1 ==> #[trigger] final(heads)@[d] == tails@[d],
{
    let ghost f = bucket_fn::<T, B>(*by);
    let k: usize = heads.len();
    let n: usize = arr.len();
    let ghost h = histogram_of(arr@, f, k as nat);
    proof {
        lemma_histogram_of(arr@, f, k as nat);
        assert forall|i: int| #![trigger arr@[i]] 0 <= i < arr@.len() implies 0 <= f(arr@[i])
            < k by {
            by.lemma_in_range(arr@[i]);
        }
        lemma_psum_total(arr@, f, h);
        assert forall|d: int| 0 <= d < k implies psum(h, d) <= #[trigger] heads@[d] <= psum(
            h,
            d + 1,
        ) by {
            lemma_psum_monotone(h, d, d + 1);
        }
    }
    let mut i: usize = 0;
    while i < k - 1
        invariant
            i <= k - 1,
            k == by.buckets(),
            k >= 1,
            by.wf(),
            f == bucket_fn::<T, B>(*by),
            h.len() == k,
            n == arr@.len(),
            arr@.to_multiset() == old(arr)@.to_multiset(),
            is_histogram(h, arr@, f),
            in_range(arr@, f, k as int),
            psum(h, k as int) == n,
            heads@.len() == k,
            tails@.len() == k,
            forall|d: int| 0 <= d < k ==> #[trigger] tails@[d] == psum(h, d + 1),
            forall|d: int| 0 <= d < k ==> psum(h, d) <= #[trigger] heads@[d] <= psum(h, d + 1),
            forall|d: int, j: int|
                #![trigger psum(h, d), arr@[j]]
                0 <= d < k && psum(h, d) <= j < heads@[d] ==> f(arr@[j]) == d,
            forall|d: int| 0 <= d < i ==> #[trigger] heads@[d] == psum(h, d + 1),
        decreases k - 1 - i,
    {
        while heads[i] < tails[i]
            invariant
                i < k - 1,
                k == by.buckets(),
                by.wf(),
                f == bucket_fn::<T, B>(*by),
                h.len() == k,
                n == arr@.len(),
                arr@.to_multiset() == old(arr)@.to_multiset(),
                is_histogram(h, arr@, f),
                in_range(arr@, f, k as int),
                psum(h, k as int) == n,
                heads@.len() == k,
                tails@.len() == k,
                forall|d: int| 0 <= d < k ==> #[trigger] tails@[d] == psum(h, d + 1),
                forall|d: int|
                    0 <= d < k ==> psum(h, d) <= #[trigger] heads@[d] <= psum(h, d + 1),
                forall|d: int, j: int|
                    #![trigger psum(h, d), arr@[j]]
                    0 <= d < k && psum(h, d) <= j < heads@[d] ==> f(arr@[j]) == d,
                forall|d: int| 0 <= d < i ==> #[trigger] heads@[d] == psum(h, d + 1),
            decreases n - progress(heads@, h, k as int),
        {
            let at: usize = heads[i];
            proof {
                lemma_psum_monotone(h, i + 1, k as int);
                lemma_progress_bound(heads@, h, k as int);
            }
            let bucket: usize = by.bucket(&arr[at]);
            let ghost b = bucket as int;
            proof {
                assert(b == f(arr@[at as int]));
                assert(0 <= b < k);
            }
            let ghost heads_start = heads@;
            if bucket == i {
                proof {
                    lemma_progress_step(heads@, h, k as int, b);
                }
                heads[i] = at + 1;
                proof {
                    assert(heads@ =~= heads_start.update(b, (heads_start[b] + 1) as usize));
                }
            } else {
                let to: usize = heads[bucket];
                proof {
                    lemma_psum_monotone(h, b + 1, k as int);
                    lemma_psum_monotone(h, 0, b);
                    lemma_psum_monotone(h, b, b + 1);
                    if to == psum(h, b + 1) {
                        assert forall|j: int|
                            #![trigger arr@[j]]
                            psum(h, b) <= j < psum(h, b + 1) implies f(arr@[j]) == b by {
                            assert(psum(h, b) <= j < heads@[b]);
                        }
                        if psum(h, b) <= at < psum(h, b + 1) {
                            lemma_bucket_unique(h, b, i as int, at as int);
                        }
                        lemma_count_room(arr@, f, b, psum(h, b), psum(h, b + 1), at as int);
                        assert(h[b] as nat == crate::buckets::count(arr@, f, b));
                    }
                    assert(to < psum(h, b + 1));
                    lemma_progress_step(heads@, h, k as int, b);
                }
                let ghost before = arr@;
                let ghost heads_before = heads@;
                swap(arr, at, to);
                heads[bucket] = to + 1;
                proof {
                    assert(heads@ =~= heads_start.update(b, (heads_start[b] + 1) as usize));
                    lemma_perm_histogram(before, arr@, f, h);
                    lemma_perm_in_range(before, arr@, f, k as int);
                    assert forall|d: int, j: int|
                        #![trigger psum(h, d), arr@[j]]
                        0 <= d < k && psum(h, d) <= j < heads@[d] implies f(arr@[j]) == d by {
                        lemma_psum_monotone(h, 0, d);
                        lemma_psum_monotone(h, d + 1, k as int);
                        if j == to {
                            lemma_bucket_unique(h, d, b, j);
                        } else if j == at {
                            lemma_bucket_unique(h, d, i as int, j);
                        } else {
                            assert(psum(h, d) <= j < heads_before[d]);
                            assert(arr@[j] == before[j]);
                        }
                    }
                }
            }
            proof {
                lemma_progress_bound(heads@, h, k as int);
                assert(progress(heads@, h, k as int) == progress(heads_start, h, k as int) + 1);
            }
        }
        i = i + 1;
    }
    proof {
        assert forall|d: int, j: int|
            #![trigger psum(h, d), arr@[j]]
            0 <= d < h.len() - 1 && psum(h, d) <= j < psum(h, d + 1) implies f(arr@[j]) == d by {
            assert(heads@[d] == psum(h, d + 1));
        }
        lemma_partition_complete(arr@, f, h);
    }
}

/// The digit of a key as a bucket: the bits that `mask` keeps after a
/// shift to the right by `shift`; `mask` is the mask of `radix` bits.
pub struct DigitOf {
    pub mask: u64,
    pub shift: usize,
    pub radix: usize,
}

impl<T: Radixable> Bucketer<T> for DigitOf {
    open spec fn wf(&self) -> bool {
        &&& 1 <= self.radix < usize::BITS
        &&& self.mask == pow2(self.radix as nat) - 1
        &&& self.shift < 128
    }

    open spec fn buckets(&self) -> int {
        pow2(self.radix as nat) as int
    }

    open spec fn spec_bucket(&self, x: T) -> int {
        digit(x.key() as nat, self.shift as nat, self.radix as nat) as int
    }

    fn size(&self) -> (k: usize) {
        proof {
            vstd::bits::lemma_usize_pow2_no_overflow(self.radix as nat);
        }
        (self.mask + 1) as usize
    }

    fn bucket(&self, x: &T) -> (b: usize) {
        proof {
            vstd::bits::lemma_usize_pow2_no_overflow(self.radix as nat);
            lemma_digit_bound(x.key() as nat, self.shift as nat, self.radix as nat);
        }
        extract(x, self.mask, self.shift)
    }

    proof fn lemma_in_range(&self, x: T) {
        lemma_digit_bound(x.key() as nat, self.shift as nat, self.radix as nat);
    }
}

/// The distribution pass of American flag sort: `partition_in_place` on
/// the digit that `mask` and `shift` select.
pub(crate) fn serial_swap<T: Radixable + Copy>(
    arr: &mut [T],
    heads: &mut Vec<usize>,
    tails: &[usize],
    p: &Params,
    mask: u64,
    shift: usize,
    Ghost(h): Ghost<Seq<usize>>,
)
    requires
        p.wf(),
        mask == p.radix_range - 1,
        shift < 128,
        h.len() == p.radix_range,
        is_histogram(h, old(arr)@, digit_fn::<T>(shift as nat, p.radix as nat)),
        old(heads)@.len() == p.radix_range,
        tails@.len() == p.radix_range,
        forall|d: int| 0 <= d < p.radix_range ==> #[trigger] old(heads)@[d] == psum(h, d),
        forall|d: int| 0 <= d < p.radix_range ==> #[trigger] tails@[d] == psum(h, d + 1),
    ensures
        final(arr)@.len() == old(arr)@.len(),
        final(arr)@.to_multiset() == old(arr)@.to_multiset(),
        partitioned(final(arr)@, digit_fn::<T>(shift as nat, p.radix as nat), h),
{
    let by = DigitOf { mask, shift, radix: p.radix };
    let ghost f = digit_fn::<T>(shift as nat, p.radix as nat);
    let ghost g = bucket_fn::<T, DigitOf>(by);
    proof {
        lemma_pow2_pos(p.radix as nat);
        assert forall|x: T| #[trigger] f(x) == g(x) by {}
        lemma_same_buckets_histogram(h, arr@, f, g);
        lemma_histogram_unique(h, arr@, g);
    }
    partition_in_place(arr, heads, tails, &by);
    proof {
        lemma_same_buckets_partitioned(arr@, g, f, h);
    }
}

/// What `sort_bucket` and the recursion promise of a range of a slice: the
/// range is rearranged, the rest is left alone.
pub open spec fn range_rearranged<T>(before: Seq<T>, after: Seq<T>, lo: int, hi: int) -> bool {
    &&& after.len() == before.len()
    &&& after.subrange(lo, hi).to_multiset() == before.subrange(lo, hi).to_multiset()
    &&& forall|k: int| 0 <= k < before.len() && !(lo <= k < hi) ==> after[k] == before[k]
}

/// Rearranging a range rearranges the slice.
pub proof fn lemma_range_rearranged<T>(before: Seq<T>, after: Seq<T>, lo: int, hi: int)
    requires
        0 <= lo <= hi <= before.len(),
        range_rearranged(before, after, lo, hi),
    ensures
        after.to_multiset() == before.to_multiset(),
{
    let n = before.len() as int;
    assert(before =~= (before.subrange(0, lo) + before.subrange(lo, hi)) + before.subrange(hi, n));
    assert(after =~= (after.subrange(0, lo) + after.subrange(lo, hi)) + after.subrange(hi, n));
    assert(after.subrange(0, lo) =~= before.subrange(0, lo));
    assert(after.subrange(hi, n) =~= before.subrange(hi, n));
    lemma_multiset_commutative(
        before.subrange(0, lo) + before.subrange(lo, hi),
        before.subrange(hi, n),
    );
    lemma_multiset_commutative(before.subrange(0, lo), before.subrange(lo, hi));
    lemma_multiset_commutative(
        after.subrange(0, lo) + after.subrange(lo, hi),
        after.subrange(hi, n),
    );
    lemma_multiset_commutative(after.subrange(0, lo), after.subrange(lo, hi));
}

/// Rearranging one bucket of a partitioned slice leaves it partitioned.
pub proof fn lemma_bucket_rearranged<T>(
    before: Seq<T>,
    after: Seq<T>,
    f: spec_fn(T) -> int,
    h: Seq<usize>,
    d: int,
)
    requires
        partitioned(before, f, h),
        0 <= psum(h, d) <= psum(h, d + 1) <= before.len(),
        range_rearranged(before, after, psum(h, d), psum(h, d + 1)),
    ensures
        partitioned(after, f, h),
{
    let lo = psum(h, d);
    let hi = psum(h, d + 1);
    let b = before.subrange(lo, hi);
    let a = after.subrange(lo, hi);
    assert forall|i: int| #![trigger b[i]] 0 <= i < b.len() implies crate::buckets::in_bucket(
        f,
        d,
    )(b[i]) by {
        assert(b[i] == before[lo + i]);
        lemma_partitioned_bucket(before, f, h, d, lo + i);
    }
    lemma_perm_all(b, a, crate::buckets::in_bucket(f, d));
    assert forall|i: int| #![trigger after[i]] 0 <= i < after.len() implies psum(h, f(after[i]))
        <= i < psum(h, f(after[i]) + 1) by {
        if lo <= i < hi {
            assert(a[i - lo] == after[i]);
        } else {
            assert(after[i] == before[i]);
        }
    }
}

/// Sorts the range `lo..hi` of the slice, which holds one bucket of the
/// level above `p.level`.
pub(crate) fn sort_bucket<T: Radixable + Copy>(arr: &mut [T], lo: usize, hi: usize, p: Params)
    requires
        lo <= hi <= old(arr)@.len(),
        p.covers(T::bits()),
        p.level < p.max_level,
    ensures
        range_rearranged(old(arr)@, final(arr)@, lo as int, hi as int),
        shared_prefix(
            old(arr)@.subrange(lo as int, hi as int),
            p.shift_from_left(T::bits()) + p.radix as nat,
        ) ==> sorted(final(arr)@.subrange(lo as int, hi as int)),
    decreases p.max_level - p.level, 1nat,
{
    let (_left, rest) = arr.split_at_mut(lo);
    let (mid, _right) = rest.split_at_mut(hi - lo);
    let ghost mid_before = mid@;
    serial_radixsort_rec(mid, p);
    proof {
        assert(old(arr)@.subrange(lo as int, hi as int) =~= mid_before);
        assert(final(arr)@.subrange(lo as int, hi as int) =~= mid@);
    }
}

/// One level of the sort and, bucket by bucket, the levels below it.
///
/// The slice is rearranged; it comes out sorted where its keys agree above
/// the digit of `p.level`, as they do in a bucket of the level above.
pub fn serial_radixsort_rec<T: Radixable + Copy>(arr: &mut [T], p: Params)
    requires
        p.covers(T::bits()),
        p.level < p.max_level,
    ensures
        final(arr)@.len() == old(arr)@.len(),
        final(arr)@.to_multiset() == old(arr)@.to_multiset(),
        shared_prefix(old(arr)@, p.shift_from_left(T::bits()) + p.radix as nat) ==> sorted(
            final(arr)@,
        ),
    decreases p.max_level - p.level, 0nat,
{
    if arr.len() <= 64 {
        insertion_sort(arr);
        return ;
    }
    let ghost width = (T::bits() - p.offset) as nat;
    proof {
        lemma_levels_cover(width, p.radix as nat);
        let r = p.radix as int;
        let l = p.level as int;
        let m = p.max_level as int;
        assert(r * (l + 1) <= r * m) by (nonlinear_arith)
            requires
                l + 1 <= m,
                0 <= r,
        ;
        assert((m - 1) * r == r * m - r) by (nonlinear_arith);
        assert(m * r == r * m) by (nonlinear_arith);
    }
    let (mask, shift) = get_mask_and_shift_from_left::<T>(&p);
    let ghost f = digit_fn::<T>(shift as nat, p.radix as nat);
    let ghost top = shift as nat + p.radix as nat;
    let histogram = get_histogram(arr, &p, mask, shift);
    let ghost h = histogram@;
    let k: usize = p.radix_range;
    let n: usize = arr.len();
    proof {
        assert forall|i: int| #![trigger arr@[i]] 0 <= i < arr@.len() implies 0 <= f(arr@[i])
            < k by {
            lemma_digit_bound(arr@[i].key() as nat, shift as nat, p.radix as nat);
        }
        lemma_psum_total(arr@, f, h);
    }
    let (p_sums, mut heads, tails) = prefix_sums(histogram.as_slice());
    serial_swap(arr, &mut heads, tails.as_slice(), &p, mask, shift, Ghost(h));
    let ghost parted = arr@;
    proof {
        lemma_perm_in_range(old(arr)@, parted, f, k as int);
        if shared_prefix(old(arr)@, top) {
            lemma_perm_shares_prefix(old(arr)@, parted, top);
        }
    }
    if p.level < p.max_level - 1 {
        let below: Params = p.new_level(p.level + 1);
        let ghost top_below = below.shift_from_left(T::bits()) + p.radix as nat;
        proof {
            let r = p.radix as int;
            let l = p.level as int;
            assert(r * (l + 1 + 1) == r * (l + 1) + r) by (nonlinear_arith);
            assert(shift as nat <= top_below);
        }
        let mut i: usize = 0;
        while i < k
            invariant
                i <= k,
                k == p.radix_range,
                k == h.len(),
                h == histogram@,
                n == arr@.len(),
                p_sums@.len() == k + 1,
                forall|d: int| 0 <= d <= k ==> #[trigger] p_sums@[d] == psum(h, d),
                psum(h, k as int) == n,
                below.covers(T::bits()),
                below.level == p.level + 1,
                below.level < below.max_level,
                below.max_level == p.max_level,
                below.radix == p.radix,
                f == digit_fn::<T>(shift as nat, p.radix as nat),
                top == shift as nat + p.radix as nat,
                top_below == below.shift_from_left(T::bits()) + p.radix as nat,
                shift as nat <= top_below,
                arr@.to_multiset() == old(arr)@.to_multiset(),
                partitioned(arr@, f, h),
                in_range(arr@, f, k as int),
                shared_prefix(old(arr)@, top) ==> shared_prefix(arr@, top),
                shared_prefix(old(arr)@, top) ==> forall|d: int|
                    #![trigger psum(h, d)]
                    0 <= d < i ==> sorted(arr@.subrange(psum(h, d), psum(h, d + 1))),
            decreases k - i,
        {
            let ghost d = i as int;
            let ghost before = arr@;
            proof {
                lemma_psum_monotone(h, 0, d);
                lemma_psum_monotone(h, d, d + 1);
                lemma_psum_monotone(h, d + 1, k as int);
            }
            if histogram[i] > 1 {
                sort_bucket(arr, p_sums[i], p_sums[i + 1], below);
                proof {
                    lemma_range_rearranged(before, arr@, psum(h, d), psum(h, d + 1));
                    lemma_bucket_rearranged(before, arr@, f, h, d);
                    lemma_perm_in_range(before, arr@, f, k as int);
                    if shared_prefix(old(arr)@, top) {
                        lemma_perm_shares_prefix(before, arr@, top);
                        lemma_bucket_shares_prefix(before, h, shift as nat, p.radix as nat, d);
                        lemma_shares_prefix_above(
                            before.subrange(psum(h, d), psum(h, d + 1)),
                            shift as nat,
                            top_below,
                        );
                    }
                }
            } else {
                proof {
                    lemma_short_sorted(arr@.subrange(psum(h, d), psum(h, d + 1)));
                }
            }
            proof {
                if shared_prefix(old(arr)@, top) {
                    assert forall|e: int| #![trigger psum(h, e)] 0 <= e < i + 1 implies sorted(
                        arr@.subrange(psum(h, e), psum(h, e + 1)),
                    ) by {
                        if e < d {
                            lemma_psum_monotone(h, 0, e);
                            lemma_psum_monotone(h, e, e + 1);
                            lemma_psum_monotone(h, e + 1, d);
                            assert(arr@.subrange(psum(h, e), psum(h, e + 1)) =~= before.subrange(
                                psum(h, e),
                                psum(h, e + 1),
                            ));
                        }
                    }
                }
            }
            i = i + 1;
        }
        proof {
            if shared_prefix(old(arr)@, top) {
                lemma_buckets_sorted(arr@, h, shift as nat, p.radix as nat);
            }
        }
    } else {
        proof {
            assert(shift == 0);
            if shared_prefix(old(arr)@, top) {
                lemma_last_digit_sorted(arr@, h, p.radix as nat);
            }
        }
    }
}

/// Keys that agree above a bit still do after a rearrangement.
pub proof fn lemma_perm_shares_prefix<T: Radixable>(a: Seq<T>, b: Seq<T>, w: nat)
    requires
        a.to_multiset() == b.to_multiset(),
        shared_prefix(a, w),
    ensures
        shared_prefix(b, w),
{
    if a.len() > 0 {
        let x = a[0];
        let p = |y: T| prefix(y.key() as nat, w) == prefix(x.key() as nat, w);
        assert forall|i: int| #![trigger a[i]] 0 <= i < a.len() implies p(a[i]) by {}
        lemma_perm_all(a, b, p);
        assert forall|i: int, j: int| 0 <= i < b.len() && 0 <= j < b.len() implies prefix(
            b[i].key() as nat,
            w,
        ) == prefix(b[j].key() as nat, w) by {
            assert(p(b[i]) && p(b[j]));
        }
    } else {
        vstd::seq_lib::to_multiset_len(a);
        vstd::seq_lib::to_multiset_len(b);
    }
}

/// Keys that agree above a bit agree above any higher bit.
pub proof fn lemma_shares_prefix_above<T: Radixable>(s: Seq<T>, w: nat, above: nat)
    requires
        shared_prefix(s, w),
        w <= above,
    ensures
        shared_prefix(s, above),
{
    assert forall|i: int, j: int| 0 <= i < s.len() && 0 <= j < s.len() implies prefix(
        s[i].key() as nat,
        above,
    ) == prefix(s[j].key() as nat, above) by {
        lemma_prefix_mono(s[i].key() as nat, s[j].key() as nat, w, above);
    }
}

/// American flag sort with digits of `radix` bits.
///
/// Sorts the slice by key, in place. An input that `rejection` turns down
/// is left as it was and the reason returned.
pub fn american_flag_sort<T: Radixable + Copy>(arr: &mut [T], radix: usize) -> (r: Result<
    (),
    SortError,
>)
    ensures
        final(arr)@.len() == old(arr)@.len(),
        match rejection(old(arr)@, radix) {
            Some(e) => r == Err::<(), SortError>(e) && final(arr)@ == old(arr)@,
            None => r.is_ok() && sorted(final(arr)@) && final(arr)@.to_multiset() == old(
                arr,
            )@.to_multiset(),
        },
{
    match check_input(arr, radix) {
        Some(e) => {
            return Err(e);
        },
        None => {},
    }
    if arr.len() <= 1 {
        return Ok(());
    }
    if arr.len() <= 64 {
        insertion_sort(arr);
        return Ok(());
    }
    let (_, raw_offset) = compute_offset(arr, radix);
    let max_level: usize = compute_max_level(T::type_size(), raw_offset, radix);
    if max_level == 0 {
        proof {
            lemma_levels_cover((T::bits() - raw_offset) as nat, radix as nat);
            lemma_below_shares_prefix(arr@, 0);
            crate::order::lemma_equal_keys_sorted(arr@);
        }
        return Ok(());
    }
    let params = Params::new(0, radix, raw_offset, max_level);
    proof {
        let width = (T::bits() - raw_offset) as nat;
        let top = params.shift_from_left(T::bits()) + radix as nat;
        assert(params.radix * (params.level + 1) == radix) by (nonlinear_arith)
            requires
                params.radix == radix,
                params.level == 0,
        ;
        assert(width <= top);
        lemma_below_shares_prefix(arr@, width);
        lemma_shares_prefix_above(arr@, width, top);
    }
    serial_radixsort_rec(arr, params);
    Ok(())
}

} // verus!
