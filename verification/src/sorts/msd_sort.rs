//! MSD radix sort with a scratch buffer: each level distributes the slice
//! into the buffer or the buffer into the slice, by turns. And the stable
//! distribution pass that the out-of-place sorts share.

use crate::buckets::{
    bucket_concat, count, histogram_of, in_bucket, in_range, is_histogram,
    lemma_bucket_concat_index, lemma_bucket_concat_len, lemma_bucket_concat_perm,
    lemma_bucket_unique, lemma_find_bucket, lemma_histogram_of, lemma_psum_monotone,
    lemma_psum_total, partitioned, psum,
};
use crate::digits::{lemma_digit_bound, lemma_digit_orders_prefix, lemma_levels_cover, prefix};
use crate::order::{digit_fn, keys_below, shared_prefix, sorted};
use crate::radixable::{Radixable, SortError};
use crate::sorts::american_flag_sort::{lemma_perm_shares_prefix, lemma_shares_prefix_above};
use crate::sorts::comparative_sort::insertion_sort;
use crate::sorts::guard::{check_input, rejection};
use crate::sorts::utils::{
    compute_max_level, compute_offset, copy_nonoverlapping, extract, get_histogram,
    get_mask_and_shift_from_left, prefix_sums, Params,
};
use vstd::arithmetic::power2::{lemma_pow2_pos, pow2};
use vstd::prelude::*;

verus! {

/// The elements of `part`, bucket by bucket and in their order, stand in
/// `dest` from the starts of their buckets on.
pub open spec fn placed<T>(
    dest: Seq<T>,
    part: Seq<T>,
    f: spec_fn(T) -> int,
    h: Seq<usize>,
    k: nat,
) -> bool {
    forall|d: int, j: int|
        #![trigger part.filter(in_bucket(f, d))[j]]
        0 <= d < k && 0 <= j < count(part, f, d) ==> dest[psum(h, d) + j] == part.filter(
            in_bucket(f, d),
        )[j]
}

/// Where the next element of `src` goes, and that writing it there keeps
/// what was placed before.
pub proof fn lemma_placed_step<T>(
    before: Seq<T>,
    src: Seq<T>,
    f: spec_fn(T) -> int,
    h: Seq<usize>,
    k: nat,
    i: int,
)
    requires
        0 <= i < src.len(),
        h.len() == k,
        is_histogram(h, src, f),
        in_range(src, f, k as int),
        psum(h, k as int) == src.len(),
        before.len() == src.len(),
        placed(before, src.take(i), f, h, k),
    ensures
        0 <= psum(h, f(src[i])) + count(src.take(i), f, f(src[i])) < psum(h, f(src[i]) + 1)
            <= src.len(),
        placed(
            before.update(psum(h, f(src[i])) + count(src.take(i), f, f(src[i])), src[i]),
            src.take(i + 1),
            f,
            h,
            k,
        ),
{
    let b = f(src[i]);
    let c = count(src.take(i), f, b) as int;
    let at = psum(h, b) + c;
    let after = before.update(at, src[i]);
    let part = src.take(i + 1);
    src.lemma_filter_take_len(in_bucket(f, b), i + 1);
    crate::buckets::lemma_count_take_succ(src, f, b, i);
    assert(h[b] as nat == count(src, f, b));
    lemma_psum_monotone(h, 0, b);
    lemma_psum_monotone(h, b + 1, k as int);
    assert(part =~= src.take(i).push(src[i]));
    assert forall|d: int, j: int|
        #![trigger part.filter(in_bucket(f, d))[j]]
        0 <= d < k && 0 <= j < count(part, f, d) implies after[psum(h, d) + j] == part.filter(
        in_bucket(f, d),
    )[j] by {
        let fi = src.take(i).filter(in_bucket(f, d));
        src.take(i).lemma_filter_push(src[i], in_bucket(f, d));
        crate::buckets::lemma_count_take_succ(src, f, d, i);
        src.lemma_filter_take_len(in_bucket(f, d), i + 1);
        assert(h[d] as nat == count(src, f, d));
        lemma_psum_monotone(h, 0, d);
        lemma_psum_monotone(h, d + 1, k as int);
        if d == b && j == c {
        } else {
            assert(0 <= j < count(src.take(i), f, d));
            assert(before[psum(h, d) + j] == fi[j]);
            if psum(h, d) + j == at {
                lemma_bucket_unique(h, d, b, at);
            }
        }
    }
}

/// The stable distribution pass: the elements of `source`, in their order,
/// are written to `destination`, each at the cursor of its bucket. The
/// cursors must stand at the starts of the buckets; they end at the ends.
pub fn copy_by_histogram<T: Radixable + Copy>(
    size: usize,
    source: &[T],
    destination: &mut [T],
    heads: &mut Vec<usize>,
    mask: u64,
    shift: usize,
    radix: usize,
)
    requires
        size == source@.len(),
        size == old(destination)@.len(),
        1 <= radix < 64,
        mask == pow2(radix as nat) - 1,
        mask < usize::MAX,
        shift < 128,
        old(heads)@.len() == mask + 1,
        forall|d: int|
            0 <= d <= mask ==> #[trigger] old(heads)@[d] == bucket_concat(
                source@,
                digit_fn::<T>(shift as nat, radix as nat),
                d as nat,
            ).len(),
    ensures
        final(destination)@ == bucket_concat(
            source@,
            digit_fn::<T>(shift as nat, radix as nat),
            (mask + 1) as nat,
        ),
        final(destination)@.len() == size,
        final(destination)@.to_multiset() == source@.to_multiset(),
        final(heads)@.len() == mask + 1,
        forall|d: int|
            0 <= d <= mask ==> #[trigger] final(heads)@[d] == bucket_concat(
                source@,
                digit_fn::<T>(shift as nat, radix as nat),
                (d + 1) as nat,
            ).len(),
{
    let ghost f = digit_fn::<T>(shift as nat, radix as nat);
    let ghost k = (mask + 1) as nat;
    let ghost h = histogram_of(source@, f, k);
    let ghost src = source@;
    proof {
        lemma_histogram_of(src, f, k);
        assert forall|i: int| #![trigger src[i]] 0 <= i < src.len() implies 0 <= f(src[i])
            < k by {
            lemma_digit_bound(src[i].key() as nat, shift as nat, radix as nat);
        }
        lemma_psum_total(src, f, h);
        lemma_bucket_concat_perm(src, f, k);
        assert forall|d: int| 0 <= d < k implies #[trigger] heads@[d] == psum(h, d) by {
            lemma_bucket_concat_len(src, f, h, d as nat);
        }
        assert(src.take(0) =~= Seq::<T>::empty());
        assert forall|d: int| 0 <= d < k implies count(src.take(0), f, d) == 0 by {
            crate::buckets::lemma_count_empty(f, d);
        }
    }
    let mut i: usize = 0;
    while i < size
        invariant
            i <= size,
            size == src.len(),
            src == source@,
            size == destination@.len(),
            1 <= radix < 64,
            mask == pow2(radix as nat) - 1,
            mask < usize::MAX,
            shift < 128,
            k == mask + 1,
            f == digit_fn::<T>(shift as nat, radix as nat),
            h.len() == k,
            is_histogram(h, src, f),
            in_range(src, f, k as int),
            psum(h, k as int) == size,
            heads@.len() == k,
            forall|d: int|
                0 <= d < k ==> #[trigger] heads@[d] == psum(h, d) + count(src.take(i as int), f, d),
            placed(destination@, src.take(i as int), f, h, k),
        decreases size - i,
    {
        let x: T = source[i];
        let bucket: usize = extract(&x, mask, shift);
        let ghost dest_before = destination@;
        let ghost heads_before = heads@;
        proof {
            assert(bucket as int == f(src[i as int]));
            lemma_placed_step(dest_before, src, f, h, k, i as int);
        }
        let at: usize = heads[bucket];
        destination[at] = x;
        heads[bucket] = at + 1;
        proof {
            assert forall|d: int| 0 <= d < k implies #[trigger] heads@[d] == psum(h, d) + count(
                src.take(i + 1),
                f,
                d,
            ) by {
                crate::buckets::lemma_count_take_succ(src, f, d, i as int);
                assert(heads_before[d] == psum(h, d) + count(src.take(i as int), f, d));
            }
        }
        i = i + 1;
    }
    proof {
        assert(src.take(size as int) =~= src);
        let bc = bucket_concat(src, f, k);
        assert(bc.len() == size);
        assert forall|q: int| 0 <= q < size implies destination@[q] == bc[q] by {
            let d = lemma_find_bucket(h, k as int, q);
            let j = q - psum(h, d);
            assert(h[d] as nat == count(src, f, d));
            lemma_bucket_concat_index(src, f, h, k, d, j);
            let whole = src.take(size as int).filter(in_bucket(f, d))[j];
            assert(destination@[psum(h, d) + j] == whole);
        }
        assert(destination@ =~= bc);
        assert forall|d: int| 0 <= d <= mask implies #[trigger] heads@[d] == bucket_concat(
            src,
            f,
            (d + 1) as nat,
        ).len() by {
            lemma_bucket_concat_len(src, f, h, (d + 1) as nat);
            assert(h[d] as nat == count(src, f, d));
        }
    }
}

/// After a stable distribution pass the slice is partitioned.
pub proof fn lemma_bucket_concat_partitioned<T>(s: Seq<T>, f: spec_fn(T) -> int, h: Seq<usize>)
    requires
        h.len() > 0,
        is_histogram(h, s, f),
        in_range(s, f, h.len() as int),
    ensures
        partitioned(bucket_concat(s, f, h.len()), f, h),
        is_histogram(h, bucket_concat(s, f, h.len()), f),
        in_range(bucket_concat(s, f, h.len()), f, h.len() as int),
{
    let k = h.len();
    let bc = bucket_concat(s, f, k);
    lemma_bucket_concat_perm(s, f, k);
    crate::buckets::lemma_perm_histogram(s, bc, f, h);
    crate::buckets::lemma_perm_in_range(s, bc, f, k as int);
    lemma_psum_total(s, f, h);
    assert forall|d: int, q: int|
        #![trigger psum(h, d), bc[q]]
        0 <= d < h.len() - 1 && psum(h, d) <= q < psum(h, d + 1) implies f(bc[q]) == d by {
        let j = q - psum(h, d);
        lemma_bucket_concat_index(s, f, h, k, d, j);
        s.lemma_filter_pred(in_bucket(f, d), j);
    }
    crate::buckets::lemma_partition_complete(bc, f, h);
}

/// The distribution pass of the out-of-place sorts: a stable pass into the
/// scratch buffer, and the copy back. The cursors must stand at the starts
/// of the buckets.
pub fn scratch_partition<T: Radixable + Copy>(
    arr: &mut [T],
    buffer: &mut [T],
    heads: &mut Vec<usize>,
    mask: u64,
    shift: usize,
    radix: usize,
)
    requires
        old(buffer)@.len() >= old(arr)@.len(),
        1 <= radix < 64,
        mask == pow2(radix as nat) - 1,
        mask < usize::MAX,
        shift < 128,
        old(heads)@.len() == mask + 1,
        forall|d: int|
            0 <= d <= mask ==> #[trigger] old(heads)@[d] == bucket_concat(
                old(arr)@,
                digit_fn::<T>(shift as nat, radix as nat),
                d as nat,
            ).len(),
    ensures
        final(arr)@ == bucket_concat(
            old(arr)@,
            digit_fn::<T>(shift as nat, radix as nat),
            (mask + 1) as nat,
        ),
        final(arr)@.len() == old(arr)@.len(),
        final(arr)@.to_multiset() == old(arr)@.to_multiset(),
        partitioned(
            final(arr)@,
            digit_fn::<T>(shift as nat, radix as nat),
            histogram_of(
                old(arr)@,
                digit_fn::<T>(shift as nat, radix as nat),
                (mask + 1) as nat,
            ),
        ),
        final(buffer)@.len() == old(buffer)@.len(),
        final(heads)@.len() == mask + 1,
{
    let ghost f = digit_fn::<T>(shift as nat, radix as nat);
    let ghost src = arr@;
    let n: usize = arr.len();
    proof {
        let h = histogram_of(src, f, (mask + 1) as nat);
        lemma_histogram_of(src, f, (mask + 1) as nat);
        assert forall|i: int| #![trigger src[i]] 0 <= i < src.len() implies 0 <= f(src[i])
            < h.len() by {
            lemma_digit_bound(src[i].key() as nat, shift as nat, radix as nat);
        }
        lemma_bucket_concat_partitioned(src, f, h);
    }
    let (scratch, _rest) = buffer.split_at_mut(n);
    copy_by_histogram(n, arr, scratch, heads, mask, shift, radix);
    copy_nonoverlapping(scratch, arr, n);
    proof {
        assert(arr@ =~= scratch@);
    }
}

/// Elements of `s` in one bucket agree above bit `floor`.
pub open spec fn buckets_agree<T: Radixable>(s: Seq<T>, f: spec_fn(T) -> int, floor: nat) -> bool {
    forall|i: int, j: int|
        0 <= i < s.len() && 0 <= j < s.len() && f(s[i]) == f(s[j]) ==> prefix(
            s[i].key() as nat,
            floor,
        ) == prefix(s[j].key() as nat, floor)
}

/// After a distribution pass on the digit at `shift`, elements of one
/// bucket agree above `shift`, where all elements agreed above the digit.
pub proof fn lemma_buckets_agree<T: Radixable>(s: Seq<T>, shift: nat, radix: nat)
    requires
        shared_prefix(s, shift + radix),
    ensures
        buckets_agree(s, digit_fn::<T>(shift, radix), shift),
{
    assert forall|i: int, j: int|
        0 <= i < s.len() && 0 <= j < s.len() && digit_fn::<T>(shift, radix)(s[i]) == digit_fn::<T>(
            shift,
            radix,
        )(s[j]) implies prefix(s[i].key() as nat, shift) == prefix(s[j].key() as nat, shift) by {
        lemma_digit_orders_prefix(s[i].key() as nat, s[j].key() as nat, shift, radix);
    }
}

/// In a partitioned slice whose buckets agree above `floor`, the elements
/// of the range of one bucket agree above `floor`.
pub proof fn lemma_bucket_range_agrees<T: Radixable>(
    s: Seq<T>,
    f: spec_fn(T) -> int,
    h: Seq<usize>,
    floor: nat,
    d: int,
)
    requires
        partitioned(s, f, h),
        buckets_agree(s, f, floor),
        0 <= psum(h, d) <= psum(h, d + 1) <= s.len(),
    ensures
        shared_prefix(s.subrange(psum(h, d), psum(h, d + 1)), floor),
{
    let lo = psum(h, d);
    let t = s.subrange(lo, psum(h, d + 1));
    assert forall|i: int, j: int| 0 <= i < t.len() && 0 <= j < t.len() implies prefix(
        t[i].key() as nat,
        floor,
    ) == prefix(t[j].key() as nat, floor) by {
        assert(t[i] == s[lo + i] && t[j] == s[lo + j]);
        lemma_bucket_unique(h, d, f(s[lo + i]), lo + i);
        lemma_bucket_unique(h, d, f(s[lo + j]), lo + j);
    }
}

/// Rearranging a slice does not change what its buckets agree on.
pub proof fn lemma_perm_buckets_agree<T: Radixable>(
    a: Seq<T>,
    b: Seq<T>,
    f: spec_fn(T) -> int,
    floor: nat,
)
    requires
        a.to_multiset() == b.to_multiset(),
        buckets_agree(a, f, floor),
    ensures
        buckets_agree(b, f, floor),
{
    assert forall|i: int, j: int|
        0 <= i < b.len() && 0 <= j < b.len() && f(b[i]) == f(b[j]) implies prefix(
        b[i].key() as nat,
        floor,
    ) == prefix(b[j].key() as nat, floor) by {
        vstd::seq_lib::to_multiset_contains(b, b[i]);
        vstd::seq_lib::to_multiset_contains(a, b[i]);
        vstd::seq_lib::to_multiset_contains(b, b[j]);
        vstd::seq_lib::to_multiset_contains(a, b[j]);
        assert(b.contains(b[i]) && b.contains(b[j]));
        let x = choose|x: int| 0 <= x < a.len() && a[x] == b[i];
        let y = choose|y: int| 0 <= y < a.len() && a[y] == b[j];
        assert(f(a[x]) == f(a[y]));
    }
}

/// The facts about the levels of a context that the sorts rely on.
pub proof fn lemma_levels<T: Radixable>(p: Params)
    requires
        p.covers(T::bits()),
        p.level < p.max_level,
    ensures
        p.radix * (p.level + 1) <= usize::MAX,
        p.level < usize::MAX,
        p.level == p.max_level - 1 ==> p.shift_from_left(T::bits()) == 0,
        p.level < p.max_level - 1 ==> p.shift_from_left(T::bits()) <= p.new_level_spec(
            (p.level + 1) as usize,
        ).shift_from_left(T::bits()) + p.radix,
        p.level < p.max_level - 1 ==> p.new_level_spec((p.level + 1) as usize).shift_from_left(
            T::bits(),
        ) + p.radix == p.shift_from_left(T::bits()) || p.new_level_spec(
            (p.level + 1) as usize,
        ).shift_from_left(T::bits()) == 0,
{
    let width = (T::bits() - p.offset) as nat;
    lemma_levels_cover(width, p.radix as nat);
    let r = p.radix as int;
    let l = p.level as int;
    let m = p.max_level as int;
    assert(r * (l + 1) <= r * m) by (nonlinear_arith)
        requires
            l + 1 <= m,
            0 <= r,
    ;
    assert((m - 1) * r == r * m - r) by (nonlinear_arith);
    assert(m * r == r * m) by (nonlinear_arith);
    assert(r * (l + 1 + 1) == r * (l + 1) + r) by (nonlinear_arith);
}

/// Of two slices, the one in which a sort leaves its result.
pub open spec fn landed<T>(src: Seq<T>, dst: Seq<T>, stay: bool) -> Seq<T> {
    if stay {
        src
    } else {
        dst
    }
}

/// Two slices that hold the same elements bucket by bucket hold the same
/// elements up to any bucket.
pub proof fn lemma_regions_perm<T>(r: Seq<T>, d: Seq<T>, h: Seq<usize>, k: int)
    requires
        r.len() == d.len(),
        0 <= k <= h.len(),
        psum(h, h.len() as int) == r.len(),
        forall|e: int|
            #![trigger psum(h, e)]
            0 <= e < h.len() ==> r.subrange(psum(h, e), psum(h, e + 1)).to_multiset()
                == d.subrange(psum(h, e), psum(h, e + 1)).to_multiset(),
    ensures
        r.subrange(0, psum(h, k)).to_multiset() == d.subrange(0, psum(h, k)).to_multiset(),
    decreases k,
{
    lemma_psum_monotone(h, 0, k);
    lemma_psum_monotone(h, k, h.len() as int);
    if k == 0 {
        assert(r.subrange(0, 0) =~= d.subrange(0, 0));
    } else {
        lemma_regions_perm(r, d, h, k - 1);
        lemma_psum_monotone(h, 0, k - 1);
        lemma_psum_monotone(h, k - 1, k);
        let lo = psum(h, k - 1);
        let hi = psum(h, k);
        assert(r.subrange(0, hi) =~= r.subrange(0, lo) + r.subrange(lo, hi));
        assert(d.subrange(0, hi) =~= d.subrange(0, lo) + d.subrange(lo, hi));
        vstd::seq_lib::lemma_multiset_commutative(r.subrange(0, lo), r.subrange(lo, hi));
        vstd::seq_lib::lemma_multiset_commutative(d.subrange(0, lo), d.subrange(lo, hi));
        assert(r.subrange(psum(h, k - 1), psum(h, k - 1 + 1)).to_multiset() == d.subrange(
            psum(h, k - 1),
            psum(h, k - 1 + 1),
        ).to_multiset());
    }
}

/// A slice that holds, bucket by bucket, the elements of a partitioned
/// slice is partitioned, and holds the elements of that slice.
pub proof fn lemma_regions_partitioned<T>(
    r: Seq<T>,
    d: Seq<T>,
    f: spec_fn(T) -> int,
    h: Seq<usize>,
)
    requires
        r.len() == d.len(),
        psum(h, h.len() as int) == r.len(),
        partitioned(d, f, h),
        forall|e: int|
            #![trigger psum(h, e)]
            0 <= e < h.len() ==> r.subrange(psum(h, e), psum(h, e + 1)).to_multiset()
                == d.subrange(psum(h, e), psum(h, e + 1)).to_multiset(),
    ensures
        partitioned(r, f, h),
        r.to_multiset() == d.to_multiset(),
{
    lemma_regions_perm(r, d, h, h.len() as int);
    assert(r.subrange(0, r.len() as int) =~= r);
    assert(d.subrange(0, d.len() as int) =~= d);
    assert forall|x: int| #![trigger r[x]] 0 <= x < r.len() implies psum(h, f(r[x])) <= x < psum(
        h,
        f(r[x]) + 1,
    ) by {
        let e = lemma_find_bucket(h, h.len() as int, x);
        let lo = psum(h, e);
        let hi = psum(h, e + 1);
        lemma_psum_monotone(h, 0, e);
        lemma_psum_monotone(h, e + 1, h.len() as int);
        let rr = r.subrange(lo, hi);
        let dd = d.subrange(lo, hi);
        assert(rr.to_multiset() == dd.to_multiset());
        assert(rr[x - lo] == r[x]);
        assert(rr.contains(r[x]));
        vstd::seq_lib::to_multiset_contains(rr, r[x]);
        vstd::seq_lib::to_multiset_contains(dd, r[x]);
        let y = choose|y: int| 0 <= y < dd.len() && dd[y] == r[x];
        assert(dd[y] == d[lo + y]);
        crate::buckets::lemma_partitioned_bucket(d, f, h, e, lo + y);
    }
}

/// Sorts the range `lo..hi` of `a`, one bucket of the level above
/// `p.level`, with the same range of `b` as scratch space; the result is
/// left in `a` if `stay`, and in `b` if not. Outside the range both slices
/// are left alone.
fn flip_bucket<T: Radixable + Copy>(
    a: &mut [T],
    b: &mut [T],
    lo: usize,
    hi: usize,
    p: Params,
    stay: bool,
)
    requires
        lo <= hi <= old(a)@.len(),
        old(b)@.len() == old(a)@.len(),
        p.covers(T::bits()),
        p.level < p.max_level,
    ensures
        final(a)@.len() == old(a)@.len(),
        final(b)@.len() == old(b)@.len(),
        forall|k: int|
            #![trigger final(a)@[k]]
            #![trigger final(b)@[k]]
            0 <= k < old(a)@.len() && !(lo <= k < hi) ==> final(a)@[k] == old(a)@[k]
                && final(b)@[k] == old(b)@[k],
        landed(final(a)@, final(b)@, stay).subrange(lo as int, hi as int).to_multiset()
            == old(a)@.subrange(lo as int, hi as int).to_multiset(),
        shared_prefix(
            old(a)@.subrange(lo as int, hi as int),
            p.shift_from_left(T::bits()) + p.radix as nat,
        ) ==> sorted(landed(final(a)@, final(b)@, stay).subrange(lo as int, hi as int)),
    decreases p.max_level - p.level, 1nat,
{
    let (_a_left, a_rest) = a.split_at_mut(lo);
    let (a_mid, _a_right) = a_rest.split_at_mut(hi - lo);
    let (_b_left, b_rest) = b.split_at_mut(lo);
    let (b_mid, _b_right) = b_rest.split_at_mut(hi - lo);
    let ghost a_before = a_mid@;
    msd_radixsort_rec(a_mid, b_mid, p, stay);
    proof {
        assert(old(a)@.subrange(lo as int, hi as int) =~= a_before);
        assert(final(a)@.subrange(lo as int, hi as int) =~= a_mid@);
        assert(final(b)@.subrange(lo as int, hi as int) =~= b_mid@);
    }
}

/// One level of the sort and, bucket by bucket, the levels below it: the
/// elements of `src` are distributed into `dst`, and each bucket is sorted
/// from there with the two slices in each other's place, so that no level
/// copies back; the result is left in `src` if `stay`, and in `dst` if
/// not, and the other slice holds nothing of use.
///
/// The result holds the elements of `src`; it is sorted where their keys
/// agree above the digit of `p.level`.
pub fn msd_radixsort_rec<T: Radixable + Copy>(src: &mut [T], dst: &mut [T], p: Params, stay: bool)
    requires
        p.covers(T::bits()),
        p.level < p.max_level,
        old(dst)@.len() == old(src)@.len(),
    ensures
        final(src)@.len() == old(src)@.len(),
        final(dst)@.len() == old(dst)@.len(),
        landed(final(src)@, final(dst)@, stay).to_multiset() == old(src)@.to_multiset(),
        shared_prefix(old(src)@, p.shift_from_left(T::bits()) + p.radix as nat) ==> sorted(
            landed(final(src)@, final(dst)@, stay),
        ),
    decreases p.max_level - p.level, 0nat,
{
    let n: usize = src.len();
    if n <= 64 {
        insertion_sort(src);
        if !stay {
            copy_nonoverlapping(src, dst, n);
            proof {
                assert(dst@ =~= src@);
            }
        }
        return ;
    }
    proof {
        lemma_levels::<T>(p);
        lemma_pow2_pos(p.radix as nat);
    }
    let (mask, shift) = get_mask_and_shift_from_left::<T>(&p);
    let ghost f = digit_fn::<T>(shift as nat, p.radix as nat);
    let ghost top = shift as nat + p.radix as nat;
    let ghost good = shared_prefix(old(src)@, top);
    let histogram = get_histogram(src, &p, mask, shift);
    let ghost h = histogram@;
    let k: usize = p.radix_range;
    proof {
        assert forall|i: int| #![trigger src@[i]] 0 <= i < src@.len() implies 0 <= f(src@[i])
            < k by {
            lemma_digit_bound(src@[i].key() as nat, shift as nat, p.radix as nat);
        }
        lemma_psum_total(src@, f, h);
        assert forall|d: int| 0 <= d <= mask implies psum(h, d) == bucket_concat(
            src@,
            f,
            d as nat,
        ).len() by {
            lemma_bucket_concat_len(src@, f, h, d as nat);
        }
        lemma_bucket_concat_partitioned(src@, f, h);
    }
    let (p_sums, mut heads, _tails) = prefix_sums(histogram.as_slice());
    copy_by_histogram(n, src, dst, &mut heads, mask, shift, p.radix);
    let ghost parted = dst@;
    proof {
        lemma_perm_shares_prefix_if(old(src)@, parted, top);
        if good {
            lemma_buckets_agree(parted, shift as nat, p.radix as nat);
        }
    }
    if p.level < p.max_level - 1 {
        let below: Params = p.new_level(p.level + 1);
        let ghost top_below = below.shift_from_left(T::bits()) + p.radix as nat;
        let mut i: usize = 0;
        while i < k
            invariant
                i <= k,
                k == p.radix_range,
                k == h.len(),
                h == histogram@,
                n == src@.len(),
                n == dst@.len(),
                n == parted.len(),
                p_sums@.len() == k + 1,
                forall|d: int| 0 <= d <= k ==> #[trigger] p_sums@[d] == psum(h, d),
                psum(h, k as int) == n,
                below.covers(T::bits()),
                below.level == p.level + 1,
                below.level < below.max_level,
                below.max_level == p.max_level,
                below.radix == p.radix,
                f == digit_fn::<T>(shift as nat, p.radix as nat),
                top_below == below.shift_from_left(T::bits()) + p.radix as nat,
                shift as nat <= top_below,
                partitioned(parted, f, h),
                good ==> buckets_agree(parted, f, shift as nat),
                forall|x: int| psum(h, i as int) <= x < n ==> dst@[x] == parted[x],
                forall|d: int|
                    #![trigger psum(h, d)]
                    0 <= d < i ==> landed(src@, dst@, stay).subrange(
                        psum(h, d),
                        psum(h, d + 1),
                    ).to_multiset() == parted.subrange(psum(h, d), psum(h, d + 1)).to_multiset(),
                good ==> forall|d: int|
                    #![trigger psum(h, d)]
                    0 <= d < i ==> sorted(
                        landed(src@, dst@, stay).subrange(psum(h, d), psum(h, d + 1)),
                    ),
            decreases k - i,
        {
            let ghost d = i as int;
            let ghost src_before = src@;
            let ghost dst_before = dst@;
            let lo: usize = p_sums[i];
            let hi: usize = p_sums[i + 1];
            proof {
                lemma_psum_monotone(h, 0, d);
                lemma_psum_monotone(h, d, d + 1);
                lemma_psum_monotone(h, d + 1, k as int);
                assert(dst_before.subrange(lo as int, hi as int) =~= parted.subrange(
                    lo as int,
                    hi as int,
                ));
                if good {
                    lemma_bucket_range_agrees(parted, f, h, shift as nat, d);
                    lemma_shares_prefix_above(
                        parted.subrange(lo as int, hi as int),
                        shift as nat,
                        top_below,
                    );
                }
            }
            if histogram[i] > 1 {
                flip_bucket(dst, src, lo, hi, below, !stay);
            } else if stay && histogram[i] == 1 {
                src[lo] = dst[lo];
                proof {
                    assert(src@.subrange(lo as int, hi as int) =~= parted.subrange(
                        lo as int,
                        hi as int,
                    ));
                }
            } else {
                proof {
                    assert(landed(src@, dst@, stay).subrange(lo as int, hi as int)
                        =~= parted.subrange(lo as int, hi as int));
                }
            }
            proof {
                let res = landed(src@, dst@, stay);
                let res_before = landed(src_before, dst_before, stay);
                assert(res.subrange(lo as int, hi as int).to_multiset() == parted.subrange(
                    lo as int,
                    hi as int,
                ).to_multiset());
                if good && histogram@[d] <= 1 {
                    crate::order::lemma_short_sorted(res.subrange(lo as int, hi as int));
                }
                assert forall|e: int| #![trigger psum(h, e)] 0 <= e < i + 1 implies res.subrange(
                    psum(h, e),
                    psum(h, e + 1),
                ).to_multiset() == parted.subrange(psum(h, e), psum(h, e + 1)).to_multiset() by {
                    if e < d {
                        lemma_psum_monotone(h, 0, e);
                        lemma_psum_monotone(h, e, e + 1);
                        lemma_psum_monotone(h, e + 1, d);
                        assert(res.subrange(psum(h, e), psum(h, e + 1)) =~= res_before.subrange(
                            psum(h, e),
                            psum(h, e + 1),
                        ));
                    }
                }
                if good {
                    assert forall|e: int| #![trigger psum(h, e)] 0 <= e < i + 1 implies sorted(
                        res.subrange(psum(h, e), psum(h, e + 1)),
                    ) by {
                        if e < d {
                            lemma_psum_monotone(h, 0, e);
                            lemma_psum_monotone(h, e, e + 1);
                            lemma_psum_monotone(h, e + 1, d);
                            assert(res.subrange(psum(h, e), psum(h, e + 1))
                                =~= res_before.subrange(psum(h, e), psum(h, e + 1)));
                        }
                    }
                }
            }
            i = i + 1;
        }
        proof {
            let res = landed(src@, dst@, stay);
            lemma_regions_partitioned(res, parted, f, h);
            crate::buckets::lemma_perm_in_range(parted, res, f, k as int);
            if good {
                lemma_perm_shares_prefix(parted, res, top);
                crate::order::lemma_buckets_sorted(res, h, shift as nat, p.radix as nat);
            }
        }
    } else {
        proof {
            if good {
                crate::order::lemma_last_digit_sorted(parted, h, p.radix as nat);
            }
        }
        if stay {
            copy_nonoverlapping(dst, src, n);
            proof {
                assert(src@ =~= parted);
            }
        }
    }
}

/// Keys that agree above a bit still do after a rearrangement, if they did.
pub proof fn lemma_perm_shares_prefix_if<T: Radixable>(a: Seq<T>, b: Seq<T>, w: nat)
    requires
        a.to_multiset() == b.to_multiset(),
    ensures
        shared_prefix(a, w) ==> shared_prefix(b, w),
{
    if shared_prefix(a, w) {
        lemma_perm_shares_prefix(a, b, w);
    }
}

/// MSD radix sort with a scratch buffer and digits of `radix` bits.
///
/// Sorts the slice by key. An input that `rejection` turns down is left as
/// it was and the reason returned.
pub fn msd_radixsort<T: Radixable + Copy>(arr: &mut [T], radix: usize) -> (r: Result<
    (),
    SortError,
>)
    ensures
        final(arr)@.len() == old(arr)@.len(),
        match rejection(old(arr)@, radix) {
            Some(e) => r == Err::<(), SortError>(e) && final(arr)@ == old(arr)@,
            None => r.is_ok() && sorted(final(arr)@) && final(arr)@.to_multiset() == old(
                arr,
            )@.to_multiset(),
        },
{
    match check_input(arr, radix) {
        Some(e) => {
            return Err(e);
        },
        None => {},
    }
    if arr.len() <= 1 {
        return Ok(());
    }
    msd_run(arr, radix);
    Ok(())
}

/// The sort of `msd_radixsort`, for an input that was checked.
pub(crate) fn msd_run<T: Radixable + Copy>(arr: &mut [T], radix: usize)
    requires
        1 <= radix <= 8,
        T::bits() <= 128,
    ensures
        final(arr)@.len() == old(arr)@.len(),
        final(arr)@.to_multiset() == old(arr)@.to_multiset(),
        sorted(final(arr)@),
{
    if arr.len() <= 64 {
        insertion_sort(arr);
        return ;
    }
    let (_, raw_offset) = compute_offset(arr, radix);
    let max_level: usize = compute_max_level(T::type_size(), raw_offset, radix);
    if max_level == 0 {
        proof {
            lemma_levels_cover((T::bits() - raw_offset) as nat, radix as nat);
            crate::order::lemma_below_shares_prefix(arr@, 0);
            crate::order::lemma_equal_keys_sorted(arr@);
        }
        return ;
    }
    let params = Params::new(0, radix, raw_offset, max_level);
    proof {
        lemma_first_level_covers(arr@, params);
    }
    let mut buffer: Vec<T> = vec![arr[0]; arr.len()];
    msd_radixsort_rec(arr, buffer.as_mut_slice(), params, true);
}

/// The keys of a slice agree above the first digit of the context that was
/// made from its largest key.
pub proof fn lemma_first_level_covers<T: Radixable>(s: Seq<T>, p: Params)
    requires
        p.level == 0,
        p.offset <= T::bits(),
        keys_below(s, (T::bits() - p.offset) as nat),
    ensures
        shared_prefix(s, p.shift_from_left(T::bits()) + p.radix as nat),
{
    let width = (T::bits() - p.offset) as nat;
    let top = p.shift_from_left(T::bits()) + p.radix as nat;
    assert(p.radix * (p.level + 1) == p.radix) by (nonlinear_arith)
        requires
            p.level == 0,
    ;
    crate::order::lemma_below_shares_prefix(s, width);
    lemma_shares_prefix_above(s, width, top);
}

} // verus!
