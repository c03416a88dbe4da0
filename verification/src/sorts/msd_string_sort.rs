//! MSD radix sort of strings, byte by byte: the digit of a string at a
//! level is its byte there, and a bucket of its own, before all bytes, for
//! the strings that have ended.

use crate::buckets::{
    bucket_fn, in_range, lemma_bucket_unique, lemma_histogram_unique, lemma_partitioned_ordered,
    lemma_perm_in_range, lemma_psum_monotone, lemma_psum_total, partitioned, psum, Bucketer,
};
use crate::radixable::SortError;
use crate::sorts::american_flag_sort::{
    lemma_bucket_rearranged, lemma_range_rearranged, partition_in_place, range_rearranged,
};
use crate::sorts::comparative_sort::swap;
use crate::sorts::utils::{histogram_by, prefix_sums};
use crate::sorts::voracious_sort::RadixSort;
use vstd::prelude::*;
use vstd::string::StringSliceAdditionalSpecFns;

verus! {

/// Number of buckets of a level: one for each byte, and one for the
/// strings that have ended.
pub const STRING_BUCKETS: usize = 257;

/// Longest slice that goes to insertion sort.
pub const STRING_INSERTION_MAX: usize = 32;

/// The bytes of a string.
pub open spec fn bytes_of(s: &str) -> Seq<u8> {
    s.spec_bytes()
}

/// Whether `a` comes no later than `b`, looking at the bytes from `l` on
/// and no further than `limit`: the first byte that differs decides, and a
/// string that ends comes first.
pub open spec fn le_from(a: Seq<u8>, b: Seq<u8>, l: int, limit: int) -> bool
    decreases limit - l,
{
    if l >= limit || l >= a.len() || l < 0 {
        true
    } else if l >= b.len() {
        false
    } else if a[l] != b[l] {
        a[l] < b[l]
    } else {
        le_from(a, b, l + 1, limit)
    }
}

/// The order of strings by their bytes.
pub open spec fn bytes_le(a: Seq<u8>, b: Seq<u8>) -> bool {
    le_from(a, b, 0, a.len() as int)
}

/// The strings do not decrease, as far as their first `limit` bytes tell.
pub open spec fn strings_sorted_upto(s: Seq<&str>, limit: int) -> bool {
    forall|i: int, j: int|
        0 <= i <= j < s.len() ==> le_from(bytes_of(s[i]), bytes_of(s[j]), 0, limit)
}

/// The strings do not decrease in the order of their bytes.
pub open spec fn strings_sorted(s: Seq<&str>) -> bool {
    forall|i: int, j: int| 0 <= i <= j < s.len() ==> bytes_le(bytes_of(s[i]), bytes_of(s[j]))
}

/// Both strings have a byte at `k`, and the same one.
pub open spec fn same_at(a: Seq<u8>, b: Seq<u8>, k: int) -> bool {
    k < a.len() && k < b.len() && a[k] == b[k]
}

/// Both strings have `l` bytes at least, and the same first `l` bytes.
pub open spec fn agree(a: Seq<u8>, b: Seq<u8>, l: int) -> bool {
    forall|k: int| 0 <= k < l ==> #[trigger] same_at(a, b, k)
}

/// Any two of the strings agree on their first `l` bytes.
pub open spec fn all_agree(s: Seq<&str>, l: int) -> bool {
    forall|i: int, j: int|
        0 <= i < s.len() && 0 <= j < s.len() ==> agree(bytes_of(s[i]), bytes_of(s[j]), l)
}

/// No string is longer than `limit`.
pub open spec fn lengths_within(s: Seq<&str>, limit: int) -> bool {
    forall|i: int| 0 <= i < s.len() ==> bytes_of(#[trigger] s[i]).len() <= limit
}

/// The bucket of a string at a level.
pub open spec fn byte_bucket(a: Seq<u8>, level: int) -> int {
    if 0 <= level < a.len() {
        a[level] + 1
    } else {
        0
    }
}

/// The bytes on which two strings agree do not decide their order.
pub proof fn lemma_le_skip(a: Seq<u8>, b: Seq<u8>, k: int, l: int, limit: int)
    requires
        0 <= k <= l <= limit,
        agree(a, b, l),
    ensures
        le_from(a, b, k, limit) == le_from(a, b, l, limit),
    decreases l - k,
{
    if k < l {
        lemma_le_skip(a, b, k + 1, l, limit);
        assert(same_at(a, b, k));
    }
}

/// Of two strings one comes no later than the other.
pub proof fn lemma_le_total(a: Seq<u8>, b: Seq<u8>, l: int, limit: int)
    requires
        0 <= l,
    ensures
        le_from(a, b, l, limit) || le_from(b, a, l, limit),
    decreases limit - l,
{
    if l < limit && l < a.len() && l < b.len() && a[l] == b[l] {
        lemma_le_total(a, b, l + 1, limit);
    }
}

/// The order is transitive.
pub proof fn lemma_le_trans(a: Seq<u8>, b: Seq<u8>, c: Seq<u8>, l: int, limit: int)
    requires
        0 <= l,
        le_from(a, b, l, limit),
        le_from(b, c, l, limit),
    ensures
        le_from(a, c, l, limit),
    decreases limit - l,
{
    if l < limit && l < a.len() {
        if a[l] == b[l] && b[l] == c[l] {
            lemma_le_trans(a, b, c, l + 1, limit);
        }
    }
}

/// A limit past the end of the first string is no limit.
pub proof fn lemma_le_limit(a: Seq<u8>, b: Seq<u8>, l: int, limit: int)
    requires
        0 <= l,
        a.len() <= limit,
    ensures
        le_from(a, b, l, limit) == le_from(a, b, l, a.len() as int),
    decreases a.len() - l,
{
    if l < a.len() && l < b.len() && a[l] == b[l] {
        lemma_le_limit(a, b, l + 1, limit);
    }
}

/// Strings no longer than the limit that are sorted up to it are sorted.
pub proof fn lemma_sorted_upto_is_sorted(s: Seq<&str>, limit: int)
    requires
        strings_sorted_upto(s, limit),
        lengths_within(s, limit),
    ensures
        strings_sorted(s),
{
    assert forall|i: int, j: int| 0 <= i <= j < s.len() implies bytes_le(
        bytes_of(s[i]),
        bytes_of(s[j]),
    ) by {
        assert(bytes_of(s[i]).len() <= limit);
        lemma_le_limit(bytes_of(s[i]), bytes_of(s[j]), 0, limit);
    }
}

/// Whether `a` comes no later than `b`, by their first `limit` bytes.
pub fn bytes_le_upto(a: &str, b: &str, limit: usize) -> (r: bool)
    ensures
        r == le_from(bytes_of(a), bytes_of(b), 0, limit as int),
{
    let x: &[u8] = a.as_bytes();
    let y: &[u8] = b.as_bytes();
    let n: usize = x.len();
    let m: usize = y.len();
    let mut k: usize = 0;
    loop
        invariant
            x@ == bytes_of(a),
            y@ == bytes_of(b),
            n == x@.len(),
            m == y@.len(),
            k <= n,
            k <= limit,
            le_from(x@, y@, 0, limit as int) == le_from(x@, y@, k as int, limit as int),
        ensures
            k <= n,
        decreases n - k,
    {
        if k >= limit || k >= n {
            return true;
        }
        if k >= m {
            return false;
        }
        if x[k] != y[k] {
            return x[k] < y[k];
        }
        k = k + 1;
    }
}

/// Insertion sort of strings by their first `limit` bytes.
pub fn string_insertion_sort(arr: &mut [&str], limit: usize)
    ensures
        final(arr)@.len() == old(arr)@.len(),
        final(arr)@.to_multiset() == old(arr)@.to_multiset(),
        strings_sorted_upto(final(arr)@, limit as int),
{
    let n: usize = arr.len();
    let mut i: usize = 1;
    proof {
        if n > 0 {
            lemma_le_total(bytes_of(arr@[0]), bytes_of(arr@[0]), 0, limit as int);
        }
    }
    while i < n
        invariant
            arr@.len() == n,
            1 <= i,
            arr@.to_multiset() == old(arr)@.to_multiset(),
            forall|a: int, b: int|
                0 <= a <= b < i && b < n ==> le_from(
                    bytes_of(arr@[a]),
                    bytes_of(arr@[b]),
                    0,
                    limit as int,
                ),
        decreases n - i,
    {
        let mut j: usize = i;
        while j > 0 && !bytes_le_upto(arr[j - 1], arr[j], limit)
            invariant
                arr@.len() == n,
                j <= i < n,
                arr@.to_multiset() == old(arr)@.to_multiset(),
                forall|a: int, b: int|
                    0 <= a <= b <= i && a != j && b != j ==> le_from(
                        bytes_of(arr@[a]),
                        bytes_of(arr@[b]),
                        0,
                        limit as int,
                    ),
                forall|b: int|
                    j < b <= i ==> le_from(
                        bytes_of(arr@[j as int]),
                        bytes_of(arr@[b]),
                        0,
                        limit as int,
                    ),
            decreases j,
        {
            proof {
                lemma_le_total(bytes_of(arr@[j - 1]), bytes_of(arr@[j as int]), 0, limit as int);
            }
            swap(arr, j, j - 1);
            j = j - 1;
        }
        proof {
            assert forall|a: int, b: int| 0 <= a <= b < i + 1 implies le_from(
                bytes_of(arr@[a]),
                bytes_of(arr@[b]),
                0,
                limit as int,
            ) by {
                if a == b {
                    lemma_le_total(bytes_of(arr@[a]), bytes_of(arr@[a]), 0, limit as int);
                } else if b == j && j > 0 {
                    if a < j - 1 {
                        lemma_le_trans(
                            bytes_of(arr@[a]),
                            bytes_of(arr@[j - 1]),
                            bytes_of(arr@[j as int]),
                            0,
                            limit as int,
                        );
                    }
                }
            }
        }
        i = i + 1;
    }
    proof {
        assert forall|a: int, b: int| 0 <= a <= b < arr@.len() implies le_from(
            bytes_of(arr@[a]),
            bytes_of(arr@[b]),
            0,
            limit as int,
        ) by {
            if n == 0 {
            } else if n == 1 {
                lemma_le_total(bytes_of(arr@[a]), bytes_of(arr@[a]), 0, limit as int);
            }
        }
    }
}

/// The byte of a string at a level as a bucket.
pub struct ByteAt {
    pub level: usize,
}

impl<'a> Bucketer<&'a str> for ByteAt {
    open spec fn wf(&self) -> bool {
        true
    }

    open spec fn buckets(&self) -> int {
        STRING_BUCKETS as int
    }

    open spec fn spec_bucket(&self, x: &'a str) -> int {
        byte_bucket(bytes_of(x), self.level as int)
    }

    fn size(&self) -> (k: usize) {
        STRING_BUCKETS
    }

    fn bucket(&self, x: &&'a str) -> (b: usize) {
        let bytes: &[u8] = x.as_bytes();
        if self.level < bytes.len() {
            bytes[self.level] as usize + 1
        } else {
            0
        }
    }

    proof fn lemma_in_range(&self, x: &'a str) {
    }
}

/// Strings that agree on their first bytes still do after a rearrangement.
pub proof fn lemma_perm_all_agree(a: Seq<&str>, b: Seq<&str>, l: int)
    requires
        a.to_multiset() == b.to_multiset(),
        all_agree(a, l),
    ensures
        all_agree(b, l),
{
    assert forall|i: int, j: int| 0 <= i < b.len() && 0 <= j < b.len() implies agree(
        bytes_of(b[i]),
        bytes_of(b[j]),
        l,
    ) by {
        vstd::seq_lib::to_multiset_contains(b, b[i]);
        vstd::seq_lib::to_multiset_contains(a, b[i]);
        vstd::seq_lib::to_multiset_contains(b, b[j]);
        vstd::seq_lib::to_multiset_contains(a, b[j]);
        assert(b.contains(b[i]) && b.contains(b[j]));
        let x = choose|x: int| 0 <= x < a.len() && a[x] == b[i];
        let y = choose|y: int| 0 <= y < a.len() && a[y] == b[j];
        assert(agree(bytes_of(a[x]), bytes_of(a[y]), l));
    }
}

/// In a slice partitioned on the byte at `level`, the strings of a bucket
/// of a byte agree on one byte more.
pub proof fn lemma_string_bucket_agrees(s: Seq<&str>, h: Seq<usize>, level: usize, d: int)
    requires
        partitioned(s, bucket_fn::<&str, ByteAt>(ByteAt { level }), h),
        all_agree(s, level as int),
        d >= 1,
        0 <= psum(h, d) <= psum(h, d + 1) <= s.len(),
    ensures
        all_agree(s.subrange(psum(h, d), psum(h, d + 1)), level + 1),
{
    let f = bucket_fn::<&str, ByteAt>(ByteAt { level });
    let lo = psum(h, d);
    let t = s.subrange(lo, psum(h, d + 1));
    assert forall|i: int, j: int| 0 <= i < t.len() && 0 <= j < t.len() implies agree(
        bytes_of(t[i]),
        bytes_of(t[j]),
        level + 1,
    ) by {
        assert(t[i] == s[lo + i] && t[j] == s[lo + j]);
        lemma_bucket_unique(h, d, f(s[lo + i]), lo + i);
        lemma_bucket_unique(h, d, f(s[lo + j]), lo + j);
        assert(agree(bytes_of(s[lo + i]), bytes_of(s[lo + j]), level as int));
    }
}

/// A slice that is partitioned on the byte at `level`, whose strings agree
/// before that byte, and whose buckets of bytes are each sorted, is
/// sorted.
pub proof fn lemma_string_buckets_sorted(s: Seq<&str>, h: Seq<usize>, level: usize, limit: int)
    requires
        level < limit,
        h.len() == STRING_BUCKETS,
        partitioned(s, bucket_fn::<&str, ByteAt>(ByteAt { level }), h),
        in_range(s, bucket_fn::<&str, ByteAt>(ByteAt { level }), STRING_BUCKETS as int),
        psum(h, STRING_BUCKETS as int) == s.len(),
        all_agree(s, level as int),
        forall|d: int|
            #![trigger psum(h, d)]
            1 <= d < STRING_BUCKETS ==> strings_sorted_upto(
                s.subrange(psum(h, d), psum(h, d + 1)),
                limit,
            ),
    ensures
        strings_sorted_upto(s, limit),
{
    let f = bucket_fn::<&str, ByteAt>(ByteAt { level });
    lemma_partitioned_ordered(s, f, h);
    assert forall|i: int, j: int| 0 <= i <= j < s.len() implies le_from(
        bytes_of(s[i]),
        bytes_of(s[j]),
        0,
        limit,
    ) by {
        let a = bytes_of(s[i]);
        let b = bytes_of(s[j]);
        let di = f(s[i]);
        let dj = f(s[j]);
        assert(di <= dj);
        assert(agree(a, b, level as int));
        lemma_le_skip(a, b, 0, level as int, limit);
        if di == dj && di >= 1 {
            let lo = psum(h, di);
            let hi = psum(h, di + 1);
            lemma_psum_monotone(h, di + 1, STRING_BUCKETS as int);
            lemma_psum_monotone(h, 0, di);
            let t = s.subrange(lo, hi);
            assert(strings_sorted_upto(t, limit));
            assert(t[i - lo] == s[i] && t[j - lo] == s[j]);
        }
    }
}

/// Sorts the range `lo..hi` of the slice, one bucket of the level above,
/// from `level` on.
fn sort_string_bucket<'a>(arr: &mut [&'a str], lo: usize, hi: usize, level: usize, max_len: usize)
    requires
        lo <= hi <= old(arr)@.len(),
        level <= max_len,
    ensures
        range_rearranged(old(arr)@, final(arr)@, lo as int, hi as int),
        all_agree(old(arr)@.subrange(lo as int, hi as int), level as int) ==> strings_sorted_upto(
            final(arr)@.subrange(lo as int, hi as int),
            max_len as int,
        ),
    decreases max_len - level, 1nat,
{
    let (_left, rest) = arr.split_at_mut(lo);
    let (mid, _right) = rest.split_at_mut(hi - lo);
    let ghost mid_before = mid@;
    msd_string_rec(mid, level, max_len);
    proof {
        assert(old(arr)@.subrange(lo as int, hi as int) =~= mid_before);
        assert(final(arr)@.subrange(lo as int, hi as int) =~= mid@);
    }
}

/// One level of the sort and, bucket by bucket, the levels below it.
///
/// The slice is rearranged; it comes out sorted up to `max_len` bytes
/// where its strings agree on their first `level` bytes.
pub fn msd_string_rec<'a>(arr: &mut [&'a str], level: usize, max_len: usize)
    requires
        level <= max_len,
    ensures
        final(arr)@.len() == old(arr)@.len(),
        final(arr)@.to_multiset() == old(arr)@.to_multiset(),
        all_agree(old(arr)@, level as int) ==> strings_sorted_upto(final(arr)@, max_len as int),
    decreases max_len - level, 0nat,
{
    if arr.len() <= STRING_INSERTION_MAX {
        string_insertion_sort(arr, max_len);
        return ;
    }
    if level == max_len {
        proof {
            if all_agree(arr@, level as int) {
                assert forall|i: int, j: int| 0 <= i <= j < arr@.len() implies le_from(
                    bytes_of(arr@[i]),
                    bytes_of(arr@[j]),
                    0,
                    max_len as int,
                ) by {
                    assert(agree(bytes_of(arr@[i]), bytes_of(arr@[j]), level as int));
                    lemma_le_skip(
                        bytes_of(arr@[i]),
                        bytes_of(arr@[j]),
                        0,
                        level as int,
                        max_len as int,
                    );
                }
            }
        }
        return ;
    }
    let by = ByteAt { level };
    let ghost f = bucket_fn::<&str, ByteAt>(by);
    let ghost good = all_agree(old(arr)@, level as int);
    let n: usize = arr.len();
    let histogram: Vec<usize> = histogram_by(arr, &by);
    let ghost h = histogram@;
    proof {
        assert forall|i: int| #![trigger arr@[i]] 0 <= i < arr@.len() implies 0 <= f(arr@[i])
            < STRING_BUCKETS by {}
        lemma_psum_total(arr@, f, h);
    }
    let (p_sums, mut heads, tails) = prefix_sums(histogram.as_slice());
    proof {
        lemma_histogram_unique(h, arr@, f);
    }
    partition_in_place(arr, &mut heads, tails.as_slice(), &by);
    proof {
        lemma_perm_in_range(old(arr)@, arr@, f, STRING_BUCKETS as int);
        if good {
            lemma_perm_all_agree(old(arr)@, arr@, level as int);
        }
    }
    let mut i: usize = 1;
    while i < STRING_BUCKETS
        invariant
            1 <= i <= STRING_BUCKETS,
            level < max_len,
            h.len() == STRING_BUCKETS,
            h == histogram@,
            n == arr@.len(),
            p_sums@.len() == STRING_BUCKETS + 1,
            forall|d: int| 0 <= d <= STRING_BUCKETS ==> #[trigger] p_sums@[d] == psum(h, d),
            psum(h, STRING_BUCKETS as int) == n,
            f == bucket_fn::<&str, ByteAt>(ByteAt { level }),
            arr@.to_multiset() == old(arr)@.to_multiset(),
            partitioned(arr@, f, h),
            in_range(arr@, f, STRING_BUCKETS as int),
            good ==> all_agree(arr@, level as int),
            good ==> forall|d: int|
                #![trigger psum(h, d)]
                1 <= d < i ==> strings_sorted_upto(
                    arr@.subrange(psum(h, d), psum(h, d + 1)),
                    max_len as int,
                ),
        decreases STRING_BUCKETS - i,
    {
        let ghost d = i as int;
        let ghost before = arr@;
        proof {
            lemma_psum_monotone(h, 0, d);
            lemma_psum_monotone(h, d, d + 1);
            lemma_psum_monotone(h, d + 1, STRING_BUCKETS as int);
        }
        if histogram[i] > 1 {
            sort_string_bucket(arr, p_sums[i], p_sums[i + 1], level + 1, max_len);
            proof {
                lemma_range_rearranged(before, arr@, psum(h, d), psum(h, d + 1));
                lemma_bucket_rearranged(before, arr@, f, h, d);
                lemma_perm_in_range(before, arr@, f, STRING_BUCKETS as int);
                if good {
                    lemma_perm_all_agree(before, arr@, level as int);
                    lemma_string_bucket_agrees(before, h, level, d);
                }
            }
        } else {
            proof {
                let piece = arr@.subrange(psum(h, d), psum(h, d + 1));
                assert forall|a: int, b: int| 0 <= a <= b < piece.len() implies le_from(
                    bytes_of(piece[a]),
                    bytes_of(piece[b]),
                    0,
                    max_len as int,
                ) by {
                    lemma_le_total(bytes_of(piece[a]), bytes_of(piece[a]), 0, max_len as int);
                }
            }
        }
        proof {
            if good {
                assert forall|e: int|
                    #![trigger psum(h, e)]
                    1 <= e < i + 1 implies strings_sorted_upto(
                    arr@.subrange(psum(h, e), psum(h, e + 1)),
                    max_len as int,
                ) by {
                    if e < d {
                        lemma_psum_monotone(h, 0, e);
                        lemma_psum_monotone(h, e, e + 1);
                        lemma_psum_monotone(h, e + 1, d);
                        assert(arr@.subrange(psum(h, e), psum(h, e + 1)) =~= before.subrange(
                            psum(h, e),
                            psum(h, e + 1),
                        ));
                    }
                }
            }
        }
        i = i + 1;
    }
    proof {
        if good {
            lemma_string_buckets_sorted(arr@, h, level, max_len as int);
        }
    }
}

/// MSD radix sort of strings by their first `max_len` bytes.
///
/// The slice is rearranged and comes out sorted up to `max_len` bytes; so
/// it is sorted where no string is longer than that.
pub fn msd_string_radixsort<'a>(arr: &mut [&'a str], max_len: usize)
    ensures
        final(arr)@.len() == old(arr)@.len(),
        final(arr)@.to_multiset() == old(arr)@.to_multiset(),
        strings_sorted_upto(final(arr)@, max_len as int),
        lengths_within(old(arr)@, max_len as int) ==> strings_sorted(final(arr)@),
{
    msd_string_rec(arr, 0, max_len);
    proof {
        if lengths_within(old(arr)@, max_len as int) {
            let fits = |x: &str| bytes_of(x).len() <= max_len;
            assert forall|i: int| #![trigger old(arr)@[i]] 0 <= i < old(arr)@.len() implies fits(
                old(arr)@[i],
            ) by {}
            crate::buckets::lemma_perm_all(old(arr)@, arr@, fits);
            assert forall|i: int| 0 <= i < arr@.len() implies bytes_of(#[trigger] arr@[i]).len()
                <= max_len by {
                assert(fits(arr@[i]));
            }
            lemma_sorted_upto_is_sorted(arr@, max_len as int);
        }
    }
}

/// Length of the longest string; 0 for an empty slice.
pub fn longest(arr: &[&str]) -> (m: usize)
    ensures
        lengths_within(arr@, m as int),
        arr@.len() == 0 ==> m == 0,
        arr@.len() > 0 ==> exists|i: int| 0 <= i < arr@.len() && bytes_of(arr@[i]).len() == m,
{
    let n: usize = arr.len();
    let mut m: usize = 0;
    let mut i: usize = 0;
    while i < n
        invariant
            i <= n,
            n == arr@.len(),
            forall|j: int| 0 <= j < i ==> bytes_of(#[trigger] arr@[j]).len() <= m,
            i == 0 ==> m == 0,
            i > 0 ==> exists|j: int| 0 <= j < i && bytes_of(arr@[j]).len() == m,
        decreases n - i,
    {
        let len: usize = arr[i].as_bytes().len();
        if len > m || i == 0 {
            m = len;
        }
        i = i + 1;
    }
    m
}

impl<'a> RadixSort for [&'a str] {
    /// Sorts the strings in the order of their bytes.
    fn voracious_sort(&mut self) -> (r: Result<(), SortError>)
        ensures
            r.is_ok(),
            final(self)@.len() == old(self)@.len(),
            final(self)@.to_multiset() == old(self)@.to_multiset(),
            strings_sorted(final(self)@),
    {
        let max_len: usize = longest(self);
        msd_string_radixsort(self, max_len);
        Ok(())
    }

    /// Sorts the strings in the order of their bytes.
    fn dlsd_sort(&mut self) -> (r: Result<(), SortError>)
        ensures
            r.is_ok(),
            final(self)@.len() == old(self)@.len(),
            final(self)@.to_multiset() == old(self)@.to_multiset(),
            strings_sorted(final(self)@),
    {
        let max_len: usize = longest(self);
        msd_string_radixsort(self, max_len);
        Ok(())
    }
}

/// Two strings of which each comes no later than the other are the same
/// bytes.
pub proof fn lemma_le_antisymmetric(a: Seq<u8>, b: Seq<u8>, l: int, limit: int)
    requires
        0 <= l,
        a.len() <= limit,
        b.len() <= limit,
        agree(a, b, l),
        le_from(a, b, l, limit),
        le_from(b, a, l, limit),
    ensures
        a == b,
    decreases limit - l,
{
    if l < a.len() {
        assert(l < b.len());
        assert(a[l] == b[l]);
        assert forall|k: int| 0 <= k < l + 1 implies #[trigger] same_at(a, b, k) by {
            if k < l {
                assert(same_at(a, b, k));
            }
        }
        lemma_le_antisymmetric(a, b, l + 1, limit);
    } else {
        assert(b.len() <= l);
        assert forall|k: int| 0 <= k < a.len() implies a[k] == b[k] by {
            assert(same_at(a, b, k));
        }
        if l > 0 {
            assert(same_at(a, b, l - 1));
        }
        assert(a =~= b);
    }
}

/// The order of strings by their bytes, as a relation.
pub open spec fn bytes_leq() -> spec_fn(Seq<u8>, Seq<u8>) -> bool {
    |a: Seq<u8>, b: Seq<u8>| bytes_le(a, b)
}

/// The order of strings by their bytes is a total order.
pub proof fn lemma_bytes_order_total()
    ensures
        vstd::relations::total_ordering(bytes_leq()),
{
    let leq = bytes_leq();
    assert forall|a: Seq<u8>| #[trigger] leq(a, a) by {
        lemma_le_total(a, a, 0, a.len() as int);
    }
    assert forall|a: Seq<u8>, b: Seq<u8>| #[trigger] leq(a, b) && #[trigger] leq(b, a) implies a
        == b by {
        let limit = (a.len() + b.len()) as int;
        lemma_le_limit(a, b, 0, limit);
        lemma_le_limit(b, a, 0, limit);
        lemma_le_antisymmetric(a, b, 0, limit);
    }
    assert forall|a: Seq<u8>, b: Seq<u8>, c: Seq<u8>| #[trigger]
        leq(a, b) && #[trigger] leq(b, c) implies leq(a, c) by {
        let limit = (a.len() + b.len() + c.len()) as int;
        lemma_le_limit(a, b, 0, limit);
        lemma_le_limit(b, c, 0, limit);
        lemma_le_limit(a, c, 0, limit);
        lemma_le_trans(a, b, c, 0, limit);
    }
    assert forall|a: Seq<u8>, b: Seq<u8>| #[trigger] leq(a, b) || #[trigger] leq(b, a) by {
        let limit = (a.len() + b.len()) as int;
        lemma_le_limit(a, b, 0, limit);
        lemma_le_limit(b, a, 0, limit);
        lemma_le_total(a, b, 0, limit);
    }
}

/// The bytes of the strings of a slice, string by string.
pub open spec fn all_bytes(s: Seq<&str>) -> Seq<Seq<u8>> {
    s.map_values(|x: &str| bytes_of(x))
}

/// Rearranging the strings rearranges their bytes.
pub proof fn lemma_perm_all_bytes(a: Seq<&str>, b: Seq<&str>)
    requires
        a.to_multiset() == b.to_multiset(),
    ensures
        all_bytes(a).to_multiset() == all_bytes(b).to_multiset(),
    decreases a.len(),
{
    broadcast use vstd::multiset::group_multiset_axioms;

    vstd::seq_lib::to_multiset_len(a);
    vstd::seq_lib::to_multiset_len(b);
    if a.len() == 0 {
        assert(all_bytes(a) =~= all_bytes(b));
    } else {
        let x = a.last();
        assert(a.contains(x));
        vstd::seq_lib::to_multiset_contains(a, x);
        vstd::seq_lib::to_multiset_contains(b, x);
        let i = choose|i: int| 0 <= i < b.len() && b[i] == x;
        let a1 = a.drop_last();
        let b1 = b.remove(i);
        assert(a1 =~= a.remove(a.len() - 1));
        vstd::seq_lib::to_multiset_remove(a, a.len() - 1);
        vstd::seq_lib::to_multiset_remove(b, i);
        lemma_perm_all_bytes(a1, b1);
        let f = |x: &str| bytes_of(x);
        assert(all_bytes(a) =~= all_bytes(a1).push(f(x)));
        assert(all_bytes(b) =~= all_bytes(b1).insert(i, f(x)));
        vstd::seq_lib::to_multiset_build(all_bytes(a1), f(x));
        vstd::seq_lib::to_multiset_insert(all_bytes(b1), i, f(x));
    }
}

/// There is one sorted arrangement of given strings, byte for byte: any
/// two sorts of one slice of strings give the same bytes in the same
/// places, and sorting a sorted slice gives the same bytes again.
pub proof fn law_strings_one_result(x: Seq<&str>, a: Seq<&str>, b: Seq<&str>)
    requires
        strings_sorted(a),
        strings_sorted(b),
        a.to_multiset() == x.to_multiset(),
        b.to_multiset() == x.to_multiset(),
    ensures
        a.len() == b.len(),
        forall|i: int| 0 <= i < a.len() ==> bytes_of(#[trigger] a[i]) == bytes_of(b[i]),
{
    let leq = bytes_leq();
    lemma_bytes_order_total();
    lemma_perm_all_bytes(a, b);
    assert(vstd::relations::sorted_by(all_bytes(a), leq)) by {
        assert forall|i: int, j: int| 0 <= i < j < all_bytes(a).len() implies #[trigger] leq(
            all_bytes(a)[i],
            all_bytes(a)[j],
        ) by {
            assert(bytes_le(bytes_of(a[i]), bytes_of(a[j])));
        }
    }
    assert(vstd::relations::sorted_by(all_bytes(b), leq)) by {
        assert forall|i: int, j: int| 0 <= i < j < all_bytes(b).len() implies #[trigger] leq(
            all_bytes(b)[i],
            all_bytes(b)[j],
        ) by {
            assert(bytes_le(bytes_of(b[i]), bytes_of(b[j])));
        }
    }
    vstd::seq_lib::lemma_sorted_unique(all_bytes(a), all_bytes(b), leq);
    assert forall|i: int| 0 <= i < a.len() implies bytes_of(#[trigger] a[i]) == bytes_of(b[i]) by {
        assert(all_bytes(a)[i] == all_bytes(b)[i]);
    }
}

} // verus!
