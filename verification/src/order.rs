//! What it means for a slice to be sorted, and how the passes of the radix
//! sorts add up to it.

use crate::buckets::{
    bucket_concat, in_range, lemma_bucket_concat_ordered, lemma_bucket_unique,
    lemma_partitioned_ordered, lemma_psum_monotone, lex_ordered, ordered_by, partitioned, psum,
};
use crate::digits::{
    digit, lemma_digit_orders_prefix, lemma_low_ordered, lemma_low_small, lemma_low_zero,
    lemma_prefix_ordered, lemma_prefix_zero, low, prefix,
};
use crate::radixable::Radixable;
use vstd::arithmetic::power2::pow2;
use vstd::prelude::*;
use vstd::relations::{sorted_by, total_ordering};
use vstd::seq_lib::lemma_sorted_unique;

verus! {

/// The keys of `s` do not decrease.
pub open spec fn sorted<T: Radixable>(s: Seq<T>) -> bool {
    forall|i: int, j: int| 0 <= i <= j < s.len() ==> s[i].key() <= s[j].key()
}

/// Every element of `s` may be sorted.
pub open spec fn all_valid<T: Radixable>(s: Seq<T>) -> bool {
    forall|i: int| 0 <= i < s.len() ==> (#[trigger] s[i]).valid()
}

/// The bucket function of one pass: the digit at `shift`.
pub open spec fn digit_fn<T: Radixable>(shift: nat, radix: nat) -> spec_fn(T) -> int {
    |x: T| digit(x.key() as nat, shift, radix) as int
}

/// The keys of `s` agree above their `w` lowest bits.
pub open spec fn shared_prefix<T: Radixable>(s: Seq<T>, w: nat) -> bool {
    forall|i: int, j: int|
        0 <= i < s.len() && 0 <= j < s.len() ==> prefix(s[i].key() as nat, w) == prefix(
            s[j].key() as nat,
            w,
        )
}

/// The keys of `s` have no bit set above their `w` lowest.
pub open spec fn keys_below<T: Radixable>(s: Seq<T>, w: nat) -> bool {
    forall|i: int| 0 <= i < s.len() ==> (#[trigger] s[i]).key() < pow2(w)
}

/// The order on elements that the keys give.
pub open spec fn key_leq<T: Radixable>() -> spec_fn(T, T) -> bool {
    |x: T, y: T| x.key() <= y.key()
}

/// There is one sorted arrangement of given elements: two sorted slices
/// with the same elements are equal.
pub proof fn lemma_sorted_is_unique<T: Radixable>(a: Seq<T>, b: Seq<T>)
    requires
        T::bits() <= 128,
        sorted(a),
        sorted(b),
        a.to_multiset() == b.to_multiset(),
    ensures
        a == b,
{
    let leq = key_leq::<T>();
    assert forall|x: T, y: T| #[trigger] leq(x, y) && #[trigger] leq(y, x) implies x == y by {
        T::key_injective(x, y);
    }
    assert(total_ordering(leq));
    assert(sorted_by(a, leq));
    assert(sorted_by(b, leq));
    lemma_sorted_unique(a, b, leq);
}

/// A slice of at most one element is sorted.
pub proof fn lemma_short_sorted<T: Radixable>(s: Seq<T>)
    requires
        s.len() <= 1,
    ensures
        sorted(s),
{
}

/// Elements that agree on every bit of their keys make a sorted slice.
pub proof fn lemma_equal_keys_sorted<T: Radixable>(s: Seq<T>)
    requires
        shared_prefix(s, 0),
    ensures
        sorted(s),
{
    assert forall|i: int, j: int| 0 <= i <= j < s.len() implies s[i].key() <= s[j].key() by {
        lemma_prefix_zero(s[i].key() as nat);
        lemma_prefix_zero(s[j].key() as nat);
    }
}

/// After a distribution pass on the digit at `shift`, the elements of one
/// bucket agree on everything above `shift`.
pub proof fn lemma_bucket_shares_prefix<T: Radixable>(
    s: Seq<T>,
    h: Seq<usize>,
    shift: nat,
    radix: nat,
    d: int,
)
    requires
        partitioned(s, digit_fn::<T>(shift, radix), h),
        shared_prefix(s, shift + radix),
        0 <= psum(h, d) <= psum(h, d + 1) <= s.len(),
    ensures
        shared_prefix(s.subrange(psum(h, d), psum(h, d + 1)), shift),
{
    let f = digit_fn::<T>(shift, radix);
    let lo = psum(h, d);
    let t = s.subrange(lo, psum(h, d + 1));
    assert forall|i: int, j: int| 0 <= i < t.len() && 0 <= j < t.len() implies prefix(
        t[i].key() as nat,
        shift,
    ) == prefix(t[j].key() as nat, shift) by {
        assert(t[i] == s[lo + i] && t[j] == s[lo + j]);
        lemma_bucket_unique(h, d, f(s[lo + i]), lo + i);
        lemma_bucket_unique(h, d, f(s[lo + j]), lo + j);
        lemma_digit_orders_prefix(s[lo + i].key() as nat, s[lo + j].key() as nat, shift, radix);
    }
}

/// A slice that is partitioned on the digit at `shift`, whose keys agree
/// above that digit, and whose buckets are each sorted, is sorted.
pub proof fn lemma_buckets_sorted<T: Radixable>(s: Seq<T>, h: Seq<usize>, shift: nat, radix: nat)
    requires
        partitioned(s, digit_fn::<T>(shift, radix), h),
        in_range(s, digit_fn::<T>(shift, radix), h.len() as int),
        psum(h, h.len() as int) == s.len(),
        shared_prefix(s, shift + radix),
        forall|d: int|
            #![trigger psum(h, d)]
            0 <= d < h.len() ==> sorted(s.subrange(psum(h, d), psum(h, d + 1))),
    ensures
        sorted(s),
{
    let f = digit_fn::<T>(shift, radix);
    lemma_partitioned_ordered(s, f, h);
    assert forall|i: int, j: int| 0 <= i <= j < s.len() implies s[i].key() <= s[j].key() by {
        let ki = s[i].key() as nat;
        let kj = s[j].key() as nat;
        let di = f(s[i]);
        let dj = f(s[j]);
        assert(di <= dj);
        if di == dj {
            let lo = psum(h, di);
            let hi = psum(h, di + 1);
            lemma_psum_monotone(h, di + 1, h.len() as int);
            lemma_psum_monotone(h, 0, di);
            let t = s.subrange(lo, hi);
            assert(sorted(t));
            assert(t[i - lo] == s[i] && t[j - lo] == s[j]);
        } else {
            lemma_digit_orders_prefix(ki, kj, shift, radix);
            if kj < ki {
                lemma_prefix_ordered(kj, ki, shift);
            }
        }
    }
}

/// A slice that is partitioned on its lowest digit, and whose keys agree
/// above it, is sorted.
pub proof fn lemma_last_digit_sorted<T: Radixable>(s: Seq<T>, h: Seq<usize>, radix: nat)
    requires
        partitioned(s, digit_fn::<T>(0, radix), h),
        shared_prefix(s, radix),
    ensures
        sorted(s),
{
    let f = digit_fn::<T>(0, radix);
    lemma_partitioned_ordered(s, f, h);
    assert forall|i: int, j: int| 0 <= i <= j < s.len() implies s[i].key() <= s[j].key() by {
        let ki = s[i].key() as nat;
        let kj = s[j].key() as nat;
        lemma_digit_orders_prefix(ki, kj, 0, radix);
        lemma_prefix_zero(ki);
        lemma_prefix_zero(kj);
    }
}

/// Keys without bits above the lowest `w` agree above them.
pub proof fn lemma_below_shares_prefix<T: Radixable>(s: Seq<T>, w: nat)
    requires
        keys_below(s, w),
    ensures
        shared_prefix(s, w),
{
    assert forall|i: int, j: int| 0 <= i < s.len() && 0 <= j < s.len() implies prefix(
        s[i].key() as nat,
        w,
    ) == prefix(s[j].key() as nat, w) by {
        lemma_low_small(s[i].key() as nat, w);
        lemma_low_small(s[j].key() as nat, w);
    }
}

/// The key without its `floor` lowest bits.
pub open spec fn prefix_fn<T: Radixable>(floor: nat) -> spec_fn(T) -> int {
    |x: T| prefix(x.key() as nat, floor) as int
}

/// The `w` bits of the key that lie above its `floor` lowest bits.
pub open spec fn window_fn<T: Radixable>(floor: nat, w: nat) -> spec_fn(T) -> int {
    |x: T| low(prefix(x.key() as nat, floor), w) as int
}

/// A digit of the key is a digit of any of its prefixes.
pub proof fn lemma_digit_of_prefix(k: nat, floor: nat, shift: nat, radix: nat)
    ensures
        digit(k, floor + shift, radix) == digit(prefix(k, floor), shift, radix),
{
    crate::digits::lemma_prefix_prefix(k, floor, shift);
}

/// Any slice is ordered by a window of no bits.
pub proof fn lemma_window_start<T: Radixable>(s: Seq<T>, floor: nat)
    ensures
        ordered_by(s, window_fn::<T>(floor, 0)),
{
    assert forall|i: int, j: int| 0 <= i <= j < s.len() implies window_fn::<T>(floor, 0)(s[i])
        <= window_fn::<T>(floor, 0)(s[j]) by {
        lemma_low_zero(prefix(s[i].key() as nat, floor));
        lemma_low_zero(prefix(s[j].key() as nat, floor));
    }
}

/// One stable pass on the digit above a window turns a slice ordered by
/// the window into one ordered by the window with that digit added.
pub proof fn lemma_window_pass<T: Radixable>(s: Seq<T>, floor: nat, w: nat, radix: nat, k: nat)
    requires
        ordered_by(s, window_fn::<T>(floor, w)),
    ensures
        ordered_by(
            bucket_concat(s, digit_fn::<T>(floor + w, radix), k),
            window_fn::<T>(floor, w + radix),
        ),
{
    let f = digit_fn::<T>(floor + w, radix);
    let g = window_fn::<T>(floor, w);
    let r = bucket_concat(s, f, k);
    lemma_bucket_concat_ordered(s, f, g, k);
    assert(lex_ordered(r, f, g));
    assert forall|i: int, j: int| 0 <= i <= j < r.len() implies window_fn::<T>(floor, w + radix)(
        r[i],
    ) <= window_fn::<T>(floor, w + radix)(r[j]) by {
        let a = prefix(r[i].key() as nat, floor);
        let b = prefix(r[j].key() as nat, floor);
        lemma_digit_of_prefix(r[i].key() as nat, floor, w, radix);
        lemma_digit_of_prefix(r[j].key() as nat, floor, w, radix);
        lemma_low_ordered(a, b, w, radix);
        assert(f(r[i]) < f(r[j]) || (f(r[i]) == f(r[j]) && g(r[i]) <= g(r[j])));
    }
}

/// Where every element has the same digit above a window, a slice ordered
/// by the window is ordered by the window with that digit added.
pub proof fn lemma_window_skip<T: Radixable>(s: Seq<T>, floor: nat, w: nat, radix: nat)
    requires
        ordered_by(s, window_fn::<T>(floor, w)),
        forall|i: int, j: int|
            0 <= i < s.len() && 0 <= j < s.len() ==> digit_fn::<T>(floor + w, radix)(s[i])
                == digit_fn::<T>(floor + w, radix)(s[j]),
    ensures
        ordered_by(s, window_fn::<T>(floor, w + radix)),
{
    let g = window_fn::<T>(floor, w);
    let f = digit_fn::<T>(floor + w, radix);
    assert forall|i: int, j: int| 0 <= i <= j < s.len() implies window_fn::<T>(floor, w + radix)(
        s[i],
    ) <= window_fn::<T>(floor, w + radix)(s[j]) by {
        let a = prefix(s[i].key() as nat, floor);
        let b = prefix(s[j].key() as nat, floor);
        lemma_digit_of_prefix(s[i].key() as nat, floor, w, radix);
        lemma_digit_of_prefix(s[j].key() as nat, floor, w, radix);
        lemma_low_ordered(a, b, w, radix);
        assert(g(s[i]) <= g(s[j]));
        assert(f(s[i]) == f(s[j]));
    }
}

/// A slice ordered by a window, whose keys agree above the window, is
/// ordered by everything above the window's floor.
pub proof fn lemma_window_whole<T: Radixable>(s: Seq<T>, floor: nat, w: nat)
    requires
        ordered_by(s, window_fn::<T>(floor, w)),
        shared_prefix(s, floor + w),
    ensures
        ordered_by(s, prefix_fn::<T>(floor)),
{
    let g = window_fn::<T>(floor, w);
    assert forall|i: int, j: int| 0 <= i <= j < s.len() implies prefix_fn::<T>(floor)(s[i])
        <= prefix_fn::<T>(floor)(s[j]) by {
        let a = prefix(s[i].key() as nat, floor) as int;
        let b = prefix(s[j].key() as nat, floor) as int;
        let m = pow2(w) as int;
        vstd::arithmetic::power2::lemma_pow2_pos(w);
        vstd::arithmetic::div_mod::lemma_fundamental_div_mod(a, m);
        vstd::arithmetic::div_mod::lemma_fundamental_div_mod(b, m);
        crate::digits::lemma_prefix_prefix(s[i].key() as nat, floor, w);
        crate::digits::lemma_prefix_prefix(s[j].key() as nat, floor, w);
        assert(g(s[i]) <= g(s[j]));
        assert(prefix(s[i].key() as nat, floor + w) == prefix(s[j].key() as nat, floor + w));
    }
}

/// A slice ordered by its whole keys is sorted.
pub proof fn lemma_prefix_zero_sorted<T: Radixable>(s: Seq<T>)
    requires
        ordered_by(s, prefix_fn::<T>(0)),
    ensures
        sorted(s),
{
    let g = prefix_fn::<T>(0);
    assert forall|i: int, j: int| 0 <= i <= j < s.len() implies s[i].key() <= s[j].key() by {
        lemma_prefix_zero(s[i].key() as nat);
        lemma_prefix_zero(s[j].key() as nat);
        assert(g(s[i]) <= g(s[j]));
    }
}

} // verus!
