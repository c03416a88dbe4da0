//! Counting sort, for keys narrow enough that one histogram holds them all.

use crate::buckets::{
    bucket_concat, in_bucket, is_histogram, lemma_bucket_concat_index, lemma_bucket_concat_ordered,
    lemma_bucket_concat_perm, lemma_perm_all, lemma_psum_monotone, lemma_psum_total, lex_ordered,
    psum,
};
use crate::digits::{digit, lemma_digit_bound, lemma_low_small, lemma_u128_one_shl};
use crate::order::{all_valid, digit_fn, keys_below, lemma_window_start, sorted, window_fn};
use crate::radixable::{InvalidInput, Radixable, SortError, MAX_BITS};
use crate::sorts::guard::{check_valid, MIN_RADIX};
use crate::sorts::utils::{extract, find_max_key, get_histogram, lemma_max_key, Params};
use vstd::arithmetic::power2::{lemma2_to64, lemma_pow2_pos, pow2};
use vstd::prelude::*;

verus! {

/// Widest digit that counting sort accepts: its histogram has `2^radix`
/// entries.
pub const MAX_COUNTING_RADIX: usize = 16;

/// A key that fits in one digit is that digit.
pub proof fn lemma_key_is_digit(k: nat, radix: nat)
    requires
        k < pow2(radix),
    ensures
        digit(k, 0, radix) == k,
{
    lemma2_to64();
    lemma_low_small(k, radix);
}

/// Counting sort of keys that fit in `radix` bits: one histogram pass, then
/// each key value is written as often as it was counted.
pub fn counting_sort_body<T: Radixable + Copy>(arr: &mut [T], radix: usize)
    requires
        1 <= radix < usize::BITS,
        T::bits() <= 128,
        keys_below(old(arr)@, radix as nat),
    ensures
        final(arr)@.len() == old(arr)@.len(),
        final(arr)@.to_multiset() == old(arr)@.to_multiset(),
        sorted(final(arr)@),
        final(arr)@ == bucket_concat(
            old(arr)@,
            digit_fn::<T>(0, radix as nat),
            pow2(radix as nat),
        ),
{
    let n: usize = arr.len();
    let p: Params = Params::new(0, radix, 0, 1);
    let k: usize = p.radix_range;
    let ghost f = digit_fn::<T>(0, radix as nat);
    let ghost src = arr@;
    let ghost bc = bucket_concat(src, f, k as nat);
    proof {
        lemma_pow2_pos(radix as nat);
        assert forall|i: int| #![trigger src[i]] 0 <= i < src.len() implies 0 <= f(src[i])
            < k by {
            lemma_digit_bound(src[i].key() as nat, 0, radix as nat);
        }
        lemma_bucket_concat_perm(src, f, k as nat);
        lemma_counted_sorted(src, radix as nat);
    }
    if n < 2 {
        proof {
            crate::order::lemma_sorted_is_unique(src, bc);
        }
        return ;
    }
    let mask: u64 = (k - 1) as u64;
    let histogram: Vec<usize> = get_histogram(arr, &p, mask, 0);
    let ghost h = histogram@;
    proof {
        lemma_psum_total(src, f, h);
    }
    let mut reps: Vec<T> = vec![arr[0]; k];
    let mut i: usize = 0;
    while i < n
        invariant
            i <= n,
            n == arr@.len(),
            arr@ == src,
            1 <= radix < usize::BITS,
            k == pow2(radix as nat),
            mask == k - 1,
            f == digit_fn::<T>(0, radix as nat),
            keys_below(src, radix as nat),
            reps@.len() == k,
            forall|j: int| #![trigger src[j]] 0 <= j < i ==> reps@[f(src[j])].key() == src[j].key(),
        decreases n - i,
    {
        let x: T = arr[i];
        let bucket: usize = extract(&x, mask, 0);
        proof {
            lemma_digit_bound(x.key() as nat, 0, radix as nat);
            lemma_key_is_digit(x.key() as nat, radix as nat);
            assert forall|j: int| #![trigger src[j]] 0 <= j < i implies f(src[j])
                == src[j].key() by {
                lemma_key_is_digit(src[j].key() as nat, radix as nat);
            }
        }
        reps[bucket] = x;
        i = i + 1;
    }
    let mut pos: usize = 0;
    let mut v: usize = 0;
    while v < k
        invariant
            v <= k,
            n == arr@.len(),
            n == src.len(),
            T::bits() <= 128,
            k == h.len(),
            h == histogram@,
            is_histogram(h, src, f),
            psum(h, k as int) == n,
            bc == bucket_concat(src, f, k as nat),
            bc.len() == n,
            reps@.len() == k,
            forall|j: int| #![trigger src[j]] 0 <= j < n ==> reps@[f(src[j])].key() == src[j].key(),
            pos == psum(h, v as int),
            forall|q: int| 0 <= q < pos ==> arr@[q] == bc[q],
        decreases k - v,
    {
        let c: usize = histogram[v];
        let rep: T = reps[v];
        let mut j: usize = 0;
        proof {
            lemma_psum_monotone(h, v + 1, k as int);
        }
        while j < c
            invariant
                j <= c,
                v < k,
                c == h[v as int],
                n == arr@.len(),
                n == src.len(),
                T::bits() <= 128,
                k == h.len(),
                is_histogram(h, src, f),
                psum(h, v + 1) <= n,
                bc == bucket_concat(src, f, k as nat),
                bc.len() == n,
                rep == reps@[v as int],
                reps@.len() == k,
                forall|j: int|
                    #![trigger src[j]]
                    0 <= j < n ==> reps@[f(src[j])].key() == src[j].key(),
                pos == psum(h, v as int) + j,
                forall|q: int| 0 <= q < pos ==> arr@[q] == bc[q],
            decreases c - j,
        {
            proof {
                lemma_bucket_concat_index(src, f, h, k as nat, v as int, j as int);
                let fv = src.filter(in_bucket(f, v as int));
                let x = fv[j as int];
                src.lemma_filter_pred(in_bucket(f, v as int), j as int);
                assert(fv.contains(x));
                src.lemma_filter_contains_rev(in_bucket(f, v as int), x);
                let m = choose|m: int| 0 <= m < src.len() && src[m] == x;
                assert(reps@[f(src[m])].key() == src[m].key());
                T::key_injective(rep, x);
            }
            arr[pos] = rep;
            pos = pos + 1;
            j = j + 1;
        }
        v = v + 1;
    }
    proof {
        assert(arr@ =~= bc);
    }
}

/// The buckets of keys that are their own digits, one after the other,
/// are the sorted arrangement.
pub proof fn lemma_counted_sorted<T: Radixable>(s: Seq<T>, radix: nat)
    requires
        keys_below(s, radix),
    ensures
        sorted(bucket_concat(s, digit_fn::<T>(0, radix), pow2(radix))),
{
    let f = digit_fn::<T>(0, radix);
    let k = pow2(radix);
    let bc = bucket_concat(s, f, k);
    assert forall|i: int| #![trigger s[i]] 0 <= i < s.len() implies 0 <= f(s[i]) < k by {
        lemma_digit_bound(s[i].key() as nat, 0, radix);
    }
    lemma_bucket_concat_perm(s, f, k);
    let fits = |x: T| x.key() < pow2(radix);
    assert forall|i: int| #![trigger s[i]] 0 <= i < s.len() implies fits(s[i]) by {}
    lemma_perm_all(s, bc, fits);
    lemma_window_start(s, 0);
    lemma_bucket_concat_ordered(s, f, window_fn::<T>(0, 0), k);
    assert(lex_ordered(bc, f, window_fn::<T>(0, 0)));
    assert forall|i: int, j: int| 0 <= i <= j < bc.len() implies bc[i].key() <= bc[j].key() by {
        assert(fits(bc[i]) && fits(bc[j]));
        lemma_key_is_digit(bc[i].key() as nat, radix);
        lemma_key_is_digit(bc[j].key() as nat, radix);
        assert(f(bc[i]) <= f(bc[j]));
    }
}

/// Why counting sort turns an input down, if it does: the digit width
/// first, then the key width, then the elements, then keys that do not fit
/// in one digit. A slice of at most one element is never turned down.
pub open spec fn counting_rejection<T: Radixable>(s: Seq<T>, radix: usize) -> Option<SortError> {
    if s.len() <= 1 {
        None
    } else if !(MIN_RADIX <= radix <= MAX_COUNTING_RADIX) {
        Some(SortError::UnsupportedRadix)
    } else if T::bits() > MAX_BITS {
        Some(SortError::UnsupportedWidth)
    } else if !all_valid(s) {
        Some(SortError::InvalidInput(InvalidInput::NaN))
    } else if !keys_below(s, radix as nat) {
        Some(SortError::UnsupportedWidth)
    } else {
        None
    }
}

/// Counting sort with a histogram of `2^radix` entries.
///
/// Sorts the slice by key, in place. An input that `counting_rejection`
/// turns down is left as it was and the reason returned.
pub fn counting_sort<T: Radixable + Copy>(arr: &mut [T], radix: usize) -> (r: Result<
    (),
    SortError,
>)
    ensures
        final(arr)@.len() == old(arr)@.len(),
        match counting_rejection(old(arr)@, radix) {
            Some(e) => r == Err::<(), SortError>(e) && final(arr)@ == old(arr)@,
            None => r.is_ok() && sorted(final(arr)@) && final(arr)@.to_multiset() == old(
                arr,
            )@.to_multiset(),
        },
{
    if arr.len() <= 1 {
        return Ok(());
    }
    if radix < MIN_RADIX || radix > MAX_COUNTING_RADIX {
        return Err(SortError::UnsupportedRadix);
    }
    if T::type_size() > MAX_BITS {
        return Err(SortError::UnsupportedWidth);
    }
    if !check_valid(arr) {
        return Err(SortError::InvalidInput(InvalidInput::NaN));
    }
    let max: u128 = find_max_key(arr);
    let limit: u128 = 1u128 << (radix as u32);
    proof {
        lemma_u128_one_shl(radix as u32);
        lemma_pow2_pos(radix as nat);
        lemma_max_key(arr@);
    }
    if max >= limit {
        proof {
            let i = choose|i: int| 0 <= i < arr@.len() && (#[trigger] arr@[i]).key()
                == crate::sorts::utils::max_key(arr@);
            assert(!(arr@[i].key() < pow2(radix as nat)));
        }
        return Err(SortError::UnsupportedWidth);
    }
    counting_sort_body(arr, radix);
    Ok(())
}

} // verus!
