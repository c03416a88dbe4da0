//! Diverting LSD radix sort: stable passes over the highest digits only,
//! as many as the length of the slice calls for, then each stretch of keys
//! that still agree on those digits is finished by American flag sort.

use crate::buckets::ordered_by;
use crate::digits::{lemma_levels_cover, lemma_prefix_ordered, prefix};
use crate::order::{
    lemma_below_shares_prefix, lemma_equal_keys_sorted, lemma_prefix_zero_sorted,
    lemma_window_whole, prefix_fn, shared_prefix, sorted,
};
use crate::radixable::{Radixable, SortError};
use crate::sorts::american_flag_sort::{
    lemma_perm_shares_prefix, lemma_range_rearranged, lemma_shares_prefix_above, range_rearranged,
    sort_bucket,
};
use crate::sorts::comparative_sort::sort_unstable_by_key;
use crate::sorts::guard::{check_input, rejection};
use crate::sorts::lsd_sort::stable_passes;
use crate::sorts::utils::{
    compute_max_level, compute_offset, get_partial_histograms_fast, key_prefix, partial_shift,
    Params, MAX_PARTIAL,
};
use vstd::arithmetic::power2::pow2;
use vstd::prelude::*;

verus! {

/// Number of digits for the passes: counting from `c`, the first number
/// of digits of `radix` bits that can tell `n` keys apart, and `cap` at
/// most.
pub open spec fn partial_from(c: nat, n: nat, radix: nat, cap: nat) -> nat
    decreases cap - c,
{
    if c >= cap || n < pow2(radix * c) {
        c
    } else {
        partial_from(c + 1, n, radix, cap)
    }
}

/// The number of digits that the passes of the sort cover.
pub fn choose_partial(n: usize, radix: usize, max_level: usize) -> (c: usize)
    requires
        1 <= radix <= 8,
        max_level >= 1,
    ensures
        1 <= c <= max_level,
        c <= MAX_PARTIAL,
        c == partial_from(
            1,
            n as nat,
            radix as nat,
            if max_level < MAX_PARTIAL {
                max_level as nat
            } else {
                MAX_PARTIAL as nat
            },
        ),
{
    let cap: usize = if max_level < MAX_PARTIAL {
        max_level
    } else {
        MAX_PARTIAL
    };
    let wide: u64 = n as u64;
    let mut c: usize = 1;
    loop
        invariant
            1 <= c <= cap,
            1 <= radix <= 8,
            cap <= MAX_PARTIAL,
            wide == n,
            partial_from(1, n as nat, radix as nat, cap as nat) == partial_from(
                c as nat,
                n as nat,
                radix as nat,
                cap as nat,
            ),
        ensures
            1 <= c <= cap,
            c == partial_from(1, n as nat, radix as nat, cap as nat),
        decreases cap - c,
    {
        if c >= cap {
            break ;
        }
        proof {
            let r = radix as int;
            let x = c as int;
            assert(0 <= r * x <= 40) by (nonlinear_arith)
                requires
                    1 <= r <= 8,
                    1 <= x <= 5,
            ;
        }
        let bits: u64 = (radix * c) as u64;
        proof {
            vstd::bits::lemma_u64_shr_is_div(wide, bits);
            vstd::arithmetic::power2::lemma_pow2_pos(bits as nat);
            if wide >> bits == 0 {
                vstd::arithmetic::div_mod::lemma_fundamental_div_mod(
                    wide as int,
                    pow2(bits as nat) as int,
                );
                vstd::arithmetic::div_mod::lemma_mod_pos_bound(
                    wide as int,
                    pow2(bits as nat) as int,
                );
            } else if wide < pow2(bits as nat) {
                vstd::arithmetic::div_mod::lemma_basic_div(wide as int, pow2(bits as nat) as int);
            }
        }
        if wide >> bits == 0 {
            break ;
        }
        c = c + 1;
    }
    c
}

/// The positions before `upto` hold prefixes below those from `upto` on.
pub open spec fn split_at_prefix<T: Radixable>(s: Seq<T>, floor: nat, upto: int) -> bool {
    forall|a: int, b: int|
        0 <= a < upto <= b < s.len() ==> prefix(s[a].key() as nat, floor) < prefix(
            s[b].key() as nat,
            floor,
        )
}

/// Rearranging a stretch of equal prefixes leaves every position with the
/// prefix it had.
pub proof fn lemma_prefixes_kept<T: Radixable>(
    before: Seq<T>,
    after: Seq<T>,
    floor: nat,
    lo: int,
    hi: int,
)
    requires
        0 <= lo <= hi <= before.len(),
        range_rearranged(before, after, lo, hi),
        shared_prefix(before.subrange(lo, hi), floor),
    ensures
        forall|k: int|
            0 <= k < before.len() ==> prefix((#[trigger] after[k]).key() as nat, floor) == prefix(
                before[k].key() as nat,
                floor,
            ),
{
    let b = before.subrange(lo, hi);
    let a = after.subrange(lo, hi);
    lemma_perm_shares_prefix(b, a, floor);
    assert forall|k: int| 0 <= k < before.len() implies prefix(
        (#[trigger] after[k]).key() as nat,
        floor,
    ) == prefix(before[k].key() as nat, floor) by {
        if lo <= k < hi {
            assert(a[k - lo] == after[k]);
            assert(b[k - lo] == before[k]);
            // both stretches share one prefix, and they hold the same elements
            vstd::seq_lib::to_multiset_contains(a, a[k - lo]);
            vstd::seq_lib::to_multiset_contains(b, a[k - lo]);
            assert(a.contains(a[k - lo]));
            let m = choose|m: int| 0 <= m < b.len() && b[m] == a[k - lo];
            assert(prefix(b[m].key() as nat, floor) == prefix(b[k - lo].key() as nat, floor));
        }
    }
}

/// Sorts a slice that is ordered by its keys without their `floor` lowest
/// bits: each stretch of keys that agree above `floor` is sorted on the
/// bits below, a short one by insertion sort, and one in which too many
/// keys have come together by the levels of American flag sort.
pub fn finish_stretches<T: Radixable + Copy>(arr: &mut [T], floor: usize, radix: usize)
    requires
        1 <= radix <= 8,
        0 < floor <= T::bits() <= 128,
        floor < 128,
        ordered_by(old(arr)@, prefix_fn::<T>(floor as nat)),
    ensures
        final(arr)@.len() == old(arr)@.len(),
        final(arr)@.to_multiset() == old(arr)@.to_multiset(),
        sorted(final(arr)@),
{
    let n: usize = arr.len();
    let bits: usize = T::type_size();
    let levels: usize = compute_max_level(bits, bits - floor, radix);
    let q: Params = Params::new(0, radix, bits - floor, levels);
    let ghost top = q.shift_from_left(T::bits()) + radix as nat;
    let ghost g = prefix_fn::<T>(floor as nat);
    proof {
        lemma_levels_cover(floor as nat, radix as nat);
        assert(q.radix * (q.level + 1) == radix) by (nonlinear_arith)
            requires
                q.radix == radix,
                q.level == 0,
        ;
        assert(floor as nat <= top);
    }
    let mut i: usize = 0;
    while i < n
        invariant
            i <= n,
            n == arr@.len(),
            1 <= radix <= 8,
            0 < floor <= T::bits() <= 128,
            floor < 128,
            q.covers(T::bits()),
            q.level < q.max_level,
            top == q.shift_from_left(T::bits()) + radix as nat,
            q.radix == radix,
            floor as nat <= top,
            g == prefix_fn::<T>(floor as nat),
            arr@.to_multiset() == old(arr)@.to_multiset(),
            ordered_by(arr@, g),
            split_at_prefix(arr@, floor as nat, i as int),
            forall|a: int, b: int| 0 <= a <= b < i ==> arr@[a].key() <= arr@[b].key(),
        decreases n - i,
    {
        let first: u128 = key_prefix(arr[i].into_key(), floor);
        let mut j: usize = i + 1;
        while j < n && key_prefix(arr[j].into_key(), floor) == first
            invariant
                i < j <= n,
                n == arr@.len(),
                floor < 128,
                first == prefix(arr@[i as int].key() as nat, floor as nat),
                forall|k: int|
                    i <= k < j ==> prefix((#[trigger] arr@[k]).key() as nat, floor as nat) == first,
            decreases n - j,
        {
            j = j + 1;
        }
        let ghost before = arr@;
        proof {
            let piece = before.subrange(i as int, j as int);
            assert forall|a: int, b: int|
                0 <= a < piece.len() && 0 <= b < piece.len() implies prefix(
                piece[a].key() as nat,
                floor as nat,
            ) == prefix(piece[b].key() as nat, floor as nat) by {
                assert(piece[a] == before[i + a] && piece[b] == before[i + b]);
            }
            lemma_shares_prefix_above(piece, floor as nat, top);
            // what follows the stretch has a larger prefix
            assert forall|a: int, b: int| 0 <= a < j <= b < n implies prefix(
                before[a].key() as nat,
                floor as nat,
            ) < prefix(before[b].key() as nat, floor as nat) by {
                if a >= i {
                    assert(g(before[j as int]) <= g(before[b]));
                    assert(g(before[a]) <= g(before[j as int]));
                    assert(prefix(before[a].key() as nat, floor as nat) == first);
                }
            }
        }
        sort_bucket(arr, i, j, q);
        proof {
            lemma_range_rearranged(before, arr@, i as int, j as int);
            lemma_prefixes_kept(before, arr@, floor as nat, i as int, j as int);
            assert forall|a: int, b: int| 0 <= a <= b < n implies g(arr@[a]) <= g(arr@[b]) by {
                assert(g(before[a]) <= g(before[b]));
            }
            assert forall|a: int, b: int| 0 <= a < j <= b < n implies prefix(
                arr@[a].key() as nat,
                floor as nat,
            ) < prefix(arr@[b].key() as nat, floor as nat) by {
                assert(prefix(before[a].key() as nat, floor as nat) < prefix(
                    before[b].key() as nat,
                    floor as nat,
                ));
            }
            assert forall|a: int, b: int| 0 <= a <= b < j implies arr@[a].key()
                <= arr@[b].key() by {
                if b < i {
                    assert(arr@[a] == before[a] && arr@[b] == before[b]);
                } else if a >= i {
                    let piece = arr@.subrange(i as int, j as int);
                    assert(sorted(piece));
                    assert(piece[a - i] == arr@[a] && piece[b - i] == arr@[b]);
                } else {
                    assert(prefix(before[a].key() as nat, floor as nat) < prefix(
                        before[b].key() as nat,
                        floor as nat,
                    ));
                    if arr@[b].key() < arr@[a].key() {
                        lemma_prefix_ordered(
                            arr@[b].key() as nat,
                            arr@[a].key() as nat,
                            floor as nat,
                        );
                    }
                }
            }
        }
        i = j;
    }
}

/// Diverting LSD radix sort with digits of `radix` bits.
///
/// Sorts the slice by key. An input that `rejection` turns down is left as
/// it was and the reason returned.
pub fn dlsd_radixsort<T: Radixable + Copy>(arr: &mut [T], radix: usize) -> (r: Result<
    (),
    SortError,
>)
    ensures
        final(arr)@.len() == old(arr)@.len(),
        match rejection(old(arr)@, radix) {
            Some(e) => r == Err::<(), SortError>(e) && final(arr)@ == old(arr)@,
            None => r.is_ok() && sorted(final(arr)@) && final(arr)@.to_multiset() == old(
                arr,
            )@.to_multiset(),
        },
{
    match check_input(arr, radix) {
        Some(e) => {
            return Err(e);
        },
        None => {},
    }
    if arr.len() <= 1 {
        return Ok(());
    }
    dlsd_run(arr, radix);
    Ok(())
}

/// The sort of `dlsd_radixsort`, for an input that was checked.
pub(crate) fn dlsd_run<T: Radixable + Copy>(arr: &mut [T], radix: usize)
    requires
        1 <= radix <= 8,
        T::bits() <= 128,
    ensures
        final(arr)@.len() == old(arr)@.len(),
        final(arr)@.to_multiset() == old(arr)@.to_multiset(),
        sorted(final(arr)@),
{
    if arr.len() <= 128 {
        sort_unstable_by_key(arr);
        return ;
    }
    let n: usize = arr.len();
    let bits: usize = T::type_size();
    let (_, raw_offset) = compute_offset(arr, radix);
    let max_level: usize = compute_max_level(bits, raw_offset, radix);
    let width: usize = bits - raw_offset;
    proof {
        lemma_levels_cover(width as nat, radix as nat);
    }
    if max_level == 0 {
        proof {
            lemma_below_shares_prefix(arr@, 0);
            lemma_equal_keys_sorted(arr@);
        }
        return ;
    }
    let p: Params = Params::new(0, radix, raw_offset, max_level);
    let partial: usize = choose_partial(n, radix, max_level);
    proof {
        let r = radix as int;
        let x = partial as int;
        assert(0 <= r * x <= 40) by (nonlinear_arith)
            requires
                1 <= r <= 8,
                1 <= x <= 5,
        ;
    }
    let used: usize = radix * partial;
    let floor: usize = if used > width {
        0
    } else {
        width - used
    };
    proof {
        let r = radix as int;
        let c = partial as int;
        let m = max_level as int;
        assert(r * (c - 1) <= r * (m - 1)) by (nonlinear_arith)
            requires
                c <= m,
                0 <= r,
        ;
        assert(r * c == r * (c - 1) + r) by (nonlinear_arith);
        assert((m - 1) * r == r * (m - 1)) by (nonlinear_arith);
        assert(floor == partial_shift(p, T::bits(), partial as nat));
    }
    let histograms: Vec<Vec<usize>> = match get_partial_histograms_fast(arr, &p, partial) {
        Ok(hs) => hs,
        Err(_) => {
            return ;
        },
    };
    let mut buffer: Vec<T> = vec![arr[0]; n];
    stable_passes(arr, buffer.as_mut_slice(), &histograms, &p, floor, partial, partial);
    proof {
        lemma_below_shares_prefix(old(arr)@, width as nat);
        lemma_shares_prefix_above(old(arr)@, width as nat, (floor + used) as nat);
        lemma_perm_shares_prefix(old(arr)@, arr@, (floor + used) as nat);
        lemma_window_whole(arr@, floor as nat, used as nat);
    }
    if floor == 0 {
        proof {
            lemma_prefix_zero_sorted(arr@);
        }
        return ;
    }
    finish_stretches(arr, floor, radix);
}

} // verus!
