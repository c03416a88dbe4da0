//! The parts shared by the radix sorts: the recursion context, digit
//! extraction, histograms, prefix sums, and block swaps and copies.

use crate::buckets::{
    bucket_fn, count, is_histogram, lemma_count_empty, lemma_count_le_len, lemma_count_take_succ,
    psum, Bucketer,
};
use crate::digits::{
    bit_length, digit, lemma_bit_length_le, lemma_bit_length_monotone, lemma_digit_bound,
    lemma_extract_is_digit, levels_for,
};
use crate::order::{digit_fn, keys_below};
use crate::radixable::{lemma_pow2_128, InvalidInput, Radixable, SortError};
use vstd::arithmetic::div_mod::{lemma_fundamental_div_mod, lemma_mod_pos_bound};
use vstd::arithmetic::power2::{lemma_pow2_pos, pow2};
use vstd::prelude::*;

verus! {

/// The context of one pass: which digit (`level`) of how many (`max_level`),
/// how wide a digit is (`radix`), how many leading bits of the key are known
/// to be zero (`offset`), and how many values a digit takes (`radix_range`).
#[derive(Copy, Clone, Debug)]
pub struct Params {
    pub level: usize,
    pub radix: usize,
    pub offset: usize,
    pub max_level: usize,
    pub radix_range: usize,
}

impl Params {
    /// The digit is at least one bit wide and `radix_range` is `2^radix`.
    pub open spec fn wf(&self) -> bool {
        &&& 1 <= self.radix < usize::BITS
        &&& self.radix_range == pow2(self.radix as nat)
    }

    /// The context suits keys of `bits` bits: the levels cover exactly the
    /// bits that the offset leaves.
    pub open spec fn covers(&self, bits: nat) -> bool {
        &&& self.wf()
        &&& self.offset <= bits <= 128
        &&& self.max_level == levels_for((bits - self.offset) as nat, self.radix as nat)
    }

    /// Bit position of the digit of `level`, counting levels from the most
    /// significant digit and positions from the lowest of the covered bits.
    pub open spec fn shift(&self) -> nat {
        (self.radix * (self.max_level - self.level - 1)) as nat
    }

    /// Bit position of the digit of `level` where the digits are laid out
    /// from the highest bit that the offset leaves; the last digit is moved
    /// up to bit 0 where it would hang over.
    pub open spec fn shift_from_left(&self, bits: nat) -> nat {
        if self.radix * (self.level + 1) > bits - self.offset {
            0
        } else {
            (bits - self.offset - self.radix * (self.level + 1)) as nat
        }
    }

    /// The context of `level`, with `radix_range` computed from `radix`.
    pub fn new(level: usize, radix: usize, offset: usize, max_level: usize) -> (p: Params)
        requires
            radix < usize::BITS,
        ensures
            p.level == level,
            p.radix == radix,
            p.offset == offset,
            p.max_level == max_level,
            p.radix_range == pow2(radix as nat),
    {
        proof {
            vstd::bits::lemma_usize_pow2_no_overflow(radix as nat);
            vstd::bits::lemma_usize_shl_is_mul(1, radix);
        }
        Params { level, radix, offset, max_level, radix_range: 1usize << radix }
    }

    /// The same context at another level.
    pub open spec fn new_level_spec(&self, level: usize) -> Params {
        Params {
            level,
            radix: self.radix,
            offset: self.offset,
            max_level: self.max_level,
            radix_range: self.radix_range,
        }
    }

    /// The same context at another level.
    pub fn new_level(&self, level: usize) -> (p: Params)
        ensures
            p == self.new_level_spec(level),
    {
        Params {
            level,
            radix: self.radix,
            offset: self.offset,
            max_level: self.max_level,
            radix_range: self.radix_range,
        }
    }
}

impl Default for Params {
    /// The context of no digit at all.
    fn default() -> (p: Params)
        ensures
            p.level == 0,
            p.radix == 0,
            p.offset == 0,
            p.max_level == 0,
            p.radix_range == 0,
    {
        Params { level: 0, radix: 0, offset: 0, max_level: 0, radix_range: 0 }
    }
}

/// The mask that keeps the lowest `radix` bits.
pub fn default_mask(radix: usize) -> (mask: u64)
    requires
        radix < 64,
    ensures
        mask == pow2(radix as nat) - 1,
{
    proof {
        vstd::bits::lemma_u64_pow2_no_overflow(radix as nat);
        vstd::bits::lemma_u64_shl_is_mul(1, radix as u64);
    }
    let unit: u64 = 1u64 << (radix as u64);
    unit - 1
}

/// The bits of `k` that `mask` keeps after a shift to the right. With the
/// mask of a radix this is the digit at `shift`.
pub fn extract_key(k: u128, mask: u64, shift: usize) -> (b: usize)
    requires
        shift < 128,
        mask <= usize::MAX,
    ensures
        b == ((k >> (shift as u32)) as u64) & mask,
        forall|radix: nat|
            radix < 64 && mask == #[trigger] pow2(radix) - 1 ==> b == digit(
                k as nat,
                shift as nat,
                radix,
            ),
{
    let v: u128 = k >> (shift as u32);
    let lo: u64 = #[verifier::truncate]
    (v as u64);
    let b: u64 = lo & mask;
    proof {
        assert(lo & mask <= mask) by (bit_vector);
        assert forall|radix: nat| radix < 64 && mask == #[trigger] pow2(radix) - 1 implies b
            == digit(k as nat, shift as nat, radix) by {
            lemma_extract_is_digit(k, shift as u32, radix);
        }
    }
    b as usize
}

/// The key without its `floor` lowest bits.
pub fn key_prefix(k: u128, floor: usize) -> (r: u128)
    requires
        floor < 128,
    ensures
        r == crate::digits::prefix(k as nat, floor as nat),
{
    proof {
        vstd::bits::lemma_u128_shr_is_div(k, floor as u128);
        let narrow: u32 = floor as u32;
        let wide: u128 = floor as u128;
        assert(k >> narrow == k >> wide) by (bit_vector)
            requires
                narrow == wide,
        ;
    }
    k >> (floor as u32)
}

/// The bucket of `x`: the bits of its key that `mask` keeps after a shift
/// to the right. With the mask of a radix this is the digit at `shift`.
pub fn extract<T: Radixable>(x: &T, mask: u64, shift: usize) -> (b: usize)
    requires
        shift < 128,
        mask <= usize::MAX,
    ensures
        b == ((x.key() >> (shift as u32)) as u64) & mask,
        forall|radix: nat|
            radix < 64 && mask == #[trigger] pow2(radix) - 1 ==> b == digit(
                x.key() as nat,
                shift as nat,
                radix,
            ),
{
    extract_key(x.into_key(), mask, shift)
}

/// Mask and bit position of the digit of `p.level`, levels counted from the
/// most significant digit, positions laid out from bit 0.
pub fn get_mask_and_shift(p: &Params) -> (r: (u64, usize))
    requires
        p.wf(),
        p.level < p.max_level,
        p.radix * (p.max_level - 1) < 128,
    ensures
        r.0 == p.radix_range - 1,
        r.1 == p.shift(),
        r.1 < 128,
{
    let steps: usize = p.max_level - p.level - 1;
    proof {
        let r = p.radix as int;
        let a = steps as int;
        let b = (p.max_level - 1) as int;
        assert(r * a <= r * b) by (nonlinear_arith)
            requires
                a <= b,
                0 <= r,
        ;
        assert(0 <= r * a) by (nonlinear_arith)
            requires
                0 <= a,
                0 <= r,
        ;
        lemma_pow2_pos(p.radix as nat);
    }
    ((p.radix_range - 1) as u64, p.radix * steps)
}

/// Mask and bit position of the digit of `p.level` for keys of `T`, the
/// digits laid out from the highest bit that the offset leaves.
pub fn get_mask_and_shift_from_left<T: Radixable>(p: &Params) -> (r: (u64, usize))
    requires
        p.wf(),
        p.offset <= T::bits() <= 128,
        p.level < usize::MAX,
        p.radix * (p.level + 1) <= usize::MAX,
    ensures
        r.0 == p.radix_range - 1,
        r.1 == p.shift_from_left(T::bits()),
        r.1 < 128,
{
    let bits: usize = T::type_size();
    let width: usize = bits - p.offset;
    let used: usize = p.radix * (p.level + 1);
    let shift: usize = if used > width {
        0
    } else {
        width - used
    };
    proof {
        let r = p.radix as int;
        let l = p.level as int;
        assert(r * (l + 1) >= 1) by (nonlinear_arith)
            requires
                r >= 1,
                l >= 0,
        ;
        lemma_pow2_pos(p.radix as nat);
    }
    ((p.radix_range - 1) as u64, shift)
}

/// `partial` histograms, all empty.
pub fn get_empty_histograms(p: &Params, partial: usize) -> (hs: Vec<Vec<usize>>)
    ensures
        hs@.len() == partial,
        forall|l: int, d: int|
            0 <= l < partial && 0 <= d < p.radix_range ==> (#[trigger] hs@[l])@.len()
                == p.radix_range && #[trigger] hs@[l]@[d] == 0,
        forall|l: int| 0 <= l < partial ==> (#[trigger] hs@[l])@.len() == p.radix_range,
{
    let mut histograms: Vec<Vec<usize>> = Vec::new();
    let mut i: usize = 0;
    while i < partial
        invariant
            i <= partial,
            histograms@.len() == i,
            forall|l: int, d: int|
                0 <= l < i && 0 <= d < p.radix_range ==> (#[trigger] histograms@[l])@.len()
                    == p.radix_range && #[trigger] histograms@[l]@[d] == 0,
            forall|l: int| 0 <= l < i ==> (#[trigger] histograms@[l])@.len() == p.radix_range,
        decreases partial - i,
    {
        let histogram: Vec<usize> = vec![0usize; p.radix_range];
        histograms.push(histogram);
        i = i + 1;
    }
    histograms
}

/// One more element counted in bucket `b` keeps a histogram of a prefix a
/// histogram of the next prefix.
pub proof fn lemma_tally<T>(
    before: Seq<usize>,
    after: Seq<usize>,
    s: Seq<T>,
    f: spec_fn(T) -> int,
    i: int,
)
    requires
        0 <= i < s.len(),
        is_histogram(before, s.take(i), f),
        0 <= f(s[i]) < before.len(),
        after == before.update(f(s[i]), (before[f(s[i])] + 1) as usize),
    ensures
        before[f(s[i])] < s.len(),
        before[f(s[i])] + 1 <= usize::MAX ==> is_histogram(after, s.take(i + 1), f),
{
    let b = f(s[i]);
    assert(before[b] as nat == count(s.take(i), f, b));
    lemma_count_le_len(s.take(i), f, b);
    if before[b] + 1 <= usize::MAX {
        assert forall|d: int| 0 <= d < after.len() implies #[trigger] after[d] as nat == count(
            s.take(i + 1),
            f,
            d,
        ) by {
            lemma_count_take_succ(s, f, d, i);
            assert(before[d] as nat == count(s.take(i), f, d));
        }
    }
}

/// A histogram of nothing is all zeros.
pub proof fn lemma_empty_histogram<T>(h: Seq<usize>, s: Seq<T>, f: spec_fn(T) -> int)
    requires
        forall|d: int| 0 <= d < h.len() ==> h[d] == 0,
    ensures
        is_histogram(h, s.take(0), f),
{
    assert(s.take(0) =~= Seq::<T>::empty());
    assert forall|d: int| 0 <= d < h.len() implies #[trigger] h[d] as nat == count(
        s.take(0),
        f,
        d,
    ) by {
        lemma_count_empty(f, d);
    }
}

/// Counts `arr[i]` in the histogram of the first `i` elements.
fn tally_one<T: Radixable>(
    histogram: &mut Vec<usize>,
    arr: &[T],
    i: usize,
    p: &Params,
    mask: u64,
    shift: usize,
)
    requires
        p.wf(),
        mask == p.radix_range - 1,
        shift < 128,
        i < arr@.len(),
        old(histogram)@.len() == p.radix_range,
        is_histogram(
            old(histogram)@,
            arr@.take(i as int),
            digit_fn::<T>(shift as nat, p.radix as nat),
        ),
    ensures
        final(histogram)@.len() == p.radix_range,
        is_histogram(
            final(histogram)@,
            arr@.take(i + 1),
            digit_fn::<T>(shift as nat, p.radix as nat),
        ),
{
    let ghost f = digit_fn::<T>(shift as nat, p.radix as nat);
    let bucket: usize = extract(&arr[i], mask, shift);
    proof {
        lemma_digit_bound(arr@[i as int].key() as nat, shift as nat, p.radix as nat);
        lemma_tally(
            histogram@,
            histogram@.update(bucket as int, (histogram@[bucket as int] + 1) as usize),
            arr@,
            f,
            i as int,
        );
    }
    histogram[bucket] = histogram[bucket] + 1;
}

/// Histogram of the digits that `mask` and `shift` select, counted four
/// elements at a time.
pub fn get_histogram<T: Radixable>(arr: &[T], p: &Params, mask: u64, shift: usize) -> (h: Vec<
    usize,
>)
    requires
        p.wf(),
        mask == p.radix_range - 1,
        shift < 128,
    ensures
        h@.len() == p.radix_range,
        is_histogram(h@, arr@, digit_fn::<T>(shift as nat, p.radix as nat)),
{
    let ghost f = digit_fn::<T>(shift as nat, p.radix as nat);
    let mut histogram: Vec<usize> = vec![0usize; p.radix_range];
    let n: usize = arr.len();
    let quotient: usize = n / 4;
    let remainder: usize = n % 4;
    proof {
        lemma_empty_histogram(histogram@, arr@, f);
    }
    let mut q: usize = 0;
    while q < quotient
        invariant
            q <= quotient,
            quotient == n / 4,
            n == arr@.len(),
            p.wf(),
            mask == p.radix_range - 1,
            shift < 128,
            histogram@.len() == p.radix_range,
            is_histogram(
                histogram@,
                arr@.take(q * 4),
                digit_fn::<T>(shift as nat, p.radix as nat),
            ),
        decreases quotient - q,
    {
        let i: usize = q * 4;
        tally_one(&mut histogram, arr, i, p, mask, shift);
        tally_one(&mut histogram, arr, i + 1, p, mask, shift);
        tally_one(&mut histogram, arr, i + 2, p, mask, shift);
        tally_one(&mut histogram, arr, i + 3, p, mask, shift);
        q = q + 1;
    }
    let offset: usize = quotient * 4;
    let mut i: usize = 0;
    while i < remainder
        invariant
            i <= remainder,
            offset + remainder == n,
            n == arr@.len(),
            p.wf(),
            mask == p.radix_range - 1,
            shift < 128,
            histogram@.len() == p.radix_range,
            is_histogram(
                histogram@,
                arr@.take(offset + i),
                digit_fn::<T>(shift as nat, p.radix as nat),
            ),
        decreases remainder - i,
    {
        tally_one(&mut histogram, arr, offset + i, p, mask, shift);
        i = i + 1;
    }
    proof {
        assert(arr@.take(n as int) =~= arr@);
    }
    histogram
}

/// Bit position of the digit that histogram `l` of `count` counts, where
/// the last histogram counts the digit at `base` and each one before it the
/// next digit up.
pub open spec fn shift_at(base: nat, radix: nat, count: nat, l: int) -> nat {
    (base + radix * (count - 1 - l)) as nat
}

/// `count` histograms by one pass over the slice: the last counts the
/// digit at bit `base`, each one before it the digit `p.radix` bits higher.
pub fn histograms_at<T: Radixable>(arr: &[T], p: &Params, count: usize, base: usize) -> (hs: Vec<
    Vec<usize>,
>)
    requires
        p.wf(),
        count == 0 || base + p.radix * (count - 1) < 128,
    ensures
        hs@.len() == count,
        forall|l: int|
            0 <= l < count ==> (#[trigger] hs@[l])@.len() == p.radix_range && is_histogram(
                hs@[l]@,
                arr@,
                digit_fn::<T>(
                    shift_at(base as nat, p.radix as nat, count as nat, l),
                    p.radix as nat,
                ),
            ),
{
    let mut histograms: Vec<Vec<usize>> = get_empty_histograms(p, count);
    let n: usize = arr.len();
    proof {
        lemma_pow2_pos(p.radix as nat);
    }
    let mask: u64 = (p.radix_range - 1) as u64;
    proof {
        assert forall|l: int| 0 <= l < count implies is_histogram(
            (#[trigger] histograms@[l])@,
            arr@.take(0),
            digit_fn::<T>(shift_at(base as nat, p.radix as nat, count as nat, l), p.radix as nat),
        ) by {
            lemma_empty_histogram(
                histograms@[l]@,
                arr@,
                digit_fn::<T>(
                    shift_at(base as nat, p.radix as nat, count as nat, l),
                    p.radix as nat,
                ),
            );
        }
    }
    let mut i: usize = 0;
    while i < n
        invariant
            i <= n,
            n == arr@.len(),
            p.wf(),
            count == 0 || base + p.radix * (count - 1) < 128,
            mask == p.radix_range - 1,
            histograms@.len() == count,
            forall|l: int|
                0 <= l < count ==> (#[trigger] histograms@[l])@.len() == p.radix_range
                    && is_histogram(
                    histograms@[l]@,
                    arr@.take(i as int),
                    digit_fn::<T>(
                        shift_at(base as nat, p.radix as nat, count as nat, l),
                        p.radix as nat,
                    ),
                ),
        decreases n - i,
    {
        let key: u128 = arr[i].into_key();
        let mut l: usize = count;
        while l > 0
            invariant
                l <= count,
                i < n,
                n == arr@.len(),
                p.wf(),
                count == 0 || base + p.radix * (count - 1) < 128,
                mask == p.radix_range - 1,
                key == arr@[i as int].key(),
                histograms@.len() == count,
                forall|m: int|
                    0 <= m < count ==> (#[trigger] histograms@[m])@.len() == p.radix_range
                        && is_histogram(
                        histograms@[m]@,
                        arr@.take(
                            if m < l {
                                i as int
                            } else {
                                i + 1
                            },
                        ),
                        digit_fn::<T>(
                            shift_at(base as nat, p.radix as nat, count as nat, m),
                            p.radix as nat,
                        ),
                    ),
            decreases l,
        {
            l = l - 1;
            proof {
                let r = p.radix as int;
                let a = (count - 1 - l) as int;
                let b = (count - 1) as int;
                assert(0 <= r * a <= r * b) by (nonlinear_arith)
                    requires
                        0 <= a <= b,
                        0 <= r,
                ;
            }
            let shift: usize = base + p.radix * (count - 1 - l);
            let bucket: usize = extract_key(key, mask, shift);
            let ghost f = digit_fn::<T>(
                shift_at(base as nat, p.radix as nat, count as nat, l as int),
                p.radix as nat,
            );
            let ghost before = histograms@;
            proof {
                lemma_digit_bound(key as nat, shift as nat, p.radix as nat);
                assert(bucket as int == f(arr@[i as int]));
                lemma_tally(
                    before[l as int]@,
                    before[l as int]@.update(
                        bucket as int,
                        (before[l as int]@[bucket as int] + 1) as usize,
                    ),
                    arr@,
                    f,
                    i as int,
                );
            }
            let tally: usize = histograms[l][bucket];
            histograms[l][bucket] = tally + 1;
            proof {
                assert forall|m: int| 0 <= m < count implies (#[trigger] histograms@[m])@.len()
                    == p.radix_range && is_histogram(
                    histograms@[m]@,
                    arr@.take(
                        if m < l {
                            i as int
                        } else {
                            i + 1
                        },
                    ),
                    digit_fn::<T>(
                        shift_at(base as nat, p.radix as nat, count as nat, m),
                        p.radix as nat,
                    ),
                ) by {
                    if m != l {
                        assert(histograms@[m] == before[m]);
                    }
                }
            }
        }
        i = i + 1;
    }
    proof {
        assert(arr@.take(n as int) =~= arr@);
    }
    histograms
}

/// The histograms of all `p.max_level` digits, by one pass over the slice:
/// entry `l` counts the digit of level `l`, levels counted from the most
/// significant digit.
pub fn get_full_histograms_fast<T: Radixable>(arr: &[T], p: &Params) -> (hs: Vec<Vec<usize>>)
    requires
        p.wf(),
        p.max_level == 0 || p.radix * (p.max_level - 1) < 128,
    ensures
        hs@.len() == p.max_level,
        forall|l: int|
            0 <= l < p.max_level ==> (#[trigger] hs@[l])@.len() == p.radix_range && is_histogram(
                hs@[l]@,
                arr@,
                digit_fn::<T>(p.new_level_spec(l as usize).shift(), p.radix as nat),
            ),
        forall|l: int|
            0 <= l < p.max_level ==> p.new_level_spec(l as usize).shift() == #[trigger] shift_at(
                0,
                p.radix as nat,
                p.max_level as nat,
                l,
            ),
{
    let hs = histograms_at(arr, p, p.max_level, 0);
    proof {
        assert forall|l: int| 0 <= l < p.max_level implies shift_at(
            0,
            p.radix as nat,
            p.max_level as nat,
            l,
        ) == p.new_level_spec(l as usize).shift() by {
            let r = p.radix as int;
            let a = p.max_level - 1 - l;
            assert(0 <= r * a) by (nonlinear_arith)
                requires
                    0 <= a,
                    0 <= r,
            ;
        }
    }
    hs
}

/// The histograms of all digits but the last, entry `l` for level `l`: as
/// `get_full_histograms_fast`, without its last entry.
pub fn get_full_histogram_except_for_last_level<T: Radixable>(arr: &[T], p: &Params) -> (hs: Vec<
    Vec<usize>,
>)
    requires
        p.wf(),
        p.max_level >= 1,
        p.radix * (p.max_level - 1) < 128,
    ensures
        hs@.len() == p.max_level - 1,
        forall|l: int|
            0 <= l < p.max_level - 1 ==> (#[trigger] hs@[l])@.len() == p.radix_range
                && is_histogram(
                hs@[l]@,
                arr@,
                digit_fn::<T>(p.new_level_spec(l as usize).shift(), p.radix as nat),
            ),
{
    let count: usize = p.max_level - 1;
    proof {
        let r = p.radix as int;
        let c = count as int;
        assert(r + r * (c - 1) == r * c) by (nonlinear_arith);
    }
    let hs = histograms_at(arr, p, count, p.radix);
    proof {
        assert forall|l: int| 0 <= l < count implies shift_at(
            p.radix as nat,
            p.radix as nat,
            count as nat,
            l,
        ) == p.new_level_spec(l as usize).shift() by {
            let r = p.radix as int;
            let a = count - 1 - l;
            assert(r + r * a == r * (a + 1)) by (nonlinear_arith);
            assert(0 <= r * a) by (nonlinear_arith)
                requires
                    0 <= a,
                    0 <= r,
            ;
        }
    }
    hs
}

/// The histograms of the digit of `p.level` (entry 0) and of the digit
/// below it (entry 1), the digits laid out from the highest bit that the
/// offset leaves.
pub fn get_next_two_histograms<T: Radixable>(arr: &[T], p: &Params) -> (hs: Vec<Vec<usize>>)
    requires
        p.wf(),
        p.offset <= T::bits() <= 128,
        p.level < usize::MAX,
        p.radix * (p.level + 1) <= usize::MAX,
        p.shift_from_left(T::bits()) >= p.radix,
    ensures
        hs@.len() == 2,
        hs@[0]@.len() == p.radix_range,
        hs@[1]@.len() == p.radix_range,
        is_histogram(
            hs@[0]@,
            arr@,
            digit_fn::<T>(p.shift_from_left(T::bits()), p.radix as nat),
        ),
        is_histogram(
            hs@[1]@,
            arr@,
            digit_fn::<T>((p.shift_from_left(T::bits()) - p.radix) as nat, p.radix as nat),
        ),
{
    let (_, fst_shift) = get_mask_and_shift_from_left::<T>(p);
    let base: usize = fst_shift - p.radix;
    let hs = histograms_at(arr, p, 2, base);
    proof {
        let r = p.radix as int;
        assert(r * (2 - 1 - 0) == r) by (nonlinear_arith);
        assert(r * (2 - 1 - 1) == 0) by (nonlinear_arith);
        assert(shift_at(base as nat, p.radix as nat, 2, 0) == fst_shift);
        assert(shift_at(base as nat, p.radix as nat, 2, 1) == base);
        assert(hs@[0]@.len() == p.radix_range);
        assert(hs@[1]@.len() == p.radix_range);
    }
    hs
}

/// Most histograms that `get_partial_histograms_fast` computes at once.
pub const MAX_PARTIAL: usize = 5;

/// Bit position of the lowest of the `partial` highest digits: what the
/// offset leaves of the width, less those digits; 0 where they do not fit.
pub open spec fn partial_shift(p: Params, bits: nat, partial: nat) -> nat {
    if p.radix * partial > bits - p.offset {
        0
    } else {
        (bits - p.offset - p.radix * partial) as nat
    }
}

/// The histograms of the `partial` highest digits, entry 0 for the highest.
///
/// More than `MAX_PARTIAL` histograms are not computed: the request is an
/// invalid input. Where the digits do not fit in the width, the lowest one
/// is taken at bit 0.
pub fn get_partial_histograms_fast<T: Radixable>(arr: &[T], p: &Params, partial: usize) -> (r:
    Result<Vec<Vec<usize>>, SortError>)
    requires
        p.wf(),
        p.offset <= T::bits() <= 128,
        0 < partial <= MAX_PARTIAL ==> partial_shift(*p, T::bits(), partial as nat) + p.radix * (
            partial - 1) < 128,
    ensures
        partial > MAX_PARTIAL ==> r == Err::<Vec<Vec<usize>>, SortError>(
            SortError::InvalidInput(InvalidInput::PartialHistograms),
        ),
        partial <= MAX_PARTIAL ==> r.is_ok() && r.unwrap()@.len() == partial && forall|l: int|
            0 <= l < partial ==> (#[trigger] r.unwrap()@[l])@.len() == p.radix_range
                && is_histogram(
                r.unwrap()@[l]@,
                arr@,
                digit_fn::<T>(
                    shift_at(
                        partial_shift(*p, T::bits(), partial as nat),
                        p.radix as nat,
                        partial as nat,
                        l,
                    ),
                    p.radix as nat,
                ),
            ),
{
    if partial > MAX_PARTIAL {
        return Err(SortError::InvalidInput(InvalidInput::PartialHistograms));
    }
    let bits: usize = T::type_size();
    let width: usize = bits - p.offset;
    proof {
        let r = p.radix as int;
        let c = partial as int;
        assert(0 <= r * c <= r * 5) by (nonlinear_arith)
            requires
                0 <= c <= 5,
                0 <= r,
        ;
    }
    let used: usize = p.radix * partial;
    let fs: usize = if used > width {
        0
    } else {
        width - used
    };
    Ok(histograms_at(arr, p, partial, fs))
}

/// Copies the first `length` elements of `source` to the front of
/// `destination`.
pub fn copy_nonoverlapping<T: Copy>(source: &[T], destination: &mut [T], length: usize)
    requires
        length <= source@.len(),
        length <= old(destination)@.len(),
    ensures
        final(destination)@ == source@.subrange(0, length as int) + old(destination)@.subrange(
            length as int,
            old(destination)@.len() as int,
        ),
{
    let mut i: usize = 0;
    while i < length
        invariant
            i <= length,
            length <= source@.len(),
            destination@.len() == old(destination)@.len(),
            length <= destination@.len(),
            forall|j: int| 0 <= j < i ==> destination@[j] == source@[j],
            forall|j: int| i <= j < destination@.len() ==> destination@[j] == old(destination)@[j],
        decreases length - i,
    {
        destination[i] = source[i];
        i = i + 1;
    }
    proof {
        assert(destination@ =~= source@.subrange(0, length as int) + old(destination)@.subrange(
            length as int,
            old(destination)@.len() as int,
        ));
    }
}

/// Histogram of the buckets that `by` tells.
pub fn histogram_by<T, B: Bucketer<T>>(arr: &[T], by: &B) -> (h: Vec<usize>)
    requires
        by.wf(),
        0 <= by.buckets() <= usize::MAX,
    ensures
        h@.len() == by.buckets(),
        is_histogram(h@, arr@, bucket_fn::<T, B>(*by)),
{
    let ghost f = bucket_fn::<T, B>(*by);
    let ghost k = by.buckets();
    let n: usize = arr.len();
    let mut histogram: Vec<usize> = Vec::new();
    let mut i: usize = 0;
    let size: usize = by.size();
    histogram = vec![0usize; size];
    proof {
        lemma_empty_histogram(histogram@, arr@, f);
    }
    while i < n
        invariant
            i <= n,
            n == arr@.len(),
            by.wf(),
            f == bucket_fn::<T, B>(*by),
            histogram@.len() == by.buckets(),
            is_histogram(histogram@, arr@.take(i as int), f),
        decreases n - i,
    {
        let bucket: usize = by.bucket(&arr[i]);
        proof {
            lemma_tally(
                histogram@,
                histogram@.update(bucket as int, (histogram@[bucket as int] + 1) as usize),
                arr@,
                f,
                i as int,
            );
        }
        histogram[bucket] = histogram[bucket] + 1;
        i = i + 1;
    }
    proof {
        assert(arr@.take(n as int) =~= arr@);
    }
    histogram
}

/// Where each bucket starts (`p_sums`, one entry more than the histogram,
/// the last one being the total), the cursors of a pass (`heads`, at first
/// the starts), and where each bucket ends (`tails`).
pub fn prefix_sums(histogram: &[usize]) -> (r: (Vec<usize>, Vec<usize>, Vec<usize>))
    requires
        psum(histogram@, histogram@.len() as int) <= usize::MAX,
    ensures
        r.0@.len() == histogram@.len() + 1,
        r.1@.len() == histogram@.len(),
        r.2@.len() == histogram@.len(),
        forall|d: int| 0 <= d <= histogram@.len() ==> #[trigger] r.0@[d] == psum(histogram@, d),
        forall|d: int| 0 <= d < histogram@.len() ==> #[trigger] r.1@[d] == psum(histogram@, d),
        forall|d: int| 0 <= d < histogram@.len() ==> #[trigger] r.2@[d] == psum(histogram@, d + 1),
{
    let k: usize = histogram.len();
    let mut p_sums: Vec<usize> = Vec::new();
    let mut heads: Vec<usize> = Vec::new();
    let mut tails: Vec<usize> = Vec::new();
    let mut sum: usize = 0;
    p_sums.push(sum);
    let mut d: usize = 0;
    while d < k
        invariant
            d <= k,
            k == histogram@.len(),
            psum(histogram@, k as int) <= usize::MAX,
            sum == psum(histogram@, d as int),
            p_sums@.len() == d + 1,
            heads@.len() == d,
            tails@.len() == d,
            forall|e: int| 0 <= e <= d ==> #[trigger] p_sums@[e] == psum(histogram@, e),
            forall|e: int| 0 <= e < d ==> #[trigger] heads@[e] == psum(histogram@, e),
            forall|e: int| 0 <= e < d ==> #[trigger] tails@[e] == psum(histogram@, e + 1),
        decreases k - d,
    {
        proof {
            crate::buckets::lemma_psum_monotone(histogram@, d + 1, k as int);
        }
        heads.push(sum);
        sum = sum + histogram[d];
        p_sums.push(sum);
        tails.push(sum);
        d = d + 1;
    }
    (p_sums, heads, tails)
}

/// No two buckets hold an element.
pub open spec fn at_most_one_filled(h: Seq<usize>) -> bool {
    forall|i: int, j: int| 0 <= i < j < h.len() ==> !(h[i] > 0 && h[j] > 0)
}

/// Whether at most one bucket of the histogram holds an element.
pub fn only_one_bucket_filled(histogram: &[usize]) -> (r: bool)
    ensures
        r == at_most_one_filled(histogram@),
{
    let n: usize = histogram.len();
    let mut filled: usize = 0;
    let ghost mut seen: int = -1;
    let mut i: usize = 0;
    while i < n
        invariant
            i <= n,
            n == histogram@.len(),
            filled <= 1,
            filled == 0 ==> forall|j: int| 0 <= j < i ==> histogram@[j] == 0,
            filled == 1 ==> 0 <= seen < i && histogram@[seen] > 0 && forall|j: int|
                0 <= j < i && j != seen ==> histogram@[j] == 0,
        decreases n - i,
    {
        if histogram[i] > 0 {
            if filled == 1 {
                return false;
            }
            filled = 1;
            proof {
                seen = i as int;
            }
        }
        i = i + 1;
    }
    true
}

/// Number of leading bits that a pass may skip, aligned so that the digits
/// above it are whole where the width allows.
pub open spec fn offset_for(used: nat, radix: nat, bits: nat) -> nat {
    if radix == 0 {
        0
    } else if used % radix == 0 {
        (bits - used) as nat
    } else {
        let total = (used / radix + 1) * radix;
        if total > bits {
            0
        } else {
            (bits - total) as nat
        }
    }
}

/// From the largest key of a slice: the aligned offset, and the number of
/// leading bits that are zero in every key.
pub fn offset_from_bits(biggest: u128, radix: usize, bits: usize) -> (r: (usize, usize))
    requires
        radix >= 1,
        bit_length(biggest as nat) <= bits,
    ensures
        r.0 == offset_for(bit_length(biggest as nat), radix as nat, bits as nat),
        r.1 == bits - bit_length(biggest as nat),
        r.0 <= r.1,
{
    let mut count: usize = 0;
    let mut buf: u128 = biggest;
    while buf != 0
        invariant
            bit_length(biggest as nat) == count + bit_length(buf as nat),
            bit_length(biggest as nat) <= bits,
        decreases buf,
    {
        let next: u128 = buf >> 1u32;
        proof {
            assert(buf >> 1u32 == buf / 2) by (bit_vector);
        }
        buf = next;
        count = count + 1;
    }
    let rest: usize = count % radix;
    proof {
        let u = count as int;
        let r = radix as int;
        lemma_fundamental_div_mod(u, r);
        lemma_mod_pos_bound(u, r);
        let q = u / r;
        assert((q + 1) * r == r * q + r) by (nonlinear_arith);
    }
    let offset: usize = if rest == 0 {
        bits - count
    } else {
        let pad: usize = radix - rest;
        if pad > bits - count {
            0
        } else {
            bits - count - pad
        }
    };
    (offset, bits - count)
}

/// The largest key of a slice; 0 for an empty one.
pub open spec fn max_key<T: Radixable>(s: Seq<T>) -> nat
    decreases s.len(),
{
    if s.len() == 0 {
        0
    } else {
        let m = max_key(s.drop_last());
        if s.last().key() as nat > m {
            s.last().key() as nat
        } else {
            m
        }
    }
}

/// No key is above the largest, and in a slice that is not empty some key

/// is the largest.
pub proof fn lemma_max_key<T: Radixable>(s: Seq<T>)
    ensures
        forall|i: int| 0 <= i < s.len() ==> (#[trigger] s[i]).key() <= max_key(s),
        s.len() > 0 ==> exists|i: int| 0 <= i < s.len() && (#[trigger] s[i]).key() == max_key(s),
    decreases s.len(),
{
    if s.len() > 0 {
        let t = s.drop_last();
        lemma_max_key(t);
        assert forall|i: int| 0 <= i < s.len() implies (#[trigger] s[i]).key() <= max_key(s) by {
            if i < t.len() {
                assert(t[i] == s[i]);
            }
        }
        if s.last().key() as nat > max_key(t) {
            assert(s[s.len() - 1].key() == max_key(s));
        } else if t.len() > 0 {
            let i = choose|i: int| 0 <= i < t.len() && (#[trigger] t[i]).key() == max_key(t);
            assert(s[i].key() == max_key(s));
        } else {
            assert(s[s.len() - 1].key() == max_key(s));
        }
    }
}

/// The largest key of a slice, by one pass over it.
pub fn find_max_key<T: Radixable>(arr: &[T]) -> (m: u128)
    ensures
        m == max_key(arr@),
{
    let n: usize = arr.len();
    let mut max: u128 = 0;
    let mut i: usize = 0;
    while i < n
        invariant
            i <= n,
            n == arr@.len(),
            max == max_key(arr@.take(i as int)),
        decreases n - i,
    {
        let k: u128 = arr[i].into_key();
        proof {
            assert(arr@.take(i + 1).drop_last() =~= arr@.take(i as int));
        }
        if k > max {
            max = k;
        }
        i = i + 1;
    }
    proof {
        assert(arr@.take(n as int) =~= arr@);
    }
    max
}

/// The offsets of a slice (see `offset_from_bits`), from its largest key.
pub fn compute_offset<T: Radixable>(arr: &[T], radix: usize) -> (r: (usize, usize))
    requires
        radix >= 1,
        T::bits() <= 128,
    ensures
        r.0 == offset_for(bit_length(max_key(arr@)), radix as nat, T::bits()),
        r.1 == T::bits() - bit_length(max_key(arr@)),
        r.0 <= r.1 <= T::bits(),
        keys_below(arr@, (T::bits() - r.1) as nat),
{
    let max: u128 = find_max_key(arr);
    let bits: usize = T::type_size();
    proof {
        lemma_max_key(arr@);
        if arr@.len() > 0 {
            let i = choose|i: int| 0 <= i < arr@.len() && (#[trigger] arr@[i]).key() == max_key(
                arr@,
            );
            if T::bits() < 128 {
                T::key_bound(arr@[i]);
            } else {
                lemma_pow2_128();
            }
            lemma_bit_length_le(max as nat, T::bits());
        }
        let used = bit_length(max as nat);
        assert forall|i: int| 0 <= i < arr@.len() implies (#[trigger] arr@[i]).key() < pow2(
            used,
        ) by {
            lemma_bit_length_monotone(arr@[i].key() as nat, max as nat);
            crate::digits::lemma_bit_length(arr@[i].key() as nat);
            crate::digits::lemma_pow2_monotone(bit_length(arr@[i].key() as nat), used);
        }
    }
    offset_from_bits(max, radix, bits)
}

/// Number of digits of `radix` bits that cover what `offset` leaves of `bits`.
pub fn compute_max_level(bits: usize, offset: usize, radix: usize) -> (r: usize)
    requires
        offset <= bits,
        radix >= 1,
    ensures
        r == levels_for((bits - offset) as nat, radix as nat),
{
    let rest: usize = bits - offset;
    proof {
        lemma_fundamental_div_mod(rest as int, radix as int);
        lemma_mod_pos_bound(rest as int, radix as int);
        let q = rest as int / radix as int;
        let r = radix as int;
        assert(r * q >= q) by (nonlinear_arith)
            requires
                r >= 1,
                q >= 0,
        ;
    }
    if rest % radix != 0 {
        (rest / radix) + 1
    } else {
        rest / radix
    }
}

/// Sum of entry `d` of the first `n` histograms.
pub open spec fn column_sum(hs: Seq<Vec<usize>>, d: int, n: int) -> int
    decreases n,
{
    if n <= 0 {
        0
    } else {
        column_sum(hs, d, n - 1) + hs[n - 1]@[d]
    }
}

/// The histograms, added up entry by entry.
pub fn aggregate_histograms(histograms: &Vec<Vec<usize>>) -> (global: Vec<usize>)
    requires
        histograms@.len() > 0,
        forall|i: int|
            0 <= i < histograms@.len() ==> (#[trigger] histograms@[i])@.len()
                == histograms@[0]@.len(),
        forall|d: int|
            0 <= d < histograms@[0]@.len() ==> #[trigger] column_sum(
                histograms@,
                d,
                histograms@.len() as int,
            ) <= usize::MAX,
    ensures
        global@.len() == histograms@[0]@.len(),
        forall|d: int|
            0 <= d < global@.len() ==> #[trigger] global@[d] == column_sum(
                histograms@,
                d,
                histograms@.len() as int,
            ),
{
    let k: usize = histograms[0].len();
    let m: usize = histograms.len();
    let mut global: Vec<usize> = vec![0usize; k];
    let mut i: usize = 0;
    while i < m
        invariant
            i <= m,
            m == histograms@.len(),
            k == histograms@[0]@.len(),
            global@.len() == k,
            forall|j: int| 0 <= j < m ==> (#[trigger] histograms@[j])@.len() == k,
            forall|d: int|
                0 <= d < k ==> #[trigger] column_sum(histograms@, d, m as int) <= usize::MAX,
            forall|d: int|
                0 <= d < k ==> #[trigger] global@[d] == column_sum(histograms@, d, i as int),
        decreases m - i,
    {
        let mut d: usize = 0;
        while d < k
            invariant
                d <= k,
                i < m,
                m == histograms@.len(),
                k == histograms@[0]@.len(),
                global@.len() == k,
                histograms@[i as int]@.len() == k,
                forall|e: int|
                    0 <= e < k ==> #[trigger] column_sum(histograms@, e, m as int) <= usize::MAX,
                forall|e: int|
                    0 <= e < k ==> #[trigger] global@[e] == column_sum(
                        histograms@,
                        e,
                        if e < d {
                            i + 1
                        } else {
                            i as int
                        },
                    ),
            decreases k - d,
        {
            proof {
                lemma_column_sum_monotone(histograms@, d as int, i + 1, m as int);
            }
            global[d] = global[d] + histograms[i][d];
            d = d + 1;
        }
        i = i + 1;
    }
    global
}

/// The sums of an entry over more histograms do not decrease, and none is

/// negative.
pub proof fn lemma_column_sum_monotone(hs: Seq<Vec<usize>>, d: int, a: int, b: int)
    requires
        a <= b,
    ensures
        column_sum(hs, d, a) <= column_sum(hs, d, b),
        0 <= column_sum(hs, d, a),
    decreases b - a, b,
{
    if a < b {
        lemma_column_sum_monotone(hs, d, a, b - 1);
    } else if a > 0 {
        lemma_column_sum_monotone(hs, d, a - 1, a - 1);
    }
}

/// The bounds of `chunk_n - 1` chunks of `len / chunk_n` positions each,
/// and of one more chunk for what is left, if anything is.
pub open spec fn chunk_bounds(len: nat, chunk_n: nat) -> Seq<(usize, usize)> {
    let part = len / chunk_n;
    let even = Seq::new(
        (chunk_n - 1) as nat,
        |i: int| ((i * part) as usize, ((i + 1) * part) as usize),
    );
    if (chunk_n - 1) * part < len {
        even.push((((chunk_n - 1) * part) as usize, len as usize))
    } else {
        even
    }
}

/// Cuts the positions of a slice into at most `chunk_n` chunks, one after
/// the other.
pub fn split_into_chunks<T>(arr: &[T], chunk_n: usize) -> (parts: Vec<(usize, usize)>)
    requires
        chunk_n >= 1,
    ensures
        parts@ == chunk_bounds(arr@.len(), chunk_n as nat),
{
    let n: usize = arr.len();
    let part_size: usize = n / chunk_n;
    let mut parts: Vec<(usize, usize)> = Vec::new();
    let mut start: usize = 0;
    let mut i: usize = 0;
    proof {
        vstd::arithmetic::div_mod::lemma_fundamental_div_mod(n as int, chunk_n as int);
        vstd::arithmetic::div_mod::lemma_mod_pos_bound(n as int, chunk_n as int);
        let c = chunk_n as int;
        let q = part_size as int;
        assert(0 <= (c - 1) * q <= c * q) by (nonlinear_arith)
            requires
                c >= 1,
                q >= 0,
        ;
    }
    while i < chunk_n - 1
        invariant
            i <= chunk_n - 1,
            part_size == n / chunk_n,
            start == i * part_size,
            (chunk_n - 1) * part_size <= n,
            parts@.len() == i,
            forall|j: int|
                0 <= j < i ==> #[trigger] parts@[j] == ((j * part_size) as usize, ((j + 1)
                    * part_size) as usize),
        decreases chunk_n - 1 - i,
    {
        proof {
            let a = i as int;
            let c = (chunk_n - 1) as int;
            let q = part_size as int;
            assert((a + 1) * q == a * q + q) by (nonlinear_arith);
            assert((a + 1) * q <= c * q) by (nonlinear_arith)
                requires
                    a + 1 <= c,
                    q >= 0,
            ;
        }
        let end: usize = start + part_size;
        parts.push((start, end));
        start = end;
        i = i + 1;
    }
    if start < n {
        parts.push((start, n));
    }
    proof {
        assert(parts@ =~= chunk_bounds(n as nat, chunk_n as nat));
    }
    parts
}

/// The sequence with the `len` elements from `i` on and the `len` elements
/// from `j` on exchanged.
pub open spec fn ranges_swapped<T>(s: Seq<T>, len: int, i: int, j: int) -> Seq<T> {
    Seq::new(
        s.len(),
        |x: int|
            if i <= x < i + len {
                s[x - i + j]
            } else if j <= x < j + len {
                s[x - j + i]
            } else {
                s[x]
            },
    )
}

/// Exchanges the `len` elements from `i` on with the `len` elements from
/// `j` on. The two ranges must not overlap.
pub fn swap_range<T: Copy>(a: &mut [T], len: usize, i: usize, j: usize)
    requires
        i + len <= old(a)@.len(),
        j + len <= old(a)@.len(),
        i + len <= j || j + len <= i,
    ensures
        final(a)@ == ranges_swapped(old(a)@, len as int, i as int, j as int),
        final(a)@.to_multiset() == old(a)@.to_multiset(),
{
    let n: usize = a.len();
    let mut k: usize = 0;
    while k < len
        invariant
            k <= len,
            n == a@.len(),
            i + len <= a@.len(),
            j + len <= a@.len(),
            i + len <= j || j + len <= i,
            a@.len() == old(a)@.len(),
            a@.to_multiset() == old(a)@.to_multiset(),
            a@ == ranges_swapped(old(a)@, k as int, i as int, j as int),
        decreases len - k,
    {
        let ghost before = a@;
        proof {
            crate::sorts::comparative_sort::lemma_swap_multiset(before, i + k, j + k);
        }
        let x: T = a[i + k];
        let y: T = a[j + k];
        a[i + k] = y;
        a[j + k] = x;
        k = k + 1;
        proof {
            assert(a@ =~= ranges_swapped(old(a)@, k as int, i as int, j as int));
        }
    }
}

/// Whether the exchanges can be made: each one within the slice once
/// `offset` is taken off its positions, its two ranges apart.
pub open spec fn swaps_fit(swaps: Seq<(usize, usize, usize)>, offset: int, n: int) -> bool {
    forall|k: int|
        0 <= k < swaps.len() ==> {
            let (len, i, j) = #[trigger] swaps[k];
            &&& offset <= i && offset <= j
            &&& i - offset + len <= n
            &&& j - offset + len <= n
            &&& (i + len <= j || j + len <= i)
        }
}

/// The sequence after the first `k` exchanges.
pub open spec fn swaps_applied<T>(
    s: Seq<T>,
    swaps: Seq<(usize, usize, usize)>,
    offset: int,
    k: int,
) -> Seq<T>
    decreases k,
{
    if k <= 0 {
        s
    } else {
        ranges_swapped(
            swaps_applied(s, swaps, offset, k - 1),
            swaps[k - 1].0 as int,
            swaps[k - 1].1 - offset,
            swaps[k - 1].2 - offset,
        )
    }
}

/// Makes the exchanges `(len, i, j)` one after the other, each with
/// `offset` taken off its two positions.
pub fn perform_swaps<T: Copy>(arr: &mut [T], swaps: Vec<(usize, usize, usize)>, offset: usize)
    requires
        swaps_fit(swaps@, offset as int, old(arr)@.len() as int),
    ensures
        final(arr)@ == swaps_applied(old(arr)@, swaps@, offset as int, swaps@.len() as int),
        final(arr)@.to_multiset() == old(arr)@.to_multiset(),
{
    let m: usize = swaps.len();
    let mut k: usize = 0;
    while k < m
        invariant
            k <= m,
            m == swaps@.len(),
            arr@.len() == old(arr)@.len(),
            swaps_fit(swaps@, offset as int, arr@.len() as int),
            arr@ == swaps_applied(old(arr)@, swaps@, offset as int, k as int),
            arr@.to_multiset() == old(arr)@.to_multiset(),
        decreases m - k,
    {
        let (len, i, j) = swaps[k];
        proof {
            assert(swaps@[k as int] == (len, i, j));
        }
        swap_range(arr, len, i - offset, j - offset);
        k = k + 1;
    }
}

} // verus!
