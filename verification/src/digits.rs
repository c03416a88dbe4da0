//! Arithmetic of radix digits: a key is read as a number, a digit is a
//! group of `radix` bits taken at some `shift`.

use vstd::arithmetic::div_mod::*;
use vstd::arithmetic::mul::*;
use vstd::arithmetic::power2::*;
use vstd::prelude::*;

verus! {

/// The digit of `radix` bits that `k` holds at bit position `shift`.
pub open spec fn digit(k: nat, shift: nat, radix: nat) -> nat {
    (k / pow2(shift)) % pow2(radix)
}

/// The `w` lowest bits of `k`.
pub open spec fn low(k: nat, w: nat) -> nat {
    k % pow2(w)
}

/// What is left of `k` once its `w` lowest bits are dropped.
pub open spec fn prefix(k: nat, w: nat) -> nat {
    k / pow2(w)
}

/// Number of bits needed to write `k`: the least `c` with `k < 2^c`.
pub open spec fn bit_length(k: nat) -> nat
    decreases k,
{
    if k == 0 {
        0
    } else {
        1 + bit_length(k / 2)
    }
}

/// Number of digits of `radix` bits needed to cover `width` bits.
pub open spec fn levels_for(width: nat, radix: nat) -> nat {
    if radix == 0 {
        0
    } else if width % radix != 0 {
        width / radix + 1
    } else {
        width / radix
    }
}

/// A digit of `radix` bits is below `2^radix`.
pub proof fn lemma_digit_bound(k: nat, shift: nat, radix: nat)
    ensures
        digit(k, shift, radix) < pow2(radix),
{
    lemma_pow2_pos(radix);
    lemma_pow2_pos(shift);
    lemma_mod_pos_bound((k / pow2(shift)) as int, pow2(radix) as int);
}

/// Dropping bits twice is dropping them at once.
pub proof fn lemma_prefix_prefix(k: nat, s: nat, r: nat)
    ensures
        prefix(prefix(k, s), r) == prefix(k, s + r),
{
    lemma_pow2_pos(s);
    lemma_pow2_pos(r);
    lemma_pow2_adds(s, r);
    lemma_div_denominator(k as int, pow2(s) as int, pow2(r) as int);
}

/// A prefix is the next shorter prefix followed by one digit.
pub proof fn lemma_prefix_split(k: nat, s: nat, r: nat)
    ensures
        prefix(k, s) == prefix(k, s + r) * pow2(r) + digit(k, s, r),
{
    lemma_pow2_pos(r);
    lemma_prefix_prefix(k, s, r);
    lemma_fundamental_div_mod(prefix(k, s) as int, pow2(r) as int);
    lemma_mul_is_commutative(pow2(r) as int, (prefix(k, s) / pow2(r)) as int);
}

/// Keys that agree above bit `s` agree above any higher bit.
pub proof fn lemma_prefix_mono(a: nat, b: nat, s: nat, w: nat)
    requires
        prefix(a, s) == prefix(b, s),
        s <= w,
    ensures
        prefix(a, w) == prefix(b, w),
{
    lemma_prefix_prefix(a, s, (w - s) as nat);
    lemma_prefix_prefix(b, s, (w - s) as nat);
}

/// Prefixes are ordered as the keys are.
pub proof fn lemma_prefix_ordered(a: nat, b: nat, s: nat)
    requires
        a <= b,
    ensures
        prefix(a, s) <= prefix(b, s),
{
    lemma_pow2_pos(s);
    lemma_div_is_ordered(a as int, b as int, pow2(s) as int);
}

/// With equal prefixes above the digit, the digit decides the order of the
/// prefixes below it.
pub proof fn lemma_digit_orders_prefix(a: nat, b: nat, s: nat, r: nat)
    requires
        prefix(a, s + r) == prefix(b, s + r),
    ensures
        digit(a, s, r) < digit(b, s, r) ==> prefix(a, s) < prefix(b, s),
        digit(a, s, r) == digit(b, s, r) ==> prefix(a, s) == prefix(b, s),
{
    lemma_prefix_split(a, s, r);
    lemma_prefix_split(b, s, r);
}

/// Dropping no bits leaves the key.
pub proof fn lemma_prefix_zero(k: nat)
    ensures
        prefix(k, 0) == k,
{
    lemma2_to64();
}

/// The low bits of a key are one digit on top of fewer low bits.
pub proof fn lemma_low_split(k: nat, s: nat, r: nat)
    ensures
        low(k, s + r) == digit(k, s, r) * pow2(s) + low(k, s),
        low(k, s) < pow2(s),
{
    lemma_pow2_pos(s);
    lemma_pow2_pos(r);
    lemma_pow2_adds(s, r);
    lemma_mod_breakdown(k as int, pow2(s) as int, pow2(r) as int);
    lemma_mul_is_commutative(pow2(s) as int, digit(k, s, r) as int);
    lemma_mod_pos_bound(k as int, pow2(s) as int);
}

/// The digit decides the order of the low bits, and the lower bits break ties.
pub proof fn lemma_low_ordered(a: nat, b: nat, s: nat, r: nat)
    ensures
        digit(a, s, r) < digit(b, s, r) ==> low(a, s + r) < low(b, s + r),
        digit(a, s, r) == digit(b, s, r) && low(a, s) <= low(b, s) ==> low(a, s + r) <= low(
            b,
            s + r,
        ),
{
    lemma_low_split(a, s, r);
    lemma_low_split(b, s, r);
    let da = digit(a, s, r) as int;
    let db = digit(b, s, r) as int;
    let m = pow2(s) as int;
    if da < db {
        assert(da * m + m <= db * m) by (nonlinear_arith)
            requires
                da + 1 <= db,
                m > 0,
        ;
    }
}

/// A key below `2^w` is its own `w` lowest bits, and has nothing above

/// them.
pub proof fn lemma_low_small(k: nat, w: nat)
    requires
        k < pow2(w),
    ensures
        low(k, w) == k,
        prefix(k, w) == 0,
{
    lemma_small_mod(k, pow2(w));
    lemma_basic_div(k as int, pow2(w) as int);
}

/// The lowest zero bits of a key are nothing.
pub proof fn lemma_low_zero(k: nat)
    ensures
        low(k, 0) == 0,
{
    lemma2_to64();
}

/// Powers of two do not decrease with the exponent.
pub proof fn lemma_pow2_monotone(a: nat, b: nat)
    requires
        a <= b,
    ensures
        pow2(a) <= pow2(b),
{
    if a < b {
        lemma_pow2_strictly_increases(a, b);
    }
}

/// A key lies between the two powers of two that its length in bits says.
pub proof fn lemma_bit_length(k: nat)
    ensures
        k < pow2(bit_length(k)),
        k > 0 ==> pow2((bit_length(k) - 1) as nat) <= k,
    decreases k,
{
    lemma2_to64();
    if k > 0 {
        lemma_bit_length(k / 2);
        lemma_pow2_unfold(bit_length(k));
        if k / 2 > 0 {
            lemma_pow2_unfold((bit_length(k) - 1) as nat);
        }
    }
}

/// A key below `2^c` needs at most `c` bits.
pub proof fn lemma_bit_length_le(k: nat, c: nat)
    requires
        k < pow2(c),
    ensures
        bit_length(k) <= c,
{
    lemma_bit_length(k);
    if c < bit_length(k) {
        lemma_pow2_monotone(c, (bit_length(k) - 1) as nat);
    }
}

/// A larger key needs no fewer bits.
pub proof fn lemma_bit_length_monotone(a: nat, b: nat)
    requires
        a <= b,
    ensures
        bit_length(a) <= bit_length(b),
{
    lemma_bit_length(a);
    lemma_bit_length(b);
    if bit_length(b) < bit_length(a) {
        lemma_pow2_monotone(bit_length(b), (bit_length(a) - 1) as nat);
    }
}

/// `levels_for` is the ceiling of `width / radix`.
pub proof fn lemma_levels_cover(width: nat, radix: nat)
    requires
        radix > 0,
    ensures
        levels_for(width, radix) * radix >= width,
        width > 0 ==> (levels_for(width, radix) - 1) * radix < width,
        width == 0 <==> levels_for(width, radix) == 0,
{
    lemma_fundamental_div_mod(width as int, radix as int);
    lemma_mod_pos_bound(width as int, radix as int);
    let q = (width / radix) as int;
    let r = radix as int;
    lemma_mul_is_commutative(r, q);
    assert((q + 1) * r == q * r + r) by (nonlinear_arith);
    assert((q - 1) * r == q * r - r) by (nonlinear_arith);
    if width > 0 && width % radix == 0 {
        if q <= 0 {
            assert(q * r <= 0) by (nonlinear_arith)
                requires
                    q <= 0,
                    r > 0,
            ;
        }
    }
    if width == 0 {
        lemma_div_basics_1(r);
    }
}

/// `1 << n` is `2^n` in 128 bits.
pub proof fn lemma_u128_one_shl(n: u32)
    requires
        n < 128,
    ensures
        (1u128 << n) == pow2(n as nat),
    decreases n,
{
    lemma2_to64();
    if n == 0 {
        assert(1u128 << 0u32 == 1u128) by (bit_vector);
    } else {
        let m: u32 = (n - 1) as u32;
        lemma_u128_one_shl(m);
        lemma_pow2_unfold(n as nat);
        assert((1u128 << n) == 2 * (1u128 << m)) by (bit_vector)
            requires
                0 < n < 128,
                m == n - 1,
        ;
    }
}

/// Shifting right and masking the lowest bits reads a digit.
pub proof fn lemma_extract_is_digit(k: u128, shift: u32, radix: nat)
    requires
        shift < 128,
        radix < 64,
    ensures
        (((k >> shift) as u64) & ((pow2(radix) - 1) as u64)) == digit(
            k as nat,
            shift as nat,
            radix,
        ),
{
    let v: u128 = k >> shift;
    let lo: u64 = v as u64;
    vstd::bits::lemma_u128_shr_is_div(k, shift as u128);
    assert(k >> shift == k >> (shift as u128)) by (bit_vector);
    assert(v as u64 == v % 0x1_0000_0000_0000_0000u128) by (bit_vector);
    lemma2_to64();
    vstd::bits::lemma_u64_pow2_no_overflow(radix);
    vstd::bits::lemma_u64_low_bits_mask_is_mod(lo, radix);
    lemma_pow2_pos(radix);
    lemma_pow2_pos((64 - radix) as nat);
    lemma_pow2_adds(radix, (64 - radix) as nat);
    lemma_mod_mod(v as int, pow2(radix) as int, pow2((64 - radix) as nat) as int);
}

} // verus!
