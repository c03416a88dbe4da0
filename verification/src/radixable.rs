//! The element contract: what a type must offer to be sorted by radix, and
//! the adapters for the primitive types, for IEEE floats held as their bit
//! patterns, and for pairs.

use crate::digits::{lemma_pow2_monotone, lemma_u128_one_shl};
use vstd::arithmetic::div_mod::*;
use vstd::arithmetic::mul::*;
use vstd::arithmetic::power2::*;
use vstd::prelude::*;

verus! {

/// Largest key width, in bits, that the sorts accept.
pub const MAX_BITS: usize = 128;

/// Why an input was turned down.
#[derive(Clone, Copy, Debug, PartialEq, Eq, Structural)]
pub enum InvalidInput {
    /// A float that is not a number.
    NaN,
    /// More look-ahead histograms were asked for than can be computed at once.
    PartialHistograms,
}

/// The errors a sort reports. A sort that reports one leaves the slice as it
/// found it.
#[derive(Clone, Copy, Debug, PartialEq, Eq, Structural)]
pub enum SortError {
    InvalidInput(InvalidInput),
    /// The digit width is outside `MIN_RADIX..=MAX_RADIX`.
    UnsupportedRadix,
    /// The element's key is wider than `MAX_BITS`, or wider than the sort
    /// that was asked for can handle.
    UnsupportedWidth,
}

/// A type whose values project, without loss, onto unsigned keys of a fixed
/// width such that the order of the keys is the order wanted of the values.
pub trait Radixable: Sized {
    /// Width of the key in bits.
    spec fn bits() -> nat;

    /// The key of a value.
    spec fn key(&self) -> u128;

    /// Whether the value may be sorted; a NaN may not.
    spec fn valid(&self) -> bool;

    fn type_size() -> (b: usize)
        ensures
            b == Self::bits(),
    ;

    fn is_valid(&self) -> (b: bool)
        ensures
            b == self.valid(),
    ;

    fn into_key(&self) -> (k: u128)
        ensures
            k == self.key(),
    ;

    /// A key fits in the declared width.
    proof fn key_bound(x: Self)
        ensures
            Self::bits() < 128 ==> x.key() < pow2(Self::bits()),
    ;

    /// The projection loses nothing.
    proof fn key_injective(x: Self, y: Self)
        requires
            Self::bits() <= 128,
            x.key() == y.key(),
        ensures
            x == y,
    ;
}

impl Radixable for u8 {
    open spec fn bits() -> nat {
        8
    }

    open spec fn key(&self) -> u128 {
        *self as u128
    }

    open spec fn valid(&self) -> bool {
        true
    }

    fn type_size() -> (b: usize) {
        8
    }

    fn is_valid(&self) -> (b: bool) {
        true
    }

    fn into_key(&self) -> (k: u128) {
        *self as u128
    }

    proof fn key_bound(x: Self) {
        lemma2_to64();
    }

    proof fn key_injective(x: Self, y: Self) {
    }
}

impl Radixable for u16 {
    open spec fn bits() -> nat {
        16
    }

    open spec fn key(&self) -> u128 {
        *self as u128
    }

    open spec fn valid(&self) -> bool {
        true
    }

    fn type_size() -> (b: usize) {
        16
    }

    fn is_valid(&self) -> (b: bool) {
        true
    }

    fn into_key(&self) -> (k: u128) {
        *self as u128
    }

    proof fn key_bound(x: Self) {
        lemma2_to64();
    }

    proof fn key_injective(x: Self, y: Self) {
    }
}

impl Radixable for u32 {
    open spec fn bits() -> nat {
        32
    }

    open spec fn key(&self) -> u128 {
        *self as u128
    }

    open spec fn valid(&self) -> bool {
        true
    }

    fn type_size() -> (b: usize) {
        32
    }

    fn is_valid(&self) -> (b: bool) {
        true
    }

    fn into_key(&self) -> (k: u128) {
        *self as u128
    }

    proof fn key_bound(x: Self) {
        lemma2_to64();
    }

    proof fn key_injective(x: Self, y: Self) {
    }
}

impl Radixable for u64 {
    open spec fn bits() -> nat {
        64
    }

    open spec fn key(&self) -> u128 {
        *self as u128
    }

    open spec fn valid(&self) -> bool {
        true
    }

    fn type_size() -> (b: usize) {
        64
    }

    fn is_valid(&self) -> (b: bool) {
        true
    }

    fn into_key(&self) -> (k: u128) {
        *self as u128
    }

    proof fn key_bound(x: Self) {
        lemma2_to64();
    }

    proof fn key_injective(x: Self, y: Self) {
    }
}

impl Radixable for u128 {
    open spec fn bits() -> nat {
        128
    }

    open spec fn key(&self) -> u128 {
        *self
    }

    open spec fn valid(&self) -> bool {
        true
    }

    fn type_size() -> (b: usize) {
        128
    }

    fn is_valid(&self) -> (b: bool) {
        true
    }

    fn into_key(&self) -> (k: u128) {
        *self
    }

    proof fn key_bound(x: Self) {
    }

    proof fn key_injective(x: Self, y: Self) {
    }
}

impl Radixable for i8 {
    open spec fn bits() -> nat {
        8
    }

    /// The value moved up by `2^7`, which flips the sign bit.
    open spec fn key(&self) -> u128 {
        (*self + 0x80) as u128
    }

    open spec fn valid(&self) -> bool {
        true
    }

    fn type_size() -> (b: usize) {
        8
    }

    fn is_valid(&self) -> (b: bool) {
        true
    }

    fn into_key(&self) -> (k: u128) {
        let wide: i16 = *self as i16;
        (wide + 0x80) as u128
    }

    proof fn key_bound(x: Self) {
        lemma2_to64();
    }

    proof fn key_injective(x: Self, y: Self) {
    }
}

impl Radixable for i16 {
    open spec fn bits() -> nat {
        16
    }

    /// The value moved up by `2^15`, which flips the sign bit.
    open spec fn key(&self) -> u128 {
        (*self + 0x8000) as u128
    }

    open spec fn valid(&self) -> bool {
        true
    }

    fn type_size() -> (b: usize) {
        16
    }

    fn is_valid(&self) -> (b: bool) {
        true
    }

    fn into_key(&self) -> (k: u128) {
        let wide: i32 = *self as i32;
        (wide + 0x8000) as u128
    }

    proof fn key_bound(x: Self) {
        lemma2_to64();
    }

    proof fn key_injective(x: Self, y: Self) {
    }
}

impl Radixable for i32 {
    open spec fn bits() -> nat {
        32
    }

    /// The value moved up by `2^31`, which flips the sign bit.
    open spec fn key(&self) -> u128 {
        (*self + 0x8000_0000) as u128
    }

    open spec fn valid(&self) -> bool {
        true
    }

    fn type_size() -> (b: usize) {
        32
    }

    fn is_valid(&self) -> (b: bool) {
        true
    }

    fn into_key(&self) -> (k: u128) {
        let wide: i64 = *self as i64;
        (wide + 0x8000_0000) as u128
    }

    proof fn key_bound(x: Self) {
        lemma2_to64();
    }

    proof fn key_injective(x: Self, y: Self) {
    }
}

impl Radixable for i64 {
    open spec fn bits() -> nat {
        64
    }

    /// The value moved up by `2^63`, which flips the sign bit.
    open spec fn key(&self) -> u128 {
        (*self + 0x8000_0000_0000_0000) as u128
    }

    open spec fn valid(&self) -> bool {
        true
    }

    fn type_size() -> (b: usize) {
        64
    }

    fn is_valid(&self) -> (b: bool) {
        true
    }

    fn into_key(&self) -> (k: u128) {
        let wide: i128 = *self as i128;
        (wide + 0x8000_0000_0000_0000) as u128
    }

    proof fn key_bound(x: Self) {
        lemma2_to64();
    }

    proof fn key_injective(x: Self, y: Self) {
    }
}

impl Radixable for usize {
    open spec fn bits() -> nat {
        usize::BITS as nat
    }

    open spec fn key(&self) -> u128 {
        *self as u128
    }

    open spec fn valid(&self) -> bool {
        true
    }

    fn type_size() -> (b: usize) {
        usize::BITS as usize
    }

    fn is_valid(&self) -> (b: bool) {
        true
    }

    fn into_key(&self) -> (k: u128) {
        *self as u128
    }

    proof fn key_bound(x: Self) {
        lemma2_to64();
    }

    proof fn key_injective(x: Self, y: Self) {
    }
}

impl Radixable for i128 {
    open spec fn bits() -> nat {
        128
    }

    /// The value moved up by `2^127`, which flips the sign bit.
    open spec fn key(&self) -> u128 {
        (*self + 0x8000_0000_0000_0000_0000_0000_0000_0000) as u128
    }

    open spec fn valid(&self) -> bool {
        true
    }

    fn type_size() -> (b: usize) {
        128
    }

    fn is_valid(&self) -> (b: bool) {
        true
    }

    fn into_key(&self) -> (k: u128) {
        if *self < 0 {
            (*self + i128::MAX + 1) as u128
        } else {
            *self as u128 + 0x8000_0000_0000_0000_0000_0000_0000_0000
        }
    }

    proof fn key_bound(x: Self) {
    }

    proof fn key_injective(x: Self, y: Self) {
    }
}

impl Radixable for isize {
    open spec fn bits() -> nat {
        usize::BITS as nat
    }

    /// The value moved up by half the range, which flips the sign bit.
    open spec fn key(&self) -> u128 {
        (*self - isize::MIN) as u128
    }

    open spec fn valid(&self) -> bool {
        true
    }

    fn type_size() -> (b: usize) {
        usize::BITS as usize
    }

    fn is_valid(&self) -> (b: bool) {
        true
    }

    fn into_key(&self) -> (k: u128) {
        let wide: i128 = *self as i128;
        let low: i128 = isize::MIN as i128;
        (wide - low) as u128
    }

    proof fn key_bound(x: Self) {
        lemma2_to64();
    }

    proof fn key_injective(x: Self, y: Self) {
    }
}

impl Radixable for bool {
    open spec fn bits() -> nat {
        1
    }

    open spec fn key(&self) -> u128 {
        if *self {
            1
        } else {
            0
        }
    }

    open spec fn valid(&self) -> bool {
        true
    }

    fn type_size() -> (b: usize) {
        1
    }

    fn is_valid(&self) -> (b: bool) {
        true
    }

    fn into_key(&self) -> (k: u128) {
        if *self {
            1
        } else {
            0
        }
    }

    proof fn key_bound(x: Self) {
        lemma2_to64();
    }

    proof fn key_injective(x: Self, y: Self) {
    }
}

/// A `char` is its code point.
pub proof fn lemma_char_code(c: char)
    ensures
        (c as u32) as int == c as int,
        c as u32 as char == c,
        0 <= c as int <= 0x10FFFF,
{
}

impl Radixable for char {
    open spec fn bits() -> nat {
        32
    }

    /// The code point.
    open spec fn key(&self) -> u128 {
        (*self as u32) as u128
    }

    open spec fn valid(&self) -> bool {
        true
    }

    fn type_size() -> (b: usize) {
        32
    }

    fn is_valid(&self) -> (b: bool) {
        true
    }

    fn into_key(&self) -> (k: u128) {
        let c: char = *self;
        let code: u32 = c as u32;
        code as u128
    }

    proof fn key_bound(x: Self) {
        lemma2_to64();
    }

    proof fn key_injective(x: Self, y: Self) {
        lemma_char_code(x);
        lemma_char_code(y);
    }
}

/// An IEEE 754 single-precision float, held as its bit pattern.
#[derive(Clone, Copy, Debug, PartialEq, Eq, Structural)]
pub struct Float32 {
    pub bits: u32,
}

impl Float32 {
    /// The float with the bit pattern `bits`.
    pub fn from_bits(bits: u32) -> (r: Float32)
        ensures
            r.bits == bits,
    {
        Float32 { bits }
    }

    /// The bit pattern of the float.
    pub fn to_bits(&self) -> (bits: u32)
        ensures
            bits == self.bits,
    {
        self.bits
    }

    /// The exponent is all ones and the fraction is not zero.
    pub open spec fn is_nan(&self) -> bool {
        self.bits % 0x8000_0000 > 0x7F80_0000
    }
}

impl Radixable for Float32 {
    open spec fn bits() -> nat {
        32
    }

    /// With the sign bit clear, the sign bit is set (`+ 2^31`); with it set,
    /// every bit is flipped (`2^32 - 1 - bits`).
    open spec fn key(&self) -> u128 {
        if self.bits < 0x8000_0000 {
            (self.bits + 0x8000_0000) as u128
        } else {
            (0xFFFF_FFFF - self.bits) as u128
        }
    }

    open spec fn valid(&self) -> bool {
        !self.is_nan()
    }

    fn type_size() -> (b: usize) {
        32
    }

    fn is_valid(&self) -> (b: bool) {
        self.bits % 0x8000_0000 <= 0x7F80_0000
    }

    fn into_key(&self) -> (k: u128) {
        if self.bits < 0x8000_0000 {
            (self.bits as u64 + 0x8000_0000) as u128
        } else {
            (0xFFFF_FFFF - self.bits) as u128
        }
    }

    proof fn key_bound(x: Self) {
        lemma2_to64();
    }

    proof fn key_injective(x: Self, y: Self) {
    }
}

/// An IEEE 754 double-precision float, held as its bit pattern.
#[derive(Clone, Copy, Debug, PartialEq, Eq, Structural)]
pub struct Float64 {
    pub bits: u64,
}

impl Float64 {
    /// The float with the bit pattern `bits`.
    pub fn from_bits(bits: u64) -> (r: Float64)
        ensures
            r.bits == bits,
    {
        Float64 { bits }
    }

    /// The bit pattern of the float.
    pub fn to_bits(&self) -> (bits: u64)
        ensures
            bits == self.bits,
    {
        self.bits
    }

    /// The exponent is all ones and the fraction is not zero.
    pub open spec fn is_nan(&self) -> bool {
        self.bits % 0x8000_0000_0000_0000 > 0x7FF0_0000_0000_0000
    }
}

impl Radixable for Float64 {
    open spec fn bits() -> nat {
        64
    }

    /// With the sign bit clear, the sign bit is set (`+ 2^63`); with it set,
    /// every bit is flipped (`2^64 - 1 - bits`).
    open spec fn key(&self) -> u128 {
        if self.bits < 0x8000_0000_0000_0000 {
            (self.bits + 0x8000_0000_0000_0000) as u128
        } else {
            (0xFFFF_FFFF_FFFF_FFFF - self.bits) as u128
        }
    }

    open spec fn valid(&self) -> bool {
        !self.is_nan()
    }

    fn type_size() -> (b: usize) {
        64
    }

    fn is_valid(&self) -> (b: bool) {
        self.bits % 0x8000_0000_0000_0000 <= 0x7FF0_0000_0000_0000
    }

    fn into_key(&self) -> (k: u128) {
        if self.bits < 0x8000_0000_0000_0000 {
            self.bits as u128 + 0x8000_0000_0000_0000
        } else {
            (0xFFFF_FFFF_FFFF_FFFF - self.bits) as u128
        }
    }

    proof fn key_bound(x: Self) {
        lemma2_to64();
    }

    proof fn key_injective(x: Self, y: Self) {
    }
}

/// Whether a pair of such widths fits in a key.
pub open spec fn pair_fits(a: nat, b: nat) -> bool {
    a + b <= 128
}

/// The key of a pair: the first key in the high bits, the second in the low
/// bits.
pub open spec fn pair_key(a: u128, b: u128, b_bits: nat) -> int {
    a * pow2(b_bits) + b
}

/// The key of a pair fits in the widths of its two keys together.
pub proof fn lemma_pair_key_bound(a: nat, b: nat, a_bits: nat, b_bits: nat)
    requires
        a < pow2(a_bits),
        b < pow2(b_bits),
    ensures
        a * pow2(b_bits) + b < pow2(a_bits + b_bits),
{
    lemma_pow2_adds(a_bits, b_bits);
    let p = pow2(b_bits) as int;
    let q = pow2(a_bits) as int;
    let ai = a as int;
    assert(ai * p + p <= q * p) by (nonlinear_arith)
        requires
            ai + 1 <= q,
            p > 0,
    ;
}

impl<A: Radixable, B: Radixable> Radixable for (A, B) {
    /// The two widths together; past every supported width where one of
    /// them already is.
    open spec fn bits() -> nat {
        if A::bits() <= 128 && B::bits() <= 128 {
            A::bits() + B::bits()
        } else {
            usize::MAX as nat
        }
    }

    /// The first field is the high-order part. A pair too wide for a key has
    /// the key 0: no sort accepts it.
    open spec fn key(&self) -> u128 {
        if pair_fits(A::bits(), B::bits()) {
            pair_key(self.0.key(), self.1.key(), B::bits()) as u128
        } else {
            0
        }
    }

    open spec fn valid(&self) -> bool {
        self.0.valid() && self.1.valid()
    }

    fn type_size() -> (b: usize) {
        let a: usize = A::type_size();
        let b: usize = B::type_size();
        if a > MAX_BITS || b > MAX_BITS {
            usize::MAX
        } else {
            a + b
        }
    }

    fn is_valid(&self) -> (b: bool) {
        self.0.is_valid() && self.1.is_valid()
    }

    fn into_key(&self) -> (k: u128) {
        let a_bits: usize = A::type_size();
        let b_bits: usize = B::type_size();
        if a_bits > MAX_BITS || b_bits > MAX_BITS - a_bits {
            0
        } else if b_bits == MAX_BITS {
            proof {
                A::key_bound(self.0);
                lemma_pair_fit(self.0.key(), self.1.key(), A::bits(), B::bits());
            }
            self.1.into_key()
        } else {
            let a: u128 = self.0.into_key();
            let b: u128 = self.1.into_key();
            let unit: u128 = 1u128 << (b_bits as u32);
            proof {
                lemma_u128_one_shl(b_bits as u32);
                if A::bits() < 128 {
                    A::key_bound(self.0);
                }
                B::key_bound(self.1);
                lemma_pair_fit(a, b, A::bits(), B::bits());
            }
            a * unit + b
        }
    }

    proof fn key_bound(x: Self) {
        if A::bits() + B::bits() < 128 {
            A::key_bound(x.0);
            B::key_bound(x.1);
            lemma_pair_key_bound(x.0.key() as nat, x.1.key() as nat, A::bits(), B::bits());
            lemma_pair_fit(x.0.key(), x.1.key(), A::bits(), B::bits());
        }
    }

    proof fn key_injective(x: Self, y: Self) {
        if A::bits() < 128 {
            A::key_bound(x.0);
            A::key_bound(y.0);
        }
        if B::bits() < 128 {
            B::key_bound(x.1);
            B::key_bound(y.1);
        }
        lemma_pair_fit(x.0.key(), x.1.key(), A::bits(), B::bits());
        lemma_pair_fit(y.0.key(), y.1.key(), A::bits(), B::bits());
        lemma_pair_key_parts(x.0.key(), x.1.key(), A::bits(), B::bits());
        lemma_pair_key_parts(y.0.key(), y.1.key(), A::bits(), B::bits());
        A::key_injective(x.0, y.0);
        B::key_injective(x.1, y.1);
    }
}

/// The value of `2^128`.
pub proof fn lemma_pow2_128()
    ensures
        pow2(128) == 0x1_0000_0000_0000_0000_0000_0000_0000_0000,
{
    lemma2_to64();
    lemma_pow2_adds(64, 64);
}

/// A pair key that fits is no larger than a key can be.
pub proof fn lemma_pair_fit(a: u128, b: u128, a_bits: nat, b_bits: nat)
    requires
        pair_fits(a_bits, b_bits),
        a_bits < 128 ==> a < pow2(a_bits),
        b_bits < 128 ==> b < pow2(b_bits),
    ensures
        pair_key(a, b, b_bits) <= u128::MAX,
        b_bits == 128 ==> pair_key(a, b, b_bits) == b,
{
    lemma_pow2_128();
    lemma2_to64();
    if b_bits == 128 {
        assert(a == 0);
        assert(a * pow2(b_bits) == 0) by (nonlinear_arith)
            requires
                a == 0,
        ;
    } else if a_bits == 128 {
        assert(b == 0);
        assert(a * pow2(b_bits) == a) by (nonlinear_arith)
            requires
                pow2(b_bits) == 1,
        ;
    } else {
        lemma_pair_key_bound(a as nat, b as nat, a_bits, b_bits);
        lemma_pow2_monotone(a_bits + b_bits, 128);
    }
}

/// The two keys can be read back from the key of the pair.
pub proof fn lemma_pair_key_parts(a: u128, b: u128, a_bits: nat, b_bits: nat)
    requires
        pair_fits(a_bits, b_bits),
        a_bits < 128 ==> a < pow2(a_bits),
        b_bits < 128 ==> b < pow2(b_bits),
    ensures
        b_bits < 128 ==> a == pair_key(a, b, b_bits) / (pow2(b_bits) as int) && b == pair_key(
            a,
            b,
            b_bits,
        ) % (pow2(b_bits) as int),
        b_bits == 128 ==> a == 0 && b == pair_key(a, b, b_bits),
{
    lemma_pair_fit(a, b, a_bits, b_bits);
    lemma2_to64();
    if b_bits < 128 {
        let p = pow2(b_bits) as int;
        lemma_pow2_pos(b_bits);
        lemma_fundamental_div_mod_converse(a * p + b, p, a as int, b as int);
    }
}

/// The order of pair keys is the order of the first keys, the second keys
/// breaking ties.
pub proof fn lemma_pair_key_order(a1: u128, b1: u128, a2: u128, b2: u128, b_bits: nat)
    requires
        b1 < pow2(b_bits),
        b2 < pow2(b_bits),
    ensures
        pair_key(a1, b1, b_bits) <= pair_key(a2, b2, b_bits) <==> a1 < a2 || (a1 == a2 && b1 <= b2),
{
    let p = pow2(b_bits) as int;
    let x = a1 as int;
    let y = a2 as int;
    if x < y {
        assert(x * p + p <= y * p) by (nonlinear_arith)
            requires
                x + 1 <= y,
                p > 0,
        ;
    } else if y < x {
        assert(y * p + p <= x * p) by (nonlinear_arith)
            requires
                y + 1 <= x,
                p > 0,
        ;
    }
}

/// The keys of pairs are ordered as the pairs are: by the first field,
/// and by the second where the first fields are equal.
pub proof fn law_pair_order<A: Radixable, B: Radixable>(x: (A, B), y: (A, B))
    requires
        pair_fits(A::bits(), B::bits()),
    ensures
        x.key() <= y.key() <==> x.0.key() < y.0.key() || (x.0.key() == y.0.key() && x.1.key()
            <= y.1.key()),
{
    A::key_bound(x.0);
    A::key_bound(y.0);
    B::key_bound(x.1);
    B::key_bound(y.1);
    lemma_pair_fit(x.0.key(), x.1.key(), A::bits(), B::bits());
    lemma_pair_fit(y.0.key(), y.1.key(), A::bits(), B::bits());
    if B::bits() < 128 {
        lemma_pair_key_order(x.0.key(), x.1.key(), y.0.key(), y.1.key(), B::bits());
    } else {
        lemma2_to64();
    }
}

/// The keys of signed integers are ordered as the integers are.
pub proof fn law_signed_order(a: i64, b: i64, x: i128, y: i128, m: isize, n: isize)
    ensures
        x <= y <==> x.key() <= y.key(),
        m <= n <==> m.key() <= n.key(),
        a <= b <==> a.key() <= b.key(),
        (a as i32) <= (b as i32) <==> (a as i32).key() <= (b as i32).key(),
        (a as i16) <= (b as i16) <==> (a as i16).key() <= (b as i16).key(),
        (a as i8) <= (b as i8) <==> (a as i8).key() <= (b as i8).key(),
{
}

/// The keys of unsigned integers, booleans and characters are ordered as
/// the values are: `false` before `true`, characters by code point.
pub proof fn law_unsigned_order(a: u128, b: u128, p: bool, q: bool, c: char, d: char)
    ensures
        a <= b <==> a.key() <= b.key(),
        (a as usize) <= (b as usize) <==> (a as usize).key() <= (b as usize).key(),
        (a as u64) <= (b as u64) <==> (a as u64).key() <= (b as u64).key(),
        (a as u32) <= (b as u32) <==> (a as u32).key() <= (b as u32).key(),
        (a as u16) <= (b as u16) <==> (a as u16).key() <= (b as u16).key(),
        (a as u8) <= (b as u8) <==> (a as u8).key() <= (b as u8).key(),
        (p ==> q) <==> p.key() <= q.key(),
        (c as u32) <= (d as u32) <==> c.key() <= d.key(),
{
}

/// The keys of floats are ordered as the floats are, read from their bit
/// patterns: among patterns with the sign bit clear a larger pattern is a
/// larger number and has a larger key; among patterns with the sign bit
/// set a larger pattern is a smaller number and has a smaller key; and
/// every pattern with the sign bit set has a key below that of every
/// pattern with the sign bit clear.
pub proof fn law_float_order(a: Float32, b: Float32, x: Float64, y: Float64)
    ensures
        a.bits < 0x8000_0000 && b.bits < 0x8000_0000 ==> (a.bits <= b.bits <==> a.key()
            <= b.key()),
        a.bits >= 0x8000_0000 && b.bits >= 0x8000_0000 ==> (a.bits >= b.bits <==> a.key()
            <= b.key()),
        a.bits >= 0x8000_0000 && b.bits < 0x8000_0000 ==> a.key() < b.key(),
        x.bits < 0x8000_0000_0000_0000 && y.bits < 0x8000_0000_0000_0000 ==> (x.bits <= y.bits
            <==> x.key() <= y.key()),
        x.bits >= 0x8000_0000_0000_0000 && y.bits >= 0x8000_0000_0000_0000 ==> (x.bits >= y.bits
            <==> x.key() <= y.key()),
        x.bits >= 0x8000_0000_0000_0000 && y.bits < 0x8000_0000_0000_0000 ==> x.key() < y.key(),
{
}

} // verus!
