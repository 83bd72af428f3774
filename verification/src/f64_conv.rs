//! The IEEE-754 binary64 format, taken apart and put together with integer
//! arithmetic alone.
//!
//! A number is held as its 64-bit pattern: one sign bit, eleven bits of
//! biased exponent, fifty-two bits of mantissa. Its serialised form is that
//! pattern as eight bytes, most significant first, whatever the host.

use vstd::prelude::*;
use vstd::slice::slice_subrange;

use crate::decode::{be64_value, value_be64};
use crate::encode::{be64, push_be64};
use crate::round_trip::lemma_be64_round_trip;

verus! {

/// 2^52: the weight of the lowest exponent bit.
pub const MANTISSA_RANGE: u64 = 0x10_0000_0000_0000;

/// 2^63: the weight of the sign bit.
pub const SIGN_BIT: u64 = 0x8000_0000_0000_0000;

/// The biased exponent that marks infinities and NaN.
pub const EXPONENT_MAX: u16 = 0x7FF;

/// The pattern of the canonical quiet NaN.
pub const NAN_BITS: u64 = 0x7FF8_0000_0000_0000;

/// A binary64 number, held as its bit pattern.
#[derive(Clone, Copy, Debug, PartialEq, Eq, Structural)]
pub struct Binary64 {
    pub bits: u64,
}

impl Binary64 {
    /// Whether the sign bit is set.
    pub open spec fn negative(self) -> bool {
        self.bits >= SIGN_BIT
    }

    /// The pattern without its sign bit.
    pub open spec fn magnitude(self) -> u64 {
        (self.bits % SIGN_BIT) as u64
    }

    /// The eleven bits of the biased exponent.
    pub open spec fn biased_exponent(self) -> u16 {
        ((self.bits / MANTISSA_RANGE) % 0x800) as u16
    }

    /// The fifty-two bits of the mantissa.
    pub open spec fn mantissa(self) -> u64 {
        (self.bits % MANTISSA_RANGE) as u64
    }

    /// Whether the pattern is a NaN: the greatest exponent with a mantissa
    /// other than zero.
    pub open spec fn nan(self) -> bool {
        self.biased_exponent() == EXPONENT_MAX && self.mantissa() != 0
    }

    /// The pattern that stands for this number when it is serialised: the
    /// canonical quiet NaN for every NaN, else the pattern itself.
    pub open spec fn canonical(self) -> Binary64 {
        if self.nan() {
            Binary64 { bits: NAN_BITS }
        } else {
            self
        }
    }

    /// The number with the given pattern.
    pub fn from_bits(bits: u64) -> (x: Binary64)
        ensures
            x.bits == bits,
    {
        Binary64 { bits }
    }

    /// The pattern of the number.
    pub fn to_bits(self) -> (bits: u64)
        ensures
            bits == self.bits,
    {
        self.bits
    }

    /// Whether the sign bit is set.
    pub fn is_negative(self) -> (r: bool)
        ensures
            r == self.negative(),
    {
        self.bits >= SIGN_BIT
    }

    /// The pattern without its sign bit.
    pub fn magnitude_bits(self) -> (r: u64)
        ensures
            r == self.magnitude(),
    {
        let bits = self.bits;
        assert(bits & 0x7FFF_FFFF_FFFF_FFFF == bits % 0x8000_0000_0000_0000) by (bit_vector);
        bits & 0x7FFF_FFFF_FFFF_FFFF
    }

    /// The eleven bits of the biased exponent.
    pub fn exponent_bits(self) -> (r: u16)
        ensures
            r == self.biased_exponent(),
    {
        let bits = self.bits;
        assert((bits >> 52) & 0x7FF == (bits / 0x10_0000_0000_0000) % 0x800) by (bit_vector);
        assert((bits >> 52) & 0x7FF < 0x800) by (bit_vector);
        ((bits >> 52) & 0x7FF) as u16
    }

    /// The fifty-two bits of the mantissa.
    pub fn mantissa_bits(self) -> (r: u64)
        ensures
            r == self.mantissa(),
    {
        let bits = self.bits;
        assert(bits & 0xF_FFFF_FFFF_FFFF == bits % 0x10_0000_0000_0000) by (bit_vector);
        bits & 0xF_FFFF_FFFF_FFFF
    }

    /// Whether the number is a NaN.
    pub fn is_nan(self) -> (r: bool)
        ensures
            r == self.nan(),
    {
        self.exponent_bits() == EXPONENT_MAX && self.mantissa_bits() != 0
    }
}

/// The pattern with the given sign, biased exponent and mantissa.
pub open spec fn bits_of_parts(negative: bool, bexp: u16, mant: u64) -> int {
    (if negative {
        SIGN_BIT as int
    } else {
        0
    }) + bexp * MANTISSA_RANGE + mant
}

/// A pattern is made of its three parts.
pub proof fn lemma_bits_of_parts(x: Binary64)
    ensures
        x.bits == bits_of_parts(x.negative(), x.biased_exponent(), x.mantissa()),
        x.magnitude() == x.biased_exponent() * MANTISSA_RANGE + x.mantissa(),
        x.biased_exponent() <= EXPONENT_MAX,
        x.mantissa() < MANTISSA_RANGE,
{
    let b = x.bits as int;
    assert(b == (b / 0x10_0000_0000_0000) * 0x10_0000_0000_0000 + b % 0x10_0000_0000_0000);
    assert(b / 0x10_0000_0000_0000 == (b / 0x10_0000_0000_0000 / 0x800) * 0x800 + (b
        / 0x10_0000_0000_0000) % 0x800);
    assert(b / 0x10_0000_0000_0000 / 0x800 == b / 0x8000_0000_0000_0000);
}

/// The parts of a pattern determine it.
pub proof fn lemma_parts_of_bits(negative: bool, bexp: u16, mant: u64)
    requires
        bexp <= EXPONENT_MAX,
        mant < MANTISSA_RANGE,
    ensures
        ({
            let x = Binary64 { bits: bits_of_parts(negative, bexp, mant) as u64 };
            &&& x.bits == bits_of_parts(negative, bexp, mant)
            &&& x.negative() == negative
            &&& x.biased_exponent() == bexp
            &&& x.mantissa() == mant
        }),
{
    let b = bits_of_parts(negative, bexp, mant);
    let low = bexp * 0x10_0000_0000_0000 + mant;
    assert(0 <= low < 0x8000_0000_0000_0000);
    assert(low / 0x10_0000_0000_0000 == bexp as int);
    assert(low % 0x10_0000_0000_0000 == mant as int);
    if negative {
        assert(b == 0x8000_0000_0000_0000 + low);
        assert(b / 0x10_0000_0000_0000 == 0x800 + bexp);
        assert(b % 0x10_0000_0000_0000 == mant as int);
    }
}

/// Takes a number apart: its sign as `1` or `-1`, its biased exponent and
/// its mantissa. Every NaN gives the parts of the canonical quiet NaN.
pub fn f64_to_parts(sn: Binary64) -> (parts: (i8, u16, u64))
    ensures
        parts.0 == (if sn.canonical().negative() {
            -1i8
        } else {
            1i8
        }),
        parts.1 == sn.canonical().biased_exponent(),
        parts.2 == sn.canonical().mantissa(),
{
    if sn.is_nan() {
        proof {
            lemma_parts_of_bits(false, 0x7FF, 0x8_0000_0000_0000);
        }
        return (1, EXPONENT_MAX, 0x8_0000_0000_0000);
    }
    let sign: i8 = if sn.is_negative() {
        -1
    } else {
        1
    };
    (sign, sn.exponent_bits(), sn.mantissa_bits())
}

/// Whether three parts are those of a number: a sign of `1` or `-1`, an
/// exponent of eleven bits and a mantissa of fifty-two.
pub open spec fn parts_valid(sign: i8, bexp: u16, mant: u64) -> bool {
    &&& sign == 1 || sign == -1
    &&& bexp <= EXPONENT_MAX
    &&& mant < MANTISSA_RANGE
}

/// Puts a number together from its parts. With the greatest exponent, a
/// mantissa other than zero gives the canonical quiet NaN, whatever the
/// sign.
pub fn f64_from_parts(sign: i8, bexp: u16, mant: u64) -> (x: Binary64)
    requires
        parts_valid(sign, bexp, mant),
    ensures
        x == (Binary64 { bits: bits_of_parts(sign < 0, bexp, mant) as u64 }).canonical(),
{
    proof {
        lemma_parts_of_bits(sign < 0, bexp, mant);
    }
    if bexp == EXPONENT_MAX && mant > 0 {
        return Binary64 { bits: NAN_BITS };
    }
    let low: u64 = (bexp as u64) * MANTISSA_RANGE + mant;
    if sign < 0 {
        Binary64 { bits: SIGN_BIT + low }
    } else {
        Binary64 { bits: low }
    }
}

/// The eight bytes of a number: its canonical pattern, most significant
/// byte first.
pub open spec fn f64_bytes(x: Binary64) -> Seq<u8> {
    be64(x.canonical().bits as int)
}

/// The number that eight bytes stand for.
pub open spec fn f64_of_bytes(s: Seq<u8>) -> Binary64 {
    (Binary64 { bits: be64_value(s) as u64 }).canonical()
}

/// The sign and exponent take the first twelve bits of the serialised
/// form, the mantissa the fifty-two that follow: the first byte holds the
/// sign and the upper seven bits of the exponent, the second its lower four
/// bits and the upper four of the mantissa.
pub proof fn lemma_f64_bytes_layout(x: Binary64)
    ensures
        ({
            let c = x.canonical();
            let s = f64_bytes(x);
            &&& s.len() == 8
            &&& s[0] == (if c.negative() {
                0x80int
            } else {
                0
            }) + c.biased_exponent() / 0x10
            &&& s[1] == (c.biased_exponent() % 0x10) * 0x10 + c.mantissa() / 0x1_0000_0000_0000
            &&& be64_value(s) % 0x1_0000_0000_0000 == c.mantissa() % 0x1_0000_0000_0000
        }),
{
    let c = x.canonical();
    lemma_be64_round_trip(c.bits as int);
    let b: u64 = c.bits;
    assert(b / 0x100_0000_0000_0000 == (if b >= 0x8000_0000_0000_0000 {
        0x80u64
    } else {
        0u64
    }) + ((b / 0x10_0000_0000_0000) % 0x800) / 0x10) by (bit_vector);
    assert((b / 0x1_0000_0000_0000) % 0x100 == (((b / 0x10_0000_0000_0000) % 0x800) % 0x10) * 0x10
        + (b % 0x10_0000_0000_0000) / 0x1_0000_0000_0000) by (bit_vector);
    assert(b % 0x1_0000_0000_0000 == (b % 0x10_0000_0000_0000) % 0x1_0000_0000_0000)
        by (bit_vector);
}

/// Serialising a number and parsing the bytes gives the number back, every
/// NaN as the canonical quiet NaN.
pub proof fn lemma_f64_bytes_round_trip(x: Binary64)
    ensures
        f64_of_bytes(f64_bytes(x)) == x.canonical(),
        f64_bytes(f64_of_bytes(f64_bytes(x))) == f64_bytes(x),
{
    lemma_be64_round_trip(x.canonical().bits as int);
    lemma_canonical_twice(x);
}

/// The canonical pattern of a canonical pattern is itself.
pub proof fn lemma_canonical_twice(x: Binary64)
    ensures
        x.canonical().canonical() == x.canonical(),
{
    if x.nan() {
        lemma_parts_of_bits(false, 0x7FF, 0x8_0000_0000_0000);
    }
}

/// Convert a binary64 number to its IEEE 754 bytes.
pub fn f64_to_bytes(n: Binary64) -> (v: Vec<u8>)
    ensures
        v@ == f64_bytes(n),
{
    let (sign, bexp, mant) = f64_to_parts(n);
    proof {
        lemma_bits_of_parts(n.canonical());
    }
    let low: u64 = (bexp as u64) * MANTISSA_RANGE + mant;
    let bits: u64 = if sign < 0 {
        SIGN_BIT + low
    } else {
        low
    };
    let mut v: Vec<u8> = Vec::new();
    push_be64(&mut v, bits);
    assert(v@ =~= f64_bytes(n));
    v
}

/// Parse the IEEE 754 bytes of a binary64 number: the first eight bytes of
/// `v`. Every NaN parses to the canonical quiet NaN.
pub fn f64_from_bytes(v: &[u8]) -> (x: Binary64)
    requires
        v@.len() >= 8,
    ensures
        x == f64_of_bytes(v@.take(8)),
{
    let head = slice_subrange(v, 0, 8);
    assert(head@ =~= v@.take(8));
    let whole = Binary64 { bits: value_be64(head) };
    let sign: i8 = if whole.is_negative() {
        -1
    } else {
        1
    };
    proof {
        lemma_bits_of_parts(whole);
    }
    f64_from_parts(sign, whole.exponent_bits(), whole.mantissa_bits())
}

} // verus!
