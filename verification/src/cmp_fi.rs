//! Exact comparison between 64-bit integers and binary64 numbers.
//!
//! Not every 64-bit integer is a binary64 number, nor the other way round,
//! so neither can be converted to the other before they are compared. The
//! comparison goes by cases instead. An integer of magnitude below 2^53 is
//! a binary64 number. Of two numbers on different sides of 2^53 in
//! magnitude, the sign of the larger decides. A binary64 number of
//! magnitude 2^53 or more is an integer, and either lies outside the range
//! of `i64` or is converted without loss.
//!
//! A NaN is placed below every number, and equal to every NaN, so that the
//! order is total.

use std::cmp::Ordering;
use vstd::arithmetic::power2::{
    lemma2_to64, lemma2_to64_rest, lemma_pow2_adds, lemma_pow2_pos, lemma_pow2_strictly_increases,
    lemma_pow2_unfold, pow2,
};
use vstd::prelude::*;

use crate::f64_conv::{
    bits_of_parts, lemma_bits_of_parts, lemma_parts_of_bits, Binary64, EXPONENT_MAX,
    MANTISSA_RANGE, SIGN_BIT,
};

verus! {

/// The magnitude of a finite number, in units of 2^-1074: every finite
/// binary64 number is a whole number of these.
pub open spec fn scaled_magnitude(x: Binary64) -> int {
    if x.biased_exponent() == 0 {
        x.mantissa() as int
    } else {
        (MANTISSA_RANGE + x.mantissa()) * pow2((x.biased_exponent() - 1) as nat)
    }
}

/// The magnitude of a number that is no NaN, in units of 2^-1074, with
/// infinity above every finite magnitude.
pub open spec fn magnitude_key(x: Binary64) -> int {
    if x.biased_exponent() == EXPONENT_MAX {
        pow2(2100) as int
    } else {
        scaled_magnitude(x)
    }
}

/// The place of a binary64 number among all numbers: its value in units of
/// 2^-1074, the infinities beyond every finite value, and every NaN below
/// all the rest.
pub open spec fn float_key(x: Binary64) -> int {
    if x.nan() {
        -2 * pow2(2100)
    } else if x.negative() {
        -magnitude_key(x)
    } else {
        magnitude_key(x)
    }
}

/// The place of an integer among all numbers: its value in units of
/// 2^-1074.
pub open spec fn int_key(n: i64) -> int {
    n * pow2(1074)
}

/// `-1`, `0` or `1` as `a` is below, equal to or above `b`.
pub open spec fn sign_of_difference(a: int, b: int) -> int {
    if a < b {
        -1
    } else if a == b {
        0
    } else {
        1
    }
}

/// A later power of two is no smaller.
proof fn lemma_pow2_increases(e1: nat, e2: nat)
    requires
        e1 <= e2,
    ensures
        pow2(e1) <= pow2(e2),
{
    if e1 < e2 {
        lemma_pow2_strictly_increases(e1, e2);
    }
}

/// The magnitude of a finite number lies below 2^2099 units.
proof fn lemma_scaled_magnitude_bound(x: Binary64)
    requires
        x.biased_exponent() < EXPONENT_MAX,
    ensures
        0 <= scaled_magnitude(x) < pow2(2100),
        scaled_magnitude(x) == 0 <==> x.magnitude() == 0,
{
    lemma_bits_of_parts(x);
    lemma2_to64();
    lemma2_to64_rest();
    let e = x.biased_exponent() as nat;
    let m = x.mantissa() as int;
    if e == 0 {
        lemma_pow2_strictly_increases(52, 2100);
    } else {
        let p = pow2((e - 1) as nat) as int;
        lemma_pow2_pos((e - 1) as nat);
        lemma_pow2_increases((e - 1) as nat, 2045);
        lemma_pow2_adds(53, 2045);
        lemma_pow2_strictly_increases(2098, 2100);
        assert((0x10_0000_0000_0000 + m) * p < 0x20_0000_0000_0000 * pow2(2045)
            && (0x10_0000_0000_0000 + m) * p > 0) by (nonlinear_arith)
            requires
                0 <= m < 0x10_0000_0000_0000,
                0 < p <= pow2(2045),
        ;
    }
}

/// Among numbers that are no NaN, a smaller pattern without sign is a
/// smaller magnitude.
pub proof fn lemma_magnitude_order(x: Binary64, y: Binary64)
    requires
        !x.nan(),
        !y.nan(),
        x.magnitude() < y.magnitude(),
    ensures
        0 <= magnitude_key(x) < magnitude_key(y),
{
    lemma_bits_of_parts(x);
    lemma_bits_of_parts(y);
    lemma2_to64();
    lemma2_to64_rest();
    let ex = x.biased_exponent() as nat;
    let ey = y.biased_exponent() as nat;
    let mx = x.mantissa() as int;
    let my = y.mantissa() as int;
    assert(ex < ey || (ex == ey && mx < my));
    if ey == EXPONENT_MAX {
        lemma_scaled_magnitude_bound(x);
    } else {
        lemma_scaled_magnitude_bound(x);
        if ex == ey {
            if ex > 0 {
                let p = pow2((ex - 1) as nat) as int;
                lemma_pow2_pos((ex - 1) as nat);
                assert((0x10_0000_0000_0000 + mx) * p < (0x10_0000_0000_0000 + my) * p)
                    by (nonlinear_arith)
                    requires
                        mx < my,
                        0 < p,
                ;
            }
        } else {
            let q = pow2((ey - 1) as nat) as int;
            lemma_pow2_pos((ey - 1) as nat);
            assert((0x10_0000_0000_0000 + my) * q >= 0x10_0000_0000_0000 * q) by (nonlinear_arith)
                requires
                    0 <= my,
                    0 < q,
            ;
            if ex == 0 {
                assert(0x10_0000_0000_0000 * q >= 0x10_0000_0000_0000) by (nonlinear_arith)
                    requires
                        0 < q,
                ;
            } else {
                let p = pow2((ex - 1) as nat) as int;
                lemma_pow2_pos((ex - 1) as nat);
                lemma_pow2_unfold(ex);
                lemma_pow2_increases(ex, (ey - 1) as nat);
                assert((0x10_0000_0000_0000 + mx) * p < 0x10_0000_0000_0000 * (2 * p))
                    by (nonlinear_arith)
                    requires
                        0 <= mx < 0x10_0000_0000_0000,
                        0 < p,
                ;
                assert(0x10_0000_0000_0000 * (2 * p) <= 0x10_0000_0000_0000 * q)
                    by (nonlinear_arith)
                    requires
                        2 * p <= q,
                ;
            }
        }
    }
}

/// Numbers that are no NaN and have the same pattern without sign have the
/// same magnitude.
pub proof fn lemma_magnitude_same(x: Binary64, y: Binary64)
    requires
        x.magnitude() == y.magnitude(),
    ensures
        magnitude_key(x) == magnitude_key(y),
        x.nan() == y.nan(),
{
    lemma_bits_of_parts(x);
    lemma_bits_of_parts(y);
}

/// Only the two zeros have the magnitude zero.
pub proof fn lemma_magnitude_zero(x: Binary64)
    requires
        !x.nan(),
    ensures
        0 <= magnitude_key(x),
        magnitude_key(x) == 0 <==> x.magnitude() == 0,
{
    lemma_bits_of_parts(x);
    if x.biased_exponent() == EXPONENT_MAX {
        lemma_pow2_pos(2100);
    } else {
        lemma_scaled_magnitude_bound(x);
    }
}

/// Compares two numbers that are no NaN as IEEE 754 orders them: by value,
/// the two zeros equal.
pub fn compare_numbers(x: Binary64, y: Binary64) -> (r: i8)
    requires
        !x.nan(),
        !y.nan(),
    ensures
        r == sign_of_difference(float_key(x), float_key(y)),
{
    let mx = x.magnitude_bits();
    let my = y.magnitude_bits();
    proof {
        lemma_magnitude_zero(x);
        lemma_magnitude_zero(y);
        if mx < my {
            lemma_magnitude_order(x, y);
        } else if my < mx {
            lemma_magnitude_order(y, x);
        } else {
            lemma_magnitude_same(x, y);
        }
    }
    if mx == 0 && my == 0 {
        0
    } else if x.is_negative() != y.is_negative() {
        if x.is_negative() {
            -1
        } else {
            1
        }
    } else if mx == my {
        0
    } else if (mx < my) != x.is_negative() {
        -1
    } else {
        1
    }
}

/// Compares two numbers, a NaN below every number and equal to every NaN.
pub fn compare_floats(x: Binary64, y: Binary64) -> (r: i8)
    ensures
        r == sign_of_difference(float_key(x), float_key(y)),
{
    proof {
        lemma_pow2_pos(2100);
        if !x.nan() {
            lemma_key_above_nan(x);
        }
        if !y.nan() {
            lemma_key_above_nan(y);
        }
    }
    if x.is_nan() {
        if y.is_nan() {
            0
        } else {
            -1
        }
    } else if y.is_nan() {
        1
    } else {
        compare_numbers(x, y)
    }
}

/// Every number that is no NaN stands above the NaNs.
pub proof fn lemma_key_above_nan(x: Binary64)
    requires
        !x.nan(),
    ensures
        -2 * pow2(2100) < -pow2(2100) <= float_key(x) <= pow2(2100),
{
    lemma_pow2_pos(2100);
    lemma_bits_of_parts(x);
    if x.biased_exponent() != EXPONENT_MAX {
        lemma_scaled_magnitude_bound(x);
    }
}

/// 2^53: below this magnitude every integer is a binary64 number.
pub const EXACT_LIMIT: i64 = 0x20_0000_0000_0000;

/// The biased exponent of 2^53.
pub const EXACT_LIMIT_EXPONENT: u16 = 1076;

/// The biased exponent of 2^63.
pub const INT_LIMIT_EXPONENT: u16 = 1086;

/// A positive integer below 2^53 doubled until it reaches 2^52, and `e`
/// less the number of doublings.
pub open spec fn normalised(m: nat, e: nat) -> (nat, nat)
    decreases e,
{
    if m >= MANTISSA_RANGE || e == 0 {
        (m, e)
    } else {
        normalised(2 * m, (e - 1) as nat)
    }
}

/// The binary64 number equal to an integer of magnitude below 2^53: zero is
/// the positive zero; any other integer is doubled until it fills the
/// fifty-three bits of a mantissa with its leading one, and the exponent
/// makes up for the doublings.
pub open spec fn exact_float(n: i64) -> Binary64 {
    if n == 0 {
        Binary64 { bits: 0 }
    } else {
        let a = (if n < 0 {
            -n
        } else {
            n as int
        }) as nat;
        let (m, e) = normalised(a, 52);
        Binary64 {
            bits: bits_of_parts(n < 0, (1023 + e) as u16, (m - MANTISSA_RANGE) as u64) as u64,
        }
    }
}

/// Doubling stops with the leading one in the fifty-third bit.
proof fn lemma_normalised(a: nat, m: nat, e: nat)
    requires
        0 < a < 0x20_0000_0000_0000,
        e <= 52,
        m == a * pow2((52 - e) as nat),
        0 < m < 0x20_0000_0000_0000,
    ensures
        ({
            let (m1, e1) = normalised(m, e);
            &&& 0x10_0000_0000_0000 <= m1 < 0x20_0000_0000_0000
            &&& e1 <= 52
            &&& m1 == a * pow2((52 - e1) as nat)
        }),
    decreases e,
{
    lemma2_to64();
    lemma2_to64_rest();
    if m < MANTISSA_RANGE {
        if e == 0 {
            // fifty-two doublings of a positive integer reach 2^52
            assert(a * pow2(52) >= pow2(52)) by (nonlinear_arith)
                requires
                    a >= 1,
            ;
        } else {
            lemma_pow2_unfold((52 - e + 1) as nat);
            let p = pow2((52 - e) as nat) as int;
            assert(2 * (a * p) == a * (2 * p)) by (nonlinear_arith);
            lemma_normalised(a, 2 * m, (e - 1) as nat);
        }
    }
}

/// An integer of magnitude below 2^53 and the binary64 number made from it
/// have the same value.
pub proof fn lemma_exact_float(n: i64)
    requires
        -EXACT_LIMIT < n < EXACT_LIMIT,
    ensures
        !exact_float(n).nan(),
        exact_float(n).biased_exponent() < EXACT_LIMIT_EXPONENT,
        float_key(exact_float(n)) == int_key(n),
{
    if n == 0 {
        lemma_parts_of_bits(false, 0, 0);
    } else {
        let a = (if n < 0 {
            -n
        } else {
            n as int
        }) as nat;
        lemma2_to64();
        assert(a * pow2(0) == a) by (nonlinear_arith)
            requires
                pow2(0) == 1,
        ;
        lemma_normalised(a, a, 52);
        let (m, e) = normalised(a, 52);
        let bexp = (1023 + e) as u16;
        let mant = (m - MANTISSA_RANGE) as u64;
        lemma_parts_of_bits(n < 0, bexp, mant);
        let p = pow2((52 - e) as nat) as int;
        let q = pow2((1022 + e) as nat) as int;
        lemma_pow2_adds((52 - e) as nat, (1022 + e) as nat);
        assert((a * p) * q == a * (p * q)) by (nonlinear_arith);
        assert((-(a as int)) * pow2(1074) == -(a * pow2(1074))) by (nonlinear_arith);
    }
}

/// The binary64 number equal to an integer of magnitude below 2^53.
pub fn from_exact_int(n: i64) -> (x: Binary64)
    requires
        -EXACT_LIMIT < n < EXACT_LIMIT,
    ensures
        x == exact_float(n),
        !x.nan(),
        x.biased_exponent() < EXACT_LIMIT_EXPONENT,
        float_key(x) == int_key(n),
{
    proof {
        lemma_exact_float(n);
    }
    if n == 0 {
        return Binary64 { bits: 0 };
    }
    let a: u64 = if n < 0 {
        (-n) as u64
    } else {
        n as u64
    };
    let mut m: u64 = a;
    let mut e: u16 = 52;
    proof {
        lemma2_to64();
        assert(a * pow2(0) == a) by (nonlinear_arith)
            requires
                pow2(0) == 1,
        ;
    }
    while m < MANTISSA_RANGE && e > 0
        invariant
            0 < a < 0x20_0000_0000_0000,
            e <= 52,
            m == a * pow2((52 - e) as nat),
            0 < m < 0x20_0000_0000_0000,
            normalised(a as nat, 52) == normalised(m as nat, e as nat),
        decreases e,
    {
        proof {
            lemma_pow2_unfold((52 - e + 1) as nat);
            let p = pow2((52 - e) as nat) as int;
            assert(2 * (a * p) == a * (2 * p)) by (nonlinear_arith);
        }
        m = 2 * m;
        e = e - 1;
    }
    proof {
        lemma_normalised(a as nat, m as nat, e as nat);
    }
    let bexp: u16 = 1023 + e;
    let mant: u64 = m - MANTISSA_RANGE;
    let low: u64 = (bexp as u64) * MANTISSA_RANGE + mant;
    let bits: u64 = if n < 0 {
        SIGN_BIT + low
    } else {
        low
    };
    Binary64 { bits }
}

/// The integer equal to a binary64 number whose magnitude is at least 2^53
/// and at most 2^63: a positive number below 2^63, or a negative number
/// down to -2^63.
pub fn to_exact_int(x: Binary64) -> (n: i64)
    requires
        EXACT_LIMIT_EXPONENT <= x.biased_exponent() <= INT_LIMIT_EXPONENT,
        x.biased_exponent() == INT_LIMIT_EXPONENT ==> x.negative() && x.mantissa() == 0,
    ensures
        int_key(n) == float_key(x),
{
    let bexp = x.exponent_bits();
    let mant = x.mantissa_bits();
    proof {
        lemma_bits_of_parts(x);
        lemma2_to64();
        lemma2_to64_rest();
    }
    let shift: u16 = bexp - 1075;
    let mut mag: u64 = MANTISSA_RANGE + mant;
    let mut i: u16 = 0;
    let ghost whole = (MANTISSA_RANGE + mant) as int;
    proof {
        let r = pow2(shift as nat) as int;
        lemma_pow2_pos(shift as nat);
        assert(whole * pow2(0) == whole) by (nonlinear_arith)
            requires
                pow2(0) == 1,
        ;
        if shift <= 10 {
            lemma_pow2_increases(shift as nat, 10);
            assert(whole * r <= 0x20_0000_0000_0000 * 0x400) by (nonlinear_arith)
                requires
                    0 <= whole < 0x20_0000_0000_0000,
                    0 < r <= 0x400,
            ;
        } else {
            assert(whole * r == 0x8000_0000_0000_0000) by (nonlinear_arith)
                requires
                    whole == 0x10_0000_0000_0000,
                    r == 0x800,
            ;
        }
        assert(whole <= whole * r) by (nonlinear_arith)
            requires
                0 <= whole,
                1 <= r,
        ;
    }
    while i < shift
        invariant
            i <= shift <= 11,
            whole == MANTISSA_RANGE + mant,
            0x10_0000_0000_0000 <= whole < 0x20_0000_0000_0000,
            shift == 11 ==> whole == 0x10_0000_0000_0000,
            mag == whole * pow2(i as nat),
            mag <= whole * pow2(shift as nat) <= 0x8000_0000_0000_0000,
        decreases shift - i,
    {
        proof {
            lemma_pow2_unfold((i + 1) as nat);
            lemma_pow2_increases((i + 1) as nat, shift as nat);
            let p = pow2(i as nat) as int;
            let q = pow2((i + 1) as nat) as int;
            let r = pow2(shift as nat) as int;
            assert(2 * (whole * p) == whole * (2 * p)) by (nonlinear_arith);
            assert(whole * q <= whole * r) by (nonlinear_arith)
                requires
                    q <= r,
                    0 <= whole,
            ;
        }
        mag = 2 * mag;
        i = i + 1;
    }
    proof {
        let s = pow2(shift as nat) as int;
        let q = pow2(1074) as int;
        lemma_pow2_adds(shift as nat, 1074);
        assert((whole * s) * q == whole * (s * q)) by (nonlinear_arith);
        assert((-(mag as int)) * q == -(mag * q)) by (nonlinear_arith);
        assert(mag == whole * s);
        if shift <= 10 {
            lemma_pow2_increases(shift as nat, 10);
            lemma_pow2_pos(shift as nat);
            assert(whole * s < 0x20_0000_0000_0000 * 0x400) by (nonlinear_arith)
                requires
                    0 <= whole < 0x20_0000_0000_0000,
                    0 < s <= 0x400,
            ;
        }
        assert(scaled_magnitude(x) == mag * q);
    }
    if x.is_negative() {
        if mag == SIGN_BIT {
            i64::MIN
        } else {
            -(mag as i64)
        }
    } else {
        mag as i64
    }
}

/// A number whose exponent is below that of a power of two is smaller in
/// magnitude than that power, and one whose exponent is not, is not.
pub proof fn lemma_magnitude_against_power(x: Binary64, e: nat)
    requires
        !x.nan(),
        1 <= e <= 1022,
    ensures
        x.biased_exponent() < 1023 + e ==> magnitude_key(x) < pow2(e) * pow2(1074),
        x.biased_exponent() >= 1023 + e ==> magnitude_key(x) >= pow2(e) * pow2(1074),
        x.biased_exponent() >= 1023 + e && x.mantissa() != 0 ==> magnitude_key(x) > pow2(e) * pow2(
            1074,
        ),
        x.biased_exponent() > 1023 + e ==> magnitude_key(x) > pow2(e) * pow2(1074),
{
    let limit = Binary64 { bits: ((1023 + e) * MANTISSA_RANGE) as u64 };
    assert(0 <= (1023 + e) * 0x10_0000_0000_0000 < 0x8000_0000_0000_0000);
    lemma_parts_of_bits(false, (1023 + e) as u16, 0);
    lemma_bits_of_parts(limit);
    lemma_bits_of_parts(x);
    lemma2_to64();
    lemma2_to64_rest();
    lemma_pow2_adds(52, (1022 + e) as nat);
    lemma_pow2_adds(e, 1074);
    assert(magnitude_key(limit) == pow2(e) * pow2(1074));
    if x.magnitude() < limit.magnitude() {
        lemma_magnitude_order(x, limit);
    } else if x.magnitude() > limit.magnitude() {
        lemma_magnitude_order(limit, x);
    } else {
        lemma_magnitude_same(x, limit);
    }
}

/// The products that place integers against the powers of two.
proof fn lemma_int_key_against_power(n: i64, e: nat)
    ensures
        n >= pow2(e) ==> int_key(n) >= pow2(e) * pow2(1074),
        n < pow2(e) ==> int_key(n) < pow2(e) * pow2(1074),
        n <= -pow2(e) ==> int_key(n) <= -(pow2(e) * pow2(1074)),
        n >= -pow2(e) ==> int_key(n) >= -(pow2(e) * pow2(1074)),
        n > 0 ==> int_key(n) > 0,
        n < 0 ==> int_key(n) < 0,
        n == 0 ==> int_key(n) == 0,
{
    let q = pow2(1074) as int;
    let p = pow2(e) as int;
    lemma_pow2_pos(1074);
    assert(n >= p ==> n * q >= p * q) by (nonlinear_arith)
        requires
            q > 0,
    ;
    assert(n < p ==> n * q < p * q) by (nonlinear_arith)
        requires
            q > 0,
    ;
    assert(n <= -p ==> n * q <= -(p * q)) by (nonlinear_arith)
        requires
            q > 0,
    ;
    assert(n >= -p ==> n * q >= -(p * q)) by (nonlinear_arith)
        requires
            q > 0,
    ;
    assert(n > 0 ==> n * q > 0) by (nonlinear_arith)
        requires
            q > 0,
    ;
    assert(n < 0 ==> n * q < 0) by (nonlinear_arith)
        requires
            q > 0,
    ;
}

/// Integers are ordered as their places are.
pub proof fn lemma_int_key_order(a: i64, b: i64)
    ensures
        sign_of_difference(int_key(a), int_key(b)) == sign_of_difference(a as int, b as int),
{
    let q = pow2(1074) as int;
    lemma_pow2_pos(1074);
    assert(a < b ==> a * q < b * q) by (nonlinear_arith)
        requires
            q > 0,
    ;
    assert(a > b ==> a * q > b * q) by (nonlinear_arith)
        requires
            q > 0,
    ;
}

/// Compares an integer with a binary64 number, exactly: `-1`, `0` or `1` as
/// the integer is below, equal to or above the number. A NaN is below every
/// integer.
pub fn compare_int_float(n: i64, x: Binary64) -> (r: i8)
    ensures
        r == sign_of_difference(int_key(n), float_key(x)),
{
    proof {
        lemma2_to64();
        lemma2_to64_rest();
        lemma_bits_of_parts(x);
        lemma_int_key_against_power(n, 53);
        lemma_int_key_against_power(n, 63);
        lemma_pow2_pos(2100);
        lemma_pow2_pos(1074);
    }
    if x.is_nan() {
        proof {
            lemma_pow2_adds(63, 1074);
            lemma_pow2_strictly_increases(1137, 2100);
        }
        return 1;
    }
    proof {
        lemma_magnitude_against_power(x, 53);
        lemma_magnitude_against_power(x, 63);
        lemma_magnitude_zero(x);
    }
    let bexp = x.exponent_bits();
    if -EXACT_LIMIT < n && n < EXACT_LIMIT {
        // n is a binary64 number: compare as such
        compare_numbers(from_exact_int(n), x)
    } else if bexp < EXACT_LIMIT_EXPONENT {
        // the integer is the larger in magnitude: its sign decides
        if n > 0 {
            1
        } else {
            -1
        }
    } else if !x.is_negative() && bexp >= INT_LIMIT_EXPONENT {
        // x is above every integer
        -1
    } else if x.is_negative() && (bexp > INT_LIMIT_EXPONENT || (bexp == INT_LIMIT_EXPONENT
        && x.mantissa_bits() != 0)) {
        // x is below every integer
        1
    } else {
        // x is an integer within range
        let m = to_exact_int(x);
        proof {
            lemma_int_key_order(n, m);
        }
        if n < m {
            -1
        } else if n == m {
            0
        } else {
            1
        }
    }
}

/// The order of two places.
pub open spec fn ordering_of(a: int, b: int) -> Ordering {
    if a < b {
        Ordering::Less
    } else if a == b {
        Ordering::Equal
    } else {
        Ordering::Greater
    }
}

/// An order turned round.
pub open spec fn reversed(o: Ordering) -> Ordering {
    match o {
        Ordering::Less => Ordering::Greater,
        Ordering::Equal => Ordering::Equal,
        Ordering::Greater => Ordering::Less,
    }
}

/// The order of two places from the sign of their difference.
fn ordering_from(c: i8, Ghost(a): Ghost<int>, Ghost(b): Ghost<int>) -> (r: Ordering)
    requires
        c == sign_of_difference(a, b),
    ensures
        r == ordering_of(a, b),
{
    if c < 0 {
        Ordering::Less
    } else if c == 0 {
        Ordering::Equal
    } else {
        Ordering::Greater
    }
}

/// Returns an `Ordering` between an `i64` and a binary64 number: that of
/// their values, with NaN below every integer.
pub fn cmp_if(n: i64, x: Binary64) -> (r: Ordering)
    ensures
        r == ordering_of(int_key(n), float_key(x)),
{
    ordering_from(compare_int_float(n, x), Ghost(int_key(n)), Ghost(float_key(x)))
}

/// Returns an `Ordering` between a binary64 number and an `i64`: that of
/// their values, with NaN below every integer.
pub fn cmp_fi(x: Binary64, n: i64) -> (r: Ordering)
    ensures
        r == ordering_of(float_key(x), int_key(n)),
{
    match cmp_if(n, x) {
        Ordering::Less => Ordering::Greater,
        Ordering::Equal => Ordering::Equal,
        Ordering::Greater => Ordering::Less,
    }
}

/// Returns an `Ordering` between two binary64 numbers: that of their
/// values, the two zeros equal, with NaN below every number and equal to
/// every NaN.
pub fn cmp_ff(x: Binary64, y: Binary64) -> (r: Ordering)
    ensures
        r == float_order(x, y),
{
    ordering_from(compare_floats(x, y), Ghost(float_key(x)), Ghost(float_key(y)))
}

/// The order of two places is a total order: each place equals itself, the
/// order of two places turns round with them, and it passes on along a
/// chain.
pub proof fn lemma_ordering_total(a: int, b: int, c: int)
    ensures
        ordering_of(a, a) == Ordering::Equal,
        ordering_of(a, b) == reversed(ordering_of(b, a)),
        ordering_of(a, b) == Ordering::Equal <==> a == b,
        ordering_of(a, b) != Ordering::Greater && ordering_of(b, c) != Ordering::Greater
            ==> ordering_of(a, c) != Ordering::Greater,
        ordering_of(a, b) == Ordering::Less && ordering_of(b, c) != Ordering::Greater
            ==> ordering_of(a, c) == Ordering::Less,
        ordering_of(a, b) != Ordering::Greater && ordering_of(b, c) == Ordering::Less
            ==> ordering_of(a, c) == Ordering::Less,
{
}

/// The order of two binary64 numbers: that of their places.
pub open spec fn float_order(x: Binary64, y: Binary64) -> Ordering {
    ordering_of(float_key(x), float_key(y))
}

/// The order of binary64 numbers is total: each number equals itself, the
/// order of two numbers turns round with them, and it passes on along a
/// chain. Two NaNs are equal, and a NaN is below every number.
pub proof fn lemma_float_order_total(x: Binary64, y: Binary64, z: Binary64)
    ensures
        float_order(x, x) == Ordering::Equal,
        float_order(x, y) == reversed(float_order(y, x)),
        float_order(x, y) != Ordering::Greater && float_order(y, z) != Ordering::Greater
            ==> float_order(x, z) != Ordering::Greater,
        float_order(x, y) == Ordering::Equal && float_order(y, z) == Ordering::Equal
            ==> float_order(x, z) == Ordering::Equal,
        x.nan() && y.nan() ==> float_order(x, y) == Ordering::Equal,
        x.nan() && !y.nan() ==> float_order(x, y) == Ordering::Less,
{
    lemma_ordering_total(float_key(x), float_key(y), float_key(z));
    if x.nan() {
        lemma_nan_lowest(x, 0, y);
    }
}

/// Comparing an integer with a number is the reverse of comparing the
/// number with the integer.
pub proof fn lemma_cmp_if_reverses_cmp_fi(n: i64, x: Binary64)
    ensures
        ordering_of(int_key(n), float_key(x)) == reversed(ordering_of(float_key(x), int_key(n))),
{
}

/// An integer of magnitude below 2^53 equals the binary64 number made from
/// it.
pub proof fn lemma_exact_int_equal(n: i64)
    requires
        -EXACT_LIMIT < n < EXACT_LIMIT,
    ensures
        ordering_of(int_key(n), float_key(exact_float(n))) == Ordering::Equal,
        ordering_of(float_key(exact_float(n)), int_key(n)) == Ordering::Equal,
{
    lemma_exact_float(n);
}

/// Every NaN is below every integer and every number, and equal to every
/// NaN.
pub proof fn lemma_nan_lowest(nan: Binary64, n: i64, x: Binary64)
    requires
        nan.nan(),
    ensures
        ordering_of(int_key(n), float_key(nan)) == Ordering::Greater,
        x.nan() ==> ordering_of(float_key(nan), float_key(x)) == Ordering::Equal,
        !x.nan() ==> ordering_of(float_key(nan), float_key(x)) == Ordering::Less,
{
    lemma2_to64();
    lemma2_to64_rest();
    lemma_int_key_against_power(n, 63);
    lemma_pow2_adds(63, 1074);
    lemma_pow2_strictly_increases(1137, 2100);
    lemma_pow2_pos(2100);
    if !x.nan() {
        lemma_key_above_nan(x);
    }
}

} // verus!
