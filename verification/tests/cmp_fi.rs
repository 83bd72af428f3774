use std::cmp::Ordering;
use table::cmp_fi::{cmp_ff, cmp_fi, cmp_if, from_exact_int, to_exact_int};
use table::f64_conv::Binary64;

fn b(x: f64) -> Binary64 {
    Binary64::from_bits(x.to_bits())
}

fn samples() -> Vec<f64> {
    let two53 = (53f64).exp2();
    let two63 = (63f64).exp2();
    vec![
        f64::NAN,
        f64::NEG_INFINITY,
        f64::MIN,
        -two63 * 2.0,
        -two63 - 2048.0,
        -two63,
        -two63 + 1024.0,
        -two53 - 2.0,
        -two53,
        -two53 + 1.0,
        -1e10,
        -3.5,
        -1.0,
        -0.5,
        -5e-324,
        -0.0,
        0.0,
        5e-324,
        f64::MIN_POSITIVE,
        0.5,
        1.0,
        3.0,
        3.5,
        1e10,
        two53 - 1.0,
        two53,
        two53 + 2.0,
        (60f64).exp2(),
        two63 - 1024.0,
        two63,
        two63 * 2.0,
        f64::MAX,
        f64::INFINITY,
    ]
}

fn ints() -> Vec<i64> {
    vec![
        i64::MIN,
        i64::MIN + 1,
        -(1 << 62),
        -(1 << 53) - 1,
        -(1 << 53),
        -(1 << 53) + 1,
        -10_000_000_000,
        -4,
        -3,
        -1,
        0,
        1,
        3,
        4,
        10_000_000_000,
        (1 << 53) - 1,
        1 << 53,
        (1 << 53) + 1,
        (1 << 53) + 2,
        1 << 60,
        1 << 62,
        i64::MAX - 1023,
        i64::MAX - 1,
        i64::MAX,
    ]
}

/// The order by wide integers: every sample is a multiple of 2^-1074, but
/// those that matter against an `i64` are settled by their integer parts.
fn reference_if(n: i64, x: f64) -> Ordering {
    if x.is_nan() {
        return Ordering::Greater;
    }
    if x == f64::INFINITY || x >= (64f64).exp2() {
        return Ordering::Less;
    }
    if x == f64::NEG_INFINITY || x <= -(64f64).exp2() {
        return Ordering::Greater;
    }
    let floor = x.floor();
    let whole = floor as i128;
    let n = n as i128;
    if n < whole {
        Ordering::Less
    } else if n > whole {
        Ordering::Greater
    } else if x > floor {
        Ordering::Less
    } else {
        Ordering::Equal
    }
}

#[test]
fn cmp_if_is_exact() {
    for n in ints() {
        for x in samples() {
            assert_eq!(cmp_if(n, b(x)), reference_if(n, x), "{} against {}", n, x);
        }
    }
}

#[test]
fn cmp_if_reverses_cmp_fi() {
    for n in ints() {
        for x in samples() {
            assert_eq!(cmp_if(n, b(x)), cmp_fi(b(x), n).reverse(), "{} against {}", n, x);
        }
    }
}

#[test]
fn small_integers_equal_their_floats() {
    for n in [0i64, 1, -1, 42, -42, (1 << 53) - 1, -(1 << 53) + 1, 1 << 52, 123456789012345] {
        assert_eq!(cmp_if(n, b(n as f64)), Ordering::Equal);
        assert_eq!(cmp_fi(b(n as f64), n), Ordering::Equal);
        assert_eq!(from_exact_int(n).to_bits(), (n as f64).to_bits());
    }
}

#[test]
fn large_integer_against_smaller_float() {
    assert_eq!(cmp_if(1 << 62, b((60f64).exp2())), Ordering::Greater);
    assert_eq!(cmp_if(-(1 << 62), b((60f64).exp2())), Ordering::Less);
    assert_eq!(cmp_if(i64::MAX, b((63f64).exp2())), Ordering::Less);
    assert_eq!(cmp_if(i64::MIN, b(-(63f64).exp2())), Ordering::Equal);
    assert_eq!(cmp_if((1 << 53) + 1, b((53f64).exp2())), Ordering::Greater);
    assert_eq!(cmp_if((1 << 53) + 1, b((53f64).exp2() + 2.0)), Ordering::Less);
}

#[test]
fn nan_is_smaller_than_any_integer() {
    assert_eq!(cmp_if(0, b(f64::NAN)), Ordering::Greater);
    assert_eq!(cmp_if(i64::MIN, b(f64::NAN)), Ordering::Greater);
    assert_eq!(cmp_fi(b(f64::NAN), i64::MIN), Ordering::Less);
}

#[test]
fn cmp_ff_is_a_total_order() {
    let xs = samples();
    for (i, &x) in xs.iter().enumerate() {
        assert_eq!(cmp_ff(b(x), b(x)), Ordering::Equal);
        for (j, &y) in xs.iter().enumerate() {
            let expected = if x.is_nan() || y.is_nan() {
                y.is_nan().cmp(&x.is_nan())
            } else {
                x.partial_cmp(&y).unwrap()
            };
            assert_eq!(cmp_ff(b(x), b(y)), expected, "{} against {}", x, y);
            assert_eq!(cmp_ff(b(y), b(x)), expected.reverse());
            if i < j && !(x == 0.0 && y == 0.0) {
                assert_eq!(expected, Ordering::Less);
            }
        }
    }
    assert_eq!(cmp_ff(b(f64::NAN), b(-f64::NAN)), Ordering::Equal);
    assert_eq!(cmp_ff(b(f64::NAN), b(f64::NEG_INFINITY)), Ordering::Less);
    assert_eq!(cmp_ff(b(-0.0), b(0.0)), Ordering::Equal);
}

#[test]
fn integral_floats_convert_without_loss() {
    for x in [(53f64).exp2(), -(53f64).exp2(), (60f64).exp2() + 1024.0, -(63f64).exp2()] {
        assert_eq!(to_exact_int(b(x)), x as i64);
    }
    assert_eq!(to_exact_int(b((63f64).exp2() - 1024.0)), i64::MAX - 1023);
}
