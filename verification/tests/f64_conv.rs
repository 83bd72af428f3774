use table::f64_conv::{f64_from_bytes, f64_from_parts, f64_to_bytes, f64_to_parts, Binary64};
use table::util::{from_hex, FromHexError};

fn to_bytes(x: f64) -> Vec<u8> {
    f64_to_bytes(Binary64::from_bits(x.to_bits()))
}

fn from_bytes(v: &[u8]) -> f64 {
    f64::from_bits(f64_from_bytes(v).to_bits())
}

#[test]
pub fn check_f64_conversions() {
    let pi: f64 = 3.14159265;
    let pi_vec = from_hex("400921FB53C8D4F1").unwrap();

    assert_eq!(to_bytes(pi), pi_vec);
    assert_eq!(from_bytes(&pi_vec), pi);

    let mpi_vec = from_hex("C00921FB53C8D4F1").unwrap();

    assert_eq!(to_bytes(-pi), mpi_vec);
    assert_eq!(from_bytes(&mpi_vec), -pi);

    let edge: f64 = 1.125 * (-1022f64).exp2();
    let edge_vec = from_hex("0012000000000000").unwrap();

    assert_eq!(to_bytes(edge), edge_vec);
    assert_eq!(from_bytes(&edge_vec), edge);

    let sub: f64 = 1.125 * (-1023f64).exp2();
    let sub_vec = from_hex("0009000000000000").unwrap();

    assert_eq!(to_bytes(sub), sub_vec);
    assert_eq!(from_bytes(&sub_vec), sub);

    let nan_vec = from_hex("7FF8000000000000").unwrap();

    assert_eq!(to_bytes(f64::NAN), nan_vec);
    assert!(from_bytes(&nan_vec).is_nan());

    let inf_vec = from_hex("7FF0000000000000").unwrap();

    assert_eq!(to_bytes(f64::INFINITY), inf_vec);
    assert_eq!(from_bytes(&inf_vec), f64::INFINITY);

    let neginf_vec = from_hex("FFF0000000000000").unwrap();

    assert_eq!(to_bytes(f64::NEG_INFINITY), neginf_vec);
    assert_eq!(from_bytes(&neginf_vec), f64::NEG_INFINITY);

    let max_vec = from_hex("7FEFFFFFFFFFFFFF").unwrap();

    assert_eq!(to_bytes(f64::MAX), max_vec);
    assert_eq!(from_bytes(&max_vec), f64::MAX);

    let min_vec = from_hex("0010000000000000").unwrap();

    assert_eq!(to_bytes(f64::MIN_POSITIVE), min_vec);
    assert_eq!(from_bytes(&min_vec), f64::MIN_POSITIVE);

    let eps_vec = from_hex("3CB0000000000000").unwrap();

    assert_eq!(to_bytes(f64::EPSILON), eps_vec);
    assert_eq!(from_bytes(&eps_vec), f64::EPSILON);

    let zero_vec = from_hex("0000000000000000").unwrap();

    assert_eq!(to_bytes(0f64), zero_vec);
    assert_eq!(from_bytes(&zero_vec), 0f64);

    let mzero_vec = from_hex("8000000000000000").unwrap();

    assert_eq!(to_bytes(-0f64), mzero_vec);
    assert_eq!(from_bytes(&mzero_vec), -0f64);
    assert!(from_bytes(&mzero_vec).is_sign_negative());
}

#[test]
fn every_nan_serialises_as_the_quiet_nan() {
    let quiet = from_hex("7FF8000000000000").unwrap();
    for bits in [0x7FF0_0000_0000_0001u64, 0xFFF8_0000_0000_0000, 0xFFFF_FFFF_FFFF_FFFF] {
        assert!(f64::from_bits(bits).is_nan());
        assert_eq!(f64_to_bytes(Binary64::from_bits(bits)), quiet);
        let parsed = f64_from_bytes(&bits.to_be_bytes());
        assert_eq!(parsed.to_bits(), 0x7FF8_0000_0000_0000);
    }
}

#[test]
fn bytes_round_trip_bitwise() {
    let samples = [
        0.0f64,
        -0.0,
        1.0,
        -1.5,
        3.14159265,
        f64::MAX,
        f64::MIN,
        f64::MIN_POSITIVE,
        5e-324,
        f64::INFINITY,
        f64::NEG_INFINITY,
        1e300,
        -2.2250738585072009e-308,
    ];
    for x in samples {
        let bytes = to_bytes(x);
        assert_eq!(bytes, x.to_bits().to_be_bytes().to_vec());
        assert_eq!(from_bytes(&bytes).to_bits(), x.to_bits());
    }
}

#[test]
fn parts_of_numbers() {
    assert_eq!(f64_to_parts(Binary64::from_bits(1.0f64.to_bits())), (1, 1023, 0));
    assert_eq!(f64_to_parts(Binary64::from_bits((-2.0f64).to_bits())), (-1, 1024, 0));
    assert_eq!(f64_to_parts(Binary64::from_bits(1.5f64.to_bits())), (1, 1023, 1 << 51));
    assert_eq!(f64_to_parts(Binary64::from_bits(f64::NAN.to_bits())), (1, 0x7FF, 1 << 51));
    assert_eq!(f64_to_parts(Binary64::from_bits((-f64::NAN).to_bits())), (1, 0x7FF, 1 << 51));
    assert_eq!(f64_to_parts(Binary64::from_bits(f64::NEG_INFINITY.to_bits())), (-1, 0x7FF, 0));
    assert_eq!(f64_to_parts(Binary64::from_bits((-0.0f64).to_bits())), (-1, 0, 0));
    assert_eq!(f64_to_parts(Binary64::from_bits(5e-324f64.to_bits())), (1, 0, 1));

    assert_eq!(f64::from_bits(f64_from_parts(1, 1023, 0).to_bits()), 1.0);
    assert_eq!(f64::from_bits(f64_from_parts(-1, 1024, 1 << 51).to_bits()), -3.0);
    assert_eq!(f64::from_bits(f64_from_parts(1, 0, 1).to_bits()), 5e-324);
    assert_eq!(f64_from_parts(-1, 0x7FF, 7).to_bits(), 0x7FF8_0000_0000_0000);
    assert_eq!(f64::from_bits(f64_from_parts(-1, 0x7FF, 0).to_bits()), f64::NEG_INFINITY);
}

#[test]
fn from_hex_reports_what_is_wrong() {
    assert_eq!(from_hex(""), Ok(vec![]));
    assert_eq!(from_hex("00ff7F"), Ok(vec![0x00, 0xFF, 0x7F]));
    assert_eq!(from_hex("abc"), Err(FromHexError::InvalidHexLength));
    assert_eq!(from_hex("12g4"), Err(FromHexError::InvalidHexCharacter('g', 2)));
    assert_eq!(from_hex("1é"), Err(FromHexError::InvalidHexCharacter('é', 1)));
}
