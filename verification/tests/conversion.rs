use num_bigint::BigUint;
use precise::to_string;

#[test]
fn trait_entry_points() {
    assert_eq!(precise::Float::to_precise_string(1.0f64.to_bits()), "1.0");
    assert_eq!(precise::Float::to_precise_string(1.0f32.to_bits()), "1.0");
    assert_eq!(precise::convert::f64_bits_to_string(90.0f64.to_bits()), "90.0");
    assert_eq!(precise::convert::f32_bits_to_string(90.0f32.to_bits()), "90.0");
}

#[test]
fn one_f32() {
    assert_eq!(to_string(1.0f32.to_bits()), "1.0");
}

#[test]
fn ninety_f32() {
    assert_eq!(to_string(90.0f32.to_bits()), "90.0");
}

#[test]
fn tenth_f32() {
    assert_eq!(to_string(0.1f32.to_bits()), "0.100000001490116119384765625");
}

#[test]
fn point_123_f32() {
    assert_eq!(to_string(0.123f32.to_bits()), "0.123000003397464752197265625");
}

#[test]
fn one_point_23_f32() {
    assert_eq!(to_string(1.23f32.to_bits()), "1.230000019073486328125");
}

#[test]
fn min_positive_f32() {
    assert_eq!(
        to_string(f32::MIN_POSITIVE.to_bits()),
        "0.000000000000000000000000000000000000011754943508222875079687365372222456778186655567720875215087517062784172594547271728515625"
    );
}

#[test]
fn min_f32() {
    assert_eq!(
        to_string(f32::MIN.to_bits()),
        "-340282346638528859811704183484516925440.0"
    );
}

#[test]
fn max_f32() {
    assert_eq!(
        to_string(f32::MAX.to_bits()),
        "340282346638528859811704183484516925440.0"
    );
}

#[test]
fn pos_nan_f32() {
    assert_eq!(to_string(f32::NAN.copysign(1.0).to_bits()), "NaN");
}

#[test]
fn neg_nan_f32() {
    assert_eq!(to_string(f32::NAN.copysign(-1.0).to_bits()), "NaN");
}

#[test]
fn nan_payload_f32() {
    // All-ones exponent with any nonzero fraction is NaN, whatever the bits.
    assert_eq!(to_string(0x7f80_0001u32), "NaN");
    assert_eq!(to_string(0xffc1_2345u32), "NaN");
}

#[test]
fn pos_inf_f32() {
    assert_eq!(to_string(f32::INFINITY.to_bits()), "inf");
}

#[test]
fn neg_inf_f32() {
    assert_eq!(to_string(f32::NEG_INFINITY.to_bits()), "-inf");
}

#[test]
fn zero_f32() {
    assert_eq!(to_string(0.0f32.to_bits()), "0.0");
}

#[test]
fn neg_zero_f32() {
    assert_eq!(to_string((-0.0f32).to_bits()), "-0.0");
}

// The smallest positive subnormal is 2^-149 = 5^149 / 10^149: the digits of
// 5^149 behind a decimal point, padded to 149 places.
#[test]
fn min_subnormal_f32() {
    let p = BigUint::from(5u8).pow(149u32).to_string();
    let expected = format!("0.{}{}", "0".repeat(149 - p.len()), p);
    assert_eq!(to_string(1u32), expected);
}

#[test]
fn one_f64() {
    assert_eq!(to_string(1.0f64.to_bits()), "1.0");
}

#[test]
fn ninety_f64() {
    assert_eq!(to_string(90.0f64.to_bits()), "90.0");
}

#[test]
fn tenth_f64() {
    assert_eq!(
        to_string(0.1f64.to_bits()),
        "0.1000000000000000055511151231257827021181583404541015625"
    );
}

#[test]
fn point_123_f64() {
    assert_eq!(
        to_string(0.123f64.to_bits()),
        "0.1229999999999999982236431605997495353221893310546875"
    );
}

#[test]
fn one_point_23_f64() {
    assert_eq!(
        to_string(1.23f64.to_bits()),
        "1.229999999999999982236431605997495353221893310546875"
    );
}

// The largest finite double is (2^53 - 1) * 2^971, an integer: its digits
// followed by ".0".
#[test]
fn max_f64() {
    let expected = format!("{}.0", BigUint::from((1u64 << 53) - 1) << 971);
    assert_eq!(to_string(f64::MAX.to_bits()), expected);
}

#[test]
fn min_f64() {
    let expected = format!("-{}.0", BigUint::from((1u64 << 53) - 1) << 971);
    assert_eq!(to_string(f64::MIN.to_bits()), expected);
}

#[test]
fn max_f64_leading_digits() {
    let s = to_string(f64::MAX.to_bits());
    assert!(s.starts_with("17976931348623157"));
    // 309 integer digits, a point, one fractional zero
    assert_eq!(s.len(), 309 + 2);
}

#[test]
fn pos_nan_f64() {
    assert_eq!(to_string(f64::NAN.copysign(1.0).to_bits()), "NaN");
}

#[test]
fn neg_nan_f64() {
    assert_eq!(to_string(f64::NAN.copysign(-1.0).to_bits()), "NaN");
}

#[test]
fn nan_payload_f64() {
    assert_eq!(to_string(0x7ff0_0000_0000_0001u64), "NaN");
    assert_eq!(to_string(0xfff8_0000_0000_1234u64), "NaN");
}

#[test]
fn pos_inf_f64() {
    assert_eq!(to_string(f64::INFINITY.to_bits()), "inf");
}

#[test]
fn neg_inf_f64() {
    assert_eq!(to_string(f64::NEG_INFINITY.to_bits()), "-inf");
}

#[test]
fn zero_f64() {
    assert_eq!(to_string(0.0f64.to_bits()), "0.0");
}

#[test]
fn neg_zero_f64() {
    assert_eq!(to_string((-0.0f64).to_bits()), "-0.0");
}

// The smallest positive subnormal double is 2^-1074 = 5^1074 / 10^1074.
#[test]
fn min_subnormal_f64() {
    let p = BigUint::from(5u8).pow(1074u32).to_string();
    let expected = format!("0.{}{}", "0".repeat(1074 - p.len()), p);
    assert_eq!(to_string(1u64), expected);
}

// A subnormal other than the smallest: 3 * 2^-1074 = 3 * 5^1074 / 10^1074.
#[test]
fn small_subnormal_f64() {
    let p = (BigUint::from(3u8) * BigUint::from(5u8).pow(1074u32)).to_string();
    let expected = format!("0.{}{}", "0".repeat(1074 - p.len()), p);
    assert_eq!(to_string(3u64), expected);
}

#[test]
fn min_positive_f64() {
    // The smallest positive normal double is 2^-1022 = 5^1022 / 10^1022.
    let p = BigUint::from(5u8).pow(1022u32).to_string();
    let expected = format!("0.{}{}", "0".repeat(1022 - p.len()), p);
    assert_eq!(to_string(f64::MIN_POSITIVE.to_bits()), expected);
}

#[test]
fn sign_bit_governs_sign() {
    for x in [1.0f64, 0.5, 90.0, 1e300, 5e-324] {
        assert!(!to_string(x.to_bits()).starts_with('-'));
        assert!(to_string((-x).to_bits()).starts_with('-'));
    }
}

#[test]
fn format_shape() {
    for x in [0.0f64, 1.0, 0.1, 90.0, 1e300, 5e-324, f64::MAX] {
        let s = to_string(x.to_bits());
        let (int_part, frac_part) = s.split_once('.').unwrap();
        assert!(!int_part.is_empty());
        assert!(!frac_part.is_empty());
        assert!(int_part.chars().all(|c| c.is_ascii_digit()));
        assert!(frac_part.chars().all(|c| c.is_ascii_digit()));
        assert!(int_part.len() == 1 || !int_part.starts_with('0'));
        assert!(frac_part.len() == 1 || !frac_part.ends_with('0'));
    }
}

// Parsing the output back as an exact rational recovers the input value:
// scaled by 10^(number of fractional digits), the digits must equal the
// value times that same power of ten, computed independently from the IEEE
// fields.
#[test]
fn roundtrip_exact() {
    for x in [0.1f64, 0.123, 1.23, 1.0, 90.0, 3.5e-310, 5e-324, 1e308] {
        let s = to_string(x.to_bits());
        let (int_part, frac_part) = s.split_once('.').unwrap();
        let k = frac_part.len() as u32;
        let parsed = BigUint::parse_bytes(int_part.as_bytes(), 10).unwrap()
            * BigUint::from(10u8).pow(k)
            + BigUint::parse_bytes(frac_part.as_bytes(), 10).unwrap();
        // value * 10^1075, from the IEEE-754 definition of the fields
        let bits = x.to_bits();
        let frac_field = bits & 0xf_ffff_ffff_ffff;
        let exp_field = (bits >> 52) & 0x7ff;
        let (sig, e2) = if exp_field == 0 {
            (frac_field, 1u32)
        } else {
            (frac_field + (1 << 52), exp_field as u32)
        };
        let scaled =
            BigUint::from(sig) * (BigUint::from(1u8) << e2) * BigUint::from(5u8).pow(1075u32);
        // parsed / 10^k == scaled / 10^1075
        assert_eq!(
            parsed * BigUint::from(10u8).pow(1075u32),
            scaled * BigUint::from(10u8).pow(k)
        );
    }
}
