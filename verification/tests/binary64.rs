use ktane_utils::binary64::Double;

fn double(value: f64) -> Double {
    Double::from_bits(value.to_bits()).unwrap()
}

fn float(value: Double) -> f64 {
    f64::from_bits(value.to_bits())
}

/// Numbers of all sizes that stay clear of the largest ones.
fn samples() -> Vec<f64> {
    let mut state: u64 = 0x243F_6A88_85A3_08D3;
    let mut values = vec![
        0.0,
        1.0,
        0.1,
        0.05,
        0.6,
        0.5,
        2.0,
        3.0,
        1.0 / 2147483647.0,
        2147483646.0,
        4294967295.0,
        f64::MIN_POSITIVE,
        f64::MIN_POSITIVE / 2.0,
        5e-324,
        1e-320,
        1e-310,
        1e-300,
        1e300,
        9007199254740992.0,
        9007199254740991.0,
        0.9999999999999999,
        1.0000000000000002,
    ];
    for _ in 0..400 {
        state = state.wrapping_mul(6364136223846793005).wrapping_add(1442695040888963407);
        let mantissa = state >> 12;
        state = state.wrapping_mul(6364136223846793005).wrapping_add(1442695040888963407);
        let exponent = 1 + (state >> 33) % 1900;
        values.push(f64::from_bits((exponent << 52) | mantissa));
        state = state.wrapping_mul(6364136223846793005).wrapping_add(1442695040888963407);
        values.push(f64::from_bits(state >> 12));
    }
    values
}

#[test]
fn bit_patterns_come_back() {
    for value in samples() {
        assert_eq!(float(double(value)), value);
        assert_eq!(double(value).to_bits(), value.to_bits());
    }
    assert_eq!(Double::zero().to_bits(), 0.0f64.to_bits());
    assert_eq!(Double::one().to_bits(), 1.0f64.to_bits());
    assert_eq!(Double::tenth().to_bits(), 0.1f64.to_bits());
    assert_eq!(Double::twentieth().to_bits(), 0.05f64.to_bits());
    assert_eq!(Double::six_tenths().to_bits(), 0.6f64.to_bits());
    assert_eq!(
        Double::from_canonical(0x10_0000_0020_0000, -83).to_bits(),
        (1.0f64 / 2147483647.0).to_bits()
    );
}

#[test]
fn only_finite_numbers_that_are_not_negative_are_taken() {
    assert!(Double::from_bits(f64::INFINITY.to_bits()).is_none());
    assert!(Double::from_bits(f64::NAN.to_bits()).is_none());
    assert!(Double::from_bits((-0.0f64).to_bits()).is_none());
    assert!(Double::from_bits((-1.0f64).to_bits()).is_none());
    assert!(Double::from_bits(f64::MAX.to_bits()).is_some());
    assert!(Double::from_bits(0x7FEF_FFFF_FFFF_FFFF).is_some());
    assert!(Double::from_bits(0x7FF0_0000_0000_0000).is_none());
}

#[test]
fn products_are_those_of_the_machine() {
    let values = samples();
    for &a in values.iter() {
        for &b in values.iter().step_by(7) {
            let product = a * b;
            if product.is_finite() && product < 1e290 {
                assert_eq!(float(double(a).mul(double(b))), product, "{:e} * {:e}", a, b);
            }
        }
    }
}

#[test]
fn sums_are_those_of_the_machine() {
    let values = samples();
    for &a in values.iter() {
        for &b in values.iter().step_by(5) {
            if a < 1e280 && b < 1e280 {
                assert_eq!(float(double(a).add(double(b))), a + b, "{:e} + {:e}", a, b);
            }
        }
    }
}

#[test]
fn differences_are_those_of_the_machine() {
    let values = samples();
    for &a in values.iter() {
        for &b in values.iter().step_by(3) {
            if b <= a {
                assert_eq!(float(double(a).sub(double(b))), a - b, "{:e} - {:e}", a, b);
            }
        }
        assert_eq!(float(double(a).sub(double(a))), 0.0);
    }
}

#[test]
fn order_is_that_of_the_machine() {
    let values = samples();
    for &a in values.iter() {
        for &b in values.iter() {
            assert_eq!(double(a).lt(double(b)), a < b);
        }
    }
}

#[test]
fn integers_and_integer_parts_are_those_of_the_machine() {
    for value in [0u32, 1, 2, 3, 100, 65535, 65536, 2147483646, 2147483647, u32::MAX] {
        assert_eq!(float(Double::from_u32(value)), f64::from(value));
        assert_eq!(Double::from_u32(value).floor_u32(), value);
    }
    for value in samples() {
        assert_eq!(double(value).floor_u32(), value as u32, "{:e}", value);
    }
    assert_eq!(double(0.9999999999999999).floor_u32(), 0);
    assert_eq!(double(99.99999999999999).floor_u32(), 99);
    assert_eq!(double(4294967295.5).floor_u32(), u32::MAX);
    assert_eq!(double(1e300).floor_u32(), u32::MAX);
}

#[test]
fn weights_decay_as_those_of_the_machine() {
    let mut weight = Double::one();
    let mut expected = 1.0f64;
    for _ in 0..400 {
        weight = weight.mul(Double::tenth());
        expected *= 0.1;
        assert_eq!(float(weight), expected);
    }
    assert_eq!(float(weight), 0.0);
    let mut weight = Double::one();
    let mut expected = 1.0f64;
    for _ in 0..300 {
        weight = weight.mul(Double::twentieth());
        expected *= 0.05;
        assert_eq!(float(weight), expected);
    }
    assert_eq!(float(weight), 0.0);
}
