use histdiff::keys::{bits_of_key, finite_key, is_finite_bits, key_of_bits};

fn key(v: f64) -> i64 {
    key_of_bits(v.to_bits())
}

#[test]
fn keys_follow_the_order_of_values() {
    let values = [
        f64::NEG_INFINITY,
        f64::MIN,
        -1.0e300,
        -2.5,
        -1.0,
        -f64::MIN_POSITIVE,
        -5.0e-324,
        0.0,
        5.0e-324,
        f64::MIN_POSITIVE,
        0.5,
        1.0,
        1.0000000000000002,
        7.5,
        1.0e300,
        f64::MAX,
        f64::INFINITY,
    ];
    for x in values {
        for y in values {
            assert_eq!(key(x) < key(y), x < y, "for {:?} and {:?}", x, y);
            assert_eq!(key(x) == key(y), x == y, "for {:?} and {:?}", x, y);
        }
    }
}

#[test]
fn both_zeros_have_the_key_zero() {
    assert_eq!(key(0.0), 0);
    assert_eq!(key(-0.0), 0);
    assert_eq!(f64::from_bits(bits_of_key(0)).to_bits(), 0.0f64.to_bits());
}

#[test]
fn keys_lead_back_to_values() {
    for v in [1.0, -1.0, 0.1, -0.1, 5.0e-324, -5.0e-324, f64::MAX, f64::MIN, 123456.789] {
        assert_eq!(f64::from_bits(bits_of_key(key(v))), v);
    }
}

#[test]
fn neighbouring_values_have_neighbouring_keys() {
    let mut state: u64 = 0x9e37_79b9_7f4a_7c15;
    for _ in 0..10_000 {
        state = state.wrapping_mul(6364136223846793005).wrapping_add(1442695040888963407);
        let v = f64::from_bits(state);
        if !v.is_finite() || v == 0.0 {
            continue;
        }
        let up = f64::from_bits(if v > 0.0 { state + 1 } else { state - 1 });
        if up.is_finite() {
            assert!(up > v);
            assert_eq!(key(up), key(v) + 1);
        }
    }
}

#[test]
fn infinities_and_not_a_number_are_not_finite() {
    assert!(is_finite_bits(1.5f64.to_bits()));
    assert!(is_finite_bits(f64::MAX.to_bits()));
    assert!(is_finite_bits((-0.0f64).to_bits()));
    assert!(!is_finite_bits(f64::INFINITY.to_bits()));
    assert!(!is_finite_bits(f64::NEG_INFINITY.to_bits()));
    assert!(!is_finite_bits(f64::NAN.to_bits()));
    assert!(!is_finite_bits(0xfff8_0000_0000_0001));
    assert_eq!(finite_key(2.0f64.to_bits()), Some(key(2.0)));
    assert_eq!(finite_key(f64::NAN.to_bits()), None);
    assert_eq!(finite_key(f64::INFINITY.to_bits()), None);
}
