use sf_ope::data::sensor_value::{SensorValue, MEASURED_VALUE};
use sf_ope::utils::crypt_utils::decrypt_u64;

const CLIENT_KEY: [u8; 32] = *b"0123456789abcdef0123456789abcdef";
const OPE_KEY: [u8; 16] = *b"this is a key 10";

#[test]
fn from_interval_size_centres_on_the_measured_value() {
    let v = SensorValue::from_interval_size(30);
    assert_eq!(v, SensorValue { lower_bound: 10400, upper_bound: 10460 });
    assert_eq!(MEASURED_VALUE, 10430);
}

#[test]
fn from_random_bounds_keeps_both_bounds() {
    assert_eq!(
        SensorValue::from_random_bounds(65535, 3),
        SensorValue { lower_bound: 65535, upper_bound: 3 }
    );
}

#[test]
fn honest_readings_stay_around_the_measured_value() {
    for _ in 0..200 {
        let v = SensorValue::generate(false);
        let half = MEASURED_VALUE - v.lower_bound;
        assert!((1..5000).contains(&half));
        assert_eq!(v.upper_bound - MEASURED_VALUE, half);
    }
}

#[test]
fn faulty_readings_are_sixteen_bit() {
    for _ in 0..200 {
        let v = SensorValue::generate(true);
        assert!(v.lower_bound <= u16::MAX as u64);
        assert!(v.upper_bound <= u16::MAX as u64);
    }
}

#[test]
fn encrypt_preserves_order_and_seals_bounds() {
    let v = SensorValue { lower_bound: 21, upper_bound: 65531 };
    let e = v.encrypt(OPE_KEY, &CLIENT_KEY);
    assert!(e.lower_bound < e.upper_bound);
    assert_ne!(e.lower_bound, 21);
    assert_eq!(decrypt_u64(e.enc_lower_bound, &CLIENT_KEY), Ok(21));
    assert_eq!(decrypt_u64(e.enc_upper_bound, &CLIENT_KEY), Ok(65531));
    // Deterministic under one key.
    assert_eq!(v.encrypt(OPE_KEY, &CLIENT_KEY), e);
    assert_eq!(v.try_encrypt(OPE_KEY, &CLIENT_KEY), Some(e));
}

#[test]
fn encrypt_keeps_the_order_of_many_values() {
    let mut previous = None;
    for x in (100u64..20000).step_by(997) {
        let e = SensorValue { lower_bound: x, upper_bound: x + 1 }.encrypt(OPE_KEY, &CLIENT_KEY);
        assert!(e.lower_bound < e.upper_bound);
        if let Some(p) = previous {
            assert!(p < e.lower_bound);
        }
        previous = Some(e.lower_bound);
    }
}

#[test]
fn bounds_outside_the_ope_domain_are_refused() {
    assert_eq!(SensorValue { lower_bound: 10, upper_bound: 65535 }.try_encrypt(OPE_KEY, &CLIENT_KEY), None);
    assert_eq!(SensorValue { lower_bound: 65535, upper_bound: 3 }.try_encrypt(OPE_KEY, &CLIENT_KEY), None);
    assert!(SensorValue { lower_bound: 0, upper_bound: 65532 }.try_encrypt(OPE_KEY, &CLIENT_KEY).is_some());
    let top = SensorValue { lower_bound: 65533, upper_bound: 65534 }.try_encrypt(OPE_KEY, &CLIENT_KEY).unwrap();
    let below = SensorValue { lower_bound: 65531, upper_bound: 65532 }.encrypt(OPE_KEY, &CLIENT_KEY);
    assert!(below.lower_bound < below.upper_bound);
    assert!(below.upper_bound < top.lower_bound);
    assert!(top.lower_bound < top.upper_bound);
}

#[test]
fn encryption_keeps_the_order_across_readings() {
    let a = SensorValue { lower_bound: 100, upper_bound: 300 }.encrypt(OPE_KEY, &CLIENT_KEY);
    let b = SensorValue { lower_bound: 200, upper_bound: 400 }.encrypt(OPE_KEY, &CLIENT_KEY);
    let c = SensorValue { lower_bound: 300, upper_bound: 301 }.encrypt(OPE_KEY, &CLIENT_KEY);
    assert!(a.lower_bound < b.lower_bound);
    assert!(b.lower_bound < a.upper_bound);
    assert!(a.upper_bound < b.upper_bound);
    assert_eq!(a.upper_bound, c.lower_bound);
    assert!(c.upper_bound < b.upper_bound);
}
