use raytracer::order::{bits_are_nan, order_key};

fn key(x: f64) -> u64 {
    order_key(x.to_bits())
}

#[test]
fn keys_follow_numeric_order() {
    let values = [
        f64::NEG_INFINITY,
        -1.0e300,
        -2.5,
        -1.0e-300,
        0.0,
        1.0e-300,
        0.5,
        2.5,
        1.0e300,
        f64::INFINITY,
    ];
    for i in 0..values.len() {
        for k in 0..values.len() {
            assert_eq!(values[i] < values[k], key(values[i]) < key(values[k]), "{} {}", values[i], values[k]);
        }
    }
}

#[test]
fn both_zeros_share_a_key() {
    assert_eq!(key(-0.0), key(0.0));
    assert_eq!(key(0.0), 0x8000_0000_0000_0000);
}

#[test]
fn exact_keys() {
    assert_eq!(key(1.0), 0x8000_0000_0000_0000 + 0x3ff0_0000_0000_0000);
    assert_eq!(key(-1.0), 0x8000_0000_0000_0000 - 0x3ff0_0000_0000_0000);
}

#[test]
fn nan_is_recognised() {
    assert!(bits_are_nan(f64::NAN.to_bits()));
    assert!(bits_are_nan((-f64::NAN).to_bits()));
    assert!(!bits_are_nan(f64::INFINITY.to_bits()));
    assert!(!bits_are_nan(f64::NEG_INFINITY.to_bits()));
    assert!(!bits_are_nan(0.0f64.to_bits()));
}
