use bitnet_rs::float::{
    absolute, below_threshold, bf16_to_f32, half_to_f32, less, less_eq, not_a_number,
};

fn b(x: f32) -> u32 {
    x.to_bits()
}

#[test]
fn halves_widen() {
    assert_eq!(half_to_f32(0x3c00), b(1.0));
    assert_eq!(half_to_f32(0xc000), b(-2.0));
    assert_eq!(half_to_f32(0x7bff), b(65504.0));
    assert_eq!(half_to_f32(0x0000), b(0.0));
    assert_eq!(half_to_f32(0x8000), b(-0.0));
}

#[test]
fn smallest_halves_widen() {
    assert_eq!(half_to_f32(0x0001), b(2f32.powi(-24)));
    assert_eq!(half_to_f32(0x03ff), b(1023.0 * 2f32.powi(-24)));
    assert_eq!(half_to_f32(0x0400), b(2f32.powi(-14)));
    assert_eq!(half_to_f32(0x8200), b(-(2f32.powi(-15))));
}

#[test]
fn infinite_halves_widen() {
    assert_eq!(half_to_f32(0x7c00), b(f32::INFINITY));
    assert_eq!(half_to_f32(0xfc00), b(f32::NEG_INFINITY));
    assert!(f32::from_bits(half_to_f32(0x7e00)).is_nan());
}

#[test]
fn brain_numbers_widen() {
    assert_eq!(bf16_to_f32(0x3f80), b(1.0));
    assert_eq!(bf16_to_f32(0xc049), 0xc049_0000);
}

#[test]
fn order_is_that_of_the_numbers() {
    let sorted = [f32::NEG_INFINITY, -1.5, -1e-40, 0.0, 1e-45, 2.0, f32::MAX, f32::INFINITY];
    for (i, x) in sorted.iter().enumerate() {
        for (j, y) in sorted.iter().enumerate() {
            assert_eq!(less(b(*x), b(*y)), i < j);
            assert_eq!(less_eq(b(*x), b(*y)), i <= j);
        }
    }
    assert!(less_eq(b(0.0), b(-0.0)) && less_eq(b(-0.0), b(0.0)));
    assert!(!less(b(-0.0), b(0.0)));
}

#[test]
fn not_numbers_are_not_ordered() {
    let nan = b(f32::NAN);
    assert!(not_a_number(nan) && !not_a_number(b(f32::INFINITY)));
    assert!(!less(nan, b(1.0)) && !less(b(1.0), nan));
    assert!(!less_eq(nan, nan));
}

#[test]
fn magnitudes() {
    assert_eq!(absolute(b(-3.0)), b(3.0));
    assert_eq!(absolute(b(3.0)), b(3.0));
    for x in [0.0f32, 1e-7, -1e-7, 9.999999e-7, 1e-6, 1.0000001e-6, -2e-6, 1.0, f32::NAN] {
        assert_eq!(below_threshold(b(x)), (x.abs() as f64) < 1e-6);
    }
}
