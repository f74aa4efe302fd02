use zero::quant::{centroid_cell, quantize};

fn q(v: f64) -> i16 {
    quantize(v.to_bits())
}

fn reference(v: f64) -> i16 {
    let mut s = v * 10000.0;
    if s < -10000.0 {
        s = -10000.0;
    }
    if s > 10000.0 {
        s = 10000.0;
    }
    s.round() as i16
}

#[test]
fn basic() {
    assert_eq!(q(0.5), 5000);
    assert_eq!(q(-0.1), -1000);
    assert_eq!(q(1.5), 10000); // clamp
    assert_eq!(q(-1.0), -10000);
    assert_eq!(q(0.0), 0);
    assert_eq!(q(1.0), 10000);
}

#[test]
fn halves_go_away_from_zero() {
    assert_eq!(q(0.00005), 1);
    assert_eq!(q(-0.00005), -1);
    assert_eq!(q(0.00025), reference(0.00025));
    assert_eq!(q(0.00015), reference(0.00015));
}

#[test]
fn odd_numbers() {
    assert_eq!(q(f64::NAN), 0);
    assert_eq!(q(f64::INFINITY), 10000);
    assert_eq!(q(f64::NEG_INFINITY), -10000);
    assert_eq!(q(f64::MIN_POSITIVE / 4.0), 0);
    assert_eq!(q(f64::MAX), 10000);
    assert_eq!(q(-0.0), 0);
    assert_eq!(q(f64::MIN_POSITIVE), 0);
}

#[test]
fn negated_numbers_give_negated_features() {
    for i in 0..2000 {
        let v = i as f64 * 0.000_731;
        assert_eq!(q(-v), -q(v));
    }
}

#[test]
fn agrees_with_hardware() {
    let mut state: u64 = 1;
    for _ in 0..20_000 {
        state = state.wrapping_mul(6364136223846793005).wrapping_add(1442695040888963407);
        let v = (state >> 11) as f64 / (1u64 << 53) as f64 * 2.4 - 1.2;
        assert_eq!(q(v), reference(v), "{v}");
    }
    for i in 0..20_001 {
        let v = i as f64 / 20_000.0;
        assert_eq!(q(v), reference(v), "{v}");
    }
}

#[test]
fn centroid_cells() {
    assert_eq!(centroid_cell(0f32.to_bits()), 0);
    assert_eq!(centroid_cell(2.5f32.to_bits()), 3);
    assert_eq!(centroid_cell((-2.5f32).to_bits()), -3);
    assert_eq!(centroid_cell(9999.4f32.to_bits()), 9999);
    assert_eq!(centroid_cell(12345f32.to_bits()), 10000);
    assert_eq!(centroid_cell((-1e30f32).to_bits()), -10000);
    assert_eq!(centroid_cell(f32::NAN.to_bits()), 0);
    assert_eq!(centroid_cell(f32::INFINITY.to_bits()), 10000);
    assert_eq!(centroid_cell(0.49999997f32.to_bits()), 0);
    assert_eq!(centroid_cell(f32::MIN_POSITIVE.to_bits()), 0);
    let mut x = -10000.0f32;
    while x < 10000.0 {
        assert_eq!(centroid_cell(x.to_bits()), x.round() as i16, "{x}");
        x += 7.37;
    }
}

#[test]
fn greater_features_are_quantized_no_smaller() {
    let steps = [0.0, 1e-310, 4.9e-5, 5e-5, 1.5e-4, 0.1, 0.49995, 0.5, 0.99994, 0.99995, 1.0, 1.1, 1e300, f64::INFINITY];
    let mut last: i16 = 0;
    for x in steps {
        let r = quantize(x.to_bits());
        assert!(last <= r);
        assert_eq!(quantize((-x).to_bits()), -r);
        last = r;
    }
    // next to each other
    for x in [4.9999999999999996e-5f64, 0.00015, 0.12345, 0.99995] {
        let bits = x.to_bits();
        for d in 0..200 {
            assert!(quantize(bits - 100 + d) <= quantize(bits - 99 + d));
        }
    }
}

#[test]
fn results_are_the_nearest() {
    for i in -400..=400 {
        let x = i as f64 / 399.99 * 0.9999;
        let p = x * 10000.0;
        assert!((quantize(x.to_bits()) as f64 - p).abs() <= 0.5, "{x}");
    }
    assert_eq!(quantize(1.0f64.to_bits()), 10000);
    assert_eq!(quantize((-1.0f64).to_bits()), -10000);
}
