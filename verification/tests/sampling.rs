use noise_histogram::errors::NoiseError;
use noise_histogram::fixed::Fx;
use noise_histogram::fixed::SCALE;
use noise_histogram::sampler::build_buffer;
use noise_histogram::sampler::sample;

#[test]
fn zero_resolution_is_rejected() {
    let r = sample(0, Fx { m: 0 }, Fx { m: SCALE });
    assert_eq!(r, Err(NoiseError::InvalidParameter));
}

#[test]
fn zero_width_hits_the_center_exactly() {
    let center = Fx { m: 42 * SCALE };
    for _ in 0..10 {
        let v = sample(5, center, Fx { m: 0 }).unwrap();
        assert_eq!(v.m, center.m);
    }
}

#[test]
fn samples_stay_within_the_envelope() {
    // With resolution 2, center 0 and width 1 every sample lies in
    // [-1.0, 1.0]: the recentred sum of two unit draws, scaled by one.
    for _ in 0..1000 {
        let v = sample(2, Fx { m: 0 }, Fx { m: SCALE }).unwrap();
        assert!(-SCALE <= v.m && v.m <= SCALE);
    }
}

#[test]
fn empty_buffer_for_zero_count() {
    let buf = build_buffer(0, 4, Fx { m: 0 }, Fx { m: SCALE }).unwrap();
    assert!(buf.is_empty());
}

#[test]
fn empty_request_ignores_zero_resolution() {
    let buf = build_buffer(0, 0, Fx { m: 0 }, Fx { m: SCALE }).unwrap();
    assert!(buf.is_empty());
}

#[test]
fn zero_resolution_with_samples_requested_is_rejected() {
    let r = build_buffer(3, 0, Fx { m: 0 }, Fx { m: SCALE });
    assert_eq!(r, Err(NoiseError::InvalidParameter));
}

#[test]
fn buffer_has_the_requested_length() {
    let buf = build_buffer(25, 6, Fx { m: 2 * SCALE }, Fx { m: SCALE }).unwrap();
    assert_eq!(buf.len(), 25);
}

#[test]
fn empirical_mean_converges_to_the_center() {
    // The Irwin-Hall sum recentred at zero has mean zero, so the
    // buffer's mean approaches the requested center. With 20000 samples
    // of width 1 the standard error is far below the 0.3 tolerance.
    let center = Fx { m: 5 * SCALE };
    let width = Fx { m: SCALE };
    let buf = build_buffer(20000, 8, center, width).unwrap();
    let total: i128 = buf.iter().map(|v| v.m as i128).sum();
    let mean = total / (buf.len() as i128);
    let tolerance = (3 * SCALE / 10) as i128;
    assert!((mean - center.m as i128).abs() < tolerance);
}

#[test]
fn higher_resolution_keeps_the_mean_at_the_center() {
    let center = Fx { m: -2 * SCALE };
    let width = Fx { m: 2 * SCALE };
    let buf = build_buffer(20000, 64, center, width).unwrap();
    let total: i128 = buf.iter().map(|v| v.m as i128).sum();
    let mean = total / (buf.len() as i128);
    let tolerance = (5 * SCALE / 10) as i128;
    assert!((mean - center.m as i128).abs() < tolerance);
}
