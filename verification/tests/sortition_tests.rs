use task_voting::fraction::{Fraction, BILL_ACCURACY, QUINTILL_ACCURACY};
use task_voting::sortition::{is_selected, le_bytes_to_u128, threshold_from_level};

/// Quantizes a float in [0, 1] into the given accuracy class.
fn from_float(r: f64, accuracy: u64) -> Fraction {
    let numerator = (r * accuracy as f64) as u64;
    Fraction::from_parts(numerator.min(accuracy), accuracy)
}

/// The represented ratio as a float; error is bounded by 1 / accuracy.
fn to_float(f: Fraction) -> f64 {
    f.numerator() as f64 / f.accuracy() as f64
}

/// The sortition probability model: 1 - (1 - sample)^weight, requantized
/// through the high-precision class exactly as the host-side model does.
fn model(sample: Fraction, weight: Fraction) -> f64 {
    let complement = 1f64 - to_float(sample);
    let f = complement.powf(to_float(weight));
    to_float(from_float(1f64 - f, QUINTILL_ACCURACY))
}

fn threshold(sample_size: Fraction, stake: u128, total_stake: u128) -> u128 {
    let ratio = Fraction::from_rational(stake, total_stake, QUINTILL_ACCURACY);
    let level = model(sample_size, ratio);
    threshold_from_level(level.to_bits())
}

#[test]
fn threshold_works() {
    let x = threshold(from_float(0.5, QUINTILL_ACCURACY), 1, 1);
    let y = u128::MAX / 2;
    assert_eq!(x, y)
}

#[test]
fn sane_to_float() {
    // deterministic pseudo-random floats in [0, 1)
    let mut state: u64 = 0x853c49e6748fea9b;
    for _ in 0..1000 {
        state = state.wrapping_mul(6364136223846793005).wrapping_add(1442695040888963407);
        let r: f64 = (state >> 11) as f64 / (1u64 << 53) as f64;

        let x = to_float(from_float(r, QUINTILL_ACCURACY));
        assert!(r - x < f64::EPSILON, "{r} - {x} < ε");

        let x = to_float(from_float(r, BILL_ACCURACY));
        assert!(r - x < f32::EPSILON.into(), "{r} - {x} < ε");
    }
}

#[test]
fn model_monotone_in_stake() {
    // For a fixed sample, more relative stake gives a strictly higher
    // selection level, and so a strictly higher threshold.
    let sample = from_float(0.5, QUINTILL_ACCURACY);
    let mut last_level = model(sample, Fraction::from_rational(0, 10, QUINTILL_ACCURACY));
    let mut last_threshold = threshold(sample, 0, 10);
    assert_eq!(last_level, 0.0);
    assert_eq!(last_threshold, 0);
    for stake in 1..=10u128 {
        let level = model(sample, Fraction::from_rational(stake, 10, QUINTILL_ACCURACY));
        let t = threshold(sample, stake, 10);
        assert!(level > last_level, "{level} > {last_level}");
        assert!(t > last_threshold, "{t} > {last_threshold}");
        last_level = level;
        last_threshold = t;
    }
}

#[test]
fn threshold_of_exact_levels() {
    // 0 selects nobody; 3/4 derives (u128::MAX / 4) * 3 exactly.
    assert_eq!(threshold_from_level(0f64.to_bits()), 0);
    assert_eq!(threshold_from_level(0.5f64.to_bits()), u128::MAX / 2);
    assert_eq!(threshold_from_level(0.75f64.to_bits()), (u128::MAX / 4) * 3);
    // a subnormal level is far below one part in 2^128 of the space
    assert_eq!(threshold_from_level(f64::MIN_POSITIVE.to_bits() >> 1), 0);
}

#[test]
fn from_rational_is_exact() {
    let f = Fraction::from_rational(1, 3, BILL_ACCURACY);
    assert_eq!(f.numerator(), 333_333_333);
    assert_eq!(f.accuracy(), BILL_ACCURACY);
    // a ratio of one or more, or a zero denominator, saturates at one
    assert_eq!(Fraction::from_rational(1, 1, QUINTILL_ACCURACY).numerator(), QUINTILL_ACCURACY);
    assert_eq!(Fraction::from_rational(5, 2, QUINTILL_ACCURACY).numerator(), QUINTILL_ACCURACY);
    assert_eq!(Fraction::from_rational(1, 0, QUINTILL_ACCURACY).numerator(), QUINTILL_ACCURACY);
    // huge operands lose nothing
    let g = Fraction::from_rational(u128::MAX / 3, u128::MAX, QUINTILL_ACCURACY);
    assert_eq!(g.numerator(), 333_333_333_333_333_333);
}

#[test]
fn le_bytes_match_the_standard_reading() {
    let mut b = [0u8; 16];
    b[0] = 0xEF;
    b[1] = 0xBE;
    b[15] = 0x01;
    assert_eq!(le_bytes_to_u128(&b), u128::from_le_bytes(b));
    assert_eq!(le_bytes_to_u128(&b), 0xBEEF + (1u128 << 120));
}

#[test]
fn is_selected_compares_against_threshold() {
    let mut b = [0u8; 16];
    b[0] = 1;
    assert!(is_selected(&b, 2));
    assert!(!is_selected(&b, 1));
    assert!(!is_selected(&b, 0));
    let mut c = [0u8; 16];
    c[15] = 1;
    assert!(is_selected(&c, (1u128 << 120) + 1));
    assert!(!is_selected(&c, 1u128 << 120));
}

#[test]
fn is_selected_deterministic() {
    // same sample bytes and threshold always give the same decision
    let b = [0xA5u8; 16];
    let first = is_selected(&b, u128::MAX / 3);
    for _ in 0..10 {
        assert_eq!(is_selected(&b, u128::MAX / 3), first);
    }
}
