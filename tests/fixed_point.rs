use realized_volatility::chip::FixedPointChip;
use realized_volatility::constants::FixedPointConstants;
use realized_volatility::error::FixedPointError;
use realized_volatility::field::{Fe, ScalarFieldExt};

const PB: u32 = 48;

fn chip() -> FixedPointChip {
    FixedPointChip::new(PB).unwrap()
}

/// Encodes a float the way a caller outside the library would: its decimal
/// digits as mantissa and exponent.
fn q(chip: &FixedPointChip, x: f64) -> Fe {
    let m = (x * 1e9).round() as i128;
    chip.quantization(m, 9)
}

fn deq(chip: &FixedPointChip, v: &Fe) -> f64 {
    let d = chip.dequantization(v);
    let scale = (1u128 << PB) as f64;
    let mag = d.int_part as f64 + d.frac_part as f64 / scale;
    if d.negative {
        -mag
    } else {
        mag
    }
}

#[test]
fn quantize_one_and_a_half() {
    let c = chip();
    let v = c.quantization(15, 1);
    assert_eq!(v, Fe::from_u128(422212465065984));
    assert_eq!(v.get_lower_128(), 422212465065984);
    let d = c.dequantization(&v);
    assert!(!d.negative);
    assert_eq!(d.int_part, 1);
    assert_eq!(d.frac_part, 1u128 << 47);
    assert_eq!(deq(&c, &v), 1.5);
}

#[test]
fn quantize_rounds_half_away_from_zero() {
    let c = FixedPointConstants::new(32).unwrap();
    // 2^-33 is half a step at 32 bits: it rounds up to one step
    let half_step = c.quantization(116415321826934814453125, 33);
    assert_eq!(half_step, Fe::from_u128(1));
    let neg = c.quantization(-116415321826934814453125, 33);
    assert_eq!(neg, Fe::from_u128(1).neg());
}

#[test]
fn quantize_negative_and_round_trip() {
    let c = chip();
    for x in [-3.25f64, -0.001, 0.0, 0.5, 7.125, 123456.789] {
        let v = q(&c, x);
        assert!((deq(&c, &v) - x).abs() <= 1.0 / (1u64 << PB) as f64 + 1e-12 * x.abs());
    }
}

#[test]
fn precision_out_of_range_is_refused() {
    assert_eq!(FixedPointChip::new(31).err(), Some(FixedPointError::PrecisionOutOfRange));
    assert_eq!(FixedPointChip::new(64).err(), Some(FixedPointError::PrecisionOutOfRange));
    assert!(FixedPointChip::new(32).is_ok());
    assert!(FixedPointChip::new(63).is_ok());
}

#[test]
fn is_negative_boundary_of_decoder() {
    let c = chip();
    let np = c.constants.negative_point.clone();
    let d = c.dequantization(&np);
    assert!(!d.negative);
    let above = np.add(&Fe::one());
    let d = c.dequantization(&above);
    assert!(d.negative);
    // the gadgets classify by the same threshold
    assert_eq!(c.is_neg(&np), Fe::zero());
    assert_eq!(c.is_neg(&above), Fe::one());
    assert_eq!(c.sign(&np), Fe::one());
    assert_eq!(c.qabs(&np), np);
    let above_bound = Fe::from_u128(1u128 << (2 * PB + 1));
    assert_eq!(c.is_neg(&above_bound), Fe::zero());
}

#[test]
fn sign_times_abs_is_identity() {
    let c = chip();
    for x in [-5.5f64, -0.25, 0.0, 0.75, 1000.0] {
        let a = q(&c, x);
        let s = c.sign(&a);
        let abs = c.qabs(&a);
        assert_eq!(s.mul(&abs), a);
        let neg = c.is_neg(&a) == Fe::one();
        assert_eq!(neg, deq(&c, &a) < 0.0);
        assert!((deq(&c, &abs) - x.abs()).abs() < 1e-9);
    }
}

#[test]
fn arithmetic_matches_floats() {
    let c = chip();
    let pairs = [(1.5f64, 2.25f64), (-3.75, 1.125), (10.0, -0.3), (-2.5, -4.0), (0.001, 1234.5)];
    for (x, y) in pairs {
        let a = q(&c, x);
        let b = q(&c, y);
        let tol = 4.0 / (1u64 << PB) as f64 * (1.0 + x.abs() + y.abs());
        assert!((deq(&c, &c.qadd(&a, &b)) - (x + y)).abs() <= tol);
        assert!((deq(&c, &c.qsub(&a, &b)) - (x - y)).abs() <= tol);
        assert!((deq(&c, &c.qmul(&a, &b)) - x * y).abs() <= tol * (1.0 + x.abs() * y.abs()));
        assert!((deq(&c, &c.qdiv(&a, &b).unwrap()) - x / y).abs() <= 1e-9);
    }
}

#[test]
fn qmul_exact_values() {
    let c = chip();
    let a = c.quantization(15, 1);
    let b = c.quantization(-2, 0);
    assert_eq!(c.qmul(&a, &b), c.quantization(-3, 0));
    let (quot, rem) = c.signed_div_scale(&Fe::from_u128(3).neg());
    assert_eq!(quot, Fe::from_u128(1).neg());
    assert_eq!(rem, Fe::from_u128((1u128 << PB) - 3));
}

#[test]
fn qmod_values_and_guard() {
    let c = chip();
    let seven_half = c.quantization(75, 1);
    let two = c.quantization(2, 0);
    assert_eq!(c.qmod(&seven_half, &two).unwrap(), c.quantization(15, 1));
    let neg = c.quantization(-75, 1);
    assert_eq!(c.qmod(&neg, &two).unwrap(), c.quantization(5, 1));
    let neg_two = c.quantization(-2, 0);
    assert_eq!(c.qmod(&neg_two, &two).unwrap(), Fe::zero());
    assert_eq!(c.qmod(&c.quantization(-6, 0), &two).unwrap(), Fe::zero());
    assert_eq!(c.qmod(&seven_half, &neg_two).err(), Some(FixedPointError::NegativeModulus));
    assert_eq!(c.qmod(&seven_half, &Fe::zero()).err(), Some(FixedPointError::DivisionByZero));
    for x in [0.5f64, 3.0, 9.75, 100.125] {
        let r = c.qmod(&q(&c, x), &two).unwrap();
        assert!(deq(&c, &r) >= 0.0 && deq(&c, &r) < 2.0);
    }
}

#[test]
fn qdiv_by_zero_is_refused() {
    let c = chip();
    assert_eq!(c.qdiv(&c.quantization(1, 0), &Fe::zero()).err(), Some(FixedPointError::DivisionByZero));
}

#[test]
fn inner_product_and_length_mismatch() {
    let c = chip();
    let a = vec![c.quantization(1, 0), c.quantization(2, 0), c.quantization(-3, 0)];
    let b = vec![c.quantization(4, 0), c.quantization(5, 1), c.quantization(2, 0)];
    assert_eq!(c.inner_product(&a, &b).unwrap(), c.quantization(-1, 0));
    let short = vec![c.quantization(1, 0)];
    assert_eq!(c.inner_product(&a, &short).err(), Some(FixedPointError::LengthMismatch));
}

#[test]
fn polynomial_by_horner() {
    let c = chip();
    // 2x^2 - 3x + 1 at x = 1.5 is 1
    let coef = vec![c.quantization(2, 0), c.quantization(-3, 0), c.quantization(1, 0)];
    let x = c.quantization(15, 1);
    assert_eq!(c.polynomial(&x, &coef), c.quantization(1, 0));
}

#[test]
fn qsum_adds_all() {
    let c = chip();
    let a = vec![c.quantization(1, 0), c.quantization(-25, 1), c.quantization(4, 0)];
    assert_eq!(c.qsum(&a), c.quantization(25, 1));
    assert_eq!(c.qsum(&vec![]), Fe::zero());
}

#[test]
fn max_min_clip_xor() {
    let c = chip();
    let a = c.quantization(-1, 0);
    let b = c.quantization(2, 0);
    assert_eq!(c.qmax(&a, &b), b);
    assert_eq!(c.qmin(&a, &b), a);
    assert_eq!(c.clip(&a), a);
    let big = Fe::from_u128((1u128 << 96) + 5);
    assert_eq!(c.clip(&big), Fe::from_u128(5));
    assert_eq!(c.bit_xor(&Fe::one(), &Fe::zero()), Fe::one());
    assert_eq!(c.bit_xor(&Fe::one(), &Fe::one()), Fe::zero());
    assert_eq!(c.cond_neg(&b, &Fe::one()), c.quantization(-2, 0));
    assert_eq!(c.cond_neg(&b, &Fe::zero()), b);
}

#[test]
fn exp2_of_log2_is_close() {
    let c = chip();
    for x in [2.0f64, 3.0, 5.5, 10.0] {
        let l = c.qlog2(&q(&c, x)).unwrap();
        assert!((deq(&c, &l) - x.log2()).abs() < 1e-6);
        let e = c.qexp2(&l).unwrap();
        assert!((deq(&c, &e) - x).abs() < 1e-5 * x);
    }
    let e = c.qexp2(&q(&c, -1.0)).unwrap();
    assert!((deq(&c, &e) - 0.5).abs() < 1e-9);
}

#[test]
fn log_of_non_positive_is_refused() {
    let c = chip();
    assert_eq!(c.qlog2(&Fe::zero()).err(), Some(FixedPointError::NonPositiveLogarithm));
    assert_eq!(c.qlog2(&c.quantization(-1, 0)).err(), Some(FixedPointError::NonPositiveLogarithm));
}

#[test]
fn sin_squared_plus_cos_squared_is_one() {
    let c = chip();
    for x in [0.3f64, 1.0, 2.5, -1.2, 4.0] {
        let s = c.qsin(&q(&c, x)).unwrap();
        let co = c.qcos(&q(&c, x)).unwrap();
        assert!((deq(&c, &s) - x.sin()).abs() < 1e-6);
        let one = c.qadd(&c.qmul(&s, &s), &c.qmul(&co, &co));
        assert!((deq(&c, &one) - 1.0).abs() < 1e-6);
    }
}

#[test]
fn derived_functions_are_close() {
    let c = chip();
    let x = 0.7f64;
    let a = q(&c, x);
    assert!((deq(&c, &c.qtan(&a).unwrap()) - x.tan()).abs() < 1e-5);
    assert!((deq(&c, &c.qexp(&a).unwrap()) - x.exp()).abs() < 1e-5);
    assert!((deq(&c, &c.qsinh(&a).unwrap()) - x.sinh()).abs() < 1e-5);
    assert!((deq(&c, &c.qcosh(&a).unwrap()) - x.cosh()).abs() < 1e-5);
    assert!((deq(&c, &c.qtanh(&a).unwrap()) - x.tanh()).abs() < 1e-5);
    let y = q(&c, 6.25);
    assert!((deq(&c, &c.qlog(&y).unwrap()) - 6.25f64.ln()).abs() < 1e-5);
    assert!((deq(&c, &c.qsqrt(&y).unwrap()) - 2.5).abs() < 1e-5);
    assert!((deq(&c, &c.qpow(&y, &q(&c, 1.5)).unwrap()) - 15.625).abs() < 1e-4);
}

#[test]
fn check_power_of_two_accepts_only_exact_powers() {
    let c = chip();
    assert!(c.check_power_of_two(&Fe::from_u128(1 << 20), &Fe::from_u128(20)));
    assert!(!c.check_power_of_two(&Fe::from_u128(1 << 20), &Fe::from_u128(21)));
    assert!(!c.check_power_of_two(&Fe::from_u128(3), &Fe::from_u128(1)));
    assert!(!c.check_power_of_two(&Fe::from_u128(1 << 100), &Fe::from_u128(100)));
}

#[test]
fn dyadic_quantization_matches_binary_values() {
    let c = chip();
    // 3 · 2^-1 = 1.5
    assert_eq!(c.constants.quantization_dyadic(3, -1), Fe::from_u128(422212465065984));
    assert_eq!(c.constants.quantization_dyadic(-3, -1), c.quantization(-15, 1));
    // 1 · 2^-49 is half a step: rounds away from zero
    assert_eq!(c.constants.quantization_dyadic(1, -49), Fe::from_u128(1));
    assert_eq!(c.constants.quantization_dyadic(1, -50), Fe::zero());
    // far too large magnitudes are capped
    assert_eq!(c.constants.quantization_dyadic(1, 500), Fe::from_u128(u128::MAX));
    assert_eq!(c.constants.quantization_dyadic(0, 500), Fe::zero());
}

#[test]
fn quantize_ratio_rounds() {
    let c = chip();
    assert_eq!(c.constants.quantize_ratio(1, 4), Fe::from_u128(1 << 46));
    let third = c.constants.quantize_ratio(1, 3);
    assert_eq!(third, Fe::from_u128(((1u128 << 48) + 1) / 3));
}

#[test]
fn sine_is_odd_and_periodic() {
    let c = chip();
    let a = c.quantization(7, 1);
    let s = c.qsin(&a).unwrap();
    assert_eq!(c.qsin(&a.neg()).unwrap(), s.neg());
    let shifted = a.add(&c.two_pi);
    assert_eq!(c.qsin(&shifted).unwrap(), s);
}

#[test]
fn exp2_is_exact_at_integers_and_log2_doubles() {
    let c = chip();
    assert_eq!(c.qexp2(&c.quantization(5, 0)).unwrap(), c.quantization(32, 0));
    let a = c.quantization(3, 0);
    let l = c.qlog2(&a).unwrap();
    let l2 = c.qlog2(&c.quantization(6, 0)).unwrap();
    assert_eq!(l2, l.add(&c.quantization(1, 0)));
}
