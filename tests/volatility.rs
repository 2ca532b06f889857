use realized_volatility::field::Fe;
use realized_volatility::input::{InvalidLength, VolatilityCircuitInput};
use realized_volatility::volatility::VolatilityChip;

const PB: u32 = 48;

fn deq(chip: &VolatilityChip, v: &Fe) -> f64 {
    let d = chip.dequantization(v);
    let mag = d.int_part as f64 + d.frac_part as f64 / (1u128 << PB) as f64;
    if d.negative {
        -mag
    } else {
        mag
    }
}

#[test]
fn volatility_of_doubling_ticks() {
    let chip = VolatilityChip::new(PB).unwrap();
    let ticks: Vec<Fe> = [1i128, 2, 4, 8].iter().map(|t| chip.quantization(*t, 0)).collect();
    let v = chip.volatility(&ticks);
    let expected = (21.0 - 49.0 / 4.0) / 3.0;
    assert!((deq(&chip, &v) - expected).abs() < 1e-9);
}

#[test]
fn volatility_of_short_sequences_is_zero() {
    let chip = VolatilityChip::new(PB).unwrap();
    assert_eq!(chip.volatility(&vec![]), Fe::zero());
    assert_eq!(chip.volatility(&vec![chip.quantization(5, 0)]), Fe::zero());
}

#[test]
fn volatility_with_negative_differences() {
    let chip = VolatilityChip::new(PB).unwrap();
    let xs = [3.0f64, 1.5, 2.0, -1.0, 0.5];
    let ticks: Vec<Fe> = xs.iter().map(|t| chip.quantization((t * 10.0) as i128, 1)).collect();
    let n = xs.len() as f64;
    let deltas: Vec<f64> = xs.windows(2).map(|w| w[1] - w[0]).collect();
    let sum_sq: f64 = deltas.iter().map(|d| d * d).sum();
    let total: f64 = deltas.iter().sum();
    let expected = (sum_sq - total * total / n) / (n - 1.0);
    assert!((deq(&chip, &chip.volatility(&ticks)) - expected).abs() < 1e-9);
}

#[test]
fn circuit_input_requires_exact_length() {
    let ok = VolatilityCircuitInput::<u64, 48, 3>::new(vec![1, 2, 3]).unwrap();
    assert_eq!(ok.flatten_vec(), vec![1, 2, 3]);
    assert_eq!(ok.into_inner(), vec![1, 2, 3]);
    let err = VolatilityCircuitInput::<u64, 48, 3>::new(vec![1, 2]).err();
    assert_eq!(err, Some(InvalidLength { got: 2, expected: 3 }));
    let err = VolatilityCircuitInput::<u64, 48, 3>::unflatten(vec![1, 2, 3, 4]).err();
    assert_eq!(err, Some(InvalidLength { got: 4, expected: 3 }));
}
