use realized_volatility::ticks::{calculate_public_data, tick_volatility, tick_volatility2, to_bytes, to_fixed, Fixed};

const ONE: i64 = 1 << 40;

#[test]
fn test_bytes_conversion() {
    let bytes = [255, 255, 255, 255, 255, 204, 133, 221];
    let fixed = to_fixed(bytes);
    let bytes2 = to_bytes(fixed);
    let fixed2 = to_fixed(bytes2);
    assert_eq!(bytes, bytes2);
    assert_eq!(fixed, fixed2);
}

#[test]
fn bytes_are_big_endian_twos_complement() {
    assert_eq!(to_fixed([0, 0, 1, 0, 0, 0, 0, 0]), Fixed { bits: ONE });
    assert_eq!(to_fixed([255; 8]), Fixed { bits: -1 });
    assert_eq!(to_bytes(Fixed { bits: -ONE }), [255, 255, 255, 0, 0, 0, 0, 0]);
    assert_eq!(to_bytes(Fixed { bits: i64::MIN }), [128, 0, 0, 0, 0, 0, 0, 0]);
}

#[test]
fn tick_volatility_of_doubling_ticks() {
    let ticks: Vec<Fixed> = [1i64, 2, 4, 8].iter().map(|t| Fixed { bits: t * ONE }).collect();
    // n_inv_sqrt = 1/2 and n1_inv = 1/3, rounded down to the representation
    let n_inv_sqrt = Fixed { bits: ONE / 2 };
    let n1_inv = Fixed { bits: ONE / 3 };
    let s2 = tick_volatility(&ticks, n_inv_sqrt, n1_inv).unwrap();
    let expected = (21.0 - 49.0 / 4.0) / 3.0;
    assert!((s2.bits as f64 / ONE as f64 - expected).abs() < 1e-9);
}

#[test]
fn tick_volatility_overflow_is_none() {
    let ticks = vec![Fixed { bits: i64::MIN }, Fixed { bits: i64::MAX }];
    assert_eq!(tick_volatility(&ticks, Fixed { bits: ONE }, Fixed { bits: ONE }), None);
}

#[test]
fn public_data_of_doubling_ticks() {
    let ticks: Vec<[u8; 8]> = [1i64, 2, 4, 8].iter().map(|t| t.to_be_bytes()).collect();
    let d = calculate_public_data(&ticks).unwrap();
    assert_eq!(d.n_inv_sqrt, Fixed { bits: ONE / 2 });
    assert_eq!(d.n1_inv, Fixed { bits: ONE / 3 });
    let s2 = d.s2.bits as f64 / ONE as f64;
    assert!((s2 - (21.0 - 49.0 / 4.0) / 3.0).abs() < 1e-9);
}

#[test]
fn public_data_needs_two_ticks_in_range() {
    assert_eq!(calculate_public_data(&[]), None);
    assert_eq!(calculate_public_data(&[5i64.to_be_bytes()]), None);
    // a tick of 2^23 does not fit in 24 integer bits
    assert_eq!(calculate_public_data(&[1i64.to_be_bytes(), (1i64 << 23).to_be_bytes()]), None);
}

#[test]
fn guest_computation_commits_volatility_count_and_digest() {
    let ticks: Vec<[u8; 8]> = [1i64, 2, 4, 8].iter().map(|t| t.to_be_bytes()).collect();
    let n_inv_sqrt = to_bytes(Fixed { bits: ONE / 2 });
    let n1_inv = to_bytes(Fixed { bits: ONE / 3 });
    let (s2, n, digest) = tick_volatility2(&ticks, n_inv_sqrt, n1_inv).unwrap();
    let expected = calculate_public_data(&ticks).unwrap().s2;
    assert_eq!(to_fixed(s2), expected);
    assert_eq!(to_fixed(n), Fixed { bits: 4 * ONE });
    assert_eq!(
        digest,
        [
            103, 62, 253, 4, 190, 121, 31, 178, 7, 1, 79, 241, 31, 213, 65, 249, 32, 154, 27, 112,
            41, 210, 85, 208, 244, 141, 121, 235, 43, 20, 111, 6
        ]
    );
    assert_eq!(tick_volatility2(&[], n_inv_sqrt, n1_inv), None);
}
