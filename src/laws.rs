//! Properties that relate the encoding, the decoder and the gadgets.
//!
//! An integer `x` with `|x| < 2^(2·pb)` (a value inside the valid magnitude
//! bound, in units of `2^-pb`) is encoded as `fmod(x)`.
use vstd::prelude::*;
use vstd::arithmetic::power::pow;
use vstd::arithmetic::power2::pow2;
use crate::chip::{
    exp2_decimals, quantized_table, sds_negative, spec_abs, spec_horner_acc, spec_is_neg, spec_neg, spec_polynomial, spec_qdiv,
    spec_qmod, spec_qmul, spec_sign, spec_signed_div_scale, values, FixedPointChip,
};
use crate::constants::{
    dyadic_magnitude, lemma_pow2_facts, negative_point, quantized, quantized_dyadic,
    quantized_magnitude, read_magnitude,
    reads_negative, round_ratio, valid_precision, Dequantized, FixedPointConstants,
};
use crate::error::FixedPointError;
use crate::field::{fmod, modulus, two_pow_128};
use crate::transcendental::{msb, table_pow2};

verus! {

/// `x` lies inside the valid magnitude bound.
pub open spec fn in_range(x: int, pb: nat) -> bool {
    -pow2(2 * pb) < x < pow2(2 * pb)
}

/// A decoded value is below zero.
pub open spec fn below_zero(d: Dequantized) -> bool {
    d.negative && (d.int_part > 0 || d.frac_part > 0)
}

/// The decoded value in units of `2^-pb`.
pub open spec fn decoded_units(d: Dequantized, pb: nat) -> int {
    let m = d.int_part * pow2(pb) + d.frac_part;
    if d.negative {
        -m
    } else {
        m
    }
}

proof fn lemma_bounds(pb: nat)
    requires
        valid_precision(pb),
    ensures
        pow2(pb) > 0,
        pow2(2 * pb) * 2 == pow2(2 * pb + 1),
        pow2(2 * pb + 1) <= pow2(127),
        pow2(127) < pow2(128),
        pow2(128) == two_pow_128(),
        pow2(4 * pb) <= pow2(252),
        pow2(252) * 2 == pow2(253),
        pow2(253) < modulus(),
        pow2(2 * pb) * pow2(2 * pb) == pow2(4 * pb),
        pow2(pb) * pow2(pb) == pow2(2 * pb),
        0 < pow2(pb) < pow2(2 * pb),
{
    vstd::arithmetic::power2::lemma_pow2_pos(2 * pb);
    vstd::arithmetic::power2::lemma_pow2_strictly_increases(pb, 2 * pb);
    lemma_pow2_facts();
    vstd::arithmetic::power2::lemma_pow2_pos(pb);
    vstd::arithmetic::power2::lemma_pow2_unfold(2 * pb + 1);
    vstd::arithmetic::power2::lemma_pow2_unfold(253);
    vstd::arithmetic::power2::lemma_pow2_unfold(128);
    vstd::arithmetic::power2::lemma_pow2_adds(2 * pb, 2 * pb);
    vstd::arithmetic::power2::lemma_pow2_adds(pb, pb);
    if 2 * pb + 1 < 127 {
        vstd::arithmetic::power2::lemma_pow2_strictly_increases(2 * pb + 1, 127);
    }
    if 4 * pb < 252 {
        vstd::arithmetic::power2::lemma_pow2_strictly_increases(4 * pb, 252);
    }
}

/// A value inside the bound is read as negative exactly when it is below
/// zero, by the gadgets and by the decoder alike, and its absolute value and
/// decoded magnitude are `|x|`.
pub proof fn lemma_encoding_sign(x: int, pb: nat)
    requires
        valid_precision(pb),
        in_range(x, pb),
    ensures
        spec_is_neg(fmod(x), pb) == (x < 0),
        reads_negative(fmod(x), pb) == (x < 0),
        spec_abs(fmod(x), pb) == (if x < 0 { -x } else { x }),
        read_magnitude(fmod(x), pb) == (if x < 0 { -x } else { x }),
{
    lemma_bounds(pb);
    let p = modulus() as int;
    if x >= 0 {
        vstd::arithmetic::div_mod::lemma_small_mod(x as nat, modulus());
    } else {
        vstd::arithmetic::div_mod::lemma_fundamental_div_mod_converse(x, p, -1, p + x);
        vstd::arithmetic::div_mod::lemma_fundamental_div_mod_converse(-(p + x), p, -1, -x);
    }
}

/// The sign times the absolute value gives the element back.
pub proof fn lemma_sign_times_abs(a: nat, pb: nat)
    requires
        valid_precision(pb),
        a < modulus(),
    ensures
        fmod((spec_sign(a, pb) * spec_abs(a, pb)) as int) == a,
{
    lemma_bounds(pb);
    let p = modulus() as int;
    if spec_is_neg(a, pb) {
        vstd::arithmetic::div_mod::lemma_fundamental_div_mod_converse(-(a as int), p, -1, p - a);
        assert((p - 1) * (p - a) == (p - 1 - a) * p + a) by (nonlinear_arith);
        vstd::arithmetic::div_mod::lemma_fundamental_div_mod_converse((p - 1) * (p - a), p, p - 1 - a, a as int);
    } else {
        vstd::arithmetic::div_mod::lemma_small_mod(a, modulus());
    }
}

/// Every field element is read as negative by the gadgets exactly when its
/// decoded value is below zero.
pub proof fn lemma_is_neg_matches_decoder(c: FixedPointConstants, a: nat)
    requires
        c.wf(),
        a < modulus(),
    ensures
        spec_is_neg(a, c.pb()) == below_zero(c.dequantization_spec(a)),
{
    let pb = c.pb();
    lemma_bounds(pb);
    if a > negative_point(pb) {
        let m: int = modulus() - a;
        assert(0 < m < pow2(2 * pb + 1));
        vstd::arithmetic::div_mod::lemma_small_mod(m as nat, two_pow_128());
        vstd::arithmetic::div_mod::lemma_fundamental_div_mod(m, pow2(pb) as int);
        if m / (pow2(pb) as int) == 0 {
            assert((pow2(pb) as int) * 0 == 0);
            assert(m % (pow2(pb) as int) > 0);
        }
    }
}

/// Decoding the encoding of the decimal `mantissa · 10^-exp10` gives it
/// back to within half a step of the scale, provided its encoded magnitude
/// lies inside the valid bound.
pub proof fn lemma_round_trip(c: FixedPointConstants, mantissa: int, exp10: nat)
    requires
        c.wf(),
        quantized_magnitude(mantissa, exp10, c.pb()) < pow2(2 * c.pb()),
    ensures
        ({
            let b = pow(10, exp10);
            let err = decoded_units(c.dequantization_spec(quantized(mantissa, exp10, c.pb())), c.pb()) * b
                - mantissa * pow2(c.pb());
            2 * err <= b && -b <= 2 * err
        }),
{
    let pb = c.pb();
    lemma_bounds(pb);
    let q = quantized_magnitude(mantissa, exp10, pb);
    let x: int = if mantissa < 0 { -q } else { q as int };
    assert(quantized(mantissa, exp10, pb) == fmod(x)) by {
        if mantissa >= 0 {
            vstd::arithmetic::div_mod::lemma_small_mod(q, modulus());
        }
    }
    lemma_encoding_sign(x, pb);
    let m = if x < 0 { -x } else { x };
    vstd::arithmetic::div_mod::lemma_small_mod(m as nat, two_pow_128());
    vstd::arithmetic::div_mod::lemma_fundamental_div_mod(m, pow2(pb) as int);
    let d = c.dequantization_spec(fmod(x));
    assert(d.int_part * pow2(pb) + d.frac_part == m) by (nonlinear_arith)
        requires
            d.int_part == m / (pow2(pb) as int),
            d.frac_part == m % (pow2(pb) as int),
            m == pow2(pb) * (m / (pow2(pb) as int)) + m % (pow2(pb) as int);
    assert(decoded_units(d, pb) == x);
    let b = pow(10, exp10);
    vstd::arithmetic::power::lemma_pow_positive(10, exp10);
    let a: int = (if mantissa < 0 { -mantissa } else { mantissa }) * pow2(pb);
    let t = 2 * a + b;
    vstd::arithmetic::div_mod::lemma_fundamental_div_mod(t, 2 * b);
    vstd::arithmetic::div_mod::lemma_mod_bound(t, 2 * b);
    assert(q == t / (2 * b));
    assert(2 * (q * b - a) <= b && -b <= 2 * (q * b - a)) by (nonlinear_arith)
        requires
            t == (2 * b) * q + t % (2 * b),
            0 <= t % (2 * b) < 2 * b,
            t == 2 * a + b;
    if mantissa < 0 {
        assert(x * b - mantissa * pow2(pb) == -(q * b - a)) by (nonlinear_arith)
            requires
                x == -q,
                a == -mantissa * pow2(pb);
    } else {
        assert(x * b - mantissa * pow2(pb) == q * b - a) by (nonlinear_arith)
            requires
                x == q,
                a == mantissa * pow2(pb);
    }
}

/// Adding encodings encodes the sum.
pub proof fn lemma_qadd_exact(x: int, y: int)
    ensures
        fmod(fmod(x) + fmod(y) as int) == fmod(x + y),
{
    vstd::arithmetic::div_mod::lemma_add_mod_noop(x, y, modulus() as int);
}

/// Subtracting encodings encodes the difference.
pub proof fn lemma_qsub_exact(x: int, y: int)
    ensures
        fmod(fmod(x) - fmod(y)) == fmod(x - y),
{
    vstd::arithmetic::div_mod::lemma_sub_mod_noop(x, y, modulus() as int);
}

/// The fixed-point product of two values inside the bound encodes
/// `⌊x·y / 2^pb⌋`: it is off from the exact product by less than one step.
pub proof fn lemma_qmul_floor(x: int, y: int, pb: nat)
    requires
        valid_precision(pb),
        in_range(x, pb),
        in_range(y, pb),
    ensures
        spec_qmul(fmod(x), fmod(y), pb) == fmod(x * y / (pow2(pb) as int)),
{
    lemma_bounds(pb);
    let p = modulus() as int;
    let s = pow2(pb) as int;
    let b2 = pow2(2 * pb) as int;
    vstd::arithmetic::div_mod::lemma_mul_mod_noop_general(x, y, p);
    assert(fmod((fmod(x) * fmod(y)) as int) == fmod(x * y));
    let xy = x * y;
    let ax = if x < 0 { -x } else { x };
    let ay = if y < 0 { -y } else { y };
    vstd::arithmetic::mul::lemma_mul_inequality(ay, b2, ax);
    vstd::arithmetic::mul::lemma_mul_strict_inequality(ax, b2, b2);
    assert(ax * ay < b2 * b2) by (nonlinear_arith)
        requires ay * ax <= b2 * ax, ax * b2 < b2 * b2;
    assert(xy == ax * ay || xy == -(ax * ay)) by (nonlinear_arith)
        requires xy == x * y, ax == (if x < 0 { -x } else { x }), ay == (if y < 0 { -y } else { y });
    assert(-(b2 * b2) < xy < b2 * b2);
    if xy >= 0 {
        vstd::arithmetic::div_mod::lemma_small_mod(xy as nat, modulus());
        vstd::arithmetic::div_mod::lemma_div_is_ordered_by_denominator(xy, 1, s);
        vstd::arithmetic::div_mod::lemma_div_pos_is_pos(xy, s);
        vstd::arithmetic::div_mod::lemma_small_mod((xy / s) as nat, modulus());
    } else {
        vstd::arithmetic::div_mod::lemma_fundamental_div_mod_converse(xy, p, -1, p + xy);
        let big_x = -xy;
        let k = big_x / s;
        let r0 = big_x % s;
        vstd::arithmetic::div_mod::lemma_fundamental_div_mod(big_x, s);
        vstd::arithmetic::div_mod::lemma_mod_bound(big_x, s);
        let c = (big_x + s - 1) / s;
        if r0 == 0 {
            assert(big_x + s - 1 == k * s + (s - 1) && xy == (-k) * s + 0) by (nonlinear_arith)
                requires big_x == s * k + r0, r0 == 0, xy == -big_x;
            vstd::arithmetic::div_mod::lemma_fundamental_div_mod_converse(big_x + s - 1, s, k, s - 1);
            vstd::arithmetic::div_mod::lemma_fundamental_div_mod_converse(xy, s, -k, 0);
        } else {
            assert(big_x + s - 1 == (k + 1) * s + (r0 - 1) && xy == (-k - 1) * s + (s - r0)) by (nonlinear_arith)
                requires big_x == s * k + r0, xy == -big_x;
            vstd::arithmetic::div_mod::lemma_fundamental_div_mod_converse(big_x + s - 1, s, k + 1, r0 - 1);
            vstd::arithmetic::div_mod::lemma_fundamental_div_mod_converse(xy, s, -k - 1, s - r0);
        }
        assert(xy / s == -c);
        assert(c >= 1) by (nonlinear_arith)
            requires big_x == s * k + r0, big_x > 0, 0 <= r0 < s, c == (if r0 == 0 { k } else { k + 1 });
        assert(c <= big_x) by (nonlinear_arith)
            requires big_x == s * k + r0, big_x > 0, 0 <= r0 < s, s >= 1, c == (if r0 == 0 { k } else { k + 1 });
        vstd::arithmetic::div_mod::lemma_fundamental_div_mod_converse(-c, p, -1, p - c);
    }
}

/// The fixed-point quotient of two values inside the bound, the divisor not
/// zero, encodes `|x|·2^pb / |y|` rounded down, with the sign of `x/y`.
pub proof fn lemma_qdiv_truncates(x: int, y: int, pb: nat)
    requires
        valid_precision(pb),
        in_range(x, pb),
        in_range(y, pb),
        y != 0,
    ensures
        ({
            let ax = if x < 0 { -x } else { x };
            let ay = if y < 0 { -y } else { y };
            let q = ax * pow2(pb) / ay;
            spec_qdiv(fmod(x), fmod(y), pb) == Ok::<nat, FixedPointError>(
                if (x < 0) != (y < 0) { fmod(-q) } else { q as nat },
            )
        }),
{
    lemma_bounds(pb);
    lemma_encoding_sign(x, pb);
    lemma_encoding_sign(y, pb);
    let ax = if x < 0 { -x } else { x };
    let ay = if y < 0 { -y } else { y };
    let s = pow2(pb) as int;
    let b2 = pow2(2 * pb) as int;
    assert(0 <= ax * s < b2 * b2) by (nonlinear_arith)
        requires 0 <= ax < b2, 0 < s <= b2;
    vstd::arithmetic::div_mod::lemma_small_mod((ax * s) as nat, modulus());
    vstd::arithmetic::div_mod::lemma_div_pos_is_pos(ax * s, ay);
}

/// The remainder by a non-negative, non-zero modulus lies in `[0, b)`.
pub proof fn lemma_qmod_bound(a: nat, b: nat, pb: nat)
    requires
        valid_precision(pb),
        a < modulus(),
        b > 0,
        !spec_is_neg(b, pb),
    ensures
        spec_qmod(a, b, pb).is_ok(),
        spec_qmod(a, b, pb).unwrap() < b,
{
}

/// A negative modulus is refused.
pub proof fn lemma_qmod_negative_modulus(a: nat, b: nat, pb: nat)
    requires
        spec_is_neg(b, pb),
    ensures
        spec_qmod(a, b, pb) == Err::<nat, FixedPointError>(FixedPointError::NegativeModulus),
{
}

/// The signed division by the scale splits its input as the circuit's copy
/// constraint states: `scale·q + r ≡ a (mod p)` with `0 ≤ r < scale`.
pub proof fn lemma_signed_div_scale_splits(a: nat, pb: nat)
    requires
        valid_precision(pb),
        a < modulus(),
    ensures
        ({
            let (q, r) = spec_signed_div_scale(a, pb);
            r < pow2(pb) && fmod((pow2(pb) * q + r) as int) == a
        }),
{
    lemma_bounds(pb);
    let s = pow2(pb) as int;
    let p = modulus() as int;
    let (q, r) = spec_signed_div_scale(a, pb);
    if sds_negative(a) {
        let x = p - a;
        let c = (x + s - 1) / s;
        vstd::arithmetic::div_mod::lemma_fundamental_div_mod(x + s - 1, s);
        vstd::arithmetic::div_mod::lemma_mod_bound(x + s - 1, s);
        assert(c * s <= x + s - 1 < c * s + s) by (nonlinear_arith)
            requires
                x + s - 1 == s * c + (x + s - 1) % s,
                0 <= (x + s - 1) % s < s;
        assert(c <= x) by (nonlinear_arith)
            requires c * s <= x + s - 1, s >= 1, x >= 1;
        assert(s * c - x >= 0 && s * c - x < s) by (nonlinear_arith)
            requires c * s <= x + s - 1, x + s - 1 < c * s + s;
        assert(q == p - c && r == s * c - x);
        assert(s * (p - c) + (s * c - x) == (s - 1) * p + a) by (nonlinear_arith)
            requires x == p - a;
        vstd::arithmetic::div_mod::lemma_fundamental_div_mod_converse((s - 1) * p + a, p, s - 1, a as int);
    } else {
        vstd::arithmetic::div_mod::lemma_fundamental_div_mod(a as int, s);
        vstd::arithmetic::div_mod::lemma_mod_bound(a as int, s);
        vstd::arithmetic::div_mod::lemma_small_mod(a, modulus());
        assert(s * q + r == a);
    }
}

/// Negating twice gives the element back.
pub proof fn lemma_neg_neg(a: nat)
    requires
        a < modulus(),
    ensures
        spec_neg(spec_neg(a)) == a,
{
    let p = modulus() as int;
    if a == 0 {
        vstd::arithmetic::div_mod::lemma_small_mod(0, modulus());
    } else {
        vstd::arithmetic::div_mod::lemma_fundamental_div_mod_converse(-(a as int), p, -1, p - a);
        vstd::arithmetic::div_mod::lemma_fundamental_div_mod_converse(-(p - a), p, -1, a as int);
    }
}

/// Sine is odd: for a non-zero value inside the bound, the sine of its
/// negation is the negated sine.
pub proof fn lemma_qsin_odd(chip: FixedPointChip, x: int)
    requires
        chip.wf(),
        in_range(x, chip.pb()),
        x != 0,
    ensures
        chip.spec_qsin(fmod(-x)) == match chip.spec_qsin(fmod(x)) {
            Ok(s) => Ok(spec_neg(s)),
            Err(e) => Err::<nat, FixedPointError>(e),
        },
{
    let pb = chip.pb();
    lemma_encoding_sign(x, pb);
    lemma_encoding_sign(-x, pb);
    match spec_qmod(spec_abs(fmod(x), pb), chip.two_pi@, pb) {
        Ok(a_mod) => {
            let a_mpi = fmod(a_mod - chip.pi@);
            let sin_a_mod = spec_polynomial(a_mod, values(chip.sin_coef@), pb);
            let sin_a_mpi = spec_neg(spec_polynomial(a_mpi, values(chip.sin_coef@), pb));
            let sin_a_abs = if spec_is_neg(a_mpi, pb) {
                sin_a_mod
            } else {
                sin_a_mpi
            };
            assert(sin_a_abs < modulus());
            lemma_neg_neg(sin_a_abs);
        },
        Err(_) => {},
    }
}

/// Sine has period 2π on non-negative values inside the bound.
pub proof fn lemma_qsin_period(chip: FixedPointChip, x: int)
    requires
        chip.wf(),
        0 <= x,
        x + chip.two_pi@ < pow2(2 * chip.pb()),
    ensures
        chip.spec_qsin(fmod(x + chip.two_pi@)) == chip.spec_qsin(fmod(x)),
{
    let pb = chip.pb();
    let t = chip.two_pi@ as int;
    lemma_encoding_sign(x, pb);
    lemma_encoding_sign(x + t, pb);
    if t > 0 {
        vstd::arithmetic::div_mod::lemma_mod_add_multiples_vanish(x, t);
    }
}

/// At `0` each step of Horner's rule multiplies by zero.
proof fn lemma_horner_at_zero(c: Seq<nat>, k: nat, pb: nat)
    requires
        valid_precision(pb),
    ensures
        spec_horner_acc(0, c, k, pb) == 0,
    decreases k,
{
    lemma_bounds(pb);
    if k > 0 {
        lemma_horner_at_zero(c, (k - 1) as nat, pb);
        vstd::arithmetic::div_mod::lemma_small_mod(0, modulus());
        vstd::arithmetic::power2::lemma_pow2_pos(252);
        vstd::arithmetic::div_mod::lemma_div_basics(pow2(pb) as int);
    }
}

/// The base-2 exponential is exact at integers: `2^k` is encoded as
/// `2^(k + pb)`.
pub proof fn lemma_qexp2_integer(chip: FixedPointChip, k: nat)
    requires
        chip.wf(),
        k + chip.pb() <= 253,
    ensures
        chip.spec_qexp2(k * pow2(chip.pb())) == Ok::<nat, FixedPointError>(pow2(k + chip.pb())),
{
    let pb = chip.pb();
    let s = pow2(pb) as int;
    lemma_bounds(pb);
    lemma_pow2_facts();
    let a = k * s;
    vstd::arithmetic::power2::lemma2_to64();
    if pb > 32 {
        vstd::arithmetic::power2::lemma_pow2_strictly_increases(32, pb);
    }
    assert(a <= 253 * s) by (nonlinear_arith)
        requires k <= 253, s > 0, a == k * s;
    assert(253 * s < pow2(2 * pb)) by (nonlinear_arith)
        requires s * s == pow2(2 * pb), s >= 0x1_0000_0000;
    vstd::arithmetic::div_mod::lemma_small_mod(a as nat, modulus());
    vstd::arithmetic::div_mod::lemma_fundamental_div_mod_converse(a, s, k as int, 0);
    // the polynomial at zero is its constant coefficient, the encoding of 1
    let c = values(chip.exp2_coef@);
    assert(c.len() == 13);
    lemma_horner_at_zero(c, 12, pb);
    assert(exp2_decimals()[12] == (10i128, 1u32));
    assert(quantized_table(exp2_decimals(), pb)[12] == quantized(10, 1, pb));
    assert(c.last() == quantized(10, 1, pb));
    vstd::arithmetic::power::lemma_pow1(10);
    vstd::arithmetic::div_mod::lemma_fundamental_div_mod_converse(20 * s + 10, 20, s, 10);
    assert(pow(10, 1) == 10);
    assert(round_ratio((10 * s) as nat, 10) == s) by {
        assert(2 * (10 * s) + 10 == 20 * s + 10);
    }
    assert(quantized_magnitude(10, 1, pb) == round_ratio((10 * s) as nat, 10));
    assert(quantized(10, 1, pb) == s);
    vstd::arithmetic::div_mod::lemma_small_mod(s as nat, modulus());
    assert(spec_polynomial(0, c, pb) == s);
    // the product is a power of two below the negative point
    vstd::arithmetic::power2::lemma_pow2_adds(k, pb);
    if k + pb < 253 {
        vstd::arithmetic::power2::lemma_pow2_strictly_increases(k + pb, 253);
    }
    vstd::arithmetic::power2::lemma_pow2_pos(k + pb);
    vstd::arithmetic::div_mod::lemma_small_mod(pow2(k + pb), modulus());
    assert(table_pow2(k) == pow2(k));
}

/// A positive number has a most significant bit.
proof fn lemma_msb_exists(a: nat)
    requires
        a > 0,
    ensures
        pow2(msb(a)) <= a < pow2(msb(a) + 1),
    decreases a,
{
    vstd::arithmetic::power2::lemma2_to64();
    if a == 1 {
        assert(pow2(0) <= a < pow2(0 + 1));
    } else {
        let h = a / 2;
        lemma_msb_exists(h);
        let k = msb(h);
        vstd::arithmetic::power2::lemma_pow2_unfold(k + 1);
        vstd::arithmetic::power2::lemma_pow2_unfold(k + 2);
        assert(pow2(k + 1) <= a < pow2(k + 2));
        assert(pow2((k + 1) as nat) <= a < pow2((k + 1) as nat + 1));
    }
}

/// The most significant bit is the one exponent that brackets the number.
proof fn lemma_msb_unique(a: nat, k: nat)
    requires
        pow2(k) <= a < pow2(k + 1),
    ensures
        msb(a) == k,
{
    let m = msb(a);
    assert(pow2(m) <= a < pow2(m + 1));
    if m < k {
        if m + 1 < k {
            vstd::arithmetic::power2::lemma_pow2_strictly_increases(m + 1, k);
        }
    }
    if m > k {
        if m > k + 1 {
            vstd::arithmetic::power2::lemma_pow2_strictly_increases(k + 1, m);
        }
    }
}

/// Doubling a positive value adds one to its base-2 logarithm, that is the
/// scale to its encoding.
#[verifier::rlimit(80)]
pub proof fn lemma_qlog2_double(chip: FixedPointChip, a: nat)
    requires
        chip.wf(),
        0 < a,
        2 * a <= negative_point(chip.pb()),
    ensures
        chip.spec_qlog2(2 * a) == match chip.spec_qlog2(a) {
            Ok(l) => Ok(fmod(l + pow2(chip.pb()) as int)),
            Err(e) => Err::<nat, FixedPointError>(e),
        },
{
    let pb = chip.pb();
    let s = pow2(pb) as int;
    let p = modulus() as int;
    lemma_bounds(pb);
    lemma_msb_exists(a);
    let k = msb(a);
    vstd::arithmetic::power2::lemma_pow2_unfold(k + 1);
    vstd::arithmetic::power2::lemma_pow2_unfold(k + 2);
    lemma_msb_unique(2 * a, k + 1);
    let d: int = pb + 1 - k;
    let d2: int = pb + 1 - (k + 1);
    if d2 < 0 {
        let q = pow2((-d2 - 1) as nat) as int;
        vstd::arithmetic::power2::lemma_pow2_pos((-d2 - 1) as nat);
        vstd::arithmetic::power2::lemma_pow2_unfold((-d2) as nat);
        vstd::arithmetic::div_mod::lemma_div_denominator(2 * a as int, 2, q);
        vstd::arithmetic::div_mod::lemma_fundamental_div_mod_converse(2 * a as int, 2, a as int, 0);
        if d == 0 {
            vstd::arithmetic::power2::lemma2_to64();
            vstd::arithmetic::div_mod::lemma_div_basics(a as int);
            vstd::arithmetic::div_mod::lemma_small_mod(a, modulus());
        }
    } else {
        vstd::arithmetic::power2::lemma_pow2_unfold(d as nat);
        let q = pow2(d2 as nat) as int;
        assert(2 * a * q == a * pow2(d as nat)) by (nonlinear_arith)
            requires pow2(d as nat) == 2 * q;
    }
    match chip.spec_qlog2(a) {
        Ok(l) => {
            let y = spec_polynomial(
                if d < 0 { a / pow2((-d) as nat) } else { fmod((a * pow2(d as nat)) as int) },
                values(chip.log_coef@),
                pb,
            );
            assert(-d2 * s == -d * s + s) by (nonlinear_arith)
                requires d2 == d - 1;
            vstd::arithmetic::div_mod::lemma_add_mod_noop_right(y as int, -d2 * s, p);
            vstd::arithmetic::div_mod::lemma_add_mod_noop_right(y as int, -d * s, p);
            vstd::arithmetic::div_mod::lemma_add_mod_noop(y + (-d * s), s, p);
            vstd::arithmetic::div_mod::lemma_small_mod(s as nat, modulus());
            vstd::arithmetic::div_mod::lemma_mod_twice(y + (-d * s), p);
        },
        Err(_) => {},
    }
}

/// A value inside the bound decodes to itself.
proof fn lemma_decodes_to_itself(c: FixedPointConstants, x: int)
    requires
        c.wf(),
        in_range(x, c.pb()),
    ensures
        decoded_units(c.dequantization_spec(fmod(x)), c.pb()) == x,
{
    let pb = c.pb();
    lemma_bounds(pb);
    lemma_encoding_sign(x, pb);
    let m = if x < 0 { -x } else { x };
    vstd::arithmetic::div_mod::lemma_small_mod(m as nat, two_pow_128());
    vstd::arithmetic::div_mod::lemma_fundamental_div_mod(m, pow2(pb) as int);
    let d = c.dequantization_spec(fmod(x));
    assert(d.int_part * pow2(pb) + d.frac_part == m) by (nonlinear_arith)
        requires
            d.int_part == m / (pow2(pb) as int),
            d.frac_part == m % (pow2(pb) as int),
            m == pow2(pb) * (m / (pow2(pb) as int)) + m % (pow2(pb) as int);
}

/// Decoding the encoding of the dyadic number `mantissa · 2^exp2` (the form
/// of a binary floating-point value) gives it back exactly when it has at
/// most `pb` fractional bits, and otherwise to within half a step of the
/// scale; its encoded magnitude must lie inside the valid bound.
pub proof fn lemma_round_trip_dyadic(c: FixedPointConstants, mantissa: int, exp2: int)
    requires
        c.wf(),
        dyadic_magnitude(mantissa, exp2, c.pb()) < pow2(2 * c.pb()),
    ensures
        ({
            let pb = c.pb();
            let units = decoded_units(c.dequantization_spec(quantized_dyadic(mantissa, exp2, pb)), pb);
            let sh = exp2 + pb;
            if sh >= 0 {
                units == mantissa * pow2(sh as nat)
            } else {
                let b = pow2((-sh) as nat) as int;
                2 * (units * b - mantissa) <= b && -b <= 2 * (units * b - mantissa)
            }
        }),
{
    let pb = c.pb();
    lemma_bounds(pb);
    let q = dyadic_magnitude(mantissa, exp2, pb);
    let x: int = if mantissa < 0 { -q } else { q as int };
    assert(quantized_dyadic(mantissa, exp2, pb) == fmod(x)) by {
        if mantissa >= 0 {
            vstd::arithmetic::div_mod::lemma_small_mod(q, modulus());
        }
    }
    lemma_decodes_to_itself(c, x);
    let am: int = if mantissa < 0 { -mantissa } else { mantissa };
    let sh = exp2 + pb;
    assert(pow2(2 * pb) <= pow2(127));
    assert(q < u128::MAX);
    if sh >= 0 {
        assert(q == am * pow2(sh as nat));
        assert(x == mantissa * pow2(sh as nat)) by (nonlinear_arith)
            requires
                q == am * pow2(sh as nat),
                am == (if mantissa < 0 { -mantissa } else { mantissa }),
                x == (if mantissa < 0 { -q } else { q as int });
    } else {
        let b = pow2((-sh) as nat) as int;
        vstd::arithmetic::power2::lemma_pow2_pos((-sh) as nat);
        let t = 2 * am + b;
        vstd::arithmetic::div_mod::lemma_fundamental_div_mod(t, 2 * b);
        vstd::arithmetic::div_mod::lemma_mod_bound(t, 2 * b);
        assert(q == t / (2 * b));
        assert(2 * (q * b - am) <= b && -b <= 2 * (q * b - am)) by (nonlinear_arith)
            requires
                t == (2 * b) * q + t % (2 * b),
                0 <= t % (2 * b) < 2 * b,
                t == 2 * am + b;
        if mantissa < 0 {
            assert(x * b - mantissa == -(q * b - am)) by (nonlinear_arith)
                requires x == -q, am == -mantissa;
        } else {
            assert(x * b - mantissa == q * b - am) by (nonlinear_arith)
                requires x == q, am == mantissa;
        }
    }
}

/// The fixed-point product is off from the exact product by less than one
/// step of the scale: `0 ≤ x·y − u·2^pb < 2^pb` for its decoded value `u`.
pub proof fn lemma_qmul_error(c: FixedPointConstants, x: int, y: int)
    requires
        c.wf(),
        in_range(x, c.pb()),
        in_range(y, c.pb()),
        in_range(x * y / (pow2(c.pb()) as int), c.pb()),
    ensures
        ({
            let s = pow2(c.pb()) as int;
            let u = decoded_units(c.dequantization_spec(spec_qmul(fmod(x), fmod(y), c.pb())), c.pb());
            0 <= x * y - u * s < s
        }),
{
    let pb = c.pb();
    let s = pow2(pb) as int;
    lemma_bounds(pb);
    lemma_qmul_floor(x, y, pb);
    lemma_decodes_to_itself(c, x * y / s);
    vstd::arithmetic::div_mod::lemma_fundamental_div_mod(x * y, s);
    vstd::arithmetic::div_mod::lemma_mod_bound(x * y, s);
    assert(x * y - (x * y / s) * s == (x * y) % s) by (nonlinear_arith)
        requires x * y == s * (x * y / s) + (x * y) % s;
}

/// The fixed-point quotient has the sign of `x/y` and a magnitude `q` with
/// `0 ≤ |x|·2^pb − q·|y| < |y|`: it is off by less than one step.
pub proof fn lemma_qdiv_error(c: FixedPointConstants, x: int, y: int)
    requires
        c.wf(),
        in_range(x, c.pb()),
        in_range(y, c.pb()),
        y != 0,
        (if x < 0 { -x } else { x }) * pow2(c.pb()) / (if y < 0 { -y } else { y }) < pow2(2 * c.pb()),
    ensures
        ({
            let s = pow2(c.pb()) as int;
            let ax = if x < 0 { -x } else { x };
            let ay = if y < 0 { -y } else { y };
            let q = ax * s / ay;
            let r = spec_qdiv(fmod(x), fmod(y), c.pb());
            &&& r.is_ok()
            &&& decoded_units(c.dequantization_spec(r.unwrap()), c.pb()) == (if (x < 0) != (y < 0) { -q } else { q })
            &&& 0 <= ax * s - q * ay < ay
        }),
{
    let pb = c.pb();
    let s = pow2(pb) as int;
    lemma_bounds(pb);
    lemma_qdiv_truncates(x, y, pb);
    let ax = if x < 0 { -x } else { x };
    let ay = if y < 0 { -y } else { y };
    let q = ax * s / ay;
    vstd::arithmetic::div_mod::lemma_div_pos_is_pos(ax * s, ay);
    if (x < 0) != (y < 0) {
        lemma_decodes_to_itself(c, -q);
    } else {
        lemma_decodes_to_itself(c, q);
        vstd::arithmetic::div_mod::lemma_small_mod(q as nat, modulus());
    }
    vstd::arithmetic::div_mod::lemma_fundamental_div_mod(ax * s, ay);
    vstd::arithmetic::div_mod::lemma_mod_bound(ax * s, ay);
    assert(ax * s - q * ay == (ax * s) % ay) by (nonlinear_arith)
        requires ax * s == ay * q + (ax * s) % ay;
}

/// For a positive modulus inside the bound, `qmod` is the Euclidean
/// remainder.
pub proof fn lemma_qmod_euclidean(x: int, b: nat, pb: nat)
    requires
        valid_precision(pb),
        in_range(x, pb),
        0 < b < pow2(2 * pb),
    ensures
        spec_qmod(fmod(x), b, pb) == Ok::<nat, FixedPointError>((x % (b as int)) as nat),
{
    lemma_bounds(pb);
    lemma_encoding_sign(x, pb);
    lemma_encoding_sign(b as int, pb);
    vstd::arithmetic::div_mod::lemma_small_mod(b, modulus());
    if x < 0 {
        let k = (-x) / (b as int);
        let r0 = (-x) % (b as int);
        vstd::arithmetic::div_mod::lemma_fundamental_div_mod(-x, b as int);
        vstd::arithmetic::div_mod::lemma_mod_bound(-x, b as int);
        if r0 == 0 {
            assert(x == (-k) * b + 0) by (nonlinear_arith)
                requires -x == b * k + r0, r0 == 0;
            vstd::arithmetic::div_mod::lemma_fundamental_div_mod_converse(x, b as int, -k, 0);
        } else {
            assert(x == (-k - 1) * b + (b - r0)) by (nonlinear_arith)
                requires -x == b * k + r0;
            vstd::arithmetic::div_mod::lemma_fundamental_div_mod_converse(x, b as int, -k - 1, b - r0);
        }
    }
}

/// The encoding of a decimal is the encoding of its signed rounded
/// magnitude, which lies inside the bound and is off from the decimal by at
/// most half a step.
proof fn lemma_quantized_units(c: FixedPointConstants, m: int, e: nat) -> (x: int)
    requires
        c.wf(),
        quantized_magnitude(m, e, c.pb()) < pow2(2 * c.pb()),
    ensures
        in_range(x, c.pb()),
        (if x < 0 { -x } else { x }) == quantized_magnitude(m, e, c.pb()),
        quantized(m, e, c.pb()) == fmod(x),
        ({
            let b = pow(10, e);
            2 * (x * b - m * pow2(c.pb())) <= b && -b <= 2 * (x * b - m * pow2(c.pb()))
        }),
{
    let pb = c.pb();
    lemma_round_trip(c, m, e);
    let q = quantized_magnitude(m, e, pb);
    let x: int = if m < 0 { -q } else { q as int };
    lemma_bounds(pb);
    if m >= 0 {
        vstd::arithmetic::div_mod::lemma_small_mod(q, modulus());
    }
    lemma_decodes_to_itself(c, x);
    x
}

/// Adding the encodings of two decimals `m1·10^-e` and `m2·10^-e` decodes
/// to their sum within one step of the scale, when the sum of the rounded
/// values stays inside the bound.
pub proof fn lemma_qadd_error(c: FixedPointConstants, m1: int, m2: int, e: nat)
    requires
        c.wf(),
        quantized_magnitude(m1, e, c.pb()) + quantized_magnitude(m2, e, c.pb()) < pow2(2 * c.pb()),
    ensures
        ({
            let b = pow(10, e);
            let u = decoded_units(c.dequantization_spec(fmod(quantized(m1, e, c.pb()) + quantized(m2, e, c.pb()) as int)), c.pb());
            u * b - (m1 + m2) * pow2(c.pb()) <= b && -b <= u * b - (m1 + m2) * pow2(c.pb())
        }),
{
    let pb = c.pb();
    let x1 = lemma_quantized_units(c, m1, e);
    let x2 = lemma_quantized_units(c, m2, e);
    lemma_qadd_exact(x1, x2);
    lemma_decodes_to_itself(c, x1 + x2);
    let b = pow(10, e);
    assert((x1 + x2) * b - (m1 + m2) * pow2(pb) == (x1 * b - m1 * pow2(pb)) + (x2 * b - m2 * pow2(pb)))
        by (nonlinear_arith);
}

/// Subtracting the encodings of two decimals decodes to their difference
/// within one step of the scale, when the rounded values stay apart by less
/// than the bound.
pub proof fn lemma_qsub_error(c: FixedPointConstants, m1: int, m2: int, e: nat)
    requires
        c.wf(),
        quantized_magnitude(m1, e, c.pb()) + quantized_magnitude(m2, e, c.pb()) < pow2(2 * c.pb()),
    ensures
        ({
            let b = pow(10, e);
            let u = decoded_units(c.dequantization_spec(fmod(quantized(m1, e, c.pb()) - quantized(m2, e, c.pb()))), c.pb());
            u * b - (m1 - m2) * pow2(c.pb()) <= b && -b <= u * b - (m1 - m2) * pow2(c.pb())
        }),
{
    let pb = c.pb();
    let x1 = lemma_quantized_units(c, m1, e);
    let x2 = lemma_quantized_units(c, m2, e);
    lemma_qsub_exact(x1, x2);
    lemma_decodes_to_itself(c, x1 - x2);
    let b = pow(10, e);
    assert((x1 - x2) * b - (m1 - m2) * pow2(pb) == (x1 * b - m1 * pow2(pb)) - (x2 * b - m2 * pow2(pb)))
        by (nonlinear_arith);
}

} // verus!
