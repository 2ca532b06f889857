//! The constants of a fixed-point encoding, and the conversion between
//! exact decimal numbers and their field encodings.
use vstd::prelude::*;
use vstd::arithmetic::power::pow;
use vstd::arithmetic::power2::pow2;
use crate::bignum::BigNat;
use crate::error::FixedPointError;
use crate::field::{fmod, modulus, modulus_nat, two_pow_128, Fe, ScalarFieldExt};

verus! {

/// The bit width of the field: the power-of-two table has this many entries.
pub const FIELD_BITS: usize = 254;

pub open spec fn valid_precision(pb: nat) -> bool {
    32 <= pb <= 63
}

/// `2^(2·pb+1)`: the encodings above `modulus − negative_span` are negative.
pub open spec fn negative_span(pb: nat) -> nat {
    pow2(2 * pb + 1)
}

/// The largest encoding read as non-negative.
pub open spec fn negative_point(pb: nat) -> nat {
    (modulus() - negative_span(pb)) as nat
}

/// `a / b` rounded to the nearest integer, halves away from zero.
pub open spec fn round_ratio(a: nat, b: nat) -> nat
    recommends
        b > 0,
{
    (2 * a + b) / (2 * b)
}

/// The magnitude `round(|m| / 10^e · 2^pb)` of the quantized decimal `m · 10^-e`.
pub open spec fn quantized_magnitude(m: int, e: nat, pb: nat) -> nat {
    round_ratio((if m < 0 { -m } else { m }) as nat * pow2(pb), pow(10, e) as nat)
}

/// The field encoding of the decimal `m · 10^-e`: its rounded scaled
/// magnitude, negated in the field when the number is negative.
pub open spec fn quantized(m: int, e: nat, pb: nat) -> nat {
    let q = quantized_magnitude(m, e, pb);
    if m < 0 {
        fmod(-(q as int))
    } else {
        q
    }
}

/// The encoding of the non-negative ratio `num / den`.
pub open spec fn quantized_ratio(num: nat, den: nat, pb: nat) -> nat {
    round_ratio(num * pow2(pb), den)
}

/// The scaled magnitude of the dyadic number `m · 2^e`, rounded to the
/// nearest integer (halves away from zero) and capped at `u128::MAX`.
pub open spec fn dyadic_magnitude(m: int, e: int, pb: nat) -> nat {
    let am = (if m < 0 { -m } else { m }) as nat;
    let sh = e + pb;
    let q = if sh >= 0 {
        am * pow2(sh as nat)
    } else {
        round_ratio(am, pow2((-sh) as nat))
    };
    if q > u128::MAX {
        u128::MAX as nat
    } else {
        q
    }
}

/// The field encoding of `m · 2^e`.
pub open spec fn quantized_dyadic(m: int, e: int, pb: nat) -> nat {
    let q = dyadic_magnitude(m, e, pb);
    if m < 0 {
        fmod(-(q as int))
    } else {
        q
    }
}

/// Whether the decoder reads an encoding as negative.
pub open spec fn reads_negative(v: nat, pb: nat) -> bool {
    v > negative_point(pb)
}

/// The magnitude that the decoder reads from an encoding.
pub open spec fn read_magnitude(v: nat, pb: nat) -> nat {
    if reads_negative(v, pb) {
        (modulus() - v) as nat
    } else {
        v
    }
}

pub proof fn lemma_pow2_facts()
    ensures
        pow2(64) == 0x1_0000_0000_0000_0000,
        pow2(128) == two_pow_128(),
        pow2(253) < modulus(),
        pow2(253) + two_pow_128() < modulus(),
        modulus() < pow2(254),
{
    vstd::arithmetic::power2::lemma2_to64();
    vstd::arithmetic::power2::lemma2_to64_rest();
    vstd::arithmetic::power2::lemma_pow2_adds(64, 64);
    vstd::arithmetic::power2::lemma_pow2_adds(128, 64);
    vstd::arithmetic::power2::lemma_pow2_adds(192, 61);
    vstd::arithmetic::power2::lemma_pow2_adds(192, 62);
    assert(pow2(61) == 0x2000000000000000);
    assert(pow2(62) == 0x4000000000000000);
}

/// The constants of one fixed-point encoding: `precision_bits` fractional
/// bits over the BN254 scalar field.
pub struct FixedPointConstants {
    pub precision_bits: u32,
    /// `2^precision_bits`.
    pub quantization_scale: Fe,
    /// `modulus − 1`.
    pub bn254_max: Fe,
    /// Encodings above this are negative.
    pub negative_point: Fe,
    /// `2^(2·precision_bits)`: the bound on valid magnitudes.
    pub max_value: BigNat,
    /// `2^i` for each bit position `i` of the field.
    pub pow_of_two: Vec<Fe>,
}

/// A decoded fixed-point value: its sign and the integer and fractional parts
/// of the low 128 bits of its scaled magnitude.
#[derive(Debug, Clone, Copy, PartialEq, Eq, Structural)]
pub struct Dequantized {
    pub negative: bool,
    pub int_part: u128,
    /// Fractional part, in units of `2^-precision_bits`.
    pub frac_part: u128,
}

impl FixedPointConstants {
    pub open spec fn pb(&self) -> nat {
        self.precision_bits as nat
    }

    pub open spec fn wf(&self) -> bool {
        &&& valid_precision(self.pb())
        &&& self.quantization_scale.wf()
        &&& self.quantization_scale@ == pow2(self.pb())
        &&& self.bn254_max@ == modulus() - 1
        &&& self.negative_point@ == negative_point(self.pb())
        &&& self.max_value@ == pow2(2 * self.pb())
        &&& self.pow_of_two@.len() == FIELD_BITS
        &&& forall|i: int| 0 <= i < FIELD_BITS ==> (#[trigger] self.pow_of_two@[i]).wf()
            && self.pow_of_two@[i]@ == pow2(i as nat)
    }

    /// The constants for `precision_bits` fractional bits; only 32 to 63 bits
    /// are supported.
    pub fn new(precision_bits: u32) -> (r: Result<FixedPointConstants, FixedPointError>)
        ensures
            valid_precision(precision_bits as nat) <==> r.is_ok(),
            r.is_ok() ==> r.unwrap().wf() && r.unwrap().precision_bits == precision_bits,
            r.is_err() ==> r == Err::<FixedPointConstants, FixedPointError>(FixedPointError::PrecisionOutOfRange),
    {
        if precision_bits > 63 || precision_bits < 32 {
            return Err(FixedPointError::PrecisionOutOfRange);
        }
        proof {
            lemma_pow2_facts();
            vstd::arithmetic::power2::lemma_pow2_strictly_increases(precision_bits as nat, 253);
            vstd::arithmetic::power2::lemma_pow2_strictly_increases(2 * precision_bits as nat + 1, 253);
        }
        let p = modulus_nat();
        let quantization_scale = Fe { n: BigNat::pow2(precision_bits) };
        let bn254_max = Fe { n: p.minus(&BigNat::from_u128(1)) };
        let negative_point = Fe { n: p.minus(&BigNat::pow2(2 * precision_bits + 1)) };
        let max_value = BigNat::pow2(2 * precision_bits);
        let mut pow_of_two: Vec<Fe> = Vec::new();
        let two = BigNat::from_u128(2);
        let mut cur = BigNat::from_u128(1);
        let mut i: usize = 0;
        proof {
            vstd::arithmetic::power2::lemma2_to64();
        }
        while i < FIELD_BITS
            invariant
                0 <= i <= FIELD_BITS,
                two@ == 2,
                cur@ == pow2(i as nat),
                pow2(253) < modulus(),
                pow_of_two@.len() == i,
                forall|j: int| 0 <= j < i ==> (#[trigger] pow_of_two@[j]).wf()
                    && pow_of_two@[j]@ == pow2(j as nat),
            decreases FIELD_BITS - i,
        {
            proof {
                if i < 253 {
                    vstd::arithmetic::power2::lemma_pow2_strictly_increases(i as nat, 253);
                }
                vstd::arithmetic::power2::lemma_pow2_unfold((i + 1) as nat);
            }
            let next = cur.times(&two);
            pow_of_two.push(Fe { n: cur });
            cur = next;
            i = i + 1;
        }
        Ok(FixedPointConstants {
            precision_bits,
            quantization_scale,
            bn254_max,
            negative_point,
            max_value,
            pow_of_two,
        })
    }

    /// Encodes the decimal `mantissa · 10^-exp10`: rounds its magnitude
    /// times the scale to the nearest integer, halves away from zero, and
    /// negates that in the field when the number is negative.
    pub fn quantization(&self, mantissa: i128, exp10: u32) -> (r: Fe)
        requires
            self.wf(),
        ensures
            r.wf(),
            r@ == quantized(mantissa as int, exp10 as nat, self.pb()),
    {
        let mag: u128 = if mantissa < 0 {
            (-(mantissa + 1)) as u128 + 1
        } else {
            mantissa as u128
        };
        let ten_e = BigNat::from_u128(10).pow(exp10);
        proof {
            vstd::arithmetic::power::lemma_pow_positive(10, exp10 as nat);
        }
        let num = BigNat::from_u128(mag).times(&self.quantization_scale.n);
        let two = BigNat::from_u128(2);
        let twice = two.times(&num).plus(&ten_e);
        let den = two.times(&ten_e);
        let (q, _) = twice.div_mod_floor(&den);
        proof {
            lemma_pow2_facts();
            vstd::arithmetic::power2::lemma_pow2_strictly_increases(self.pb(), 64);
            let m = mag as nat;
            let s = pow2(self.pb());
            let b = ten_e@;
            assert(m <= 0x1_0000_0000_0000_0000 * 0x1_0000_0000_0000_0000);
            assert(m * s <= m * 0x1_0000_0000_0000_0000) by (nonlinear_arith)
                requires s < 0x1_0000_0000_0000_0000;
            let t = 2 * (m * s) + b;
            assert(twice@ == t);
            assert(den@ == 2 * b);
            vstd::arithmetic::div_mod::lemma_fundamental_div_mod(t as int, 2 * b as int);
            vstd::arithmetic::div_mod::lemma_mod_bound(t as int, 2 * b as int);
            assert(q@ <= m * s + 1) by (nonlinear_arith)
                requires t == (2 * b) * q@ + t % (2 * b), t % (2 * b) >= 0, t == 2 * (m * s) + b, b >= 1;
            assert(m * s + 1 < modulus());
            assert(q@ == round_ratio(m * s, b));
        }
        let mut r = Fe { n: q };
        if mantissa < 0 {
            r = r.neg();
        }
        r
    }

    /// Encodes the dyadic number `mantissa · 2^exp2`, which is how a binary
    /// floating-point value is written: its magnitude times the scale is
    /// rounded to the nearest integer, halves away from zero, and capped at
    /// `u128::MAX`; negative numbers are negated in the field.
    pub fn quantization_dyadic(&self, mantissa: i64, exp2: i32) -> (r: Fe)
        requires
            self.wf(),
        ensures
            r.wf(),
            r@ == quantized_dyadic(mantissa as int, exp2 as int, self.pb()),
    {
        let am: u128 = if mantissa < 0 {
            (-(mantissa as i128)) as u128
        } else {
            mantissa as u128
        };
        let sh: i64 = exp2 as i64 + self.precision_bits as i64;
        let cap = BigNat::from_u128(u128::MAX);
        proof {
            lemma_pow2_facts();
        }
        let q = if am == 0 {
            proof {
                if sh < 0 {
                    let d = pow2((-sh) as nat);
                    vstd::arithmetic::power2::lemma_pow2_pos((-sh) as nat);
                    vstd::arithmetic::div_mod::lemma_basic_div(d as int, 2 * d as int);
                }
                assert(0 * pow2(sh as nat) == 0);
            }
            BigNat::from_u128(0)
        } else if sh >= 128 {
            proof {
                if sh > 128 {
                    vstd::arithmetic::power2::lemma_pow2_strictly_increases(128, sh as nat);
                }
                if sh == 128 {
                    assert(pow2(sh as nat) == two_pow_128());
                }
                vstd::arithmetic::mul::lemma_mul_inequality(1, am as int, pow2(sh as nat) as int);
            }
            cap.clone()
        } else if sh <= -128 {
            proof {
                let d = pow2((-sh) as nat);
                if -sh > 128 {
                    vstd::arithmetic::power2::lemma_pow2_strictly_increases(128, (-sh) as nat);
                }
                assert(2 * am + d < 2 * d);
                vstd::arithmetic::div_mod::lemma_basic_div(2 * am + d as int, 2 * d as int);
            }
            BigNat::from_u128(0)
        } else if sh >= 0 {
            let v = BigNat::from_u128(am).times(&BigNat::pow2(sh as u32));
            if cap.lt(&v) {
                cap.clone()
            } else {
                v
            }
        } else {
            let d = BigNat::pow2((-sh) as u32);
            proof {
                vstd::arithmetic::power2::lemma_pow2_pos((-sh) as nat);
            }
            let two = BigNat::from_u128(2);
            let (v, _) = two.times(&BigNat::from_u128(am)).plus(&d).div_mod_floor(&two.times(&d));
            if cap.lt(&v) {
                cap.clone()
            } else {
                v
            }
        };
        proof {
            assert(q@ <= u128::MAX);
            assert(u128::MAX < modulus());
        }
        let r = Fe { n: q };
        if mantissa < 0 {
            r.neg()
        } else {
            r
        }
    }

    /// Encodes the non-negative ratio `num / den`, rounded to the nearest
    /// step of `2^-precision_bits`, halves up.
    pub fn quantize_ratio(&self, num: u64, den: u64) -> (r: Fe)
        requires
            self.wf(),
            den > 0,
        ensures
            r.wf(),
            r@ == quantized_ratio(num as nat, den as nat, self.pb()),
    {
        let b = BigNat::from_u128(den as u128);
        let num_scaled = BigNat::from_u128(num as u128).times(&self.quantization_scale.n);
        let two = BigNat::from_u128(2);
        let twice = two.times(&num_scaled).plus(&b);
        let d2 = two.times(&b);
        let (q, _) = twice.div_mod_floor(&d2);
        proof {
            lemma_pow2_facts();
            vstd::arithmetic::power2::lemma_pow2_strictly_increases(self.pb(), 64);
            let m = num as nat;
            let s = pow2(self.pb());
            let bb = den as nat;
            assert(m * s <= m * 0x1_0000_0000_0000_0000) by (nonlinear_arith)
                requires s < 0x1_0000_0000_0000_0000;
            assert(m * 0x1_0000_0000_0000_0000 <= 0x1_0000_0000_0000_0000 * 0x1_0000_0000_0000_0000) by (nonlinear_arith)
                requires m < 0x1_0000_0000_0000_0000;
            let t = 2 * (m * s) + bb;
            vstd::arithmetic::div_mod::lemma_fundamental_div_mod(t as int, 2 * bb as int);
            vstd::arithmetic::div_mod::lemma_mod_bound(t as int, 2 * bb as int);
            assert(q@ <= m * s + 1) by (nonlinear_arith)
                requires t == (2 * bb) * q@ + t % (2 * bb), t % (2 * bb) >= 0, t == 2 * (m * s) + bb, bb >= 1;
        }
        Fe { n: q }
    }

    pub open spec fn dequantization_spec(&self, v: nat) -> Dequantized {
        let low = read_magnitude(v, self.pb()) % two_pow_128();
        Dequantized {
            negative: reads_negative(v, self.pb()),
            int_part: (low / pow2(self.pb())) as u128,
            frac_part: (low % pow2(self.pb())) as u128,
        }
    }

    /// Decodes an encoding: the sign by the negative point, the magnitude as
    /// `modulus − v` for negative encodings, and its low 128 bits split by the
    /// scale into integer and fractional parts.
    pub fn dequantization(&self, value: &Fe) -> (r: Dequantized)
        requires
            self.wf(),
            value.wf(),
        ensures
            r == self.dequantization_spec(value@),
    {
        let negative = self.negative_point.n.lt(&value.n);
        let mag = if negative {
            Fe { n: modulus_nat().minus(&value.n) }
        } else {
            value.clone()
        };
        let x = mag.get_lower_128();
        let scale = self.quantization_scale.get_lower_128();
        proof {
            lemma_pow2_facts();
            vstd::arithmetic::power2::lemma_pow2_strictly_increases(self.pb(), 128);
            vstd::arithmetic::div_mod::lemma_small_mod(pow2(self.pb()), two_pow_128());
            vstd::arithmetic::power2::lemma_pow2_pos(self.pb());
        }
        Dequantized { negative, int_part: x / scale, frac_part: x % scale }
    }
}

} // verus!
