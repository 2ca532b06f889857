//! Sample variance of first differences over encoded values, with the
//! squared differences accumulated in the field and rescaled once.
use vstd::prelude::*;
use vstd::arithmetic::power2::pow2;
use crate::constants::{lemma_pow2_facts, quantized_ratio, Dequantized, FixedPointConstants};
use crate::error::FixedPointError;
use crate::field::{fmod, Fe};
use crate::chip::{all_wf, values};

verus! {

/// The `i`-th first difference, `v[i] − v[i−1]` in the field.
pub open spec fn spec_delta(v: Seq<nat>, i: int) -> nat {
    fmod(v[i] - v[i - 1])
}

/// The field sum of the squared differences among the first `k` values.
pub open spec fn spec_delta_sq_sum(v: Seq<nat>, k: nat) -> nat
    decreases k,
{
    if k <= 1 {
        0
    } else {
        let j = (k - 1) as int;
        fmod(spec_delta_sq_sum(v, (k - 1) as nat) + fmod((spec_delta(v, j) * spec_delta(v, j)) as int) as int)
    }
}

/// The unsigned rescaled product `⌊(a·b mod p) / 2^pb⌋`.
pub open spec fn spec_unsigned_mul(a: nat, b: nat, pb: nat) -> nat {
    fmod(a * b as int) / pow2(pb)
}

/// The variance gadget's value: `(Σδ² − Δ²·(1/n))·(1/(n−1))`, with both
/// sums rescaled once and the reciprocals quantized; zero below two values.
pub open spec fn spec_volatility(v: Seq<nat>, pb: nat) -> nat {
    if v.len() < 2 {
        0
    } else {
        let n = v.len();
        let s = pow2(pb);
        let delta = fmod(v[n - 1] - v[0]);
        let delta_sum_sq = fmod(delta * delta as int) / s;
        let delta_sq_sum = spec_delta_sq_sum(v, n) / s;
        let n_inv = quantized_ratio(1, n, pb);
        let n1_inv = quantized_ratio(1, (n - 1) as nat, pb);
        let d = fmod(delta_sq_sum - spec_unsigned_mul(delta_sum_sq, n_inv, pb));
        spec_unsigned_mul(d, n1_inv, pb)
    }
}

/// The volatility gadget for one encoding.
pub struct VolatilityChip {
    pub constants: FixedPointConstants,
}

impl VolatilityChip {
    pub open spec fn pb(&self) -> nat {
        self.constants.pb()
    }

    pub open spec fn wf(&self) -> bool {
        self.constants.wf()
    }

    /// The gadget for `precision_bits` fractional bits, 32 to 63.
    pub fn new(precision_bits: u32) -> (r: Result<VolatilityChip, FixedPointError>)
        ensures
            crate::constants::valid_precision(precision_bits as nat) <==> r.is_ok(),
            r.is_ok() ==> r.unwrap().wf() && r.unwrap().constants.precision_bits == precision_bits,
            r.is_err() ==> r == Err::<VolatilityChip, FixedPointError>(FixedPointError::PrecisionOutOfRange),
    {
        match FixedPointConstants::new(precision_bits) {
            Ok(constants) => Ok(VolatilityChip { constants }),
            Err(e) => Err(e),
        }
    }

    pub fn dequantization(&self, value: &Fe) -> (r: Dequantized)
        requires
            self.wf(),
            value.wf(),
        ensures
            r == self.constants.dequantization_spec(value@),
    {
        self.constants.dequantization(value)
    }

    pub fn quantization(&self, mantissa: i128, exp10: u32) -> (r: Fe)
        requires
            self.wf(),
        ensures
            r.wf(),
            r@ == crate::constants::quantized(mantissa as int, exp10 as nat, self.pb()),
    {
        self.constants.quantization(mantissa, exp10)
    }

    /// Unsigned division by the scale: `(⌊a / 2^pb⌋, a mod 2^pb)`.
    fn scale(&self, a: &Fe) -> (r: (Fe, Fe))
        requires
            self.wf(),
            a.wf(),
        ensures
            r.0.wf(),
            r.1.wf(),
            r.0@ == a@ / pow2(self.pb()),
            r.1@ == a@ % pow2(self.pb()),
    {
        proof {
            lemma_pow2_facts();
            vstd::arithmetic::power2::lemma_pow2_pos(self.pb());
            vstd::arithmetic::power2::lemma_pow2_strictly_increases(self.pb(), 253);
            vstd::arithmetic::div_mod::lemma_div_is_ordered_by_denominator(a@ as int, 1, pow2(self.pb()) as int);
        }
        let (q, r) = a.n.div_mod_floor(&self.constants.quantization_scale.n);
        (Fe { n: q }, Fe { n: r })
    }

    /// The product of two non-negative encodings, rescaled without sign handling.
    fn mul(&self, a: &Fe, b: &Fe) -> (r: Fe)
        requires
            self.wf(),
            a.wf(),
            b.wf(),
        ensures
            r.wf(),
            r@ == spec_unsigned_mul(a@, b@, self.pb()),
    {
        self.scale(&a.mul(b)).0
    }

    fn sub(&self, a: &Fe, b: &Fe) -> (r: Fe)
        requires
            a.wf(),
            b.wf(),
        ensures
            r.wf(),
            r@ == fmod(a@ - b@),
    {
        a.sub(b)
    }

    /// The squared volatility of the encoded values `a`: the sample variance
    /// of their first differences; zero for fewer than two values.
    pub fn volatility(&self, a: &Vec<Fe>) -> (r: Fe)
        requires
            self.wf(),
            all_wf(a@),
        ensures
            r.wf(),
            r@ == spec_volatility(values(a@), self.pb()),
    {
        if a.len() < 2 {
            return Fe::zero();
        }
        let n = a.len();
        let mut delta_sq_sum = Fe::zero();
        let mut i: usize = 1;
        while i < n
            invariant
                1 <= i <= n,
                n == a.len(),
                all_wf(a@),
                delta_sq_sum.wf(),
                delta_sq_sum@ == spec_delta_sq_sum(values(a@), i as nat),
            decreases n - i,
        {
            let delta = a[i].sub(&a[i - 1]);
            delta_sq_sum = delta_sq_sum.add(&delta.mul(&delta));
            i = i + 1;
        }
        let delta = a[n - 1].sub(&a[0]);
        let delta_sum_sq = delta.mul(&delta);
        let delta_sq_sum = self.scale(&delta_sq_sum).0;
        let delta_sum_sq = self.scale(&delta_sum_sq).0;
        let n_inv = self.constants.quantize_ratio(1, n as u64);
        let n1_inv = self.constants.quantize_ratio(1, (n - 1) as u64);
        let delta_sum_sq_div_n = self.mul(&delta_sum_sq, &n_inv);
        let d = self.sub(&delta_sq_sum, &delta_sum_sq_div_n);
        self.mul(&d, &n1_inv)
    }
}

} // verus!
