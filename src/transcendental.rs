//! The transcendental gadgets: base-2 exponential and logarithm by minimax
//! polynomials, sine, and the functions derived from them.
use vstd::prelude::*;
use vstd::arithmetic::power2::pow2;
use crate::bignum::BigNat;
use crate::chip::{
    result_value, result_wf, spec_abs, spec_is_neg, spec_neg, spec_polynomial, spec_qdiv,
    spec_qmod, spec_qmul, values, FixedPointChip,
};
use crate::constants::{lemma_pow2_facts, FIELD_BITS};
use crate::error::FixedPointError;
use crate::field::{fmod, modulus, Fe};

verus! {

/// The position of the most significant set bit of a positive `a`.
pub open spec fn msb(a: nat) -> nat
    recommends
        a > 0,
{
    choose|k: nat| #[trigger] pow2(k) <= a < pow2(k + 1)
}

/// `2^k` from the power table, or zero past its end.
pub open spec fn table_pow2(k: nat) -> nat {
    if k < FIELD_BITS {
        pow2(k)
    } else {
        0
    }
}

impl FixedPointChip {
    pub open spec fn spec_qexp2(&self, a: nat) -> Result<nat, FixedPointError> {
        let pb = self.pb();
        let a_abs = spec_abs(a, pb);
        let k = a_abs / pow2(pb);
        let f = a_abs % pow2(pb);
        let y = spec_polynomial(f, values(self.exp2_coef@), pb);
        let res_pos = fmod((table_pow2(k) * y) as int);
        match spec_qdiv(pow2(pb), res_pos, pb) {
            Err(e) => Err(e),
            Ok(res_neg) => Ok(
                if spec_is_neg(a, pb) {
                    res_neg
                } else {
                    res_pos
                },
            ),
        }
    }

    /// The logarithm: for `2^n ≤ a < 2^(n+1)` and `d = pb + 1 − n`, `a` is
    /// moved into `[2, 4)` by `2^d`, the polynomial is applied, and `−d` is
    /// added back.
    pub open spec fn spec_qlog2(&self, a: nat) -> Result<nat, FixedPointError> {
        let pb = self.pb();
        if spec_is_neg(a, pb) || a == 0 {
            Err(FixedPointError::NonPositiveLogarithm)
        } else {
            let d = pb + 1 - msb(a);
            let a_norm = if d < 0 {
                a / pow2((-d) as nat)
            } else {
                fmod((a * pow2(d as nat)) as int)
            };
            let log_a_norm = spec_polynomial(a_norm, values(self.log_coef@), pb);
            Ok(fmod(log_a_norm + fmod(-d * pow2(pb)) as int))
        }
    }

    pub open spec fn spec_qsin(&self, a: nat) -> Result<nat, FixedPointError> {
        let pb = self.pb();
        match spec_qmod(spec_abs(a, pb), self.two_pi@, pb) {
            Err(e) => Err(e),
            Ok(a_mod) => {
                let a_mpi = fmod(a_mod - self.pi@);
                let sin_a_mod = spec_polynomial(a_mod, values(self.sin_coef@), pb);
                let sin_a_mpi = spec_neg(spec_polynomial(a_mpi, values(self.sin_coef@), pb));
                let sin_a_abs = if spec_is_neg(a_mpi, pb) {
                    sin_a_mod
                } else {
                    sin_a_mpi
                };
                Ok(
                    if spec_is_neg(a, pb) {
                        spec_neg(sin_a_abs)
                    } else {
                        sin_a_abs
                    },
                )
            },
        }
    }

    pub open spec fn spec_qcos(&self, a: nat) -> Result<nat, FixedPointError> {
        self.spec_qsin(fmod(a + self.half_pi@ as int))
    }

    pub open spec fn spec_qtan(&self, a: nat) -> Result<nat, FixedPointError> {
        match (self.spec_qsin(a), self.spec_qcos(a)) {
            (Ok(s), Ok(c)) => spec_qdiv(s, c, self.pb()),
            (Err(e), _) => Err(e),
            (_, Err(e)) => Err(e),
        }
    }

    pub open spec fn spec_qexp(&self, a: nat) -> Result<nat, FixedPointError> {
        match spec_qdiv(a, self.ln2@, self.pb()) {
            Ok(x) => self.spec_qexp2(x),
            Err(e) => Err(e),
        }
    }

    pub open spec fn spec_qsinh(&self, a: nat) -> Result<nat, FixedPointError> {
        match (self.spec_qexp(a), self.spec_qexp(spec_neg(a))) {
            (Ok(ea), Ok(ena)) => spec_qdiv(fmod(ea - ena), self.two@, self.pb()),
            (Err(e), _) => Err(e),
            (_, Err(e)) => Err(e),
        }
    }

    pub open spec fn spec_qcosh(&self, a: nat) -> Result<nat, FixedPointError> {
        match (self.spec_qexp(a), self.spec_qexp(spec_neg(a))) {
            (Ok(ea), Ok(ena)) => spec_qdiv(fmod(ea + ena as int), self.two@, self.pb()),
            (Err(e), _) => Err(e),
            (_, Err(e)) => Err(e),
        }
    }

    pub open spec fn spec_qtanh(&self, a: nat) -> Result<nat, FixedPointError> {
        match (self.spec_qsinh(a), self.spec_qcosh(a)) {
            (Ok(s), Ok(c)) => spec_qdiv(s, c, self.pb()),
            (Err(e), _) => Err(e),
            (_, Err(e)) => Err(e),
        }
    }

    pub open spec fn spec_qlog(&self, a: nat) -> Result<nat, FixedPointError> {
        match self.spec_qlog2(a) {
            Ok(l) => spec_qdiv(l, self.log2e@, self.pb()),
            Err(e) => Err(e),
        }
    }

    pub open spec fn spec_qpow(&self, x: nat, exponent: nat) -> Result<nat, FixedPointError> {
        match self.spec_qlog(x) {
            Ok(l) => self.spec_qexp(spec_qmul(exponent, l, self.pb())),
            Err(e) => Err(e),
        }
    }

    pub open spec fn spec_qsqrt(&self, x: nat) -> Result<nat, FixedPointError> {
        self.spec_qpow(x, self.half@)
    }

    /// Whether the constraints that `candidate == 2^exponent` hold: the
    /// candidate's `2·pb` bits have exactly one bit set, the one at
    /// `exponent`.
    pub fn check_power_of_two(&self, candidate: &Fe, exponent: &Fe) -> (r: bool)
        requires
            self.wf(),
            candidate.wf(),
            exponent.wf(),
        ensures
            r == (exponent@ < 2 * self.pb() && candidate@ == pow2(exponent@)),
    {
        let bound = BigNat::from_u128(2 * self.constants.precision_bits as u128);
        if !exponent.n.lt(&bound) {
            return false;
        }
        let e = match exponent.n.to_u128() {
            Some(v) => v as usize,
            None => 0,
        };
        candidate.eq_value(&self.constants.pow_of_two[e])
    }

    /// `2^a`: `2^k` from the power table for the integer part `k` of `|a|`
    /// times the polynomial at its fractional part, inverted for negative `a`.
    /// Integer parts past the table give zero, and then a division by zero.
    pub fn qexp2(&self, a: &Fe) -> (r: Result<Fe, FixedPointError>)
        requires
            self.wf(),
            a.wf(),
        ensures
            result_wf(r),
            result_value(r) == self.spec_qexp2(a@),
    {
        let a_abs = self.qabs(a);
        proof {
            lemma_pow2_facts();
            vstd::arithmetic::power2::lemma_pow2_pos(self.pb());
            vstd::arithmetic::power2::lemma_pow2_strictly_increases(self.pb(), 253);
            vstd::arithmetic::div_mod::lemma_div_is_ordered_by_denominator(a_abs@ as int, 1, pow2(self.pb()) as int);
        }
        let (int_part, frac_part) = a_abs.n.div_mod_floor(&self.constants.quantization_scale.n);
        let frac_part = Fe { n: frac_part };
        let int_part_pow2 = if int_part.lt(&BigNat::from_u128(FIELD_BITS as u128)) {
            let k = match int_part.to_u128() {
                Some(v) => v as usize,
                None => 0,
            };
            self.constants.pow_of_two[k].clone()
        } else {
            Fe::zero()
        };
        let y_frac = self.polynomial(&frac_part, &self.exp2_coef);
        let res_pos = int_part_pow2.mul(&y_frac);
        let res_neg = self.qdiv(&self.constants.quantization_scale, &res_pos);
        match res_neg {
            Err(e) => Err(e),
            Ok(res_neg) => {
                if self.is_neg(a).is_zero() {
                    Ok(res_pos)
                } else {
                    Ok(res_neg)
                }
            },
        }
    }

    /// `log2(a)` of a strictly positive `a`; other inputs are refused.
    pub fn qlog2(&self, a: &Fe) -> (r: Result<Fe, FixedPointError>)
        requires
            self.wf(),
            a.wf(),
        ensures
            result_wf(r),
            result_value(r) == self.spec_qlog2(a@),
    {
        if self.negative(a) || a.is_zero() {
            return Err(FixedPointError::NonPositiveLogarithm);
        }
        let bits = a.n.bits();
        let n = bits - 1;
        let pb = self.constants.precision_bits as u64;
        proof {
            lemma_pow2_facts();
            let k = n as nat;
            if k > 254 {
                vstd::arithmetic::power2::lemma_pow2_strictly_increases(254, k);
            }
            assert(k < 254);
            assert(pow2(k) <= a@ < pow2(k + 1));
            let m = msb(a@);
            assert(pow2(m) <= a@ < pow2(m + 1));
            if m < k {
                if m + 1 < k {
                    vstd::arithmetic::power2::lemma_pow2_strictly_increases(m + 1, k);
                }
            }
            if m > k {
                if m > k + 1 {
                    vstd::arithmetic::power2::lemma_pow2_strictly_increases(k + 1, m);
                }
            }
            assert(m == k);
            vstd::arithmetic::power2::lemma_pow2_pos(self.pb());
            vstd::arithmetic::power2::lemma_pow2_strictly_increases(self.pb(), 64);
        }
        let scale = &self.constants.quantization_scale;
        let (a_norm, log_shift_q) = if n > pb + 1 {
            let sh = (n - pb - 1) as usize;
            proof {
                vstd::arithmetic::power2::lemma_pow2_pos(sh as nat);
                vstd::arithmetic::div_mod::lemma_div_is_ordered_by_denominator(a@ as int, 1, pow2(sh as nat) as int);
            }
            let (q, _) = a.n.div_mod_floor(&self.constants.pow_of_two[sh].n);
            let shift_q = Fe::from_u128(sh as u128).mul(scale);
            proof {
                let s = pow2(self.pb());
                assert((sh as nat) * s <= 254 * 0x1_0000_0000_0000_0000) by (nonlinear_arith)
                    requires sh < 254, s < 0x1_0000_0000_0000_0000;
                vstd::arithmetic::div_mod::lemma_small_mod((sh as nat) * s, modulus());
                let d: int = self.pb() + 1 - n;
                assert(-d * s == (sh as nat) * s) by (nonlinear_arith)
                    requires -d == sh as int;
            }
            (Fe { n: q }, shift_q)
        } else {
            let sh = (pb + 1 - n) as usize;
            let shifted = a.mul(&self.constants.pow_of_two[sh]);
            let shift_q = Fe::from_u128(sh as u128).mul(scale);
            proof {
                let s = pow2(self.pb());
                assert((sh as nat) * s <= 254 * 0x1_0000_0000_0000_0000) by (nonlinear_arith)
                    requires sh < 254, s < 0x1_0000_0000_0000_0000;
                vstd::arithmetic::div_mod::lemma_small_mod((sh as nat) * s, modulus());
                let d: int = self.pb() + 1 - n;
                assert(-d * s == -((sh as nat) * s)) by (nonlinear_arith)
                    requires d == sh as int;
            }
            (shifted, shift_q.neg())
        };
        proof {
            assert(values(self.log_coef@).len() == 15);
        }
        let log_a_norm = self.polynomial(&a_norm, &self.log_coef);
        Ok(log_a_norm.add(&log_shift_q))
    }

    /// `sin(a)`: `|a|` reduced modulo 2π, the polynomial on `[0, π)` and
    /// `sin(θ) = −sin(θ − π)` above it, with the sign of `a` put back.
    pub fn qsin(&self, a: &Fe) -> (r: Result<Fe, FixedPointError>)
        requires
            self.wf(),
            a.wf(),
        ensures
            result_wf(r),
            result_value(r) == self.spec_qsin(a@),
    {
        let a_abs = self.qabs(a);
        let a_mod = match self.qmod(&a_abs, &self.two_pi) {
            Err(e) => {
                return Err(e);
            },
            Ok(v) => v,
        };
        let a_mpi = a_mod.sub(&self.pi);
        proof {
            assert(values(self.sin_coef@).len() == 15);
        }
        let sin_a_mod = self.polynomial(&a_mod, &self.sin_coef);
        let sin_a_mpi = self.polynomial(&a_mpi, &self.sin_coef).neg();
        let sin_a_abs = if self.negative(&a_mpi) {
            sin_a_mod
        } else {
            sin_a_mpi
        };
        if self.negative(a) {
            Ok(sin_a_abs.neg())
        } else {
            Ok(sin_a_abs)
        }
    }

    /// `cos(a) = sin(a + π/2)`.
    pub fn qcos(&self, a: &Fe) -> (r: Result<Fe, FixedPointError>)
        requires
            self.wf(),
            a.wf(),
        ensures
            result_wf(r),
            result_value(r) == self.spec_qcos(a@),
    {
        self.qsin(&a.add(&self.half_pi))
    }

    /// `tan(a) = sin(a) / cos(a)`.
    pub fn qtan(&self, a: &Fe) -> (r: Result<Fe, FixedPointError>)
        requires
            self.wf(),
            a.wf(),
        ensures
            result_wf(r),
            result_value(r) == self.spec_qtan(a@),
    {
        let sin_a = match self.qsin(a) {
            Err(e) => {
                return Err(e);
            },
            Ok(v) => v,
        };
        let cos_a = match self.qcos(a) {
            Err(e) => {
                return Err(e);
            },
            Ok(v) => v,
        };
        self.qdiv(&sin_a, &cos_a)
    }

    /// `e^a = 2^(a / ln 2)`.
    pub fn qexp(&self, a: &Fe) -> (r: Result<Fe, FixedPointError>)
        requires
            self.wf(),
            a.wf(),
        ensures
            result_wf(r),
            result_value(r) == self.spec_qexp(a@),
    {
        match self.qdiv(a, &self.ln2) {
            Err(e) => Err(e),
            Ok(x) => self.qexp2(&x),
        }
    }

    /// `sinh(a) = (e^a − e^−a) / 2`.
    pub fn qsinh(&self, a: &Fe) -> (r: Result<Fe, FixedPointError>)
        requires
            self.wf(),
            a.wf(),
        ensures
            result_wf(r),
            result_value(r) == self.spec_qsinh(a@),
    {
        let ea = match self.qexp(a) {
            Err(e) => {
                return Err(e);
            },
            Ok(v) => v,
        };
        let ena = match self.qexp(&a.neg()) {
            Err(e) => {
                return Err(e);
            },
            Ok(v) => v,
        };
        self.qdiv(&ea.sub(&ena), &self.two)
    }

    /// `cosh(a) = (e^a + e^−a) / 2`.
    pub fn qcosh(&self, a: &Fe) -> (r: Result<Fe, FixedPointError>)
        requires
            self.wf(),
            a.wf(),
        ensures
            result_wf(r),
            result_value(r) == self.spec_qcosh(a@),
    {
        let ea = match self.qexp(a) {
            Err(e) => {
                return Err(e);
            },
            Ok(v) => v,
        };
        let ena = match self.qexp(&a.neg()) {
            Err(e) => {
                return Err(e);
            },
            Ok(v) => v,
        };
        self.qdiv(&ea.add(&ena), &self.two)
    }

    /// `tanh(a) = sinh(a) / cosh(a)`.
    pub fn qtanh(&self, a: &Fe) -> (r: Result<Fe, FixedPointError>)
        requires
            self.wf(),
            a.wf(),
        ensures
            result_wf(r),
            result_value(r) == self.spec_qtanh(a@),
    {
        let sinh = match self.qsinh(a) {
            Err(e) => {
                return Err(e);
            },
            Ok(v) => v,
        };
        let cosh = match self.qcosh(a) {
            Err(e) => {
                return Err(e);
            },
            Ok(v) => v,
        };
        self.qdiv(&sinh, &cosh)
    }

    /// `ln(a) = log2(a) / log2(e)`.
    pub fn qlog(&self, a: &Fe) -> (r: Result<Fe, FixedPointError>)
        requires
            self.wf(),
            a.wf(),
        ensures
            result_wf(r),
            result_value(r) == self.spec_qlog(a@),
    {
        match self.qlog2(a) {
            Err(e) => Err(e),
            Ok(l) => self.qdiv(&l, &self.log2e),
        }
    }

    /// `x^exponent = e^(exponent · ln x)`.
    pub fn qpow(&self, x: &Fe, exponent: &Fe) -> (r: Result<Fe, FixedPointError>)
        requires
            self.wf(),
            x.wf(),
            exponent.wf(),
        ensures
            result_wf(r),
            result_value(r) == self.spec_qpow(x@, exponent@),
    {
        match self.qlog(x) {
            Err(e) => Err(e),
            Ok(l) => self.qexp(&self.qmul(exponent, &l)),
        }
    }

    /// `√x = x^0.5`.
    pub fn qsqrt(&self, x: &Fe) -> (r: Result<Fe, FixedPointError>)
        requires
            self.wf(),
            x.wf(),
        ensures
            result_wf(r),
            result_value(r) == self.spec_qsqrt(x@),
    {
        self.qpow(x, &self.half)
    }
}

} // verus!
