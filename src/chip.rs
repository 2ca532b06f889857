//! The fixed-point gadgets: the witness values that each gadget derives from
//! its inputs, computed natively over the field.
//!
//! A value `v` of the field stands for the signed fixed-point number
//! `v / 2^pb`, with negative numbers stored as `modulus − |x|·2^pb`.
use vstd::prelude::*;
use vstd::arithmetic::power2::pow2;
use crate::bignum::BigNat;
use crate::constants::{lemma_pow2_facts, negative_point, quantized, valid_precision, Dequantized, FixedPointConstants};
use crate::error::FixedPointError;
use crate::field::{fmod, modulus, modulus_nat, Fe};

verus! {

/// Whether a gadget reads `a` as negative: it lies above the negative
/// point, as the decoder reads it. Non-negative numbers occupy
/// `[0, negative point]`.
pub open spec fn spec_is_neg(a: nat, pb: nat) -> bool {
    a > negative_point(pb)
}

pub open spec fn spec_neg(a: nat) -> nat {
    fmod(-(a as int))
}

pub open spec fn spec_abs(a: nat, pb: nat) -> nat {
    if spec_is_neg(a, pb) {
        spec_neg(a)
    } else {
        a
    }
}

/// `1` or `−1` in the field, by the sign of `a`.
pub open spec fn spec_sign(a: nat, pb: nat) -> nat {
    if spec_is_neg(a, pb) {
        (modulus() - 1) as nat
    } else {
        1
    }
}

/// The field selection `s·x + (1 − s)·y`, written as `y + s·(x − y)`.
pub open spec fn spec_select(x: nat, y: nat, s: nat) -> nat {
    fmod(y + fmod(s * fmod(x - y) as int) as int)
}

/// `a` reduced modulo `2^(2·pb)` with its sign kept.
pub open spec fn spec_clip(a: nat, pb: nat) -> nat {
    let r = spec_abs(a, pb) % pow2(2 * pb);
    if spec_is_neg(a, pb) {
        spec_neg(r)
    } else {
        r
    }
}

/// The encodings from `2^252` up are divided as negative numbers.
pub open spec fn sds_negative(a: nat) -> bool {
    a > pow2(252)
}

/// Signed division by the scale: the floor quotient, encoded, and the
/// remainder in `[0, 2^pb)`.
pub open spec fn spec_signed_div_scale(a: nat, pb: nat) -> (nat, nat) {
    let s = pow2(pb);
    if sds_negative(a) {
        let x = (modulus() - a) as nat;
        let c = (x + s - 1) / (s as int);
        ((modulus() - c) as nat, (s * c - x) as nat)
    } else {
        (a / s, a % s)
    }
}

pub open spec fn spec_qmul(a: nat, b: nat, pb: nat) -> nat {
    spec_signed_div_scale(fmod((a * b) as int), pb).0
}

pub open spec fn spec_qdiv(a: nat, b: nat, pb: nat) -> Result<nat, FixedPointError> {
    let b_abs = spec_abs(b, pb);
    if b_abs == 0 {
        Err(FixedPointError::DivisionByZero)
    } else {
        let res_abs = fmod((spec_abs(a, pb) * pow2(pb)) as int) / b_abs;
        Ok(
            if spec_is_neg(a, pb) != spec_is_neg(b, pb) {
                spec_neg(res_abs)
            } else {
                res_abs
            },
        )
    }
}

pub open spec fn spec_qmod(a: nat, b: nat, pb: nat) -> Result<nat, FixedPointError> {
    if spec_is_neg(b, pb) {
        Err(FixedPointError::NegativeModulus)
    } else if b == 0 {
        Err(FixedPointError::DivisionByZero)
    } else {
        let r = spec_abs(a, pb) % b;
        Ok(
            if spec_is_neg(a, pb) && r != 0 {
                (b - r) as nat
            } else {
                r
            },
        )
    }
}

pub open spec fn spec_qmax(a: nat, b: nat, pb: nat) -> nat {
    if spec_is_neg(fmod(a - b), pb) {
        b
    } else {
        a
    }
}

pub open spec fn spec_qmin(a: nat, b: nat, pb: nat) -> nat {
    if spec_is_neg(fmod(a - b), pb) {
        a
    } else {
        b
    }
}

/// The values behind a fallible result.
pub open spec fn result_value(r: Result<Fe, FixedPointError>) -> Result<nat, FixedPointError> {
    match r {
        Ok(f) => Ok(f@),
        Err(e) => Err(e),
    }
}

/// A successful result holds a canonical element.
pub open spec fn result_wf(r: Result<Fe, FixedPointError>) -> bool {
    r.is_ok() ==> r.unwrap().wf()
}

pub open spec fn spec_bit_xor(a: nat, b: nat) -> nat {
    if fmod(a + b as int) == 1 {
        1
    } else {
        0
    }
}

/// The values of a sequence of field elements.
pub open spec fn values(s: Seq<Fe>) -> Seq<nat> {
    s.map_values(|f: Fe| f@)
}

pub open spec fn all_wf(s: Seq<Fe>) -> bool {
    forall|i: int| 0 <= i < s.len() ==> (#[trigger] s[i]).wf()
}

/// The field sum of a sequence.
pub open spec fn spec_qsum(s: Seq<nat>) -> nat
    decreases s.len(),
{
    if s.len() == 0 {
        0
    } else {
        fmod(spec_qsum(s.drop_last()) + s.last() as int)
    }
}

/// The running sum of the fixed-point products of the first `k` pairs.
pub open spec fn spec_inner_product(a: Seq<nat>, b: Seq<nat>, k: nat, pb: nat) -> nat
    decreases k,
{
    if k == 0 {
        0
    } else {
        let j = (k - 1) as nat;
        fmod(spec_inner_product(a, b, j, pb) + spec_qmul(a[j as int], b[j as int], pb) as int)
    }
}

/// Horner's accumulator after the first `k` coefficients (highest degree
/// first): each step adds a coefficient and multiplies by `x`.
pub open spec fn spec_horner_acc(x: nat, c: Seq<nat>, k: nat, pb: nat) -> nat
    decreases k,
{
    if k == 0 {
        0
    } else {
        let j = (k - 1) as nat;
        spec_qmul(x, fmod(spec_horner_acc(x, c, j, pb) + c[j as int] as int), pb)
    }
}

/// The polynomial with coefficients `c`, highest degree first, at `x`.
pub open spec fn spec_polynomial(x: nat, c: Seq<nat>, pb: nat) -> nat
    recommends
        c.len() >= 1,
{
    fmod(spec_horner_acc(x, c, (c.len() - 1) as nat, pb) + c.last() as int)
}

/// Decimal coefficients `(m, e)`, each standing for `m · 10^-e`, of a
/// degree-12 minimax approximation of `2^x` on `[0, 1)`, highest degree first.
pub open spec fn exp2_decimals() -> Seq<(i128, u32)> {
    seq![
        (36240421303547230336183979205877i128, 42u32),
        (41284327467833130245549169910389i128, 41u32),
        (71086385644026346316624185550542i128, 40u32),
        (10172297085296590958930245291448i128, 38u32),
        (13215904023658396206789543841996i128, 37u32),
        (15252713316417140696221389106544i128, 36u32),
        (15403531076657894204857389177279i128, 35u32),
        (13333558131297097698435464957392i128, 34u32),
        (96181291078409107025643582456283i128, 34u32),
        (55504108664804181586140094858174i128, 33u32),
        (24022650695910142332414229540187i128, 32u32),
        (69314718055994529934452147700678i128, 32u32),
        (10i128, 1u32),
    ]
}

/// A degree-14 minimax approximation of `log2(x)` on `[2, 4)`.
pub open spec fn log_decimals() -> Seq<(i128, u32)> {
    seq![
        (-3319586265362338i128, 23u32),
        (14957235315170112i128, 22u32),
        (-31350053389526744i128, 21u32),
        (40554177582512901i128, 20u32),
        (-36218342998850703i128, 19u32),
        (23663846121538389i128, 18u32),
        (-11691877183255484i128, 17u32),
        (44524062371564499i128, 17u32),
        (-13195777548208449i128, 16u32),
        (30518128028712077i128, 16u32),
        (-54904626000399528i128, 16u32),
        (76298580090181591i128, 16u32),
        (-81653313719804235i128, 16u32),
        (71389971101896279i128, 16u32),
        (-31937385492842112i128, 16u32),
    ]
}

/// A degree-14 minimax approximation of `sin(x)` on `[0, π]`.
pub open spec fn sin_decimals() -> Seq<(i128, u32)> {
    seq![
        (-11008071636607462i128, 27u32),
        (24208013888629323i128, 26u32),
        (-38584805817996712i128, 26u32),
        (-23786993104309845i128, 24u32),
        (-29795813710683115i128, 25u32),
        (27608543130047009i128, 22u32),
        (-64467066994122565i128, 25u32),
        (-19840680551418068i128, 20u32),
        (-3839555844512214i128, 24u32),
        (83333350601673614i128, 19u32),
        (-50943769725466814i128, 26u32),
        (-16666666657583049i128, 17u32),
        (-85029878414113731i128, 28u32),
        (10000000000003146i128, 16u32),
        (-19323057584419828i128, 31u32),
    ]
}

/// The encodings of a table of decimals.
pub open spec fn quantized_table(t: Seq<(i128, u32)>, pb: nat) -> Seq<nat> {
    t.map_values(|d: (i128, u32)| quantized(d.0 as int, d.1 as nat, pb))
}

fn exp2_table() -> (r: Vec<(i128, u32)>)
    ensures
        r@ == exp2_decimals(),
{
    let r = vec![
        (36240421303547230336183979205877, 42),
        (41284327467833130245549169910389, 41),
        (71086385644026346316624185550542, 40),
        (10172297085296590958930245291448, 38),
        (13215904023658396206789543841996, 37),
        (15252713316417140696221389106544, 36),
        (15403531076657894204857389177279, 35),
        (13333558131297097698435464957392, 34),
        (96181291078409107025643582456283, 34),
        (55504108664804181586140094858174, 33),
        (24022650695910142332414229540187, 32),
        (69314718055994529934452147700678, 32),
        (10, 1),
    ];
    assert(r@ =~= exp2_decimals());
    r
}

fn log_table() -> (r: Vec<(i128, u32)>)
    ensures
        r@ == log_decimals(),
{
    let r = vec![
        (-3319586265362338, 23),
        (14957235315170112, 22),
        (-31350053389526744, 21),
        (40554177582512901, 20),
        (-36218342998850703, 19),
        (23663846121538389, 18),
        (-11691877183255484, 17),
        (44524062371564499, 17),
        (-13195777548208449, 16),
        (30518128028712077, 16),
        (-54904626000399528, 16),
        (76298580090181591, 16),
        (-81653313719804235, 16),
        (71389971101896279, 16),
        (-31937385492842112, 16),
    ];
    assert(r@ =~= log_decimals());
    r
}

fn sin_table() -> (r: Vec<(i128, u32)>)
    ensures
        r@ == sin_decimals(),
{
    let r = vec![
        (-11008071636607462, 27),
        (24208013888629323, 26),
        (-38584805817996712, 26),
        (-23786993104309845, 24),
        (-29795813710683115, 25),
        (27608543130047009, 22),
        (-64467066994122565, 25),
        (-19840680551418068, 20),
        (-3839555844512214, 24),
        (83333350601673614, 19),
        (-50943769725466814, 26),
        (-16666666657583049, 17),
        (-85029878414113731, 28),
        (10000000000003146, 16),
        (-19323057584419828, 31),
    ];
    assert(r@ =~= sin_decimals());
    r
}

/// Encodes each decimal of a coefficient table.
fn generate_poly(constants: &FixedPointConstants, table: &Vec<(i128, u32)>) -> (r: Vec<Fe>)
    requires
        constants.wf(),
    ensures
        all_wf(r@),
        values(r@) == quantized_table(table@, constants.pb()),
{
    let mut r: Vec<Fe> = Vec::new();
    let mut i: usize = 0;
    while i < table.len()
        invariant
            0 <= i <= table.len(),
            constants.wf(),
            r@.len() == i,
            all_wf(r@),
            values(r@) == quantized_table(table@.take(i as int), constants.pb()),
        decreases table.len() - i,
    {
        let (m, e) = table[i];
        let c = constants.quantization(m, e);
        let ghost old_r = r@;
        r.push(c);
        proof {
            let pb = constants.pb();
            assert forall|j: int| 0 <= j < i + 1 implies values(r@)[j] == quantized_table(
                table@.take(i + 1),
                pb,
            )[j] by {
                if j < i {
                    assert(values(old_r)[j] == quantized_table(table@.take(i as int), pb)[j]);
                }
            }
            assert(values(r@) =~= quantized_table(table@.take(i + 1), pb));
        }
        i = i + 1;
    }
    proof {
        assert(table@.take(table.len() as int) =~= table@);
    }
    r
}

/// The witness computation of the fixed-point gadgets for one encoding, with the
/// polynomial coefficients and constants that the transcendental gadgets use.
pub struct FixedPointChip {
    pub constants: FixedPointConstants,
    pub exp2_coef: Vec<Fe>,
    pub log_coef: Vec<Fe>,
    pub sin_coef: Vec<Fe>,
    /// π.
    pub pi: Fe,
    /// 2π.
    pub two_pi: Fe,
    /// π/2.
    pub half_pi: Fe,
    /// ln 2.
    pub ln2: Fe,
    /// log2 e.
    pub log2e: Fe,
    /// 0.5.
    pub half: Fe,
    /// 2.
    pub two: Fe,
}

impl FixedPointChip {
    pub open spec fn pb(&self) -> nat {
        self.constants.pb()
    }

    pub open spec fn wf(&self) -> bool {
        let pb = self.pb();
        &&& self.constants.wf()
        &&& all_wf(self.exp2_coef@) && values(self.exp2_coef@) == quantized_table(exp2_decimals(), pb)
        &&& all_wf(self.log_coef@) && values(self.log_coef@) == quantized_table(log_decimals(), pb)
        &&& all_wf(self.sin_coef@) && values(self.sin_coef@) == quantized_table(sin_decimals(), pb)
        &&& self.pi.wf() && self.pi@ == quantized(3141592653589793, 15, pb)
        &&& self.two_pi.wf() && self.two_pi@ == quantized(6283185307179586, 15, pb)
        &&& self.half_pi.wf() && self.half_pi@ == quantized(15707963267948966, 16, pb)
        &&& self.ln2.wf() && self.ln2@ == quantized(6931471805599453, 16, pb)
        &&& self.log2e.wf() && self.log2e@ == quantized(14426950408889634, 16, pb)
        &&& self.half.wf() && self.half@ == quantized(5, 1, pb)
        &&& self.two.wf() && self.two@ == quantized(20, 1, pb)
    }

    /// The chip for `precision_bits` fractional bits, 32 to 63.
    pub fn new(precision_bits: u32) -> (r: Result<FixedPointChip, FixedPointError>)
        ensures
            valid_precision(precision_bits as nat) <==> r.is_ok(),
            r.is_ok() ==> r.unwrap().wf() && r.unwrap().constants.precision_bits == precision_bits,
            r.is_err() ==> r == Err::<FixedPointChip, FixedPointError>(FixedPointError::PrecisionOutOfRange),
    {
        let constants = match FixedPointConstants::new(precision_bits) {
            Ok(c) => c,
            Err(e) => {
                return Err(e);
            },
        };
        let exp2_coef = generate_poly(&constants, &exp2_table());
        let log_coef = generate_poly(&constants, &log_table());
        let sin_coef = generate_poly(&constants, &sin_table());
        let pi = constants.quantization(3141592653589793, 15);
        let two_pi = constants.quantization(6283185307179586, 15);
        let half_pi = constants.quantization(15707963267948966, 16);
        let ln2 = constants.quantization(6931471805599453, 16);
        let log2e = constants.quantization(14426950408889634, 16);
        let half = constants.quantization(5, 1);
        let two = constants.quantization(20, 1);
        Ok(FixedPointChip {
            constants,
            exp2_coef,
            log_coef,
            sin_coef,
            pi,
            two_pi,
            half_pi,
            ln2,
            log2e,
            half,
            two,
        })
    }

    pub fn quantization(&self, mantissa: i128, exp10: u32) -> (r: Fe)
        requires
            self.wf(),
        ensures
            r.wf(),
            r@ == quantized(mantissa as int, exp10 as nat, self.pb()),
    {
        self.constants.quantization(mantissa, exp10)
    }

    pub fn dequantization(&self, value: &Fe) -> (r: Dequantized)
        requires
            self.wf(),
            value.wf(),
        ensures
            r == self.constants.dequantization_spec(value@),
    {
        self.constants.dequantization(value)
    }

    /// Whether `a` reads as negative.
    pub(crate) fn negative(&self, a: &Fe) -> (r: bool)
        requires
            self.wf(),
        ensures
            r == spec_is_neg(a@, self.pb()),
    {
        self.constants.negative_point.n.lt(&a.n)
    }

    /// `1` when `a` reads as negative, else `0`.
    pub fn is_neg(&self, a: &Fe) -> (r: Fe)
        requires
            self.wf(),
        ensures
            r.wf(),
            r@ == (if spec_is_neg(a@, self.pb()) { 1nat } else { 0nat }),
    {
        if self.negative(a) {
            Fe::one()
        } else {
            Fe::zero()
        }
    }

    pub fn qadd(&self, a: &Fe, b: &Fe) -> (r: Fe)
        requires
            a.wf(),
            b.wf(),
        ensures
            r.wf(),
            r@ == fmod(a@ + b@ as int),
    {
        a.add(b)
    }

    pub fn qsub(&self, a: &Fe, b: &Fe) -> (r: Fe)
        requires
            a.wf(),
            b.wf(),
        ensures
            r.wf(),
            r@ == fmod(a@ - b@),
    {
        a.sub(b)
    }

    pub fn neg(&self, a: &Fe) -> (r: Fe)
        requires
            a.wf(),
        ensures
            r.wf(),
            r@ == spec_neg(a@),
    {
        a.neg()
    }

    pub fn qabs(&self, a: &Fe) -> (r: Fe)
        requires
            self.wf(),
            a.wf(),
        ensures
            r.wf(),
            r@ == spec_abs(a@, self.pb()),
    {
        if self.negative(a) {
            a.neg()
        } else {
            a.clone()
        }
    }

    pub fn sign(&self, a: &Fe) -> (r: Fe)
        requires
            self.wf(),
            a.wf(),
        ensures
            r.wf(),
            r@ == spec_sign(a@, self.pb()),
    {
        if self.negative(a) {
            let r = Fe::one().neg();
            proof {
                vstd::arithmetic::div_mod::lemma_mod_add_multiples_vanish(-1, modulus() as int);
                vstd::arithmetic::div_mod::lemma_small_mod((modulus() - 1) as nat, modulus());
            }
            r
        } else {
            Fe::one()
        }
    }

    /// `a` or its negation, selected by `is_neg` as a field selection; a
    /// flag that is not a bit gives the selection formula's value.
    pub fn cond_neg(&self, a: &Fe, is_neg: &Fe) -> (r: Fe)
        requires
            a.wf(),
            is_neg.wf(),
        ensures
            r.wf(),
            r@ == spec_select(spec_neg(a@), a@, is_neg@),
    {
        let neg_a = a.neg();
        a.add(&is_neg.mul(&neg_a.sub(a)))
    }

    /// Reduces `a` modulo `2^(2·pb)` keeping its sign, as a fixed-width
    /// overflow would; magnitudes far above the bound wrap silently.
    pub fn clip(&self, a: &Fe) -> (r: Fe)
        requires
            self.wf(),
            a.wf(),
        ensures
            r.wf(),
            r@ == spec_clip(a@, self.pb()),
    {
        let negative = self.negative(a);
        let a_abs = self.qabs(a);
        proof {
            lemma_pow2_facts();
            vstd::arithmetic::power2::lemma_pow2_pos(2 * self.pb());
            vstd::arithmetic::power2::lemma_pow2_strictly_increases(2 * self.pb(), 253);
        }
        let (_, unsigned_clipped) = a_abs.n.div_mod_floor(&self.constants.max_value);
        let clipped = Fe { n: unsigned_clipped };
        if negative {
            clipped.neg()
        } else {
            clipped
        }
    }

    /// Splits `a` as `scale·q + r` with `0 ≤ r < scale`, where encodings
    /// above `2^252` are divided as negative numbers: their quotient is
    /// `−⌈|a|/scale⌉`, encoded.
    pub fn signed_div_scale(&self, a: &Fe) -> (r: (Fe, Fe))
        requires
            self.wf(),
            a.wf(),
        ensures
            r.0.wf(),
            r.1.wf(),
            (r.0@, r.1@) == spec_signed_div_scale(a@, self.pb()),
    {
        let b = &self.constants.quantization_scale.n;
        proof {
            lemma_pow2_facts();
            vstd::arithmetic::power2::lemma_pow2_pos(self.pb());
            vstd::arithmetic::power2::lemma_pow2_strictly_increases(self.pb(), 253);
        }
        if BigNat::pow2(252).lt(&a.n) {
            let p = modulus_nat();
            let a_abs = p.minus(&a.n);
            let c = a_abs.div_ceil(b);
            proof {
                let s = pow2(self.pb());
                let x = a_abs@;
                vstd::arithmetic::div_mod::lemma_fundamental_div_mod((x + s - 1) as int, s as int);
                vstd::arithmetic::div_mod::lemma_mod_bound((x + s - 1) as int, s as int);
                assert(c@ * s <= x + s - 1 < c@ * s + s) by (nonlinear_arith)
                    requires
                        (x + s - 1) == s * c@ + (x + s - 1) % (s as int),
                        0 <= (x + s - 1) % (s as int) < s;
                assert(c@ <= x) by (nonlinear_arith)
                    requires c@ * s <= x + s - 1, s >= 1, x >= 1;
                assert(c@ >= 1) by (nonlinear_arith)
                    requires x + s - 1 < c@ * s + s, s >= 1, x >= 1;
            }
            let q = p.minus(&c);
            let r = b.times(&c).minus(&a_abs);
            (Fe { n: q }, Fe { n: r })
        } else {
            let (q, r) = a.n.div_mod_floor(b);
            proof {
                vstd::arithmetic::div_mod::lemma_div_pos_is_pos(a@ as int, pow2(self.pb()) as int);
                vstd::arithmetic::div_mod::lemma_div_is_ordered_by_denominator(a@ as int, 1, pow2(self.pb()) as int);
            }
            (Fe { n: q }, Fe { n: r })
        }
    }

    /// The fixed-point product: the field product rescaled by the signed
    /// division by the scale.
    pub fn qmul(&self, a: &Fe, b: &Fe) -> (r: Fe)
        requires
            self.wf(),
            a.wf(),
            b.wf(),
        ensures
            r.wf(),
            r@ == spec_qmul(a@, b@, self.pb()),
    {
        let ab = a.mul(b);
        let (q, _) = self.signed_div_scale(&ab);
        q
    }

    /// The fixed-point quotient: `|a|·scale` divided by `|b|` with the
    /// floor, negated when exactly one of `a` and `b` is negative.
    pub fn qdiv(&self, a: &Fe, b: &Fe) -> (r: Result<Fe, FixedPointError>)
        requires
            self.wf(),
            a.wf(),
            b.wf(),
        ensures
            result_wf(r),
            result_value(r) == spec_qdiv(a@, b@, self.pb()),
    {
        let a_neg = self.negative(a);
        let b_neg = self.negative(b);
        let a_abs = self.qabs(a);
        let b_abs = self.qabs(b);
        if b_abs.is_zero() {
            return Err(FixedPointError::DivisionByZero);
        }
        let a_rescale = a_abs.mul(&self.constants.quantization_scale);
        let (q, _) = a_rescale.n.div_mod_floor(&b_abs.n);
        proof {
            vstd::arithmetic::div_mod::lemma_div_is_ordered_by_denominator(a_rescale@ as int, 1, b_abs@ as int);
        }
        let res_abs = Fe { n: q };
        if a_neg != b_neg {
            Ok(res_abs.neg())
        } else {
            Ok(res_abs)
        }
    }

    /// The remainder of `a` by a positive `b`, in `[0, b)`: the remainder
    /// of `|a|`, taken from `b` when `a` is negative and it is not zero; a
    /// negative or zero `b` is refused.
    pub fn qmod(&self, a: &Fe, b: &Fe) -> (r: Result<Fe, FixedPointError>)
        requires
            self.wf(),
            a.wf(),
            b.wf(),
        ensures
            result_wf(r),
            result_value(r) == spec_qmod(a@, b@, self.pb()),
            r.is_ok() ==> r.unwrap()@ < b@,
    {
        if self.negative(b) {
            return Err(FixedPointError::NegativeModulus);
        }
        if b.is_zero() {
            return Err(FixedPointError::DivisionByZero);
        }
        let a_neg = self.negative(a);
        let a_abs = self.qabs(a);
        let (_, res_abs) = a_abs.n.div_mod_floor(&b.n);
        if a_neg && !res_abs.eq_value(&BigNat::from_u128(0)) {
            Ok(Fe { n: b.n.minus(&res_abs) })
        } else {
            Ok(Fe { n: res_abs })
        }
    }

    /// `1` when exactly one of the bits `a` and `b` is set: their field sum is one.
    pub fn bit_xor(&self, a: &Fe, b: &Fe) -> (r: Fe)
        requires
            a.wf(),
            b.wf(),
        ensures
            r.wf(),
            r@ == spec_bit_xor(a@, b@),
    {
        let ab = a.add(b);
        if ab.eq_value(&Fe::one()) {
            Fe::one()
        } else {
            Fe::zero()
        }
    }

    pub fn qmax(&self, a: &Fe, b: &Fe) -> (r: Fe)
        requires
            self.wf(),
            a.wf(),
            b.wf(),
        ensures
            r.wf(),
            r@ == spec_qmax(a@, b@, self.pb()),
    {
        if self.negative(&a.sub(b)) {
            b.clone()
        } else {
            a.clone()
        }
    }

    pub fn qmin(&self, a: &Fe, b: &Fe) -> (r: Fe)
        requires
            self.wf(),
            a.wf(),
            b.wf(),
        ensures
            r.wf(),
            r@ == spec_qmin(a@, b@, self.pb()),
    {
        if self.negative(&a.sub(b)) {
            a.clone()
        } else {
            b.clone()
        }
    }

    /// The field sum of all of `a`; zero for an empty sequence.
    pub fn qsum(&self, a: &Vec<Fe>) -> (r: Fe)
        requires
            all_wf(a@),
        ensures
            r.wf(),
            r@ == spec_qsum(values(a@)),
    {
        let mut acc = Fe::zero();
        let mut i: usize = 0;
        while i < a.len()
            invariant
                0 <= i <= a.len(),
                all_wf(a@),
                acc.wf(),
                acc@ == spec_qsum(values(a@).take(i as int)),
            decreases a.len() - i,
        {
            proof {
                assert(values(a@).take(i + 1).drop_last() =~= values(a@).take(i as int));
            }
            acc = acc.add(&a[i]);
            i = i + 1;
        }
        proof {
            assert(values(a@).take(a.len() as int) =~= values(a@));
        }
        acc
    }

    /// The sum of the fixed-point products of the pairs of `a` and `b`;
    /// sequences of different lengths are refused.
    pub fn inner_product(&self, a: &Vec<Fe>, b: &Vec<Fe>) -> (r: Result<Fe, FixedPointError>)
        requires
            self.wf(),
            all_wf(a@),
            all_wf(b@),
        ensures
            result_wf(r),
            a.len() != b.len() ==> r == Err::<Fe, FixedPointError>(FixedPointError::LengthMismatch),
            a.len() == b.len() ==> result_value(r) == Ok::<nat, FixedPointError>(
                spec_inner_product(values(a@), values(b@), a.len() as nat, self.pb()),
            ),
    {
        if a.len() != b.len() {
            return Err(FixedPointError::LengthMismatch);
        }
        let mut res = Fe::zero();
        let mut i: usize = 0;
        while i < a.len()
            invariant
                0 <= i <= a.len(),
                a.len() == b.len(),
                self.wf(),
                all_wf(a@),
                all_wf(b@),
                res.wf(),
                res@ == spec_inner_product(values(a@), values(b@), i as nat, self.pb()),
            decreases a.len() - i,
        {
            let ab = self.qmul(&a[i], &b[i]);
            res = res.add(&ab);
            i = i + 1;
        }
        Ok(res)
    }

    /// Evaluates the polynomial with coefficients `coef`, highest degree
    /// first, at `x` by Horner's rule with the fixed-point product.
    pub fn polynomial(&self, x: &Fe, coef: &Vec<Fe>) -> (r: Fe)
        requires
            self.wf(),
            x.wf(),
            all_wf(coef@),
            coef.len() >= 1,
        ensures
            r.wf(),
            r@ == spec_polynomial(x@, values(coef@), self.pb()),
    {
        let last = coef.len() - 1;
        let mut y = Fe::zero();
        let mut i: usize = 0;
        while i < last
            invariant
                0 <= i <= last,
                last == coef.len() - 1,
                self.wf(),
                x.wf(),
                all_wf(coef@),
                y.wf(),
                y@ == spec_horner_acc(x@, values(coef@), i as nat, self.pb()),
            decreases last - i,
        {
            let y_add = y.add(&coef[i]);
            y = self.qmul(x, &y_add);
            i = i + 1;
        }
        y.add(&coef[last])
    }
}

} // verus!
