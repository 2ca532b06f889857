//! Volatility of ticks in 64-bit fixed point with 40 fractional bits, the
//! representation that the zkVM guests read and commit as big-endian bytes.
use vstd::prelude::*;
use fixed::types::I24F40;
use tiny_keccak::{Hasher, Sha3};

verus! {

/// A fixed-point number of 24 integer and 40 fractional bits, kept as its
/// raw bits: it stands for `bits / 2^40`.
#[derive(Debug, Clone, Copy, PartialEq, Eq, Structural)]
pub struct Fixed {
    pub bits: i64,
}

/// Eight big-endian bytes of a fixed-point number.
pub type NumberBytes = [u8; 8];

/// `2^40`, the scale of `Fixed`.
pub open spec fn fixed_scale() -> int {
    0x100_0000_0000
}

pub open spec fn in_i64(x: int) -> bool {
    i64::MIN <= x <= i64::MAX
}

/// The unsigned big-endian value of eight bytes.
pub open spec fn be_unsigned(b: Seq<u8>) -> int {
    b[0] * 0x100_0000_0000_0000 + b[1] * 0x1_0000_0000_0000 + b[2] * 0x100_0000_0000
        + b[3] * 0x1_0000_0000 + b[4] * 0x100_0000 + b[5] * 0x1_0000 + b[6] * 0x100 + b[7]
}

/// The two's-complement big-endian value of eight bytes.
pub open spec fn be_signed(b: Seq<u8>) -> int {
    let u = be_unsigned(b);
    if u < 0x8000_0000_0000_0000 {
        u
    } else {
        u - 0x1_0000_0000_0000_0000
    }
}

/// The fixed-point sum, when it fits.
pub open spec fn fx_add(a: int, b: int) -> Option<int> {
    if in_i64(a + b) {
        Some(a + b)
    } else {
        None
    }
}

pub open spec fn fx_sub(a: int, b: int) -> Option<int> {
    if in_i64(a - b) {
        Some(a - b)
    } else {
        None
    }
}

/// The fixed-point product rounded toward −∞, when it fits.
pub open spec fn fx_mul(a: int, b: int) -> Option<int> {
    let p = (a * b) / fixed_scale();
    if in_i64(p) {
        Some(p)
    } else {
        None
    }
}

/// The running sums `(Σδ·n_inv_sqrt, Σδ²·n1_inv)` over the first `k`
/// differences, or `None` once an operation overflows.
pub open spec fn spec_tick_sums(t: Seq<int>, k: nat, n_inv_sqrt: int, n1_inv: int) -> Option<(int, int)>
    decreases k,
{
    if k == 0 {
        Some((0, 0))
    } else {
        let j = k as int;
        match spec_tick_sums(t, (k - 1) as nat, n_inv_sqrt, n1_inv) {
            None => None,
            Some((su, su2)) => match fx_sub(t[j], t[j - 1]) {
                None => None,
                Some(delta) => match (fx_mul(delta, n_inv_sqrt), fx_mul(delta, delta)) {
                    (Some(du), Some(dd)) => match (fx_add(su, du), fx_mul(dd, n1_inv)) {
                        (Some(su_next), Some(du2)) => match fx_add(su2, du2) {
                            Some(su2_next) => Some((su_next, su2_next)),
                            None => None,
                        },
                        _ => None,
                    },
                    _ => None,
                },
            },
        }
    }
}

/// `Σδ²·n1_inv − (Σδ·n_inv_sqrt)²·n1_inv` over the differences of `t`.
pub open spec fn spec_tick_volatility(t: Seq<int>, n_inv_sqrt: int, n1_inv: int) -> Option<int>
    recommends
        t.len() >= 1,
{
    match spec_tick_sums(t, (t.len() - 1) as nat, n_inv_sqrt, n1_inv) {
        None => None,
        Some((su, su2)) => match fx_mul(su, su) {
            None => None,
            Some(sq) => match fx_mul(sq, n1_inv) {
                None => None,
                Some(x) => fx_sub(su2, x),
            },
        },
    }
}

/// The raw bits of a sequence of fixed-point numbers.
pub open spec fn fixed_bits(s: Seq<Fixed>) -> Seq<int> {
    s.map_values(|f: Fixed| f.bits as int)
}

/// Relies on `FixedI64::checked_mul` of the `fixed` crate: the product of
/// the raw bits shifted right by the 40 fractional bits (rounding toward
/// −∞), or `None` when that does not fit in 64 bits.
#[verifier::external_body]
fn fixed_checked_mul(a: i64, b: i64) -> (r: Option<i64>)
    ensures
        fx_mul(a as int, b as int) == match r {
            Some(x) => Some(x as int),
            None => None::<int>,
        },
{
    match I24F40::from_bits(a).checked_mul(I24F40::from_bits(b)) {
        Some(x) => Some(x.to_bits()),
        None => None,
    }
}

fn checked_add(a: i64, b: i64) -> (r: Option<i64>)
    ensures
        fx_add(a as int, b as int) == match r {
            Some(x) => Some(x as int),
            None => None::<int>,
        },
{
    let s = a as i128 + b as i128;
    if s < i64::MIN as i128 || s > i64::MAX as i128 {
        None
    } else {
        Some(s as i64)
    }
}

fn checked_sub(a: i64, b: i64) -> (r: Option<i64>)
    ensures
        fx_sub(a as int, b as int) == match r {
            Some(x) => Some(x as int),
            None => None::<int>,
        },
{
    let s = a as i128 - b as i128;
    if s < i64::MIN as i128 || s > i64::MAX as i128 {
        None
    } else {
        Some(s as i64)
    }
}

/// Reads a fixed-point number from its eight big-endian bytes.
pub fn to_fixed(bytes: NumberBytes) -> (r: Fixed)
    ensures
        r.bits == be_signed(bytes@),
{
    let u: u64 = bytes[0] as u64 * 0x100_0000_0000_0000 + bytes[1] as u64 * 0x1_0000_0000_0000
        + bytes[2] as u64 * 0x100_0000_0000 + bytes[3] as u64 * 0x1_0000_0000
        + bytes[4] as u64 * 0x100_0000 + bytes[5] as u64 * 0x1_0000 + bytes[6] as u64 * 0x100
        + bytes[7] as u64;
    let bits: i64 = if u < 0x8000_0000_0000_0000 {
        u as i64
    } else {
        (u - 0x8000_0000_0000_0000) as i64 - 0x4000_0000_0000_0000 - 0x4000_0000_0000_0000
    };
    Fixed { bits }
}

/// Writes a fixed-point number as its eight big-endian bytes.
pub fn to_bytes(fixed: Fixed) -> (r: NumberBytes)
    ensures
        be_signed(r@) == fixed.bits,
{
    let x = fixed.bits;
    let u: u64 = if x < 0 {
        (x + 0x4000_0000_0000_0000 + 0x4000_0000_0000_0000) as u64 + 0x8000_0000_0000_0000
    } else {
        x as u64
    };
    let r: [u8; 8] = [
        (u / 0x100_0000_0000_0000) as u8,
        (u / 0x1_0000_0000_0000 % 0x100) as u8,
        (u / 0x100_0000_0000 % 0x100) as u8,
        (u / 0x1_0000_0000 % 0x100) as u8,
        (u / 0x100_0000 % 0x100) as u8,
        (u / 0x1_0000 % 0x100) as u8,
        (u / 0x100 % 0x100) as u8,
        (u % 0x100) as u8,
    ];
    proof {
        lemma_be_digits(u);
        assert(r@[0] == u / 0x100_0000_0000_0000);
        assert(be_unsigned(r@) == u);
    }
    r
}

/// The base-256 digits of a 64-bit number put it back together.
proof fn lemma_be_digits(u: u64)
    ensures
        (u / 0x100_0000_0000_0000) * 0x100_0000_0000_0000
            + (u / 0x1_0000_0000_0000 % 0x100) * 0x1_0000_0000_0000
            + (u / 0x100_0000_0000 % 0x100) * 0x100_0000_0000
            + (u / 0x1_0000_0000 % 0x100) * 0x1_0000_0000
            + (u / 0x100_0000 % 0x100) * 0x100_0000
            + (u / 0x1_0000 % 0x100) * 0x1_0000
            + (u / 0x100 % 0x100) * 0x100
            + u % 0x100 == u,
        u / 0x100_0000_0000_0000 < 0x100,
{
    assert(
        (u / 0x100_0000_0000_0000) * 0x100_0000_0000_0000
            + (u / 0x1_0000_0000_0000 % 0x100) * 0x1_0000_0000_0000
            + (u / 0x100_0000_0000 % 0x100) * 0x100_0000_0000
            + (u / 0x1_0000_0000 % 0x100) * 0x1_0000_0000
            + (u / 0x100_0000 % 0x100) * 0x100_0000
            + (u / 0x1_0000 % 0x100) * 0x1_0000
            + (u / 0x100 % 0x100) * 0x100
            + u % 0x100 == u
    ) by (bit_vector);
    assert(u / 0x100_0000_0000_0000 < 0x100) by (bit_vector);
}

/// Once the running sums overflow they stay overflowed.
proof fn lemma_sums_overflow_persists(t: Seq<int>, k: nat, m: nat, a: int, b: int)
    requires
        k <= m,
        spec_tick_sums(t, k, a, b).is_none(),
    ensures
        spec_tick_sums(t, m, a, b).is_none(),
    decreases m - k,
{
    if k < m {
        lemma_sums_overflow_persists(t, k, (m - 1) as nat, a, b);
    }
}

/// The sample variance of the first differences of `ticks`, as
/// `Σδ²·n1_inv − (Σδ·n_inv_sqrt)²·n1_inv`; `None` where a step overflows
/// the 64-bit representation.
pub fn tick_volatility(ticks: &[Fixed], n_inv_sqrt: Fixed, n1_inv: Fixed) -> (r: Option<Fixed>)
    requires
        ticks@.len() >= 1,
    ensures
        spec_tick_volatility(fixed_bits(ticks@), n_inv_sqrt.bits as int, n1_inv.bits as int)
            == match r {
            Some(f) => Some(f.bits as int),
            None => None::<int>,
        },
{
    let ghost t = fixed_bits(ticks@);
    let ghost a = n_inv_sqrt.bits as int;
    let ghost b = n1_inv.bits as int;
    let mut ticks_prev = ticks[0];
    let mut sum_u: i64 = 0;
    let mut sum_u2: i64 = 0;
    let mut i: usize = 1;
    while i < ticks.len()
        invariant
            1 <= i <= ticks@.len(),
            t == fixed_bits(ticks@),
            a == n_inv_sqrt.bits as int,
            b == n1_inv.bits as int,
            ticks_prev == ticks@[i - 1],
            spec_tick_sums(t, (i - 1) as nat, a, b) == Some((sum_u as int, sum_u2 as int)),
        decreases ticks@.len() - i,
    {
        let ticks_curr = ticks[i];
        let delta = match checked_sub(ticks_curr.bits, ticks_prev.bits) {
            Some(d) => d,
            None => {
                proof {
                    assert(spec_tick_sums(t, i as nat, a, b).is_none());
                    lemma_sums_overflow_persists(t, i as nat, (ticks@.len() - 1) as nat, a, b);
                }
                return None;
            },
        };
        let du = fixed_checked_mul(delta, n_inv_sqrt.bits);
        let dd = fixed_checked_mul(delta, delta);
        let (du, dd) = match (du, dd) {
            (Some(x), Some(y)) => (x, y),
            _ => {
                proof {
                    assert(spec_tick_sums(t, i as nat, a, b).is_none());
                    lemma_sums_overflow_persists(t, i as nat, (ticks@.len() - 1) as nat, a, b);
                }
                return None;
            },
        };
        let su = checked_add(sum_u, du);
        let du2 = fixed_checked_mul(dd, n1_inv.bits);
        let (su, du2) = match (su, du2) {
            (Some(x), Some(y)) => (x, y),
            _ => {
                proof {
                    assert(spec_tick_sums(t, i as nat, a, b).is_none());
                    lemma_sums_overflow_persists(t, i as nat, (ticks@.len() - 1) as nat, a, b);
                }
                return None;
            },
        };
        let su2 = match checked_add(sum_u2, du2) {
            Some(x) => x,
            None => {
                proof {
                    assert(spec_tick_sums(t, i as nat, a, b).is_none());
                    lemma_sums_overflow_persists(t, i as nat, (ticks@.len() - 1) as nat, a, b);
                }
                return None;
            },
        };
        sum_u = su;
        sum_u2 = su2;
        ticks_prev = ticks_curr;
        i = i + 1;
    }
    let sq = match fixed_checked_mul(sum_u, sum_u) {
        Some(x) => x,
        None => {
            return None;
        },
    };
    let x = match fixed_checked_mul(sq, n1_inv.bits) {
        Some(x) => x,
        None => {
            return None;
        },
    };
    match checked_sub(sum_u2, x) {
        Some(s2) => Some(Fixed { bits: s2 }),
        None => None,
    }
}

/// The integer square root of a non-negative `x`.
pub open spec fn isqrt(x: int) -> int {
    choose|r: int| r >= 0 && #[trigger] (r * r) <= x < (r + 1) * (r + 1)
}

/// An integer as a fixed-point number, when it fits.
pub open spec fn fx_from_int(v: int) -> Option<int> {
    if in_i64(v * fixed_scale()) {
        Some(v * fixed_scale())
    } else {
        None
    }
}

/// The fixed-point square root rounded down; `None` below zero.
pub open spec fn fx_sqrt(a: int) -> Option<int> {
    if a < 0 {
        None
    } else {
        Some(isqrt(a * fixed_scale()))
    }
}

/// Division rounding toward zero.
pub open spec fn trunc_div(x: int, y: int) -> int {
    let q = (if x < 0 { -x } else { x }) / (if y < 0 { -y } else { y });
    if (x < 0) != (y < 0) {
        -q
    } else {
        q
    }
}

/// The fixed-point quotient rounded toward zero; `None` for a zero divisor
/// or when it does not fit.
pub open spec fn fx_div(a: int, b: int) -> Option<int> {
    if b == 0 {
        None
    } else {
        let q = trunc_div(a * fixed_scale(), b);
        if in_i64(q) {
            Some(q)
        } else {
            None
        }
    }
}

pub proof fn lemma_isqrt_unique(r: int, x: int)
    requires
        r >= 0,
        r * r <= x < (r + 1) * (r + 1),
    ensures
        isqrt(x) == r,
{
    let c = isqrt(x);
    assert(c >= 0 && c * c <= x < (c + 1) * (c + 1));
    if c < r {
        vstd::arithmetic::mul::lemma_mul_inequality(c + 1, r, c + 1);
        vstd::arithmetic::mul::lemma_mul_inequality(c + 1, r, r);
    }
    if c > r {
        vstd::arithmetic::mul::lemma_mul_inequality(r + 1, c, r + 1);
        vstd::arithmetic::mul::lemma_mul_inequality(r + 1, c, c);
    }
}

/// Relies on `FixedI64::checked_sqrt` of the `fixed` crate: for a
/// non-negative number the square root rounded down (`r ≤ √a < r + 2^-40`),
/// which always fits with integer bits present; `None` for a negative one.
#[verifier::external_body]
fn fixed_checked_sqrt(a: i64) -> (r: Option<i64>)
    ensures
        a < 0 ==> r.is_none(),
        a >= 0 ==> r.is_some() && r.unwrap() >= 0
            && r.unwrap() * r.unwrap() <= a * fixed_scale()
            < (r.unwrap() + 1) * (r.unwrap() + 1),
{
    match I24F40::from_bits(a).checked_sqrt() {
        Some(x) => Some(x.to_bits()),
        None => None,
    }
}

/// Relies on `FixedI64::checked_div` of the `fixed` crate: the raw bits
/// shifted left by the 40 fractional bits and divided rounding toward zero,
/// or `None` for a zero divisor or when the quotient does not fit.
#[verifier::external_body]
fn fixed_checked_div(a: i64, b: i64) -> (r: Option<i64>)
    ensures
        fx_div(a as int, b as int) == match r {
            Some(x) => Some(x as int),
            None => None::<int>,
        },
{
    match I24F40::from_bits(a).checked_div(I24F40::from_bits(b)) {
        Some(x) => Some(x.to_bits()),
        None => None,
    }
}

fn from_int(v: i64) -> (r: Option<i64>)
    ensures
        fx_from_int(v as int) == match r {
            Some(x) => Some(x as int),
            None => None::<int>,
        },
{
    let x = v as i128 * 0x100_0000_0000;
    if x < i64::MIN as i128 || x > i64::MAX as i128 {
        None
    } else {
        Some(x as i64)
    }
}

/// The public values that a volatility proof commits to.
#[derive(Debug, Clone, Copy, PartialEq, Eq, Structural)]
pub struct PublicData {
    pub n_inv_sqrt: Fixed,
    pub n1_inv: Fixed,
    pub s2: Fixed,
}

/// The ticks as fixed-point numbers, when each one fits.
pub open spec fn spec_ticks_fixed(t: Seq<NumberBytes>) -> Option<Seq<int>>
    decreases t.len(),
{
    if t.len() == 0 {
        Some(Seq::empty())
    } else {
        match (spec_ticks_fixed(t.drop_last()), fx_from_int(be_signed(t.last()@))) {
            (Some(s), Some(x)) => Some(s.push(x)),
            _ => None,
        }
    }
}

/// `1/√n`, `1/(n − 1)` and the squared volatility of integer ticks given as
/// big-endian bytes, all in fixed point; `None` where a step fails: fewer
/// than two ticks, or an overflow.
pub open spec fn spec_public_data(t: Seq<NumberBytes>) -> Option<(int, int, int)> {
    match fx_from_int(t.len() as int) {
        None => None,
        Some(n) => match fx_sqrt(n) {
            None => None,
            Some(sq) => match (fx_div(fixed_scale(), sq), fx_div(fixed_scale(), n - fixed_scale())) {
                (Some(a), Some(b)) => match spec_ticks_fixed(t) {
                    None => None,
                    Some(ts) => if ts.len() >= 1 {
                        match spec_tick_volatility(ts, a, b) {
                            Some(s2) => Some((a, b, s2)),
                            None => None,
                        }
                    } else {
                        None
                    },
                },
                _ => None,
            },
        },
    }
}

/// Computes the public values of a volatility proof over integer ticks.
pub fn calculate_public_data(ticks: &[NumberBytes]) -> (r: Option<PublicData>)
    ensures
        spec_public_data(ticks@) == match r {
            Some(d) => Some((d.n_inv_sqrt.bits as int, d.n1_inv.bits as int, d.s2.bits as int)),
            None => None::<(int, int, int)>,
        },
{
    let len: usize = ticks.len();
    if len as u64 > 0x7fff_ffff_ffff_ffff {
        proof {
            assert(len * 0x100_0000_0000 > 0x7fff_ffff_ffff_ffff) by (nonlinear_arith)
                requires len > 0x7fff_ffff_ffff_ffff;
        }
        return None;
    }
    let n = match from_int(len as i64) {
        Some(n) => n,
        None => {
            return None;
        },
    };
    let sq = match fixed_checked_sqrt(n) {
        Some(x) => x,
        None => {
            return None;
        },
    };
    proof {
        lemma_isqrt_unique(sq as int, n * fixed_scale());
    }
    let one: i64 = 0x100_0000_0000;
    let n_inv_sqrt = fixed_checked_div(one, sq);
    let n1_inv = fixed_checked_div(one, n - one);
    let (n_inv_sqrt, n1_inv) = match (n_inv_sqrt, n1_inv) {
        (Some(a), Some(b)) => (a, b),
        _ => {
            return None;
        },
    };
    let mut fixed_ticks: Vec<Fixed> = Vec::new();
    let mut i: usize = 0;
    while i < ticks.len()
        invariant
            0 <= i <= ticks@.len(),
            spec_ticks_fixed(ticks@.take(i as int)) == Some(fixed_bits(fixed_ticks@)),
        decreases ticks@.len() - i,
    {
        proof {
            assert(ticks@.take(i + 1).drop_last() =~= ticks@.take(i as int));
        }
        let t = to_fixed(ticks[i]);
        match from_int(t.bits) {
            Some(x) => {
                let ghost before = fixed_ticks@;
                fixed_ticks.push(Fixed { bits: x });
                proof {
                    assert(fixed_bits(fixed_ticks@) =~= fixed_bits(before).push(x as int));
                }
            },
            None => {
                proof {
                    assert(spec_ticks_fixed(ticks@.take(i + 1)).is_none());
                    lemma_ticks_fixed_overflow_persists(ticks@, (i + 1) as nat, ticks@.len());
                    assert(ticks@.take(ticks@.len() as int) =~= ticks@);
                }
                return None;
            },
        }
        i = i + 1;
    }
    proof {
        assert(ticks@.take(ticks@.len() as int) =~= ticks@);
    }
    if fixed_ticks.len() == 0 {
        return None;
    }
    match tick_volatility(fixed_ticks.as_slice(), Fixed { bits: n_inv_sqrt }, Fixed { bits: n1_inv }) {
        Some(s2) => Some(
            PublicData {
                n_inv_sqrt: Fixed { bits: n_inv_sqrt },
                n1_inv: Fixed { bits: n1_inv },
                s2,
            },
        ),
        None => None,
    }
}

proof fn lemma_ticks_fixed_overflow_persists(t: Seq<NumberBytes>, k: nat, m: nat)
    requires
        k <= m <= t.len(),
        spec_ticks_fixed(t.take(k as int)).is_none(),
    ensures
        spec_ticks_fixed(t.take(m as int)).is_none(),
    decreases m - k,
{
    if k < m {
        lemma_ticks_fixed_overflow_persists(t, k, (m - 1) as nat);
        assert(t.take(m as int).drop_last() =~= t.take(m - 1));
    }
}

/// The SHA3-256 digest of a byte string.
pub uninterp spec fn sha3_256_of(data: Seq<u8>) -> Seq<u8>;

/// Relies on `tiny_keccak::Sha3::v256`: the SHA3-256 digest of the bytes;
/// the digest depends on the bytes alone.
#[verifier::external_body]
fn sha3_256(data: &Vec<u8>) -> (r: [u8; 32])
    ensures
        r@ == sha3_256_of(data@),
{
    let mut hasher = Sha3::v256();
    hasher.update(data.as_slice());
    let mut output = [0u8; 32];
    hasher.finalize(&mut output);
    output
}

/// The bytes of all ticks, one after the other.
pub open spec fn concat_bytes(t: Seq<NumberBytes>) -> Seq<u8>
    decreases t.len(),
{
    if t.len() == 0 {
        Seq::empty()
    } else {
        concat_bytes(t.drop_last()) + t.last()@
    }
}

/// The guest program's computation over its ticks: the squared volatility
/// and the tick count as big-endian fixed-point bytes, and the SHA3-256
/// digest of all tick bytes; `None` where the volatility has no value.
pub fn tick_volatility2(ticks: &[NumberBytes], n_inv_sqrt: NumberBytes, n1_inv: NumberBytes) -> (r: Option<(NumberBytes, NumberBytes, [u8; 32])>)
    ensures
        r.is_some() <==> (fx_from_int(ticks@.len() as int).is_some() && spec_ticks_fixed(ticks@).is_some()
            && ticks@.len() >= 1 && spec_tick_volatility(spec_ticks_fixed(ticks@).unwrap(),
            be_signed(n_inv_sqrt@), be_signed(n1_inv@)).is_some()),
        r.is_some() ==> {
            let (s2, n, digest) = r.unwrap();
            &&& Some(be_signed(s2@)) == spec_tick_volatility(spec_ticks_fixed(ticks@).unwrap(),
                be_signed(n_inv_sqrt@), be_signed(n1_inv@))
            &&& Some(be_signed(n@)) == fx_from_int(ticks@.len() as int)
            &&& digest@ == sha3_256_of(concat_bytes(ticks@))
        },
{
    let len: usize = ticks.len();
    if len as u64 > 0x7fff_ffff_ffff_ffff {
        proof {
            assert(len * 0x100_0000_0000 > 0x7fff_ffff_ffff_ffff) by (nonlinear_arith)
                requires len > 0x7fff_ffff_ffff_ffff;
        }
        return None;
    }
    let n = match from_int(len as i64) {
        Some(n) => n,
        None => {
            return None;
        },
    };
    let n_inv_sqrt = to_fixed(n_inv_sqrt);
    let n1_inv = to_fixed(n1_inv);
    let mut fixed_ticks: Vec<Fixed> = Vec::new();
    let mut data: Vec<u8> = Vec::new();
    let mut i: usize = 0;
    while i < ticks.len()
        invariant
            0 <= i <= ticks@.len(),
            spec_ticks_fixed(ticks@.take(i as int)) == Some(fixed_bits(fixed_ticks@)),
            data@ == concat_bytes(ticks@.take(i as int)),
        decreases ticks@.len() - i,
    {
        proof {
            assert(ticks@.take(i + 1).drop_last() =~= ticks@.take(i as int));
        }
        let t = ticks[i];
        match from_int(to_fixed(t).bits) {
            Some(x) => {
                let ghost before = fixed_ticks@;
                fixed_ticks.push(Fixed { bits: x });
                proof {
                    assert(fixed_bits(fixed_ticks@) =~= fixed_bits(before).push(x as int));
                }
            },
            None => {
                proof {
                    assert(spec_ticks_fixed(ticks@.take(i + 1)).is_none());
                    lemma_ticks_fixed_overflow_persists(ticks@, (i + 1) as nat, ticks@.len());
                    assert(ticks@.take(ticks@.len() as int) =~= ticks@);
                }
                return None;
            },
        }
        let ghost data_before = data@;
        let mut j: usize = 0;
        while j < 8
            invariant
                0 <= j <= 8,
                t@.len() == 8,
                data@ == data_before + t@.take(j as int),
            decreases 8 - j,
        {
            data.push(t[j]);
            j = j + 1;
            proof {
                assert(data@ =~= data_before + t@.take(j as int));
            }
        }
        proof {
            assert(t@.take(8) =~= t@);
            assert(ticks@.take(i + 1).last() == t);
        }
        i = i + 1;
    }
    proof {
        assert(ticks@.take(ticks@.len() as int) =~= ticks@);
    }
    if fixed_ticks.len() == 0 {
        return None;
    }
    let s2 = match tick_volatility(fixed_ticks.as_slice(), n_inv_sqrt, n1_inv) {
        Some(s2) => s2,
        None => {
            return None;
        },
    };
    let digest = sha3_256(&data);
    Some((to_bytes(s2), to_bytes(Fixed { bits: n }), digest))
}

/// The digits of a big-endian number are read back from its value.
proof fn lemma_be_digits_of(x0: u64, x1: u64, x2: u64, x3: u64, x4: u64, x5: u64, x6: u64, x7: u64)
    requires
        x0 < 0x100, x1 < 0x100, x2 < 0x100, x3 < 0x100,
        x4 < 0x100, x5 < 0x100, x6 < 0x100, x7 < 0x100,
    ensures
        ({
            let u = x0 * 0x100_0000_0000_0000 + x1 * 0x1_0000_0000_0000 + x2 * 0x100_0000_0000
                + x3 * 0x1_0000_0000 + x4 * 0x100_0000 + x5 * 0x1_0000 + x6 * 0x100 + x7;
            &&& u / 0x100_0000_0000_0000 == x0
            &&& u / 0x1_0000_0000_0000 % 0x100 == x1
            &&& u / 0x100_0000_0000 % 0x100 == x2
            &&& u / 0x1_0000_0000 % 0x100 == x3
            &&& u / 0x100_0000 % 0x100 == x4
            &&& u / 0x1_0000 % 0x100 == x5
            &&& u / 0x100 % 0x100 == x6
            &&& u % 0x100 == x7
        }),
{
    assert({
        let u: u64 = (x0 * 0x100_0000_0000_0000 + x1 * 0x1_0000_0000_0000 + x2 * 0x100_0000_0000
            + x3 * 0x1_0000_0000 + x4 * 0x100_0000 + x5 * 0x1_0000 + x6 * 0x100 + x7) as u64;
        &&& u / 0x100_0000_0000_0000 == x0
        &&& u / 0x1_0000_0000_0000 % 0x100 == x1
        &&& u / 0x100_0000_0000 % 0x100 == x2
        &&& u / 0x1_0000_0000 % 0x100 == x3
        &&& u / 0x100_0000 % 0x100 == x4
        &&& u / 0x1_0000 % 0x100 == x5
        &&& u / 0x100 % 0x100 == x6
        &&& u % 0x100 == x7
    }) by (bit_vector)
        requires
            x0 < 0x100, x1 < 0x100, x2 < 0x100, x3 < 0x100,
            x4 < 0x100, x5 < 0x100, x6 < 0x100, x7 < 0x100;
}

/// Eight bytes are determined by the number that they encode: writing the
/// number read from some bytes gives those bytes back.
pub proof fn lemma_bytes_round_trip(b: NumberBytes, r: NumberBytes)
    requires
        be_signed(r@) == be_signed(b@),
    ensures
        r@ == b@,
{
    lemma_be_digits_of(b[0] as u64, b[1] as u64, b[2] as u64, b[3] as u64, b[4] as u64, b[5] as u64, b[6] as u64, b[7] as u64);
    lemma_be_digits_of(r[0] as u64, r[1] as u64, r[2] as u64, r[3] as u64, r[4] as u64, r[5] as u64, r[6] as u64, r[7] as u64);
    assert(be_unsigned(r@) == be_unsigned(b@));
    assert(r@ =~= b@);
}

} // verus!
