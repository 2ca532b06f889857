//! Arbitrary-size natural numbers, backed by `num_bigint::BigUint`.
//!
//! The library keeps a number as its base-2^32 digits, least significant
//! first, and reaches `BigUint` only through the small trusted operations
//! below, each of which states exactly what the operation computes.
use vstd::prelude::*;
use vstd::arithmetic::power::pow;
use num_bigint::BigUint;
use num_integer::Integer;

verus! {

/// The value of base-2^32 digits, least significant first.
pub open spec fn digits_value(d: Seq<u32>) -> nat
    decreases d.len(),
{
    if d.len() == 0 {
        0
    } else {
        d[0] as nat + 0x1_0000_0000 * digits_value(d.drop_first())
    }
}

/// A natural number of any size.
#[derive(Debug, PartialEq, Eq)]
pub struct BigNat {
    pub digits: Vec<u32>,
}

impl View for BigNat {
    type V = nat;

    open spec fn view(&self) -> nat {
        digits_value(self.digits@)
    }
}

impl Clone for BigNat {
    fn clone(&self) -> (r: Self)
        ensures
            r@ == self@,
    {
        let d = self.digits.clone();
        assert(d@ =~= self.digits@);
        BigNat { digits: d }
    }
}

impl BigNat {
    /// Relies on `BigUint::from(u128)` and `BigUint::to_u32_digits`: the value is kept.
    #[verifier::external_body]
    pub(crate) fn from_u128(x: u128) -> (r: BigNat)
        ensures
            r@ == x as nat,
    {
        BigNat { digits: BigUint::from(x).to_u32_digits() }
    }

    /// Relies on `u128::try_from(&BigUint)`: succeeds exactly when the value fits.
    #[verifier::external_body]
    pub(crate) fn to_u128(&self) -> (r: Option<u128>)
        ensures
            self@ <= u128::MAX ==> r == Some(self@ as u128),
            self@ > u128::MAX ==> r.is_none(),
    {
        u128::try_from(&BigUint::new(self.digits.clone())).ok()
    }

    /// Relies on `BigUint` addition: the exact sum.
    #[verifier::external_body]
    pub(crate) fn plus(&self, o: &BigNat) -> (r: BigNat)
        ensures
            r@ == self@ + o@,
    {
        let s = BigUint::new(self.digits.clone()) + BigUint::new(o.digits.clone());
        BigNat { digits: s.to_u32_digits() }
    }

    /// Relies on `BigUint` subtraction, which panics below zero: the exact difference.
    #[verifier::external_body]
    pub(crate) fn minus(&self, o: &BigNat) -> (r: BigNat)
        requires
            self@ >= o@,
        ensures
            r@ == self@ - o@,
    {
        let s = BigUint::new(self.digits.clone()) - BigUint::new(o.digits.clone());
        BigNat { digits: s.to_u32_digits() }
    }

    /// Relies on `BigUint` multiplication: the exact product.
    #[verifier::external_body]
    pub(crate) fn times(&self, o: &BigNat) -> (r: BigNat)
        ensures
            r@ == self@ * o@,
    {
        let s = BigUint::new(self.digits.clone()) * BigUint::new(o.digits.clone());
        BigNat { digits: s.to_u32_digits() }
    }

    /// Relies on `Integer::div_mod_floor` of `BigUint`, which panics on a zero
    /// divisor: the floor quotient and the remainder.
    #[verifier::external_body]
    pub(crate) fn div_mod_floor(&self, o: &BigNat) -> (r: (BigNat, BigNat))
        requires
            o@ > 0,
        ensures
            r.0@ == self@ / o@,
            r.1@ == self@ % o@,
    {
        let (q, m) = BigUint::new(self.digits.clone()).div_mod_floor(&BigUint::new(o.digits.clone()));
        (BigNat { digits: q.to_u32_digits() }, BigNat { digits: m.to_u32_digits() })
    }

    /// Relies on `Integer::div_ceil` of `BigUint`, which panics on a zero
    /// divisor: the quotient rounded up.
    #[verifier::external_body]
    pub(crate) fn div_ceil(&self, o: &BigNat) -> (r: BigNat)
        requires
            o@ > 0,
        ensures
            r@ == (self@ + o@ - 1) / (o@ as int),
    {
        let q = BigUint::new(self.digits.clone()).div_ceil(&BigUint::new(o.digits.clone()));
        BigNat { digits: q.to_u32_digits() }
    }

    /// Relies on `BigUint::pow`: the exact power.
    #[verifier::external_body]
    pub(crate) fn pow(&self, e: u32) -> (r: BigNat)
        ensures
            r@ == pow(self@ as int, e as nat),
    {
        BigNat { digits: BigUint::new(self.digits.clone()).pow(e).to_u32_digits() }
    }

    /// Relies on `BigUint::bits`: the fewest bits that hold the value.
    #[verifier::external_body]
    pub(crate) fn bits(&self) -> (r: u64)
        ensures
            self@ == 0 ==> r == 0,
            self@ > 0 ==> r > 0 && vstd::arithmetic::power2::pow2((r - 1) as nat) <= self@
                && self@ < vstd::arithmetic::power2::pow2(r as nat),
    {
        BigUint::new(self.digits.clone()).bits()
    }

    /// Relies on `Ord::cmp` of `BigUint`: the order of the two values.
    #[verifier::external_body]
    pub(crate) fn compare(&self, o: &BigNat) -> (r: core::cmp::Ordering)
        ensures
            (r == core::cmp::Ordering::Less) == (self@ < o@),
            (r == core::cmp::Ordering::Equal) == (self@ == o@),
            (r == core::cmp::Ordering::Greater) == (self@ > o@),
    {
        BigUint::new(self.digits.clone()).cmp(&BigUint::new(o.digits.clone()))
    }

    pub fn lt(&self, o: &BigNat) -> (r: bool)
        ensures
            r == (self@ < o@),
    {
        match self.compare(o) {
            core::cmp::Ordering::Less => true,
            _ => false,
        }
    }

    pub fn le(&self, o: &BigNat) -> (r: bool)
        ensures
            r == (self@ <= o@),
    {
        match self.compare(o) {
            core::cmp::Ordering::Greater => false,
            _ => true,
        }
    }

    pub fn eq_value(&self, o: &BigNat) -> (r: bool)
        ensures
            r == (self@ == o@),
    {
        match self.compare(o) {
            core::cmp::Ordering::Equal => true,
            _ => false,
        }
    }

    /// `2^e`.
    pub fn pow2(e: u32) -> (r: BigNat)
        ensures
            r@ == vstd::arithmetic::power2::pow2(e as nat),
    {
        let two = BigNat::from_u128(2);
        let r = two.pow(e);
        proof {
            vstd::arithmetic::power2::lemma_pow2(e as nat);
        }
        r
    }
}

} // verus!
