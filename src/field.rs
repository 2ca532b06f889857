//! Elements of the BN254 scalar field, the universe of circuit arithmetic.
use vstd::prelude::*;
use crate::bignum::BigNat;

verus! {

/// The order of the BN254 scalar field.
pub open spec fn modulus() -> nat {
    MODULUS_HI as nat * two_pow_128() + MODULUS_LO as nat
}

/// `2^128`.
pub open spec fn two_pow_128() -> nat {
    0x1_0000_0000_0000_0000 * 0x1_0000_0000_0000_0000
}

/// The canonical representative of `x` in the field.
pub open spec fn fmod(x: int) -> nat {
    (x % (modulus() as int)) as nat
}

/// The upper 128 bits of the order.
pub const MODULUS_HI: u128 = 0x30644e72e131a029b85045b68181585d;

/// The lower 128 bits of the order.
pub const MODULUS_LO: u128 = 0x2833e84879b9709143e1f593f0000001;

/// The field's order as a number.
pub fn modulus_nat() -> (r: BigNat)
    ensures
        r@ == modulus(),
{
    let hi = BigNat::from_u128(MODULUS_HI);
    let lo = BigNat::from_u128(MODULUS_LO);
    let shift = BigNat::from_u128(0x1_0000_0000_0000_0000).times(&BigNat::from_u128(0x1_0000_0000_0000_0000));
    hi.times(&shift).plus(&lo)
}

/// A field element, kept as its canonical representative in `[0, modulus)`.
#[derive(Debug, PartialEq, Eq)]
pub struct Fe {
    pub n: BigNat,
}

impl View for Fe {
    type V = nat;

    open spec fn view(&self) -> nat {
        self.n@
    }
}

impl Clone for Fe {
    fn clone(&self) -> (r: Self)
        ensures
            r@ == self@,
    {
        Fe { n: self.n.clone() }
    }
}

/// A trait for reading the low bits of a field element.
pub trait ScalarFieldExt {
    /// The least significant 128 bits of the element.
    fn get_lower_128(&self) -> u128;
}

impl ScalarFieldExt for Fe {
    fn get_lower_128(&self) -> (r: u128)
        ensures
            r == self@ % two_pow_128(),
    {
        let base = BigNat::from_u128(0x1_0000_0000_0000_0000).times(&BigNat::from_u128(0x1_0000_0000_0000_0000));
        let (_, low) = self.n.div_mod_floor(&base);
        match low.to_u128() {
            Some(v) => v,
            None => 0,
        }
    }
}

impl Fe {
    pub open spec fn wf(&self) -> bool {
        self@ < modulus()
    }

    /// The element with the given canonical value.
    pub fn from_u128(x: u128) -> (r: Fe)
        ensures
            r.wf(),
            r@ == x,
    {
        Fe { n: BigNat::from_u128(x) }
    }

    pub fn zero() -> (r: Fe)
        ensures
            r.wf(),
            r@ == 0,
    {
        Fe::from_u128(0)
    }

    pub fn one() -> (r: Fe)
        ensures
            r.wf(),
            r@ == 1,
    {
        Fe::from_u128(1)
    }

    /// The element congruent to `x`.
    pub fn reduce(x: &BigNat) -> (r: Fe)
        ensures
            r.wf(),
            r@ == fmod(x@ as int),
    {
        let (_, m) = x.div_mod_floor(&modulus_nat());
        Fe { n: m }
    }

    /// `self + o` in the field.
    pub fn add(&self, o: &Fe) -> (r: Fe)
        requires
            self.wf(),
            o.wf(),
        ensures
            r.wf(),
            r@ == fmod((self@ + o@) as int),
    {
        let p = modulus_nat();
        let s = self.n.plus(&o.n);
        if s.lt(&p) {
            proof {
                vstd::arithmetic::div_mod::lemma_small_mod(s@, modulus());
            }
            Fe { n: s }
        } else {
            let d = s.minus(&p);
            proof {
                vstd::arithmetic::div_mod::lemma_small_mod(d@, modulus());
                vstd::arithmetic::div_mod::lemma_mod_sub_multiples_vanish(s@ as int, modulus() as int);
            }
            Fe { n: d }
        }
    }

    /// `-self` in the field.
    pub fn neg(&self) -> (r: Fe)
        requires
            self.wf(),
        ensures
            r.wf(),
            r@ == fmod(-(self@ as int)),
    {
        let zero = BigNat::from_u128(0);
        if self.n.eq_value(&zero) {
            proof {
                vstd::arithmetic::div_mod::lemma_small_mod(0, modulus());
            }
            Fe { n: zero }
        } else {
            let d = modulus_nat().minus(&self.n);
            proof {
                vstd::arithmetic::div_mod::lemma_small_mod(d@, modulus());
                vstd::arithmetic::div_mod::lemma_mod_add_multiples_vanish(-(self@ as int), modulus() as int);
            }
            Fe { n: d }
        }
    }

    /// `self - o` in the field.
    pub fn sub(&self, o: &Fe) -> (r: Fe)
        requires
            self.wf(),
            o.wf(),
        ensures
            r.wf(),
            r@ == fmod(self@ - o@),
    {
        if o.n.le(&self.n) {
            let d = self.n.minus(&o.n);
            proof {
                vstd::arithmetic::div_mod::lemma_small_mod(d@, modulus());
            }
            Fe { n: d }
        } else {
            let d = self.n.plus(&modulus_nat()).minus(&o.n);
            proof {
                vstd::arithmetic::div_mod::lemma_small_mod(d@, modulus());
                vstd::arithmetic::div_mod::lemma_mod_add_multiples_vanish(self@ - o@, modulus() as int);
            }
            Fe { n: d }
        }
    }

    /// `self * o` in the field.
    pub fn mul(&self, o: &Fe) -> (r: Fe)
        requires
            self.wf(),
            o.wf(),
        ensures
            r.wf(),
            r@ == fmod((self@ * o@) as int),
    {
        Fe::reduce(&self.n.times(&o.n))
    }

    pub fn eq_value(&self, o: &Fe) -> (r: bool)
        ensures
            r == (self@ == o@),
    {
        self.n.eq_value(&o.n)
    }

    pub fn is_zero(&self) -> (r: bool)
        ensures
            r == (self@ == 0),
    {
        self.n.eq_value(&BigNat::from_u128(0))
    }
}

} // verus!
