//! The circuit's input: exactly `N` values, one per tick.
use vstd::prelude::*;

verus! {

/// A sequence that was given a length other than the one required.
#[derive(Debug, Clone, Copy, PartialEq, Eq, Structural)]
pub struct InvalidLength {
    pub got: usize,
    pub expected: usize,
}

/// The `N` values of a volatility circuit, encoded with `PRECISION_BITS`
/// fractional bits.
#[derive(Debug, Clone, PartialEq, Eq)]
pub struct VolatilityCircuitInput<T, const PRECISION_BITS: u32, const N: usize>(pub Vec<T>);

impl<T, const PRECISION_BITS: u32, const N: usize> VolatilityCircuitInput<T, PRECISION_BITS, N> {
    /// Wraps `vec`, which must hold exactly `N` values.
    pub fn new(vec: Vec<T>) -> (r: Result<Self, InvalidLength>)
        ensures
            vec.len() == N ==> r.is_ok() && r.unwrap().0@ == vec@,
            vec.len() != N ==> r == Err::<Self, InvalidLength>(
                InvalidLength { got: vec.len(), expected: N },
            ),
    {
        if vec.len() != N {
            return Err(InvalidLength { got: vec.len(), expected: N });
        }
        Ok(VolatilityCircuitInput(vec))
    }

    /// The values.
    pub fn into_inner(self) -> (r: Vec<T>)
        ensures
            r@ == self.0@,
    {
        self.0
    }

    /// The values, in order, as one flat sequence.
    pub fn flatten_vec(&self) -> (r: Vec<T>)
        where
            T: Copy,
        ensures
            r@ == self.0@,
    {
        let mut r: Vec<T> = Vec::new();
        let mut i: usize = 0;
        while i < self.0.len()
            invariant
                0 <= i <= self.0.len(),
                r@ == self.0@.take(i as int),
            decreases self.0.len() - i,
        {
            r.push(self.0[i]);
            i = i + 1;
            proof {
                assert(r@ =~= self.0@.take(i as int));
            }
        }
        proof {
            assert(self.0@.take(self.0.len() as int) =~= self.0@);
        }
        r
    }

    /// Rebuilds the input from a flat sequence of exactly `N` values.
    pub fn unflatten(vec: Vec<T>) -> (r: Result<Self, InvalidLength>)
        ensures
            vec.len() == N ==> r.is_ok() && r.unwrap().0@ == vec@,
            vec.len() != N ==> r == Err::<Self, InvalidLength>(
                InvalidLength { got: vec.len(), expected: N },
            ),
    {
        Self::new(vec)
    }
}

} // verus!
