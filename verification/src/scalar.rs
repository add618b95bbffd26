//! Real-valued quantities as the verified core sees them.

use vstd::prelude::*;

verus! {

/// A real number, held as the 64 bits of its IEEE-754 double-precision
/// encoding. The verified core stores and hands on such values and never
/// interprets them; two scalars are equal when their bits are.
#[derive(Clone, Copy, Debug, PartialEq, Eq, Structural)]
pub struct Scalar {
    pub bits: u64,
}

impl Scalar {
    pub fn from_bits(bits: u64) -> (r: Self)
        ensures
            r.bits == bits,
    {
        Scalar { bits }
    }

    pub fn to_bits(self) -> (r: u64)
        ensures
            r == self.bits,
    {
        self.bits
    }
}

} // verus!
