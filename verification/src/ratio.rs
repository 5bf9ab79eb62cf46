//! Exact fractions of machine integers.

use vstd::prelude::*;

verus! {

/// The fraction `numerator / denominator`, kept as its two integers.
///
/// A ratio whose denominator is zero has no value; it neither exceeds another
/// ratio nor is exceeded by one.
#[derive(Clone, Copy, Debug, PartialEq, Eq, Structural)]
pub struct Ratio {
    pub numerator: u32,
    pub denominator: u32,
}

impl Ratio {
    /// Whether the ratio has a value.
    pub open spec fn is_defined(self) -> bool {
        self.denominator > 0
    }

    /// Whether both ratios have a value and `self` is the strictly greater one.
    pub open spec fn exceeds_spec(&self, other: &Ratio) -> bool {
        &&& self.denominator > 0
        &&& other.denominator > 0
        &&& self.numerator * other.denominator > other.numerator * self.denominator
    }

    /// Whether the ratio has a value and that value lies between 0 and 1.
    pub open spec fn within_unit(self) -> bool {
        0 < self.denominator && self.numerator <= self.denominator
    }

    /// Whether the ratio has the value 0.
    pub open spec fn is_zero(self) -> bool {
        self.denominator > 0 && self.numerator == 0
    }

    /// Compares two ratios by cross-multiplication, which is exact.
    #[verifier::when_used_as_spec(exceeds_spec)]
    pub fn exceeds(&self, other: &Ratio) -> (greater: bool)
        ensures
            greater == self.exceeds_spec(other),
    {
        if self.denominator == 0 || other.denominator == 0 {
            return false;
        }
        proof {
            lemma_product_fits(self.numerator, other.denominator);
            lemma_product_fits(other.numerator, self.denominator);
        }
        let left: u64 = (self.numerator as u64) * (other.denominator as u64);
        let right: u64 = (other.numerator as u64) * (self.denominator as u64);
        left > right
    }
}

/// The product of two 32-bit numbers fits in 64 bits.
proof fn lemma_product_fits(a: u32, b: u32)
    by (nonlinear_arith)
    ensures
        a * b <= u64::MAX,
{
}

} // verus!
