use vstd::prelude::*;

verus! {

/// An exact non-negative fraction `num / den`.
///
/// Two ratios are structurally equal when both parts agree; `1/2` and `2/4`
/// denote the same number but are different values of this type.
#[derive(Clone, Copy, Debug, PartialEq, Eq, Structural)]
pub struct Ratio {
    pub num: u128,
    pub den: u128,
}

impl Ratio {
    /// The fraction lies in the closed interval from zero to one.
    pub open spec fn is_proportion(self) -> bool {
        0 < self.den && self.num <= self.den
    }

    /// The fraction denotes zero.
    pub open spec fn is_zero_spec(self) -> bool {
        self.den > 0 && self.num == 0
    }

    /// The fraction denotes one.
    pub open spec fn is_one_spec(self) -> bool {
        self.den > 0 && self.num == self.den
    }

    /// Whether the fraction denotes zero.
    #[verifier::when_used_as_spec(is_zero_spec)]
    pub fn is_zero(self) -> (b: bool)
        ensures
            b == self.is_zero_spec(),
    {
        self.den > 0 && self.num == 0
    }

    /// Whether the fraction denotes one.
    #[verifier::when_used_as_spec(is_one_spec)]
    pub fn is_one(self) -> (b: bool)
        ensures
            b == self.is_one_spec(),
    {
        self.den > 0 && self.num == self.den
    }
}

} // verus!
