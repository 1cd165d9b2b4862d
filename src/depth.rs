//! Exact depths of water.
use vstd::prelude::*;

verus! {

/// A depth of water as the exact fraction `num / den`.
#[derive(Clone, Copy, Debug)]
pub struct Depth {
    pub num: i128,
    pub den: u64,
}

impl Depth {
    /// The fraction has a positive denominator.
    pub open spec fn wf(self) -> bool {
        self.den > 0
    }

    /// The depth is the whole number `v`.
    pub open spec fn is_whole(self, v: int) -> bool {
        self.num == v * self.den
    }

    /// The two depths are the same fraction.
    pub open spec fn same_as(self, other: Depth) -> bool {
        self.num * other.den == other.num * self.den
    }

    /// The depth equals the fraction `num / den`.
    pub open spec fn equals(self, num: int, den: int) -> bool {
        self.num * den == num * self.den
    }
}

} // verus!
