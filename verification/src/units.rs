//! Lengths in scaled points.
//!
//! One point is 65,536 scaled points, so every length the layout handles is an
//! integer and the same on every machine.

use std::cmp::Ordering;
use std::ops::{Add, AddAssign, Sub, SubAssign};
use vstd::prelude::*;
use vstd::std_specs::cmp::PartialOrdSpecImpl;
use vstd::std_specs::ops::{AddSpecImpl, SubSpecImpl};

verus! {

/// A length in scaled points, 1/65,536 of a point each.
#[derive(Copy, Clone, Debug, PartialEq, Eq, Structural, Ord)]
pub struct Sp(pub i64);

/// Scaled points from which on a measure counts as infinite.
pub const PLUS_INFINITY: i64 = 10_000_000_000;

/// Scaled points down to which a measure counts as infinitely negative.
pub const MINUS_INFINITY: i64 = -10_000_000_000;

/// Scaled points in one point.
pub const SP_PER_PT: i64 = 65_536;

impl Add for Sp {
    type Output = Sp;

    /// The sum, where it is a length that fits: `add_req`.
    fn add(self, other: Sp) -> (sum: Sp)
        ensures
            sum.0 == self.0 + other.0,
    {
        Sp(self.0 + other.0)
    }
}

impl AddSpecImpl for Sp {
    open spec fn obeys_add_spec() -> bool {
        true
    }

    open spec fn add_req(self, other: Sp) -> bool {
        i64::MIN <= self.0 + other.0 <= i64::MAX
    }

    open spec fn add_spec(self, other: Sp) -> Sp {
        Sp((self.0 + other.0) as i64)
    }
}

impl Sub for Sp {
    type Output = Sp;

    /// The difference, where it is a length that fits: `sub_req`.
    fn sub(self, other: Sp) -> (difference: Sp)
        ensures
            difference.0 == self.0 - other.0,
    {
        Sp(self.0 - other.0)
    }
}

impl SubSpecImpl for Sp {
    open spec fn obeys_sub_spec() -> bool {
        true
    }

    open spec fn sub_req(self, other: Sp) -> bool {
        i64::MIN <= self.0 - other.0 <= i64::MAX
    }

    open spec fn sub_spec(self, other: Sp) -> Sp {
        Sp((self.0 - other.0) as i64)
    }
}

impl AddAssign for Sp {
    /// Adds `other` to the length.
    fn add_assign(&mut self, other: Sp)
        requires
            i64::MIN <= old(self).0 + other.0 <= i64::MAX,
        ensures
            final(self).0 == old(self).0 + other.0,
    {
        self.0 = self.0 + other.0;
    }
}

impl SubAssign for Sp {
    /// Takes `other` from the length.
    fn sub_assign(&mut self, other: Sp)
        requires
            i64::MIN <= old(self).0 - other.0 <= i64::MAX,
        ensures
            final(self).0 == old(self).0 - other.0,
    {
        self.0 = self.0 - other.0;
    }
}

impl PartialOrd for Sp {
    /// Lengths are ordered as their numbers of scaled points are.
    fn partial_cmp(&self, other: &Sp) -> (order: Option<Ordering>) {
        self.0.partial_cmp(&other.0)
    }
}

impl PartialOrdSpecImpl for Sp {
    open spec fn obeys_partial_cmp_spec() -> bool {
        true
    }

    open spec fn partial_cmp_spec(&self, other: &Sp) -> Option<Ordering> {
        if self.0 < other.0 {
            Some(Ordering::Less)
        } else if self.0 == other.0 {
            Some(Ordering::Equal)
        } else {
            Some(Ordering::Greater)
        }
    }
}

} // verus!
