//! The three-state sign of a value.

use vstd::prelude::*;

verus! {

/// The sign of a number: below zero, zero, or above zero.
#[derive(Clone, Copy, Debug, PartialEq, Eq, Structural)]
pub enum Sign {
    Negative,
    Zero,
    Positive,
}

impl Sign {
    /// The sign of the integer `n`.
    pub open spec fn of(n: int) -> Sign {
        if n < 0 {
            Sign::Negative
        } else if n == 0 {
            Sign::Zero
        } else {
            Sign::Positive
        }
    }

    /// The sign as one of -1, 0, 1.
    pub open spec fn unit(self) -> int {
        match self {
            Sign::Negative => -1,
            Sign::Zero => 0,
            Sign::Positive => 1,
        }
    }

    /// The sign of a signed size field: a size of zero stands for the value
    /// zero, and otherwise the polarity of the size is that of the value.
    pub fn of_size(size: i32) -> (s: Sign)
        ensures
            s == Sign::of(size as int),
    {
        if size == 0 {
            Sign::Zero
        } else if size > 0 {
            Sign::Positive
        } else {
            Sign::Negative
        }
    }

    /// The sign as a machine integer: -1, 0 or 1.
    pub fn signum(self) -> (r: i64)
        ensures
            r as int == self.unit(),
    {
        match self {
            Sign::Negative => -1,
            Sign::Zero => 0,
            Sign::Positive => 1,
        }
    }
}

} // verus!
