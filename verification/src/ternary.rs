//! The three-valued signal carried by strategy nodes.

use vstd::prelude::*;

verus! {

/// A ternary signal: negative, neutral or positive.
#[derive(Clone, Copy, Debug, PartialEq, Eq, Hash)]
pub enum Ternary {
    Negative,
    Neutral,
    Positive,
}

/// The older name of [`Ternary`], kept for callers that still use it; new
/// code should name `Ternary`.
pub type TernaryDeprecated = Ternary;

/// The numeric value of a ternary signal: -1, 0 or +1.
pub open spec fn ternary_value(t: Ternary) -> int {
    match t {
        Ternary::Negative => -1,
        Ternary::Neutral => 0,
        Ternary::Positive => 1,
    }
}

/// Extension trait providing the numeric value of a ternary state.
pub trait TernaryExt {
    /// Return the numeric value of this ternary state as an `i8`.
    fn value(&self) -> i8;
}

impl TernaryExt for Ternary {
    fn value(&self) -> (v: i8)
        ensures
            v == ternary_value(*self),
    {
        match self {
            Ternary::Negative => -1,
            Ternary::Neutral => 0,
            Ternary::Positive => 1,
        }
    }
}

} // verus!
