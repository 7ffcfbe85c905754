//! Exact real number arithmetic: rationals, symbolic reals and a small
//! prefix-notation expression language.

use vstd::prelude::*;

pub mod computable;
pub mod laws;
pub mod natural;
pub mod rational;
pub mod reals;
pub mod simple;

verus! {

/// The problems which can arise during arithmetic, parsing or conversion.
#[derive(Clone, Copy, Debug, PartialEq, Eq, Structural)]
pub enum Problem {
    ParseError,
    DivideByZero,
    NotFound,
    SqrtNegative,
    NotANumber,
    NotAnInteger,
    InsufficientParameters,
    BadInteger,
    OutOfRange,
    Infinity,
}

/// The sign of a number.
#[derive(Clone, Copy, Debug, PartialEq, Eq, Structural)]
pub enum Sign {
    Minus,
    NoSign,
    Plus,
}

impl Sign {
    /// The sign as a factor: -1, 0 or 1.
    pub open spec fn factor(self) -> int {
        match self {
            Sign::Minus => -1,
            Sign::NoSign => 0,
            Sign::Plus => 1,
        }
    }

    /// The signed integer with this sign and magnitude `m`.
    pub open spec fn apply(self, m: nat) -> int {
        match self {
            Sign::Minus => -m,
            Sign::NoSign => 0,
            Sign::Plus => m as int,
        }
    }
}

} // verus!
