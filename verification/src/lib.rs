//! Exact decimal representation of IEEE-754 floating-point bit patterns.
//!
//! Given the bit pattern of a single- or double-precision value, [`to_string`]
//! returns the full, terminating decimal expansion of the rational number the
//! pattern encodes: not a rounded or shortest-roundtrip form, but the exact
//! value, digit for digit.

pub mod big;
pub mod convert;
pub mod digits;

use vstd::prelude::*;

verus! {

/// A floating-point width the converter accepts, given by its bit pattern:
/// `u32` for single precision, `u64` for double precision.
pub trait Float: Sized {
    /// The exact decimal representation of the pattern, as a sequence of
    /// characters.
    spec fn precise_spec(self) -> Seq<char>;

    /// Renders the pattern as its exact decimal representation.
    fn to_precise_string(n: Self) -> (s: String)
        ensures
            s@ == n.precise_spec(),
    ;
}

impl Float for u32 {
    open spec fn precise_spec(self) -> Seq<char> {
        convert::f32_precise(self)
    }

    fn to_precise_string(n: Self) -> (s: String) {
        convert::f32_bits_to_string(n)
    }
}

impl Float for u64 {
    open spec fn precise_spec(self) -> Seq<char> {
        convert::f64_precise(self)
    }

    fn to_precise_string(n: Self) -> (s: String) {
        convert::f64_bits_to_string(n)
    }
}

/// The decimal representation of the single rational number whose value is
/// mathematically equal to the float whose bit pattern is given: `NaN`,
/// `inf` or `-inf` for the special patterns, and otherwise the full,
/// terminating expansion, exact to the last digit.
pub fn to_string<T: Float>(n: T) -> (s: String)
    ensures
        s@ == n.precise_spec(),
{
    T::to_precise_string(n)
}

} // verus!
