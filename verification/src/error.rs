//! The two failure modes of the library: a color that cannot be
//! displayed in the destination gamut, and a component outside its
//! color space's specified range.

use vstd::prelude::*;

verus! {

/// A color, through a conversion, can not be represented in the color
/// gamut of the destination color space.
#[derive(Clone, Copy, Debug, PartialEq, Eq, Structural)]
pub struct OutOfGamut;

/// A color is invalid according to the specification of its color
/// space: some component lies outside that space's valid range.
#[derive(Clone, Copy, Debug, PartialEq, Eq, Structural)]
pub struct OutOfSpecification;

impl OutOfGamut {
    /// A human-readable description of the error.
    pub fn message(&self) -> (r: String)
        ensures
            r@ == "color is out of gamut"@,
    {
        "color is out of gamut".to_string()
    }
}

impl OutOfSpecification {
    /// A human-readable description of the error.
    pub fn message(&self) -> (r: String)
        ensures
            r@ == "invalid color according to the specifications of its color space"@,
    {
        "invalid color according to the specifications of its color space".to_string()
    }
}

} // verus!
