//! RGBA samples.

use vstd::prelude::*;

verus! {

/// One RGBA sample of an image.
#[derive(Clone, Copy, Debug, PartialEq, Eq, Structural)]
pub struct Rgba {
    pub r: u8,
    pub g: u8,
    pub b: u8,
    pub a: u8,
}

impl Rgba {
    /// The fully transparent black sample that an untouched image holds.
    pub open spec fn clear() -> Rgba {
        Rgba { r: 0, g: 0, b: 0, a: 0 }
    }

    /// Returns the transparent sample.
    pub fn transparent() -> (p: Rgba)
        ensures
            p == Rgba::clear(),
    {
        Rgba { r: 0, g: 0, b: 0, a: 0 }
    }
}

} // verus!
