//! The colour value that every other module works on.

use vstd::prelude::*;

verus! {

/// One raster cell: red, green, blue and alpha, eight bits each.
#[derive(Clone, Copy, Debug, PartialEq, Eq, Structural)]
pub struct Rgba8 {
    pub r: u8,
    pub g: u8,
    pub b: u8,
    pub a: u8,
}

impl Rgba8 {
    /// The value a freshly allocated raster holds everywhere: black, fully transparent.
    pub open spec fn transparent() -> Rgba8 {
        Rgba8 { r: 0, g: 0, b: 0, a: 0 }
    }
}

} // verus!
