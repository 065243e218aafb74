//! What a caller chooses: the luminance band, the scan axis, the order and the sort key.

use vstd::prelude::*;

verus! {

/// How many steps of the luminance scale make up one unit of an eight-bit channel.
///
/// The luminance weights 0.2126, 0.7152 and 0.0722 have four decimals, so on a scale
/// of ten-thousandths the luminance of every pixel is a whole number.
pub const LUMINANCE_SCALE: u32 = 10_000;

/// An inclusive luminance band, both bounds in ten-thousandths of a channel unit.
///
/// A band with `min > max` is legal and contains nothing. Bounds that are not whole on
/// this scale lose nothing when the lower one is rounded up and the upper one down:
/// every luminance is whole, so the same pixels lie inside.
#[derive(Clone, Copy, Debug)]
pub struct Threshold {
    pub min: i64,
    pub max: i64,
}

/// The per-pixel quantity that runs are ordered by.
#[derive(Clone, Copy, PartialEq, Debug, Ord, PartialOrd, Eq)]
pub enum SortMethod {
    Default,
    Red,
    Green,
    Blue,
    Alpha,
    Hue,
    Saturation,
    Lightness,
}

/// The axis along which scan lines run.
#[derive(Clone, Copy, PartialEq, Debug, Ord, PartialOrd, Eq)]
pub enum SortDirection {
    Vertical,
    Horizontal,
}

/// Ascending (`LeftToRight`) or descending (`RightToLeft`) order within a run.
#[derive(Clone, Copy, PartialEq, Debug, Ord, PartialOrd, Eq)]
pub enum SortKind {
    LeftToRight,
    RightToLeft,
}

} // verus!
