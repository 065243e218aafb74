//! Pixel sorting on RGBA rasters, with machine-checked contracts.
//!
//! Along every row or column of an image, neighbouring pixels whose luminance lies in a
//! chosen band form runs. [`effects::sort::sort`] sorts each run by a scalar of the
//! pixel (a channel, the channel sum, hue, saturation or lightness) and leaves every
//! other pixel where it is. It works on images that hold RGBA with eight bits per
//! channel; [`effects::sort::try_sort`] takes any image and declines the others.
//!
//! All arithmetic is exact: luminance is counted in ten-thousandths of a channel unit,
//! and the scalars are fractions of integers compared by cross-multiplication. The
//! result of a sort is defined by [`effects::sort::sorted_grid`], and
//! [`effects::laws`] proves what follows from that definition. What is taken on trust
//! about the `image` crate is gathered in [`raster`].

pub mod color_helpers;
pub mod effects;
pub mod grid;
pub mod options;
pub mod pixel;
pub mod raster;
pub mod scalar;
