//! Rasters of the `image` crate, and what this library takes on trust about them.
//!
//! Nothing here is proved. Each contract restates, over [`Grid`], what the source of
//! `image` shows of the function it wraps.

use vstd::prelude::*;
use image::{DynamicImage, RgbaImage};
use crate::grid::Grid;
use crate::pixel::Rgba8;

verus! {

#[verifier::external_type_specification]
#[verifier::external_body]
pub struct ExDynamicImage(DynamicImage);

/// An `image::RgbaImage`: eight bits per channel, four channels, stored row by row.
#[verifier::external_body]
pub struct Raster {
    buffer: RgbaImage,
}

/// `img` holds its pixels as RGBA with eight bits per channel: it is the variant
/// `DynamicImage::ImageRgba8`, and `DynamicImage::as_rgba8` hands out its buffer.
pub uninterp spec fn is_rgba8(img: DynamicImage) -> bool;

/// Number of columns of the buffer of an image that [`is_rgba8`].
pub uninterp spec fn rgba8_width(img: DynamicImage) -> nat;

/// Rows of the buffer of an image that [`is_rgba8`], top to bottom, each from left to
/// right.
pub uninterp spec fn rgba8_rows(img: DynamicImage) -> Seq<Seq<Rgba8>>;

/// Number of columns of a raster.
pub uninterp spec fn raster_width(raster: Raster) -> nat;

/// Rows of a raster, top to bottom, each from left to right.
pub uninterp spec fn raster_rows(raster: Raster) -> Seq<Seq<Rgba8>>;

/// What an image that [`is_rgba8`] holds.
pub open spec fn decoded(img: DynamicImage) -> Grid {
    Grid { width: rgba8_width(img), rows: rgba8_rows(img) }
}

/// What a raster holds.
pub open spec fn raster_grid(raster: Raster) -> Grid {
    Grid { width: raster_width(raster), rows: raster_rows(raster) }
}

/// `DynamicImage::as_rgba8`: whether the image is the variant `ImageRgba8`.
#[verifier::external_body]
pub(crate) fn holds_rgba8(img: &DynamicImage) -> (held: bool)
    ensures
        held == is_rgba8(*img),
{
    img.as_rgba8().is_some()
}

/// The variant `DynamicImage::ImageRgba8`, taken apart: its buffer, moved out as it is.
/// An image of any other variant comes back untouched.
#[verifier::external_body]
pub(crate) fn into_raster(img: DynamicImage) -> (taken: Result<Raster, DynamicImage>)
    ensures
        taken is Ok <==> is_rgba8(img),
        taken matches Ok(raster) ==> raster_width(raster) == rgba8_width(img) && raster_rows(
            raster,
        ) == rgba8_rows(img),
        taken matches Err(back) ==> back == img,
{
    match img {
        DynamicImage::ImageRgba8(buffer) => Ok(Raster { buffer }),
        other => Err(other),
    }
}

/// The variant `DynamicImage::ImageRgba8`, put together: the image that holds the
/// raster's buffer as it is.
#[verifier::external_body]
pub(crate) fn into_dynamic(raster: Raster) -> (img: DynamicImage)
    ensures
        is_rgba8(img),
        rgba8_width(img) == raster_width(raster),
        rgba8_rows(img) == raster_rows(raster),
{
    DynamicImage::ImageRgba8(raster.buffer)
}

/// `ImageBuffer::dimensions`: width and height. The buffer stores `height` rows of
/// `width` pixels, and a buffer that exists holds its `4 * width * height` bytes in one
/// vector, whose length is at most `isize::MAX`.
#[verifier::external_body]
pub(crate) fn dimensions(raster: &Raster) -> (dims: (u32, u32))
    ensures
        dims.0 == raster_width(*raster),
        dims.1 == raster_rows(*raster).len(),
        forall|y: int| 0 <= y < dims.1 ==> (#[trigger] raster_rows(*raster)[y]).len() == dims.0,
        4 * dims.0 * dims.1 <= isize::MAX,
{
    raster.buffer.dimensions()
}

/// `ImageBuffer::new`: a raster of the given size with every channel zero. It panics
/// when the byte count does not fit a vector, which the precondition rules out.
#[verifier::external_body]
pub(crate) fn new_raster(width: u32, height: u32) -> (raster: Raster)
    requires
        4 * width * height <= isize::MAX,
    ensures
        raster_width(raster) == width,
        raster_rows(raster) == Grid::blank(width as nat, height as nat).rows,
{
    Raster { buffer: RgbaImage::new(width, height) }
}

/// `ImageBuffer::get_pixel`: the pixel in column `x` of row `y`. It panics outside the
/// raster.
#[verifier::external_body]
pub(crate) fn get_pixel(raster: &Raster, x: u32, y: u32) -> (p: Rgba8)
    requires
        x < raster_width(*raster),
        y < raster_rows(*raster).len(),
    ensures
        p == raster_rows(*raster)[y as int][x as int],
{
    let px = raster.buffer.get_pixel(x, y);
    Rgba8 { r: px.0[0], g: px.0[1], b: px.0[2], a: px.0[3] }
}

/// `ImageBuffer::put_pixel`: overwrites the pixel in column `x` of row `y` and nothing
/// else. It panics outside the raster.
#[verifier::external_body]
pub(crate) fn put_pixel(raster: &mut Raster, x: u32, y: u32, p: Rgba8)
    requires
        x < raster_width(*old(raster)),
        y < raster_rows(*old(raster)).len(),
    ensures
        raster_width(*final(raster)) == raster_width(*old(raster)),
        raster_rows(*final(raster)) == raster_rows(*old(raster)).update(
            y as int,
            raster_rows(*old(raster))[y as int].update(x as int, p),
        ),
{
    raster.buffer.put_pixel(x, y, image::Rgba([p.r, p.g, p.b, p.a]));
}

} // verus!
