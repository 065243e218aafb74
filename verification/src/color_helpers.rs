//! The scalar extractor: from a pixel to the number it is gated or ordered by.
//!
//! Every quantity is exact. Luminance is counted in ten-thousandths; the others are
//! fractions of integers.

use vstd::prelude::*;
use crate::options::{SortMethod, Threshold};
use crate::pixel::Rgba8;
use crate::scalar::Scalar;

verus! {

/// Largest of the three colour channels.
pub open spec fn max_channel(p: Rgba8) -> int {
    if p.r >= p.g && p.r >= p.b {
        p.r as int
    } else if p.g >= p.b {
        p.g as int
    } else {
        p.b as int
    }
}

/// Smallest of the three colour channels.
pub open spec fn min_channel(p: Rgba8) -> int {
    if p.r <= p.g && p.r <= p.b {
        p.r as int
    } else if p.g <= p.b {
        p.g as int
    } else {
        p.b as int
    }
}

/// 0.2126 R + 0.7152 G + 0.0722 B, in ten-thousandths.
pub open spec fn luminance_spec(p: Rgba8) -> int {
    2126 * p.r + 7152 * p.g + 722 * p.b
}

/// (max + min) / 510.
pub open spec fn lightness_spec(p: Rgba8) -> Scalar {
    Scalar { num: (max_channel(p) + min_channel(p)) as i32, den: 510 }
}

/// With d = (max - min) / 255 and L the lightness: d / (1 - (2L - 1)) where L > 0, else 0.
///
/// Multiplied out, the quotient is (max - min) / (510 - (max + min)). On white both
/// terms vanish and the value is undefined.
pub open spec fn saturation_spec(p: Rgba8) -> Scalar {
    let sum = max_channel(p) + min_channel(p);
    if sum > 0 {
        Scalar { num: (max_channel(p) - min_channel(p)) as i32, den: (510 - sum) as u32 }
    } else {
        Scalar { num: 0, den: 1 }
    }
}

/// Twice the numerator of the hue's cosine: 2R - G - B.
pub open spec fn hue_adjacent(p: Rgba8) -> int {
    2 * p.r - p.g - p.b
}

/// Four times the radicand under the hue's cosine: 4 (R² + G² + B² - RG - RB - GB).
pub open spec fn hue_radicand(p: Rgba8) -> int {
    4 * (p.r * p.r + p.g * p.g + p.b * p.b - p.r * p.g - p.r * p.b - p.g * p.b)
}

/// Where the hue angle lies on a scale from 0 to 4 that rises with the angle.
///
/// The angle is t = acos((R - G/2 - B/2) / sqrt(R² + G² + B² - RG - RB - GB)) degrees where
/// G >= B, and 360 - t otherwise. Its cosine is `hue_adjacent / sqrt(hue_radicand)`, so
/// c = cos t |cos t| is the fraction `hue_adjacent |hue_adjacent| / hue_radicand`. The
/// angle being irrational for most pixels, the scalar is its image under the strictly
/// rising map that sends t to 1 - c on [0, 180] and 360 - t to 3 + c on (180, 360).
/// On a grey pixel the cosine is zero over zero and the hue is undefined.
pub open spec fn hue_spec(p: Rgba8) -> Scalar {
    let n = hue_adjacent(p);
    let d = hue_radicand(p);
    let c = if n >= 0 { n * n } else { -(n * n) };
    if p.g >= p.b {
        Scalar { num: (d - c) as i32, den: d as u32 }
    } else {
        Scalar { num: (3 * d + c) as i32, den: d as u32 }
    }
}

/// The pixel's luminance lies inside the band, bounds included.
pub open spec fn in_gate(gate: Threshold, p: Rgba8) -> bool {
    gate.min <= luminance_spec(p) <= gate.max
}

/// The scalar that `method` orders a pixel by.
pub open spec fn scalar_of(method: SortMethod, p: Rgba8) -> Scalar {
    match method {
        SortMethod::Default => Scalar { num: (p.r + p.g + p.b) as i32, den: 1 },
        SortMethod::Red => Scalar { num: p.r as i32, den: 1 },
        SortMethod::Green => Scalar { num: p.g as i32, den: 1 },
        SortMethod::Blue => Scalar { num: p.b as i32, den: 1 },
        SortMethod::Alpha => Scalar { num: p.a as i32, den: 1 },
        SortMethod::Hue => hue_spec(p),
        SortMethod::Saturation => saturation_spec(p),
        SortMethod::Lightness => lightness_spec(p),
    }
}

/// The radicand is the squared length of the vector (2R - G - B, sqrt(3) (G - B)).
pub proof fn lemma_hue_radicand(p: Rgba8)
    ensures
        hue_radicand(p) == hue_adjacent(p) * hue_adjacent(p) + 3 * ((p.g - p.b) * (p.g - p.b)),
        0 <= hue_adjacent(p) * hue_adjacent(p) <= hue_radicand(p) <= 260100,
        hue_radicand(p) == 0 <==> (p.r == p.g && p.g == p.b),
        p.g != p.b ==> hue_adjacent(p) * hue_adjacent(p) < hue_radicand(p),
{
    let (r, g, b) = (p.r as int, p.g as int, p.b as int);
    assert(4 * (r * r + g * g + b * b - r * g - r * b - g * b) == (2 * r - g - b) * (2 * r - g
        - b) + 3 * ((g - b) * (g - b))) by (nonlinear_arith);
    assert((2 * r - g - b) * (2 * r - g - b) >= 0) by (nonlinear_arith);
    assert((g - b) * (g - b) >= 0) by (nonlinear_arith);
    assert(g != b ==> (g - b) * (g - b) > 0) by (nonlinear_arith);
    assert((2 * r - g - b) * (2 * r - g - b) == 0 ==> 2 * r - g - b == 0) by (nonlinear_arith);
    assert(4 * (r * r + g * g + b * b - r * g - r * b - g * b) <= 260100) by (nonlinear_arith)
        requires
            0 <= r <= 255,
            0 <= g <= 255,
            0 <= b <= 255,
    ;
}

/// Where the scalars lie, and when there is none.
///
/// A scalar is undefined in two cases only: the hue of a grey pixel and the saturation of
/// white. Every other scalar is a number that is not negative: at most 765 for the
/// default method, at most 255 for a channel, at most 1 for saturation and lightness,
/// and below 4 on the hue scale.
pub proof fn lemma_scalar_bounds(method: SortMethod, p: Rgba8)
    ensures
        scalar_of(method, p).is_undefined() <==> (method == SortMethod::Hue && p.r == p.g && p.g
            == p.b) || (method == SortMethod::Saturation && p.r == 255 && p.g == 255 && p.b
            == 255),
        0 <= scalar_of(method, p).num,
        match method {
            SortMethod::Default => scalar_of(method, p).num <= 765 && scalar_of(method, p).den
                == 1,
            SortMethod::Red | SortMethod::Green | SortMethod::Blue | SortMethod::Alpha => scalar_of(
                method,
                p,
            ).num <= 255 && scalar_of(method, p).den == 1,
            SortMethod::Hue => scalar_of(method, p).is_undefined() || scalar_of(method, p).num < 4
                * scalar_of(method, p).den,
            SortMethod::Saturation | SortMethod::Lightness => scalar_of(method, p).num
                <= scalar_of(method, p).den,
        },
{
    lemma_hue_radicand(p);
}

/// The largest and the smallest colour channel, and their difference: the spread d in
/// units of 1/255.
fn units(rgba: &Rgba8) -> (ret: (u8, u8, u8))
    ensures
        ret.0 == max_channel(*rgba),
        ret.1 == min_channel(*rgba),
        ret.2 == max_channel(*rgba) - min_channel(*rgba),
{
    let mut max = rgba.r;
    let mut min = rgba.r;
    if rgba.g > max {
        max = rgba.g;
    }
    if rgba.b > max {
        max = rgba.b;
    }
    if rgba.g < min {
        min = rgba.g;
    }
    if rgba.b < min {
        min = rgba.b;
    }
    (max, min, max - min)
}

fn lightness_of_rgb_priv(max: u8, min: u8) -> (l: Scalar)
    ensures
        l == (Scalar { num: (max + min) as i32, den: 510 }),
{
    Scalar { num: max as i32 + min as i32, den: 510 }
}

/// Saturation as this library defines it; see [`saturation_spec`].
pub fn saturation_of_rgb(rgba: &Rgba8) -> (s: Scalar)
    ensures
        s == saturation_spec(*rgba),
{
    let (max, min, d) = units(rgba);
    let l = lightness_of_rgb_priv(max, min);

    if l.num > 0 {
        Scalar { num: d as i32, den: 510 - (l.num as u32) }
    } else {
        Scalar { num: 0, den: 1 }
    }
}

/// The hue's place on the rising scale of [`hue_spec`].
pub fn hue_of_rgb(rgba: &Rgba8) -> (h: Scalar)
    ensures
        h == hue_spec(*rgba),
{
    let (r, g, b) = (rgba.r as i32, rgba.g as i32, rgba.b as i32);
    let n: i32 = 2 * r - g - b;
    let m: i32 = g - b;
    proof {
        lemma_hue_radicand(*rgba);
        assert(0 <= m * m <= 65025) by (nonlinear_arith)
            requires
                -255 <= m <= 255,
        ;
    }
    let square: i32 = n * n;
    let d: i32 = square + 3 * (m * m);
    let c: i32 = if n >= 0 {
        square
    } else {
        -square
    };

    if g >= b {
        Scalar { num: d - c, den: d as u32 }
    } else {
        Scalar { num: 3 * d + c, den: d as u32 }
    }
}

/// Lightness: (max + min) / 510.
pub fn lightness_of_rgb(rgba: &Rgba8) -> (l: Scalar)
    ensures
        l == lightness_spec(*rgba),
{
    let (max, min, _) = units(rgba);
    lightness_of_rgb_priv(max, min)
}

/// Luminance in ten-thousandths: 2126 R + 7152 G + 722 B.
pub fn luminance(rgba: &Rgba8) -> (lum: u32)
    ensures
        lum == luminance_spec(*rgba),
{
    2126 * (rgba.r as u32) + 7152 * (rgba.g as u32) + 722 * (rgba.b as u32)
}

} // verus!
