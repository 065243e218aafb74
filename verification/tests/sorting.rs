use image::{DynamicImage, GrayImage, Luma, Rgb, Rgb32FImage, RgbImage, Rgba, Rgba32FImage, RgbaImage};
use pixelsort::effects::sort::{sort, try_sort};
use pixelsort::options::{SortDirection, SortKind, SortMethod, Threshold};

const EVERYTHING: Threshold = Threshold { min: 0, max: 2_550_000 };

fn band(min: i64, max: i64) -> Threshold {
    Threshold { min: min * 10_000, max: max * 10_000 }
}

fn image_of(width: u32, height: u32, pixels: &[[u8; 4]]) -> DynamicImage {
    assert_eq!(pixels.len(), (width * height) as usize);
    let mut buffer = RgbaImage::new(width, height);
    for (i, p) in pixels.iter().enumerate() {
        buffer.put_pixel(i as u32 % width, i as u32 / width, Rgba(*p));
    }
    DynamicImage::ImageRgba8(buffer)
}

fn pixels_of(img: &DynamicImage) -> Vec<[u8; 4]> {
    img.to_rgba8().pixels().map(|p| p.0).collect()
}

fn grey(v: u8) -> [u8; 4] {
    [v, v, v, 255]
}

fn row_sorted(pixels: &[[u8; 4]], gate: Threshold, kind: SortKind, method: SortMethod) -> Vec<[u8; 4]> {
    let img = image_of(pixels.len() as u32, 1, pixels);
    pixels_of(&sort(img, gate, kind, SortDirection::Horizontal, method))
}

#[test]
fn one_row_is_sorted_by_red() {
    let img = image_of(3, 1, &[[0, 0, 0, 255], [10, 10, 10, 255], [5, 5, 5, 255]]);
    let out = sort(
        img,
        band(0, 100),
        SortKind::LeftToRight,
        SortDirection::Horizontal,
        SortMethod::Red,
    );
    assert_eq!(out.width(), 3);
    assert_eq!(out.height(), 1);
    assert_eq!(pixels_of(&out), vec![[0, 0, 0, 255], [5, 5, 5, 255], [10, 10, 10, 255]]);
}

#[test]
fn nothing_in_the_band_leaves_the_row_alone() {
    let pixels = [[0, 0, 0, 255], [10, 10, 10, 255], [5, 5, 5, 255]];
    let out = sort(
        image_of(3, 1, &pixels),
        band(200, 255),
        SortKind::LeftToRight,
        SortDirection::Horizontal,
        SortMethod::Red,
    );
    assert_eq!(pixels_of(&out), pixels.to_vec());
}

// A vertical sort never reaches the last row: what comes back there is the fresh
// raster's transparent black, not the input.
#[test]
fn vertical_sort_leaves_the_last_row_blank() {
    let img = image_of(1, 3, &[grey(30), grey(20), grey(10)]);
    let out = sort(
        img,
        EVERYTHING,
        SortKind::LeftToRight,
        SortDirection::Vertical,
        SortMethod::Red,
    );
    assert_eq!(out.width(), 1);
    assert_eq!(out.height(), 3);
    let pixels = pixels_of(&out);
    assert_eq!(pixels[2], [0, 0, 0, 0]);
    // With one column only, that column is the last one and is not reached either.
    assert_eq!(pixels, vec![[0, 0, 0, 0]; 3]);
}

#[test]
fn vertical_sort_leaves_the_last_column_blank() {
    let img = image_of(3, 4, &[
        grey(90), grey(10), grey(1),
        grey(50), grey(30), grey(2),
        grey(70), grey(20), grey(3),
        grey(40), grey(60), grey(4),
    ]);
    let out = sort(
        img,
        EVERYTHING,
        SortKind::LeftToRight,
        SortDirection::Vertical,
        SortMethod::Red,
    );
    let blank = [0, 0, 0, 0];
    let expected = vec![
        grey(50), grey(10), blank,
        grey(70), grey(20), blank,
        grey(90), grey(30), blank,
        blank,    blank,    blank,
    ];
    assert_eq!(pixels_of(&out), expected);
}

#[test]
fn vertical_runs_end_at_pixels_outside_the_band() {
    let img = image_of(2, 6, &[
        grey(9),   grey(0),
        grey(3),   grey(0),
        grey(200), grey(0),
        grey(8),   grey(0),
        grey(2),   grey(0),
        grey(1),   grey(0),
    ]);
    let out = sort(
        img,
        band(0, 100),
        SortKind::LeftToRight,
        SortDirection::Vertical,
        SortMethod::Red,
    );
    let column: Vec<[u8; 4]> = pixels_of(&out).iter().step_by(2).copied().collect();
    assert_eq!(column, vec![grey(3), grey(9), grey(200), grey(2), grey(8), [0, 0, 0, 0]]);
}

#[test]
fn dimensions_are_kept() {
    for (w, h) in [(0, 0), (0, 3), (3, 0), (1, 1), (2, 5), (7, 3)] {
        for direction in [SortDirection::Horizontal, SortDirection::Vertical] {
            let img = DynamicImage::ImageRgba8(RgbaImage::from_fn(w, h, |x, y| {
                Rgba([(x * 37 + y * 11) as u8, (x * 5) as u8, (y * 91) as u8, 255])
            }));
            let out = sort(img, band(20, 120), SortKind::RightToLeft, direction, SortMethod::Default);
            assert_eq!((out.width(), out.height()), (w, h));
            assert_eq!(out.to_rgba8().dimensions(), (w, h));
        }
    }
}

#[test]
fn a_single_pixel_survives_a_horizontal_sort() {
    for gate in [EVERYTHING, band(200, 255)] {
        let out = row_sorted(&[[9, 8, 7, 6]], gate, SortKind::LeftToRight, SortMethod::Hue);
        assert_eq!(out, vec![[9, 8, 7, 6]]);
    }
}

#[test]
fn pixels_outside_the_band_stay_where_they_are() {
    let pixels = [grey(50), grey(250), grey(40), grey(30), grey(0), grey(20), grey(10)];
    let out = row_sorted(&pixels, band(5, 100), SortKind::LeftToRight, SortMethod::Red);
    assert_eq!(out[1], grey(250));
    assert_eq!(out[4], grey(0));
    assert_eq!(out, vec![grey(50), grey(250), grey(30), grey(40), grey(0), grey(10), grey(20)]);
}

#[test]
fn runs_are_sorted_one_by_one() {
    let pixels = [grey(9), grey(3), grey(200), grey(5), grey(1)];
    let out = row_sorted(&pixels, band(0, 100), SortKind::LeftToRight, SortMethod::Red);
    assert_eq!(out, vec![grey(3), grey(9), grey(200), grey(1), grey(5)]);
}

#[test]
fn an_inverted_band_returns_the_input_of_a_horizontal_sort() {
    let pixels: Vec<[u8; 4]> = (0..12u8).map(|i| [200 - 9 * i, 3 * i, 17 * i, 255 - i]).collect();
    let inverted = Threshold { min: 900_000, max: 400_000 };
    for kind in [SortKind::LeftToRight, SortKind::RightToLeft] {
        let out = sort(
            image_of(4, 3, &pixels),
            inverted,
            kind,
            SortDirection::Horizontal,
            SortMethod::Default,
        );
        assert_eq!(pixels_of(&out), pixels);
    }
}

// Vertically the same band copies what the scan reaches and leaves the last row and
// the last column transparent black.
#[test]
fn an_inverted_band_blanks_the_edge_of_a_vertical_sort() {
    let pixels: Vec<[u8; 4]> = (0..12u8).map(|i| [200 - 9 * i, 3 * i, 17 * i, 255 - i]).collect();
    let inverted = Threshold { min: 1, max: 0 };
    let out = sort(
        image_of(4, 3, &pixels),
        inverted,
        SortKind::LeftToRight,
        SortDirection::Vertical,
        SortMethod::Default,
    );
    let got = pixels_of(&out);
    for y in 0..3 {
        for x in 0..4 {
            let i = y * 4 + x;
            if x < 3 && y < 2 {
                assert_eq!(got[i], pixels[i]);
            } else {
                assert_eq!(got[i], [0, 0, 0, 0]);
            }
        }
    }
}

#[test]
fn a_run_keeps_its_pixels() {
    let pixels = [
        grey(250),
        [40, 10, 90, 1],
        [40, 10, 90, 2],
        [7, 80, 3, 3],
        [40, 10, 90, 1],
        [90, 20, 5, 4],
        grey(251),
        [3, 3, 3, 9],
    ];
    for method in [SortMethod::Default, SortMethod::Hue, SortMethod::Saturation, SortMethod::Blue] {
        for kind in [SortKind::LeftToRight, SortKind::RightToLeft] {
            let out = row_sorted(&pixels, band(1, 100), kind, method);
            let mut before = pixels[1..6].to_vec();
            let mut after = out[1..6].to_vec();
            before.sort();
            after.sort();
            assert_eq!(after, before);
            assert_eq!(out[0], pixels[0]);
            assert_eq!(out[6], pixels[6]);
            assert_eq!(out[7], pixels[7]);
        }
    }
}

#[test]
fn sorting_twice_changes_nothing() {
    let make = || {
        DynamicImage::ImageRgba8(RgbaImage::from_fn(9, 7, |x, y| {
            Rgba([(x * 83 + y * 29) as u8, (x * x * 7 + y) as u8, (y * 61 + x * 3) as u8, 255])
        }))
    };
    for direction in [SortDirection::Horizontal, SortDirection::Vertical] {
        for kind in [SortKind::LeftToRight, SortKind::RightToLeft] {
            let once = sort(make(), band(40, 150), kind, direction, SortMethod::Default);
            let first = pixels_of(&once);
            let twice = sort(once, band(40, 150), kind, direction, SortMethod::Default);
            assert_eq!(pixels_of(&twice), first);
        }
    }
}

#[test]
fn an_ascending_run_is_left_as_it_is() {
    let pixels = [[1, 1, 1, 255], [2, 2, 1, 255], [3, 2, 2, 255], [9, 9, 9, 255]];
    let out = row_sorted(&pixels, EVERYTHING, SortKind::LeftToRight, SortMethod::Default);
    assert_eq!(out, pixels.to_vec());
}

#[test]
fn red_rises_in_ascending_and_falls_in_descending_order() {
    let pixels = [[7, 0, 0, 255], [3, 9, 9, 255], [200, 1, 1, 255], [0, 50, 0, 255], [64, 0, 9, 255]];
    let up = row_sorted(&pixels, EVERYTHING, SortKind::LeftToRight, SortMethod::Red);
    let reds: Vec<u8> = up.iter().map(|p| p[0]).collect();
    assert_eq!(reds, vec![0, 3, 7, 64, 200]);
    let down = row_sorted(&pixels, EVERYTHING, SortKind::RightToLeft, SortMethod::Red);
    let reds: Vec<u8> = down.iter().map(|p| p[0]).collect();
    assert_eq!(reds, vec![200, 64, 7, 3, 0]);
}

// Pixels with the same scalar keep the order they had, in either direction.
#[test]
fn ties_keep_their_order() {
    let pixels = [[5, 0, 0, 1], [2, 0, 0, 2], [5, 0, 0, 3], [2, 0, 0, 4], [5, 0, 0, 5], [9, 0, 0, 6]];
    let up = row_sorted(&pixels, EVERYTHING, SortKind::LeftToRight, SortMethod::Red);
    assert_eq!(
        up,
        vec![[2, 0, 0, 2], [2, 0, 0, 4], [5, 0, 0, 1], [5, 0, 0, 3], [5, 0, 0, 5], [9, 0, 0, 6]]
    );
    let down = row_sorted(&pixels, EVERYTHING, SortKind::RightToLeft, SortMethod::Red);
    assert_eq!(
        down,
        vec![[9, 0, 0, 6], [5, 0, 0, 1], [5, 0, 0, 3], [5, 0, 0, 5], [2, 0, 0, 2], [2, 0, 0, 4]]
    );
}

#[test]
fn the_band_includes_its_bounds() {
    // Luminance of a grey pixel of value v is exactly v.
    let pixels = [grey(30), grey(20), grey(10), grey(40)];
    let out = row_sorted(&pixels, band(20, 30), SortKind::LeftToRight, SortMethod::Red);
    assert_eq!(out, vec![grey(20), grey(30), grey(10), grey(40)]);
    let narrower = Threshold { min: 200_001, max: 300_000 };
    let out = row_sorted(&pixels, narrower, SortKind::LeftToRight, SortMethod::Red);
    assert_eq!(out, pixels.to_vec());
    let narrower = Threshold { min: 200_000, max: 299_999 };
    let out = row_sorted(&pixels, narrower, SortKind::LeftToRight, SortMethod::Red);
    assert_eq!(out, pixels.to_vec());
}

#[test]
fn the_band_is_measured_in_luminance_whatever_the_method() {
    // Luminance 0.2126 * 255 = 54.213 for pure red, 0.0722 * 255 = 18.411 for pure blue.
    let red = [255, 0, 0, 255];
    let blue = [0, 0, 255, 255];
    let dim = [10, 10, 10, 255];
    let gate = Threshold { min: 184_110, max: 542_130 };
    let out = row_sorted(&[red, dim, blue, red, blue], gate, SortKind::LeftToRight, SortMethod::Red);
    assert_eq!(out, vec![red, dim, blue, blue, red]);
    let gate = Threshold { min: 184_111, max: 542_130 };
    let out = row_sorted(&[red, dim, blue, red, blue], gate, SortKind::LeftToRight, SortMethod::Red);
    assert_eq!(out, vec![red, dim, blue, red, blue]);
}

#[test]
fn each_channel_can_be_the_key() {
    let pixels = [[3, 1, 2, 9], [1, 2, 3, 8], [2, 3, 1, 7]];
    let by = |method| row_sorted(&pixels, EVERYTHING, SortKind::LeftToRight, method);
    assert_eq!(by(SortMethod::Red), vec![[1, 2, 3, 8], [2, 3, 1, 7], [3, 1, 2, 9]]);
    assert_eq!(by(SortMethod::Green), vec![[3, 1, 2, 9], [1, 2, 3, 8], [2, 3, 1, 7]]);
    assert_eq!(by(SortMethod::Blue), vec![[2, 3, 1, 7], [3, 1, 2, 9], [1, 2, 3, 8]]);
    assert_eq!(by(SortMethod::Alpha), vec![[2, 3, 1, 7], [1, 2, 3, 8], [3, 1, 2, 9]]);
}

#[test]
fn the_default_key_is_the_sum_of_the_colours() {
    let pixels = [[100, 100, 100, 0], [255, 0, 0, 0], [0, 0, 254, 255], [90, 90, 90, 3]];
    let out = row_sorted(&pixels, EVERYTHING, SortKind::LeftToRight, SortMethod::Default);
    assert_eq!(out, vec![[0, 0, 254, 255], [255, 0, 0, 0], [90, 90, 90, 3], [100, 100, 100, 0]]);
}

#[test]
fn lightness_orders_by_the_largest_plus_the_smallest_channel() {
    // Sums of the extremes: 200, 110, 255, 20.
    let pixels = [[200, 100, 0, 255], [10, 100, 50, 255], [255, 255, 0, 255], [10, 10, 10, 255]];
    let out = row_sorted(&pixels, EVERYTHING, SortKind::RightToLeft, SortMethod::Lightness);
    assert_eq!(
        out,
        vec![[255, 255, 0, 255], [200, 100, 0, 255], [10, 100, 50, 255], [10, 10, 10, 255]]
    );
}

#[test]
fn saturation_orders_by_spread_over_headroom() {
    // (max - min) / (510 - max - min): 100/310, 200/310, 0/470, 50/160 and, for black, 0.
    let a = [150, 50, 100, 255];
    let b = [200, 0, 100, 255];
    let c = [20, 20, 20, 255];
    let d = [200, 150, 175, 255];
    let e = [0, 0, 0, 255];
    let out = row_sorted(&[a, b, c, d, e], EVERYTHING, SortKind::LeftToRight, SortMethod::Saturation);
    assert_eq!(out, vec![c, e, d, a, b]);
}

#[test]
fn white_has_no_saturation_and_sorts_above_every_number() {
    let white = [255, 255, 255, 255];
    let vivid = [255, 0, 0, 255];
    let dull = [90, 80, 85, 255];
    let up = row_sorted(&[white, vivid, dull], EVERYTHING, SortKind::LeftToRight, SortMethod::Saturation);
    assert_eq!(up, vec![dull, vivid, white]);
    let down = row_sorted(&[vivid, white, dull], EVERYTHING, SortKind::RightToLeft, SortMethod::Saturation);
    assert_eq!(down, vec![white, vivid, dull]);
}

#[test]
fn hue_orders_round_the_colour_circle() {
    let red = [255, 0, 0, 255];
    let yellow = [255, 255, 0, 255];
    let green = [0, 255, 0, 255];
    let cyan = [0, 255, 255, 255];
    let blue = [0, 0, 255, 255];
    let magenta = [255, 0, 255, 255];
    let mixed = [blue, yellow, magenta, red, cyan, green];
    let up = row_sorted(&mixed, EVERYTHING, SortKind::LeftToRight, SortMethod::Hue);
    assert_eq!(up, vec![red, yellow, green, cyan, blue, magenta]);
    let down = row_sorted(&mixed, EVERYTHING, SortKind::RightToLeft, SortMethod::Hue);
    assert_eq!(down, vec![magenta, blue, cyan, green, yellow, red]);
}

#[test]
fn hue_does_not_depend_on_brightness() {
    // The same directions on the colour circle at different strengths: 30, 90, 210 degrees.
    let orange = [200, 100, 0, 255];
    let lime = [60, 120, 0, 255];
    let azure = [10, 50, 90, 255];
    let faint_orange = [110, 105, 100, 255];
    let up = row_sorted(
        &[azure, lime, faint_orange, orange],
        EVERYTHING,
        SortKind::LeftToRight,
        SortMethod::Hue,
    );
    assert_eq!(up, vec![faint_orange, orange, lime, azure]);
}

// A grey pixel has no hue: zero over zero. It ranks above every hue, so it comes last in
// ascending and first in descending order, and greys keep their order among themselves.
#[test]
fn grey_has_no_hue_and_sorts_above_every_hue() {
    let magenta = [255, 0, 255, 255];
    let red = [255, 0, 0, 255];
    let pixels = [grey(7), magenta, grey(3), red];
    let up = row_sorted(&pixels, EVERYTHING, SortKind::LeftToRight, SortMethod::Hue);
    assert_eq!(up, vec![red, magenta, grey(7), grey(3)]);
    let down = row_sorted(&pixels, EVERYTHING, SortKind::RightToLeft, SortMethod::Hue);
    assert_eq!(down, vec![grey(7), grey(3), magenta, red]);
}

#[test]
fn try_sort_sorts_an_rgba_image() {
    let img = image_of(3, 1, &[grey(30), grey(10), grey(20)]);
    let out = try_sort(
        img,
        EVERYTHING,
        SortKind::LeftToRight,
        SortDirection::Horizontal,
        SortMethod::Red,
    );
    let out = out.expect("an image of eight-bit RGBA is sorted");
    assert!(out.as_rgba8().is_some());
    assert_eq!(pixels_of(&out), vec![grey(10), grey(20), grey(30)]);
}

#[test]
fn try_sort_declines_every_other_format() {
    let decline = |img: DynamicImage| {
        try_sort(
            img,
            EVERYTHING,
            SortKind::LeftToRight,
            SortDirection::Horizontal,
            SortMethod::Red,
        )
        .is_none()
    };
    let rgb = RgbImage::from_fn(3, 1, |x, _| Rgb([[30u8, 10, 20][x as usize], 0, 0]));
    assert!(decline(DynamicImage::ImageRgb8(rgb)));
    let luma = GrayImage::from_fn(3, 1, |x, _| Luma([[30u8, 10, 20][x as usize]]));
    assert!(decline(DynamicImage::ImageLuma8(luma)));
    assert!(decline(DynamicImage::new_rgba16(2, 2)));
    assert!(decline(DynamicImage::new_luma_a8(2, 2)));
    // A sample that is not a number cannot be read as eight bits at all.
    let broken = Rgba32FImage::from_fn(1, 1, |_, _| Rgba([f32::NAN, 0.0, 0.0, 1.0]));
    assert!(decline(DynamicImage::ImageRgba32F(broken)));
    let broken = Rgb32FImage::from_fn(1, 1, |_, _| Rgb([0.0, f32::NAN, 0.0]));
    assert!(decline(DynamicImage::ImageRgb32F(broken)));
}

#[test]
fn the_result_is_an_rgba_image_again() {
    for direction in [SortDirection::Horizontal, SortDirection::Vertical] {
        let img = image_of(2, 2, &[grey(4), grey(3), grey(2), grey(1)]);
        let out = sort(img, EVERYTHING, SortKind::LeftToRight, direction, SortMethod::Red);
        assert!(out.as_rgba8().is_some());
        let again = try_sort(out, EVERYTHING, SortKind::LeftToRight, direction, SortMethod::Red);
        assert!(again.is_some());
    }
}

#[test]
fn rows_do_not_mix() {
    let img = image_of(3, 2, &[
        grey(3), grey(2), grey(1),
        grey(6), grey(5), grey(4),
    ]);
    let out = sort(
        img,
        EVERYTHING,
        SortKind::LeftToRight,
        SortDirection::Horizontal,
        SortMethod::Red,
    );
    assert_eq!(
        pixels_of(&out),
        vec![grey(1), grey(2), grey(3), grey(4), grey(5), grey(6)]
    );
}

#[test]
fn a_long_row_matches_a_stable_sort() {
    let mut seed: u32 = 12345;
    let mut next = || {
        seed = seed.wrapping_mul(1_664_525).wrapping_add(1_013_904_223);
        (seed >> 24) as u8
    };
    let pixels: Vec<[u8; 4]> = (0..2000).map(|_| [next() % 16, next(), next(), next()]).collect();
    let mut expected = pixels.clone();
    expected.sort_by_key(|p| p[0]);
    let out = row_sorted(&pixels, EVERYTHING, SortKind::LeftToRight, SortMethod::Red);
    assert_eq!(out, expected);
    let mut expected = pixels.clone();
    expected.sort_by(|l, r| r[0].cmp(&l[0]));
    let out = row_sorted(&pixels, EVERYTHING, SortKind::RightToLeft, SortMethod::Red);
    assert_eq!(out, expected);
}
