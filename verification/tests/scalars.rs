use pixelsort::color_helpers::{hue_of_rgb, lightness_of_rgb, luminance, saturation_of_rgb};
use pixelsort::effects::order::{comes_before, sort_tagged};
use pixelsort::effects::sort::{calculate_method, passes_gate};
use pixelsort::options::{SortKind, SortMethod, Threshold, LUMINANCE_SCALE};
use pixelsort::pixel::Rgba8;
use pixelsort::scalar::Scalar;

fn px(r: u8, g: u8, b: u8) -> Rgba8 {
    Rgba8 { r, g, b, a: 255 }
}

fn parts(s: Scalar) -> (i32, u32) {
    (s.num, s.den)
}

fn frac(num: i32, den: u32) -> Scalar {
    Scalar { num, den }
}

#[test]
fn luminance_is_the_weighted_sum_in_ten_thousandths() {
    assert_eq!(LUMINANCE_SCALE, 10_000);
    assert_eq!(luminance(&px(0, 0, 0)), 0);
    assert_eq!(luminance(&px(1, 0, 0)), 2126);
    assert_eq!(luminance(&px(0, 1, 0)), 7152);
    assert_eq!(luminance(&px(0, 0, 1)), 722);
    assert_eq!(luminance(&px(10, 20, 30)), 185_960);
    assert_eq!(luminance(&px(255, 255, 255)), 2_550_000);
    assert_eq!(luminance(&Rgba8 { r: 10, g: 20, b: 30, a: 0 }), 185_960);
}

#[test]
fn lightness_is_the_sum_of_the_extremes_over_510() {
    assert_eq!(parts(lightness_of_rgb(&px(10, 20, 30))), (40, 510));
    assert_eq!(parts(lightness_of_rgb(&px(30, 20, 10))), (40, 510));
    assert_eq!(parts(lightness_of_rgb(&px(20, 30, 10))), (40, 510));
    assert_eq!(parts(lightness_of_rgb(&px(0, 0, 0))), (0, 510));
    assert_eq!(parts(lightness_of_rgb(&px(255, 255, 255))), (510, 510));
    assert_eq!(parts(lightness_of_rgb(&px(7, 7, 200))), (207, 510));
}

#[test]
fn saturation_is_the_spread_over_the_headroom() {
    assert_eq!(parts(saturation_of_rgb(&px(10, 20, 30))), (20, 470));
    assert_eq!(parts(saturation_of_rgb(&px(255, 0, 0))), (255, 255));
    assert_eq!(parts(saturation_of_rgb(&px(20, 20, 20))), (0, 470));
    // Above half lightness the denominator keeps shrinking; it is not mirrored.
    assert_eq!(parts(saturation_of_rgb(&px(255, 200, 250))), (55, 55));
    assert_eq!(parts(saturation_of_rgb(&px(250, 200, 225))), (50, 60));
}

#[test]
fn saturation_of_black_is_zero_and_of_white_undefined() {
    assert_eq!(parts(saturation_of_rgb(&px(0, 0, 0))), (0, 1));
    assert_eq!(parts(saturation_of_rgb(&px(255, 255, 255))), (0, 0));
}

#[test]
fn hue_of_the_six_corners() {
    // Scale: 1 - c on the upper half turn, 3 + c on the lower, c = cos |cos|.
    assert_eq!(parts(hue_of_rgb(&px(255, 0, 0))), (0, 260_100));
    assert_eq!(parts(hue_of_rgb(&px(255, 255, 0))), (195_075, 260_100));
    assert_eq!(parts(hue_of_rgb(&px(0, 255, 0))), (325_125, 260_100));
    assert_eq!(parts(hue_of_rgb(&px(0, 255, 255))), (520_200, 260_100));
    assert_eq!(parts(hue_of_rgb(&px(0, 0, 255))), (715_275, 260_100));
    assert_eq!(parts(hue_of_rgb(&px(255, 0, 255))), (845_325, 260_100));
}

#[test]
fn hue_of_a_dim_pixel() {
    // 2R - G - B = -3, G - B = -1: radicand 9 + 3 = 12, c = -9/12, lower half turn.
    assert_eq!(parts(hue_of_rgb(&px(1, 2, 3))), (27, 12));
    // 2R - G - B = 3, G - B = 1: upper half turn, c = 9/12.
    assert_eq!(parts(hue_of_rgb(&px(3, 2, 1))), (3, 12));
}

#[test]
fn hue_of_grey_is_undefined() {
    for v in [0, 1, 128, 255] {
        assert_eq!(hue_of_rgb(&px(v, v, v)).den, 0);
    }
}

#[test]
fn hue_ignores_alpha() {
    let opaque = Rgba8 { r: 9, g: 200, b: 30, a: 255 };
    let clear = Rgba8 { r: 9, g: 200, b: 30, a: 0 };
    assert_eq!(parts(hue_of_rgb(&opaque)), parts(hue_of_rgb(&clear)));
}

#[test]
fn the_method_selects_the_scalar() {
    let p = Rgba8 { r: 10, g: 20, b: 30, a: 40 };
    assert_eq!(parts(calculate_method(SortMethod::Default, &p)), (60, 1));
    assert_eq!(parts(calculate_method(SortMethod::Red, &p)), (10, 1));
    assert_eq!(parts(calculate_method(SortMethod::Green, &p)), (20, 1));
    assert_eq!(parts(calculate_method(SortMethod::Blue, &p)), (30, 1));
    assert_eq!(parts(calculate_method(SortMethod::Alpha, &p)), (40, 1));
    assert_eq!(parts(calculate_method(SortMethod::Hue, &p)), parts(hue_of_rgb(&p)));
    assert_eq!(parts(calculate_method(SortMethod::Saturation, &p)), (20, 470));
    assert_eq!(parts(calculate_method(SortMethod::Lightness, &p)), (40, 510));
    let white = px(255, 255, 255);
    assert_eq!(parts(calculate_method(SortMethod::Default, &white)), (765, 1));
}

#[test]
fn scalars_compare_by_value() {
    assert!(frac(1, 2).less_than(&frac(2, 3)));
    assert!(!frac(2, 3).less_than(&frac(1, 2)));
    assert!(!frac(1, 2).less_than(&frac(2, 4)));
    assert!(!frac(2, 4).less_than(&frac(1, 2)));
    assert!(frac(-1, 3).less_than(&frac(0, 7)));
    assert!(frac(-1, 2).less_than(&frac(-1, 3)));
    assert!(!frac(5, 1).less_than(&frac(5, 1)));
    assert!(Scalar::whole(3).less_than(&Scalar::whole(4)));
    assert_eq!(parts(Scalar::whole(765)), (765, 1));
}

#[test]
fn scalars_at_the_limits_of_their_fields_compare() {
    let top = frac(i32::MAX, 1);
    let bottom = frac(i32::MIN, 1);
    let tiny = frac(1, u32::MAX);
    let tiny_negative = frac(-1, u32::MAX);
    assert!(bottom.less_than(&top));
    assert!(!top.less_than(&bottom));
    assert!(tiny_negative.less_than(&tiny));
    assert!(tiny.less_than(&top));
    assert!(bottom.less_than(&tiny_negative));
    assert!(frac(i32::MIN, u32::MAX).less_than(&frac(i32::MAX, u32::MAX)));
}

#[test]
fn the_undefined_scalar_is_above_every_number() {
    let undefined = frac(0, 0);
    assert!(frac(i32::MAX, 1).less_than(&undefined));
    assert!(frac(-4, 9).less_than(&undefined));
    assert!(!undefined.less_than(&frac(i32::MAX, 1)));
    assert!(!undefined.less_than(&undefined));
    assert!(!undefined.less_than(&frac(7, 0)));
}

#[test]
fn order_turns_with_the_kind() {
    let low = frac(1, 3);
    let high = frac(1, 2);
    assert!(comes_before(SortKind::LeftToRight, &low, &high));
    assert!(!comes_before(SortKind::LeftToRight, &high, &low));
    assert!(comes_before(SortKind::RightToLeft, &high, &low));
    assert!(!comes_before(SortKind::RightToLeft, &low, &high));
    for kind in [SortKind::LeftToRight, SortKind::RightToLeft] {
        assert!(!comes_before(kind, &frac(1, 2), &frac(3, 6)));
    }
}

#[test]
fn the_gate_test_is_inclusive() {
    let p = px(10, 20, 30);
    let at = |min, max| passes_gate(Threshold { min, max }, &p);
    assert!(at(185_960, 185_960));
    assert!(at(0, 185_960));
    assert!(at(185_960, 2_550_000));
    assert!(!at(185_961, 2_550_000));
    assert!(!at(0, 185_959));
    assert!(!at(185_961, 185_959));
    assert!(at(i64::MIN, i64::MAX));
    assert!(!at(i64::MAX, i64::MIN));
    assert!(at(-5, 185_960));
}

fn tag(key: i32, den: u32, label: u8) -> (Scalar, Rgba8) {
    (frac(key, den), Rgba8 { r: label, g: 0, b: 0, a: 0 })
}

fn labels(v: &[(Scalar, Rgba8)]) -> Vec<u8> {
    v.iter().map(|e| e.1.r).collect()
}

#[test]
fn tagged_pixels_are_sorted_stably() {
    let input = vec![
        tag(3, 1, 0),
        tag(1, 2, 1),
        tag(6, 2, 2),
        tag(0, 0, 3),
        tag(2, 4, 4),
        tag(-1, 1, 5),
        tag(9, 0, 6),
        tag(3, 1, 7),
    ];
    let mut up = input.clone();
    sort_tagged(&mut up, SortKind::LeftToRight);
    assert_eq!(labels(&up), vec![5, 1, 4, 0, 2, 7, 3, 6]);
    let mut down = input.clone();
    sort_tagged(&mut down, SortKind::RightToLeft);
    assert_eq!(labels(&down), vec![3, 6, 0, 2, 7, 1, 4, 5]);
    // The scalars travel with their pixels.
    assert_eq!(parts(up[0].0), (-1, 1));
    assert_eq!(parts(down[0].0), (0, 0));
}

#[test]
fn short_inputs_are_sorted_too() {
    let mut none: Vec<(Scalar, Rgba8)> = Vec::new();
    sort_tagged(&mut none, SortKind::LeftToRight);
    assert!(none.is_empty());
    let mut one = vec![tag(4, 1, 9)];
    sort_tagged(&mut one, SortKind::RightToLeft);
    assert_eq!(labels(&one), vec![9]);
    let mut two = vec![tag(4, 1, 0), tag(3, 1, 1)];
    sort_tagged(&mut two, SortKind::LeftToRight);
    assert_eq!(labels(&two), vec![1, 0]);
    let mut three = vec![tag(4, 1, 0), tag(3, 1, 1), tag(4, 1, 2)];
    sort_tagged(&mut three, SortKind::LeftToRight);
    assert_eq!(labels(&three), vec![1, 0, 2]);
}

#[test]
fn many_tagged_pixels_match_a_stable_sort() {
    let mut seed: u32 = 99;
    let mut next = || {
        seed = seed.wrapping_mul(1_664_525).wrapping_add(1_013_904_223);
        seed >> 16
    };
    let input: Vec<(Scalar, Rgba8)> = (0..777)
        .map(|i| {
            let den = next() % 5;
            let num = (next() % 21) as i32 - 10;
            (frac(num, den), Rgba8 { r: (i % 256) as u8, g: (i / 256) as u8, b: 0, a: 0 })
        })
        .collect();
    // Rank by value: num / den, undefined on top.
    let rank = |s: &Scalar| if s.den == 0 { i64::MAX } else { s.num as i64 * 60 / s.den as i64 };
    let mut expected = input.clone();
    expected.sort_by_key(|e| rank(&e.0));
    let mut got = input.clone();
    sort_tagged(&mut got, SortKind::LeftToRight);
    assert_eq!(got.iter().map(|e| e.1).collect::<Vec<_>>(), expected.iter().map(|e| e.1).collect::<Vec<_>>());
    let mut expected = input.clone();
    expected.sort_by_key(|e| std::cmp::Reverse(rank(&e.0)));
    let mut got = input.clone();
    sort_tagged(&mut got, SortKind::RightToLeft);
    assert_eq!(got.iter().map(|e| e.1).collect::<Vec<_>>(), expected.iter().map(|e| e.1).collect::<Vec<_>>());
}
