use color_palette_dither::color_spaces::LAB;
use color_palette_dither::color_spaces::LAB_LIMIT;
use color_palette_dither::color_spaces::LAB_SCALE;
use color_palette_dither::optimizer::closest_color;
use color_palette_dither::optimizer::euclidean_distance_color_sq;
use color_palette_dither::optimizer::evaluate_distance;
use color_palette_dither::optimizer::optimize_pair;
use color_palette_dither::optimizer::EPSILON;
use color_palette_dither::optimizer::PENALTY_DIVISOR;
use color_palette_dither::optimizer::SQUARED_SCALE;

fn lab(l: i32, a: i32, b: i32) -> LAB {
    LAB::new(l, a, b).unwrap()
}

#[test]
fn constants_have_their_documented_values() {
    assert_eq!(LAB_SCALE, 1000);
    assert_eq!(LAB_LIMIT, 250_000);
    assert_eq!(EPSILON, 1);
    assert_eq!(PENALTY_DIVISOR, 20);
    assert_eq!(SQUARED_SCALE, 1_000_000);
    // one squared grid step is 1e-6 squared units
    assert_eq!(SQUARED_SCALE, (LAB_SCALE as u128) * (LAB_SCALE as u128));
}

#[test]
fn lab_accepts_exactly_the_cube() {
    assert!(LAB::new(0, 0, 0).is_some());
    assert!(LAB::new(250_000, -250_000, 250_000).is_some());
    assert!(LAB::new(250_001, 0, 0).is_none());
    assert!(LAB::new(0, -250_001, 0).is_none());
    assert!(LAB::new(0, 0, i32::MAX).is_none());
    assert!(LAB::new(i32::MIN, 0, 0).is_none());
    let c = lab(53_585, -1, 7);
    assert_eq!((c.l(), c.a(), c.b()), (53_585, -1, 7));
}

#[test]
fn gray_between_black_and_white() {
    let black = lab(0, 0, 0);
    let white = lab(100_000, 0, 0);
    let gray = lab(50_000, 0, 0);
    let (error, ratio) = evaluate_distance(&gray, &black, &white);
    // ratio = 0.5
    assert_eq!(ratio.num * 2, ratio.den);
    // error = 0.05 * 100^2 = 500 squared units
    assert_eq!(error.num, 500 * SQUARED_SCALE * error.den);
    assert_eq!(error.num as f64 / error.den as f64 / SQUARED_SCALE as f64, 500.0);
}

#[test]
fn fractions_are_returned_as_computed() {
    let black = lab(0, 0, 0);
    let white = lab(100_000, 0, 0);
    let gray = lab(50_000, 0, 0);
    let (error, ratio) = evaluate_distance(&gray, &black, &white);
    assert_eq!((ratio.num, ratio.den), (5_000_000_000, 10_000_000_000));
    assert_eq!(error.den, 20 * 10_000_000_000);
    assert_eq!(error.num, 10_000_000_000 * 10_000_000_000);
}

#[test]
fn error_adds_gap_and_penalty() {
    // 3 units off the middle of a segment of 10 units: 9 + 0.05 * 100 = 14
    let c1 = lab(0, 0, 0);
    let c2 = lab(10_000, 0, 0);
    let target = lab(5_000, 3_000, 0);
    let (error, ratio) = evaluate_distance(&target, &c1, &c2);
    assert_eq!(ratio.num * 2, ratio.den);
    assert_eq!(error.num, 14 * SQUARED_SCALE * error.den);
    assert_eq!((error.num, error.den), (28_000_000_000_000_000, 2_000_000_000));
}

#[test]
fn ratio_is_zero_on_the_first_colour_and_one_on_the_second() {
    let c1 = lab(20_000, 10_000, -5_000);
    let c2 = lab(70_000, -30_000, 40_000);
    let (error, ratio) = evaluate_distance(&c1, &c1, &c2);
    assert_eq!(ratio.num, 0);
    assert!(ratio.den > 0);
    // only the penalty is left: 0.05 * |c2 - c1|^2
    assert_eq!(error.num * 20, 6_125_000_000 * error.den);
    let (error, ratio) = evaluate_distance(&c2, &c1, &c2);
    assert_eq!(ratio.num, ratio.den);
    assert_eq!(error.num * 20, 6_125_000_000 * error.den);
}

#[test]
fn ratio_is_clamped_to_the_segment() {
    let c1 = lab(10_000, 0, 0);
    let c2 = lab(20_000, 0, 0);
    // beyond the second colour by 5 units: error = 25 + 0.05 * 100 = 30
    let (error, ratio) = evaluate_distance(&lab(25_000, 0, 0), &c1, &c2);
    assert_eq!(ratio.num, ratio.den);
    assert_eq!(error.num, 30 * SQUARED_SCALE * error.den);
    // before the first colour by 4 units, 3 units aside: error = 25 + 5 = 30
    let (error, ratio) = evaluate_distance(&lab(6_000, 3_000, 0), &c1, &c2);
    assert_eq!(ratio.num, 0);
    assert_eq!(error.num, 30 * SQUARED_SCALE * error.den);
}

#[test]
fn degenerate_pair_reports_the_squared_distance_twice() {
    let c = lab(10_000, 0, 0);
    // 2 units away: squared distance 4
    let (error, ratio) = evaluate_distance(&lab(10_000, 2_000, 0), &c, &c);
    assert_eq!((error.num, error.den), (4_000_000, 1));
    assert_eq!((ratio.num, ratio.den), (4_000_000, SQUARED_SCALE));
    // on the pair itself both are zero
    let (error, ratio) = evaluate_distance(&c, &c, &c);
    assert_eq!(error.num, 0);
    assert_eq!(ratio.num, 0);
}

#[test]
fn colours_one_step_apart_are_not_degenerate() {
    let c1 = lab(0, 0, 0);
    let c2 = lab(1, 0, 0);
    let (error, ratio) = evaluate_distance(&lab(1, 0, 0), &c1, &c2);
    assert_eq!((ratio.num, ratio.den), (1, 1));
    assert_eq!((error.num, error.den), (1, 20));
}

#[test]
fn extreme_colours_do_not_overflow() {
    let c1 = lab(-250_000, -250_000, -250_000);
    let c2 = lab(250_000, 250_000, 250_000);
    let target = lab(250_000, -250_000, 250_000);
    let (error, ratio) = evaluate_distance(&target, &c1, &c2);
    // projection 2/3 of the way
    assert_eq!(ratio.num * 3, ratio.den * 2);
    // gap^2 = |f|^2 - d^2/m = 5e11 - (5e11)^2 / 7.5e11, penalty = 7.5e11 / 20
    let gap = 500_000_000_000f64 - 500_000_000_000f64 * 500_000_000_000f64 / 750_000_000_000f64;
    let expected = gap + 750_000_000_000f64 / 20.0;
    let got = error.num as f64 / error.den as f64;
    assert!((got - expected).abs() / expected < 1e-12);
    let plan = optimize_pair(&target, &[c1, c2, target]).unwrap();
    assert!(plan.first < plan.second);
}

#[test]
fn search_needs_two_colours() {
    let c = lab(1, 2, 3);
    assert!(optimize_pair(&c, &[]).is_none());
    assert!(optimize_pair(&c, &[c]).is_none());
    assert!(optimize_pair(&c, &[c, c]).is_some());
}

#[test]
fn search_on_two_colours_returns_that_pair() {
    let black = lab(0, 0, 0);
    let white = lab(100_000, 0, 0);
    let plan = optimize_pair(&lab(50_000, 0, 0), &[black, white]).unwrap();
    assert_eq!((plan.first, plan.second), (0, 1));
    assert_eq!(plan.ratio.num * 2, plan.ratio.den);
    assert_eq!(plan.error.num, 500 * SQUARED_SCALE * plan.error.den);
}

#[test]
fn search_prefers_the_closer_pair() {
    let black = lab(0, 0, 0);
    let dark = lab(40_000, 0, 0);
    let light = lab(60_000, 0, 0);
    let white = lab(100_000, 0, 0);
    let plan = optimize_pair(&lab(50_000, 0, 0), &[black, dark, light, white]).unwrap();
    // every pair that brackets the target has gap zero; the narrowest has the
    // smallest penalty: 0.05 * 20^2 = 20
    assert_eq!((plan.first, plan.second), (1, 2));
    assert_eq!(plan.ratio.num * 2, plan.ratio.den);
    assert_eq!(plan.error.num, 20 * SQUARED_SCALE * plan.error.den);
}

#[test]
fn search_keeps_the_first_of_equal_pairs() {
    let a = lab(0, 10_000, 0);
    let b = lab(0, -10_000, 0);
    let c = lab(0, 0, 10_000);
    let d = lab(0, 0, -10_000);
    // (a, b) and (c, d) both pass through the target with the same length
    let target = lab(0, 0, 0);
    let plan = optimize_pair(&target, &[a, b, c, d]).unwrap();
    assert_eq!((plan.first, plan.second), (0, 1));
    let plan = optimize_pair(&target, &[c, d, a, b]).unwrap();
    assert_eq!((plan.first, plan.second), (0, 1));
    let plan = optimize_pair(&target, &[c, a, d, b]).unwrap();
    assert_eq!((plan.first, plan.second), (0, 2));
}

#[test]
fn search_with_duplicate_colours() {
    let c = lab(30_000, 0, 0);
    let far = lab(90_000, 0, 0);
    // the degenerate pair on the target has error zero
    let plan = optimize_pair(&c, &[far, c, c]).unwrap();
    assert_eq!((plan.first, plan.second), (1, 2));
    assert_eq!(plan.error.num, 0);
    assert_eq!(plan.ratio.num, 0);
    // a degenerate pair away from the target reports a ratio above one
    let plan = optimize_pair(&far, &[c, c]).unwrap();
    assert_eq!((plan.first, plan.second), (0, 1));
    assert_eq!((plan.ratio.num, plan.ratio.den), (3_600_000_000, 1_000_000));
    assert_eq!((plan.error.num, plan.error.den), (3_600_000_000, 1));
}

#[test]
fn search_result_is_repeatable() {
    let palette = [lab(0, 0, 0), lab(53_000, 80_000, 67_000), lab(87_000, -86_000, 83_000), lab(
        32_000,
        79_000,
        -107_000,
    ), lab(100_000, 0, 0)];
    let target = lab(60_000, 10_000, 20_000);
    let once = optimize_pair(&target, &palette).unwrap();
    let again = optimize_pair(&target, &palette).unwrap();
    assert_eq!((once.first, once.second), (again.first, again.second));
    assert_eq!((once.ratio.num, once.ratio.den), (again.ratio.num, again.ratio.den));
    assert_eq!((once.error.num, once.error.den), (again.error.num, again.error.den));
    assert!(once.first < once.second && once.second < palette.len());
    assert!(once.ratio.num <= once.ratio.den);
    // no pair has a smaller error
    for i in 0..palette.len() {
        for j in i + 1..palette.len() {
            let (e, _) = evaluate_distance(&target, &palette[i], &palette[j]);
            assert!(once.error.num * e.den <= e.num * once.error.den);
        }
    }
}

#[test]
fn squared_distance_is_the_sum_of_squares() {
    let a = lab(1_000, 2_000, 3_000);
    let b = lab(4_000, -2_000, 3_000);
    assert_eq!(euclidean_distance_color_sq(&a, &b), 25_000_000);
    assert_eq!(euclidean_distance_color_sq(&b, &a), 25_000_000);
    assert_eq!(euclidean_distance_color_sq(&a, &a), 0);
    let lo = lab(-250_000, -250_000, -250_000);
    let hi = lab(250_000, 250_000, 250_000);
    assert_eq!(euclidean_distance_color_sq(&lo, &hi), 750_000_000_000);
}

#[test]
fn closest_colour_is_the_first_nearest() {
    let palette = [lab(0, 0, 0), lab(50_000, 0, 0), lab(100_000, 0, 0), lab(50_000, 0, 0)];
    assert_eq!(closest_color(&lab(45_000, 1_000, 0), &palette), Some(1));
    assert_eq!(closest_color(&lab(99_000, 0, 0), &palette), Some(2));
    // equally far from the first two: the first wins
    assert_eq!(closest_color(&lab(25_000, 0, 0), &palette), Some(0));
    assert_eq!(closest_color(&lab(75_000, 0, 0), &palette), Some(1));
    assert_eq!(closest_color(&lab(0, 0, 0), &[]), None);
    assert_eq!(closest_color(&lab(0, 0, 0), &[lab(9, 9, 9)]), Some(0));
}
