//! Search for the pair of palette colours, and the blend ratio between them,
//! that best explains a target colour.

use vstd::prelude::*;
use crate::color_spaces::LAB;
use crate::color_spaces::point_in_range;
use crate::fraction::Fraction;
use crate::fraction::frac_le;
use crate::fraction::frac_lt;
use crate::fraction::frac_valid;
use crate::fraction::lemma_frac_lt_le_transitive;

verus! {

/// Two palette colours whose squared distance is below this many squared grid
/// steps count as one colour. One squared step is `1e-6` squared CIELAB units.
pub const EPSILON: i64 = 1;

/// The squared distance between the two colours of a pair is added to the
/// pair's error divided by this number: a weight of `0.05`.
pub const PENALTY_DIVISOR: i64 = 20;

/// Squared grid steps in one squared CIELAB unit.
pub const SQUARED_SCALE: u128 = 1_000_000;

/// `p - q`, coordinate by coordinate.
pub open spec fn difference(p: (int, int, int), q: (int, int, int)) -> (int, int, int) {
    (p.0 - q.0, p.1 - q.1, p.2 - q.2)
}

/// The inner product of two vectors.
pub open spec fn dot(u: (int, int, int), v: (int, int, int)) -> int {
    u.0 * v.0 + u.1 * v.1 + u.2 * v.2
}

/// The squared length of a vector.
pub open spec fn norm_sq(u: (int, int, int)) -> int {
    dot(u, u)
}

/// The squared Euclidean distance between two points, in squared grid steps.
pub open spec fn distance_sq(p: (int, int, int), q: (int, int, int)) -> int {
    norm_sq(difference(p, q))
}

/// Whether the two colours of a pair coincide.
pub open spec fn is_degenerate(c1: (int, int, int), c2: (int, int, int)) -> bool {
    distance_sq(c2, c1) < EPSILON as int
}

/// The position of the point of the segment `c1 -> c2` that is closest to
/// `target`, as a multiple of `1 / |c2 - c1|^2`: the inner product of the
/// segment with `target - c1`, clamped to `[0, |c2 - c1|^2]`.
pub open spec fn projection(
    target: (int, int, int),
    c1: (int, int, int),
    c2: (int, int, int),
) -> int {
    let d = dot(difference(c2, c1), difference(target, c1));
    let m = distance_sq(c2, c1);
    if d < 0 {
        0
    } else if d > m {
        m
    } else {
        d
    }
}

/// The blend ratio of a pair for a target, as `(numerator, denominator)`.
///
/// For two distinct colours this is the normalised projection of the target
/// onto the segment between them, clamped to `[0, 1]`. For a degenerate pair it
/// is the squared distance from the pair to the target in squared CIELAB units.
pub open spec fn pair_ratio(
    target: (int, int, int),
    c1: (int, int, int),
    c2: (int, int, int),
) -> (int, int) {
    if is_degenerate(c1, c2) {
        (distance_sq(target, c1), SQUARED_SCALE as int)
    } else {
        (projection(target, c1, c2), distance_sq(c2, c1))
    }
}

/// `|c2 - c1|^2` times the squared distance from `target` to the closest point
/// of the segment `c1 -> c2`.
pub open spec fn scaled_gap(
    target: (int, int, int),
    c1: (int, int, int),
    c2: (int, int, int),
) -> int {
    let d = dot(difference(c2, c1), difference(target, c1));
    let m = distance_sq(c2, c1);
    let o = distance_sq(target, c1);
    let k = projection(target, c1, c2);
    o * m - 2 * (k * d) + k * k
}

/// The error of a pair for a target, in squared grid steps, as
/// `(numerator, denominator)`.
///
/// For two distinct colours this is the squared distance from the target to the
/// closest point of the segment, plus a twentieth of the squared distance
/// between the two colours. For a degenerate pair it is the squared distance
/// from the pair to the target.
pub open spec fn pair_error(
    target: (int, int, int),
    c1: (int, int, int),
    c2: (int, int, int),
) -> (int, int) {
    if is_degenerate(c1, c2) {
        (distance_sq(target, c1), 1)
    } else {
        let m = distance_sq(c2, c1);
        (
            PENALTY_DIVISOR as int * scaled_gap(target, c1, c2) + m * m,
            PENALTY_DIVISOR as int * m,
        )
    }
}

/// The largest inner product of two differences of colours in range: each
/// coordinate of a difference lies within twice `LAB_LIMIT`, and three
/// products of two such coordinates are added.
pub open spec fn dot_limit() -> int {
    750_000_000_000
}

/// The product of two coordinates of differences of colours in range.
proof fn lemma_product_bound(a: int, b: int)
    by (nonlinear_arith)
    requires
        -500_000 <= a <= 500_000,
        -500_000 <= b <= 500_000,
    ensures
        -250_000_000_000 <= a * b <= 250_000_000_000,
{
}

/// A square is not negative.
proof fn lemma_square_nonnegative(a: int)
    by (nonlinear_arith)
    ensures
        a * a >= 0,
{
}

/// Inner products and squared lengths of differences of colours in range stay
/// within `dot_limit()`.
proof fn lemma_dot_bounds(u: (int, int, int), v: (int, int, int))
    requires
        -500_000 <= u.0 <= 500_000,
        -500_000 <= u.1 <= 500_000,
        -500_000 <= u.2 <= 500_000,
        -500_000 <= v.0 <= 500_000,
        -500_000 <= v.1 <= 500_000,
        -500_000 <= v.2 <= 500_000,
    ensures
        -dot_limit() <= dot(u, v) <= dot_limit(),
        0 <= norm_sq(u) <= dot_limit(),
        0 <= norm_sq(v) <= dot_limit(),
{
    lemma_product_bound(u.0, v.0);
    lemma_product_bound(u.1, v.1);
    lemma_product_bound(u.2, v.2);
    lemma_product_bound(u.0, u.0);
    lemma_product_bound(u.1, u.1);
    lemma_product_bound(u.2, u.2);
    lemma_product_bound(v.0, v.0);
    lemma_product_bound(v.1, v.1);
    lemma_product_bound(v.2, v.2);
    lemma_square_nonnegative(u.0);
    lemma_square_nonnegative(u.1);
    lemma_square_nonnegative(u.2);
    lemma_square_nonnegative(v.0);
    lemma_square_nonnegative(v.1);
    lemma_square_nonnegative(v.2);
}

/// The squared length of any vector is non-negative.
proof fn lemma_norm_sq_nonnegative(u: (int, int, int))
    ensures
        norm_sq(u) >= 0,
{
    lemma_square_nonnegative(u.0);
    lemma_square_nonnegative(u.1);
    lemma_square_nonnegative(u.2);
}

proof fn lemma_expand_product(a: int, b: int, c: int, x: int, y: int, z: int)
    by (nonlinear_arith)
    ensures
        (a + b + c) * (x + y + z) == a * x + a * y + a * z + b * x + b * y + b * z + c * x + c * y
            + c * z,
{
}

proof fn lemma_square_of_difference(p: int, q: int)
    by (nonlinear_arith)
    ensures
        (p - q) * (p - q) == p * p - 2 * (p * q) + q * q,
{
}

proof fn lemma_regroup_squares(a: int, b: int)
    by (nonlinear_arith)
    ensures
        (a * a) * (b * b) == (a * b) * (a * b),
{
}

proof fn lemma_regroup_cross(a: int, b: int, c: int, d: int)
    by (nonlinear_arith)
    ensures
        (a * b) * (c * d) == (a * d) * (c * b),
{
}

/// The Cauchy–Schwarz inequality in three dimensions.
pub proof fn lemma_cauchy_schwarz(u: (int, int, int), v: (int, int, int))
    ensures
        dot(u, v) * dot(u, v) <= norm_sq(u) * norm_sq(v),
{
    let (u0, u1, u2) = u;
    let (v0, v1, v2) = v;
    // Lagrange's identity: |u|^2 |v|^2 - (u.v)^2 is the squared length of the
    // cross product, written out here monomial by monomial.
    lemma_expand_product(u0 * u0, u1 * u1, u2 * u2, v0 * v0, v1 * v1, v2 * v2);
    lemma_expand_product(u0 * v0, u1 * v1, u2 * v2, u0 * v0, u1 * v1, u2 * v2);
    lemma_regroup_squares(u0, v0);
    lemma_regroup_squares(u0, v1);
    lemma_regroup_squares(u0, v2);
    lemma_regroup_squares(u1, v0);
    lemma_regroup_squares(u1, v1);
    lemma_regroup_squares(u1, v2);
    lemma_regroup_squares(u2, v0);
    lemma_regroup_squares(u2, v1);
    lemma_regroup_squares(u2, v2);
    lemma_regroup_cross(u0, v0, u1, v1);
    lemma_regroup_cross(u1, v1, u0, v0);
    lemma_regroup_cross(u0, v0, u2, v2);
    lemma_regroup_cross(u2, v2, u0, v0);
    lemma_regroup_cross(u1, v1, u2, v2);
    lemma_regroup_cross(u2, v2, u1, v1);
    lemma_square_of_difference(u0 * v1, u1 * v0);
    lemma_square_of_difference(u0 * v2, u2 * v0);
    lemma_square_of_difference(u1 * v2, u2 * v1);
    let c0 = u0 * v1 - u1 * v0;
    let c1 = u0 * v2 - u2 * v0;
    let c2 = u1 * v2 - u2 * v1;
    assert(norm_sq(u) * norm_sq(v) - dot(u, v) * dot(u, v) == c0 * c0 + c1 * c1 + c2 * c2);
    lemma_square_nonnegative(c0);
    lemma_square_nonnegative(c1);
    lemma_square_nonnegative(c2);
}

/// `|u - v|^2 = |u|^2 - 2 u.v + |v|^2`.
proof fn lemma_norm_sq_of_difference(u: (int, int, int), v: (int, int, int))
    ensures
        norm_sq(difference(u, v)) == norm_sq(u) - 2 * dot(v, u) + norm_sq(v),
{
    let (u0, u1, u2) = u;
    let (v0, v1, v2) = v;
    assert((u0 - v0) * (u0 - v0) == u0 * u0 - 2 * (v0 * u0) + v0 * v0) by (nonlinear_arith);
    assert((u1 - v1) * (u1 - v1) == u1 * u1 - 2 * (v1 * u1) + v1 * v1) by (nonlinear_arith);
    assert((u2 - v2) * (u2 - v2) == u2 * u2 - 2 * (v2 * u2) + v2 * v2) by (nonlinear_arith);
}

/// The scaled gap lies between zero and the product of the two squared
/// distances from `c1`.
pub proof fn lemma_scaled_gap_bounds(
    target: (int, int, int),
    c1: (int, int, int),
    c2: (int, int, int),
)
    ensures
        0 <= scaled_gap(target, c1, c2) <= distance_sq(target, c1) * distance_sq(c2, c1),
{
    let s = difference(c2, c1);
    let f = difference(target, c1);
    let d = dot(s, f);
    let m = norm_sq(s);
    let o = norm_sq(f);
    let k = projection(target, c1, c2);
    lemma_norm_sq_nonnegative(s);
    lemma_norm_sq_nonnegative(f);
    if d < 0 {
        // the closest point is `c1`: the gap is `|f|^2 |s|^2`
    } else if d > m {
        // the closest point is `c2`: the gap is `|s|^2 |f - s|^2`
        lemma_norm_sq_of_difference(f, s);
        lemma_norm_sq_nonnegative(difference(f, s));
        let g = o - 2 * d + m;
        assert(o * m - 2 * (m * d) + m * m == m * g) by (nonlinear_arith)
            requires
                g == o - 2 * d + m,
        ;
        assert(m * g <= o * m) by (nonlinear_arith)
            requires
                m >= 0,
                g <= o,
        ;
    } else {
        // the closest point lies inside the segment: the gap is
        // `|f|^2 |s|^2 - (s.f)^2`
        lemma_cauchy_schwarz(s, f);
    }
}

/// The error of every pair is a fraction with a non-negative numerator and a
/// positive denominator, and so is its ratio. The ratio is at most one for
/// every pair but a degenerate one that lies more than one CIELAB unit from
/// the target: there it is the squared distance, which is above one.
pub proof fn lemma_error_and_ratio_ranges(
    target: (int, int, int),
    c1: (int, int, int),
    c2: (int, int, int),
)
    ensures
        frac_valid(pair_error(target, c1, c2)),
        frac_valid(pair_ratio(target, c1, c2)),
        pair_ratio(target, c1, c2).0 <= pair_ratio(target, c1, c2).1 <==> !(is_degenerate(c1, c2)
            && distance_sq(target, c1) > SQUARED_SCALE),
{
    lemma_norm_sq_nonnegative(difference(target, c1));
    lemma_scaled_gap_bounds(target, c1, c2);
}

/// A target that sits on the first colour of a pair has ratio zero. One that
/// sits on the second colour has ratio one, unless the pair is degenerate:
/// then the target sits on the first colour too, and the ratio is zero.
pub proof fn lemma_ratio_at_endpoints(c1: (int, int, int), c2: (int, int, int))
    ensures
        pair_ratio(c1, c1, c2).0 == 0,
        pair_ratio(c2, c1, c2).0 == pair_ratio(c2, c1, c2).1 <==> !is_degenerate(c1, c2),
{
}

/// `a * u`, coordinate by coordinate.
pub open spec fn scaled(a: int, u: (int, int, int)) -> (int, int, int) {
    (a * u.0, a * u.1, a * u.2)
}

proof fn lemma_dot_of_scaled(a: int, u: (int, int, int), b: int, v: (int, int, int))
    ensures
        dot(scaled(a, u), scaled(b, v)) == (a * b) * dot(u, v),
{
    let (u0, u1, u2) = u;
    let (v0, v1, v2) = v;
    assert((a * u0) * (b * v0) == (a * b) * (u0 * v0)) by (nonlinear_arith);
    assert((a * u1) * (b * v1) == (a * b) * (u1 * v1)) by (nonlinear_arith);
    assert((a * u2) * (b * v2) == (a * b) * (u2 * v2)) by (nonlinear_arith);
    assert((a * b) * (u0 * v0) + (a * b) * (u1 * v1) + (a * b) * (u2 * v2) == (a * b) * (u0 * v0
        + u1 * v1 + u2 * v2)) by (nonlinear_arith);
}

/// What `scaled_gap` measures. With `k = projection` and `m = |c2 - c1|^2`, the
/// closest point of the segment is `c1 + (k / m) (c2 - c1)`, so the vector
/// from `target` to it is `(k (c2 - c1) - m (target - c1)) / m`; the squared
/// length of that vector is `scaled_gap / m`.
pub proof fn lemma_scaled_gap_is_distance(
    target: (int, int, int),
    c1: (int, int, int),
    c2: (int, int, int),
)
    ensures
        distance_sq(c2, c1) * scaled_gap(target, c1, c2) == distance_sq(
            scaled(projection(target, c1, c2), difference(c2, c1)),
            scaled(distance_sq(c2, c1), difference(target, c1)),
        ),
{
    let s = difference(c2, c1);
    let f = difference(target, c1);
    let d = dot(s, f);
    let m = norm_sq(s);
    let o = norm_sq(f);
    let k = projection(target, c1, c2);
    lemma_norm_sq_of_difference(scaled(k, s), scaled(m, f));
    lemma_dot_of_scaled(k, s, k, s);
    lemma_dot_of_scaled(m, f, k, s);
    lemma_dot_of_scaled(m, f, m, f);
    assert(m * (o * m - 2 * (k * d) + k * k) == (k * k) * m - 2 * ((m * k) * d) + (m * m) * o)
        by (nonlinear_arith);
}

/// For colours in range, the numerators and denominators of error and ratio
/// stay small enough to be compared by cross-multiplication in 128 bits.
pub proof fn lemma_pair_magnitudes(
    target: (int, int, int),
    c1: (int, int, int),
    c2: (int, int, int),
)
    requires
        point_in_range(target),
        point_in_range(c1),
        point_in_range(c2),
    ensures
        0 <= pair_error(target, c1, c2).0 <= 21 * dot_limit() * dot_limit(),
        0 < pair_error(target, c1, c2).1 <= 20 * dot_limit(),
        0 <= pair_ratio(target, c1, c2).0 <= dot_limit(),
        0 < pair_ratio(target, c1, c2).1 <= dot_limit(),
{
    let s = difference(c2, c1);
    let f = difference(target, c1);
    let m = norm_sq(s);
    let o = norm_sq(f);
    let lim = dot_limit();
    lemma_dot_bounds(s, f);
    lemma_scaled_gap_bounds(target, c1, c2);
    assert(o * m <= lim * lim && m * m <= lim * lim) by (nonlinear_arith)
        requires
            0 <= o <= lim,
            0 <= m <= lim,
    ;
}

/// Scores one pair of palette colours against a target colour.
///
/// Returns `(error, ratio)`: how badly the pair explains the target, and how
/// far along the way from `color1` to `color2` the best blend lies.
pub fn evaluate_distance(color: &LAB, color1: &LAB, color2: &LAB) -> (result: (
    Fraction,
    Fraction,
))
    ensures
        result.0@ == pair_error(color@, color1@, color2@),
        result.1@ == pair_ratio(color@, color1@, color2@),
{
    proof {
        use_type_invariant(color);
        use_type_invariant(color1);
        use_type_invariant(color2);
    }
    let sl: i64 = color2.l() as i64 - color1.l() as i64;
    let sa: i64 = color2.a() as i64 - color1.a() as i64;
    let sb: i64 = color2.b() as i64 - color1.b() as i64;
    let fl: i64 = color.l() as i64 - color1.l() as i64;
    let fa: i64 = color.a() as i64 - color1.a() as i64;
    let fb: i64 = color.b() as i64 - color1.b() as i64;
    let ghost s = difference(color2@, color1@);
    let ghost f = difference(color@, color1@);
    proof {
        assert(s == (sl as int, sa as int, sb as int));
        assert(f == (fl as int, fa as int, fb as int));
        lemma_dot_bounds(s, f);
        lemma_product_bound(sl as int, fl as int);
        lemma_product_bound(sa as int, fa as int);
        lemma_product_bound(sb as int, fb as int);
        lemma_product_bound(sl as int, sl as int);
        lemma_product_bound(sa as int, sa as int);
        lemma_product_bound(sb as int, sb as int);
        lemma_product_bound(fl as int, fl as int);
        lemma_product_bound(fa as int, fa as int);
        lemma_product_bound(fb as int, fb as int);
        lemma_scaled_gap_bounds(color@, color1@, color2@);
    }
    let d: i64 = sl * fl + sa * fa + sb * fb;
    let m: i64 = sl * sl + sa * sa + sb * sb;
    let o: i64 = fl * fl + fa * fa + fb * fb;
    if m < EPSILON {
        return (Fraction { num: o as u128, den: 1 }, Fraction { num: o as u128, den: SQUARED_SCALE });
    }
    let k: i64 = if d < 0 {
        0
    } else if d > m {
        m
    } else {
        d
    };
    let m_wide: i128 = m as i128;
    let d_wide: i128 = d as i128;
    let o_wide: i128 = o as i128;
    let k_wide: i128 = k as i128;
    proof {
        let lim = dot_limit();
        assert(0 <= o_wide * m_wide <= lim * lim) by (nonlinear_arith)
            requires
                0 <= o_wide <= lim,
                0 <= m_wide <= lim,
        ;
        assert(0 <= m_wide * m_wide <= lim * lim) by (nonlinear_arith)
            requires
                0 <= m_wide <= lim,
        ;
        assert(0 <= k_wide * k_wide <= lim * lim) by (nonlinear_arith)
            requires
                0 <= k_wide <= lim,
        ;
        assert(-(lim * lim) <= k_wide * d_wide <= lim * lim) by (nonlinear_arith)
            requires
                0 <= k_wide <= lim,
                -lim <= d_wide <= lim,
        ;
        assert(lim * lim == 562_500_000_000_000_000_000_000);
    }
    let gap: i128 = o_wide * m_wide - 2 * (k_wide * d_wide) + k_wide * k_wide;
    proof {
        assert(gap == scaled_gap(color@, color1@, color2@));
    }
    let num: i128 = (PENALTY_DIVISOR as i128) * gap + m_wide * m_wide;
    let den: i128 = (PENALTY_DIVISOR as i128) * m_wide;
    (Fraction { num: num as u128, den: den as u128 }, Fraction { num: k as u128, den: m as u128 })
}

/// The points that the colours of a palette stand for.
pub open spec fn points(palette: Seq<LAB>) -> Seq<(int, int, int)> {
    palette.map_values(|c: LAB| c@)
}

/// Whether pair `(i1, j1)` comes before pair `(i2, j2)` in index order.
pub open spec fn pair_before(i1: int, j1: int, i2: int, j2: int) -> bool {
    i1 < i2 || (i1 == i2 && j1 < j2)
}

/// Whether `(i, j)` is the pair that the search selects for `target`: a pair
/// of indices `i < j` whose error no pair undercuts and that every earlier
/// pair exceeds.
pub open spec fn is_best_pair(
    target: (int, int, int),
    palette: Seq<(int, int, int)>,
    i: int,
    j: int,
) -> bool {
    &&& 0 <= i < j < palette.len()
    &&& forall|i2: int, j2: int|
        0 <= i2 < j2 < palette.len() ==> frac_le(
            pair_error(target, palette[i], palette[j]),
            #[trigger] pair_error(target, palette[i2], palette[j2]),
        )
    &&& forall|i2: int, j2: int|
        0 <= i2 < j2 < palette.len() && pair_before(i2, j2, i, j) ==> frac_lt(
            pair_error(target, palette[i], palette[j]),
            #[trigger] pair_error(target, palette[i2], palette[j2]),
        )
}

/// The pair of palette indices that the search selects for `target`.
pub open spec fn best_pair(target: (int, int, int), palette: Seq<(int, int, int)>) -> (int, int) {
    choose|p: (int, int)| is_best_pair(target, palette, p.0, p.1)
}

/// At most one pair is the best pair, so a pair that is best is `best_pair`.
pub proof fn lemma_best_pair_unique(
    target: (int, int, int),
    palette: Seq<(int, int, int)>,
    i: int,
    j: int,
)
    requires
        is_best_pair(target, palette, i, j),
    ensures
        best_pair(target, palette) == (i, j),
{
    // `(i, j)` is a witness, so the chosen pair `p` is a best pair too. Were
    // the two different, the later one would have an error both strictly
    // below and not below that of the earlier one.
    let p = best_pair(target, palette);
    assert(is_best_pair(target, palette, (i, j).0, (i, j).1));
    let e = pair_error(target, palette[i], palette[j]);
    let f = pair_error(target, palette[p.0], palette[p.1]);
    if pair_before(p.0, p.1, i, j) {
        assert(frac_lt(e, f) && frac_le(f, e));
    } else if pair_before(i, j, p.0, p.1) {
        assert(frac_lt(f, e) && frac_le(e, f));
    }
}

/// The outcome of the pair search: the indices of the two palette colours,
/// `first < second`, with the blend ratio and the error of that pair.
#[derive(Clone, Copy, Debug)]
pub struct Plan {
    pub first: usize,
    pub second: usize,
    pub ratio: Fraction,
    pub error: Fraction,
}

/// Whether `a < b`, for two errors as `evaluate_distance` returns them.
fn error_less(a: &Fraction, b: &Fraction) -> (less: bool)
    requires
        a.num <= 21 * dot_limit() * dot_limit(),
        a.den <= 20 * dot_limit(),
        b.num <= 21 * dot_limit() * dot_limit(),
        b.den <= 20 * dot_limit(),
    ensures
        less == frac_lt(a@, b@),
{
    proof {
        let lim = dot_limit();
        assert(a.num * b.den <= (21 * lim * lim) * (20 * lim) && b.num * a.den <= (21 * lim * lim)
            * (20 * lim)) by (nonlinear_arith)
            requires
                0 <= a.num <= 21 * lim * lim,
                0 <= a.den <= 20 * lim,
                0 <= b.num <= 21 * lim * lim,
                0 <= b.den <= 20 * lim,
        ;
        assert((21 * lim * lim) * (20 * lim) == 177_187_500_000_000_000_000_000_000_000_000_000_000)
            by (nonlinear_arith)
            requires
                lim == 750_000_000_000,
        ;
    }
    a.num * b.den < b.num * a.den
}

/// Whether `plan` is what the search holds once it has scored every pair
/// before `(i, j)`: the best of those pairs, with its error and ratio.
pub open spec fn is_best_before(
    target: (int, int, int),
    palette: Seq<(int, int, int)>,
    plan: Plan,
    i: int,
    j: int,
) -> bool {
    let first = plan.first as int;
    let second = plan.second as int;
    &&& 0 <= first < second < palette.len()
    &&& pair_before(first, second, i, j)
    &&& plan.error@ == pair_error(target, palette[first], palette[second])
    &&& plan.ratio@ == pair_ratio(target, palette[first], palette[second])
    &&& forall|i2: int, j2: int|
        0 <= i2 < j2 < palette.len() && pair_before(i2, j2, i, j) ==> frac_le(
            plan.error@,
            #[trigger] pair_error(target, palette[i2], palette[j2]),
        )
    &&& forall|i2: int, j2: int|
        0 <= i2 < j2 < palette.len() && pair_before(i2, j2, first, second) ==> frac_lt(
            plan.error@,
            #[trigger] pair_error(target, palette[i2], palette[j2]),
        )
}

/// A pair whose error is strictly below that of the best pair so far takes
/// its place.
proof fn lemma_better_pair_takes_over(
    target: (int, int, int),
    palette: Seq<(int, int, int)>,
    plan: Plan,
    next: Plan,
)
    requires
        0 <= next.first < next.second < palette.len(),
        is_best_before(target, palette, plan, next.first as int, next.second as int),
        next.error@ == pair_error(target, palette[next.first as int], palette[next.second as int]),
        next.ratio@ == pair_ratio(target, palette[next.first as int], palette[next.second as int]),
        frac_lt(next.error@, plan.error@),
    ensures
        is_best_before(target, palette, next, next.first as int, next.second + 1),
{
    assert forall|i2: int, j2: int|
        0 <= i2 < j2 < palette.len() && pair_before(
            i2,
            j2,
            next.first as int,
            next.second as int,
        ) implies frac_lt(next.error@, #[trigger] pair_error(target, palette[i2], palette[j2])) by {
        lemma_error_and_ratio_ranges(target, palette[i2], palette[j2]);
        lemma_error_and_ratio_ranges(
            target,
            palette[plan.first as int],
            palette[plan.second as int],
        );
        lemma_error_and_ratio_ranges(
            target,
            palette[next.first as int],
            palette[next.second as int],
        );
        lemma_frac_lt_le_transitive(
            next.error@,
            plan.error@,
            pair_error(target, palette[i2], palette[j2]),
        );
    }
}

/// Finds the pair of palette colours that best explains `color`.
///
/// All pairs of indices `i < j` are scored with `evaluate_distance`; the pair
/// with the smallest error wins, and among pairs of equal error the first in
/// index order. A palette of fewer than two colours has no pair.
pub fn optimize_pair(color: &LAB, palette: &[LAB]) -> (plan: Option<Plan>)
    ensures
        plan is Some <==> palette@.len() >= 2,
        plan matches Some(p) ==> {
            &&& is_best_pair(color@, points(palette@), p.first as int, p.second as int)
            &&& best_pair(color@, points(palette@)) == (p.first as int, p.second as int)
            &&& p.ratio@ == pair_ratio(color@, palette@[p.first as int]@, palette@[p.second as int]@)
            &&& p.error@ == pair_error(color@, palette@[p.first as int]@, palette@[p.second as int]@)
            &&& frac_valid(p.ratio@)
            &&& frac_valid(p.error@)
            &&& p.ratio.num <= p.ratio.den <==> !(is_degenerate(
                palette@[p.first as int]@,
                palette@[p.second as int]@,
            ) && distance_sq(color@, palette@[p.first as int]@) > SQUARED_SCALE)
        },
{
    let n = palette.len();
    if n < 2 {
        return None;
    }
    let ghost pts = points(palette@);
    let ghost target = color@;
    // Until a pair has been scored the plan is the first two colours, half and
    // half, and every error counts as smaller than the running one.
    let mut plan = Plan {
        first: 0,
        second: 1,
        ratio: Fraction { num: 1, den: 2 },
        error: Fraction { num: 0, den: 1 },
    };
    let mut scored = false;
    let mut i: usize = 0;
    while i < n
        invariant
            n == palette@.len(),
            n >= 2,
            pts == points(palette@),
            target == color@,
            i <= n,
            scored <==> i >= 1,
            scored ==> is_best_before(target, pts, plan, i as int, i + 1),
        decreases n - i,
    {
        let mut j: usize = i + 1;
        while j < n
            invariant
                n == palette@.len(),
                n >= 2,
                pts == points(palette@),
                target == color@,
                i < j <= n,
                scored <==> (i >= 1 || j >= i + 2),
                scored ==> is_best_before(target, pts, plan, i as int, j as int),
            decreases n - j,
        {
            let color1 = &palette[i];
            let color2 = &palette[j];
            let (local_penalty, ratio) = evaluate_distance(color, color1, color2);
            let next = Plan { first: i, second: j, ratio, error: local_penalty };
            let better = if scored {
                let best1 = &palette[plan.first];
                let best2 = &palette[plan.second];
                proof {
                    use_type_invariant(color);
                    use_type_invariant(color1);
                    use_type_invariant(color2);
                    use_type_invariant(best1);
                    use_type_invariant(best2);
                    lemma_pair_magnitudes(target, pts[i as int], pts[j as int]);
                    lemma_pair_magnitudes(
                        target,
                        pts[plan.first as int],
                        pts[plan.second as int],
                    );
                }
                error_less(&local_penalty, &plan.error)
            } else {
                true
            };
            if better {
                proof {
                    if scored {
                        lemma_better_pair_takes_over(target, pts, plan, next);
                    }
                }
                plan = next;
                scored = true;
            }
            j += 1;
        }
        i += 1;
    }
    proof {
        lemma_best_pair_unique(target, pts, plan.first as int, plan.second as int);
        lemma_error_and_ratio_ranges(target, pts[plan.first as int], pts[plan.second as int]);
    }
    Some(plan)
}

/// The squared Euclidean distance between two colours, in squared grid steps.
pub fn euclidean_distance_color_sq(a: &LAB, b: &LAB) -> (distance: i64)
    ensures
        distance == distance_sq(a@, b@),
        0 <= distance <= dot_limit(),
{
    proof {
        use_type_invariant(a);
        use_type_invariant(b);
    }
    let dl: i64 = a.l() as i64 - b.l() as i64;
    let da: i64 = a.a() as i64 - b.a() as i64;
    let db: i64 = a.b() as i64 - b.b() as i64;
    proof {
        lemma_dot_bounds(difference(a@, b@), difference(a@, b@));
        lemma_product_bound(dl as int, dl as int);
        lemma_product_bound(da as int, da as int);
        lemma_product_bound(db as int, db as int);
    }
    dl * dl + da * da + db * db
}

/// Whether `k` is the index of the palette colour closest to `input`: no
/// colour is closer, and every colour before it is farther away.
pub open spec fn is_closest(input: (int, int, int), palette: Seq<(int, int, int)>, k: int) -> bool {
    &&& 0 <= k < palette.len()
    &&& forall|i: int|
        0 <= i < palette.len() ==> distance_sq(palette[k], input) <= distance_sq(
            #[trigger] palette[i],
            input,
        )
    &&& forall|i: int|
        0 <= i < k ==> distance_sq(palette[k], input) < distance_sq(#[trigger] palette[i], input)
}

/// Finds the palette colour closest to `input` by Euclidean distance and
/// returns its index, the first such index where several colours are equally
/// close; `None` for an empty palette.
pub fn closest_color(input: &LAB, palette: &[LAB]) -> (index: Option<usize>)
    ensures
        index is Some <==> palette@.len() > 0,
        index matches Some(k) ==> is_closest(input@, points(palette@), k as int),
{
    let n = palette.len();
    if n == 0 {
        return None;
    }
    let ghost pts = points(palette@);
    let mut best: usize = 0;
    let mut best_distance = euclidean_distance_color_sq(&palette[0], input);
    let mut i: usize = 1;
    while i < n
        invariant
            n == palette@.len(),
            pts == points(palette@),
            1 <= i <= n,
            best < i,
            best_distance == distance_sq(pts[best as int], input@),
            forall|k: int|
                0 <= k < i ==> best_distance <= distance_sq(#[trigger] pts[k], input@),
            forall|k: int| 0 <= k < best ==> best_distance < distance_sq(#[trigger] pts[k], input@),
        decreases n - i,
    {
        let distance = euclidean_distance_color_sq(&palette[i], input);
        if distance < best_distance {
            best = i;
            best_distance = distance;
        }
        i += 1;
    }
    Some(best)
}

} // verus!
