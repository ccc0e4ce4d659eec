//! Points, the eight grid directions, and the integer measures of a point
//! (its weight) and of a rectangle (its area).
use vstd::prelude::*;

verus! {

/// A grid cell `(x, y)`.
pub type Point = (usize, usize);

/// A rectangle `[p0, p1, p2, p3]`: `p0` is the corner to be marked, `p1` and
/// `p3` are its neighbours on the perimeter and `p2` is the opposite corner.
pub type Rect = [Point; 4];

/// The largest grid side for which every product computed on a rectangle
/// with its corners in the grid fits in an `i64`: the dot product of two
/// sides reaches `2 * (n - 1) * (n - 1)`.
pub const MAX_N: usize = 2_147_483_648;

pub open spec fn abs(v: int) -> int {
    if v < 0 { -v } else { v }
}

pub open spec fn max(a: int, b: int) -> int {
    if a < b { b } else { a }
}

pub open spec fn sign(v: int) -> int {
    if v > 0 { 1 } else if v < 0 { -1 } else { 0 }
}

/// `k * s` for a step `s` in `{-1, 0, 1}`, written without a product.
pub open spec fn scale(k: int, s: int) -> int {
    if s > 0 { k } else if s < 0 { -k } else { 0 }
}

/// The x step of direction `d`: directions run counter-clockwise from
/// `(1, 0)` in steps of 45 degrees.
pub open spec fn dir_dx(d: int) -> int {
    if d == 0 || d == 1 || d == 7 { 1 } else if d == 3 || d == 4 || d == 5 { -1 } else { 0 }
}

/// The y step of direction `d`.
pub open spec fn dir_dy(d: int) -> int {
    if d == 1 || d == 2 || d == 3 { 1 } else if d == 5 || d == 6 || d == 7 { -1 } else { 0 }
}

/// The direction whose steps are `(sx, sy)`, for a nonzero pair of steps.
pub open spec fn dir_of(sx: int, sy: int) -> int {
    if sx == 1 && sy == 0 { 0 }
    else if sx == 1 && sy == 1 { 1 }
    else if sx == 0 && sy == 1 { 2 }
    else if sx == -1 && sy == 1 { 3 }
    else if sx == -1 && sy == 0 { 4 }
    else if sx == -1 && sy == -1 { 5 }
    else if sx == 0 && sy == -1 { 6 }
    else { 7 }
}

/// The direction opposite to `d`.
pub open spec fn opposite(d: int) -> int {
    (d + 4) % 8
}

/// The weight of a cell: one more than its squared distance from the centre
/// cell `(n / 2, n / 2)`.
pub open spec fn weight_spec(p: Point, n: int) -> int {
    let dx = p.0 - n / 2;
    let dy = p.1 - n / 2;
    dx * dx + dy * dy + 1
}

/// The area of a rectangle: for one whose sides run along rows and columns,
/// the product of its side lengths; for one tilted by 45 degrees, twice the
/// product of the diagonal step counts of its sides.
pub open spec fn area_spec(r: Rect) -> int {
    let dx01 = abs(r[1].0 - r[0].0);
    let dy01 = abs(r[1].1 - r[0].1);
    let dx03 = abs(r[3].0 - r[0].0);
    let dy03 = abs(r[3].1 - r[0].1);
    if dx01 == 0 || dy01 == 0 {
        max(dx01, dy01) * max(dx03, dy03)
    } else {
        dx01 * dx03 * 2
    }
}

/// The largest weight of a cell in a grid of side at most `MAX_N`.
pub const MAX_WEIGHT: i64 = 2_305_843_009_213_693_953;

/// Every cell weighs at least 1.
pub proof fn lemma_weight_positive(p: Point, n: int)
    ensures
        weight_spec(p, n) >= 1,
{
    let dx = p.0 - n / 2;
    let dy = p.1 - n / 2;
    assert(dx * dx >= 0 && dy * dy >= 0) by (nonlinear_arith);
}

/// A cell of the grid weighs at least 1 and at most `MAX_WEIGHT`.
pub proof fn lemma_weight_bounds(p: Point, n: int)
    requires
        0 <= n <= MAX_N,
        p.0 < n,
        p.1 < n,
    ensures
        1 <= weight_spec(p, n) <= MAX_WEIGHT,
{
    let dx = p.0 - n / 2;
    let dy = p.1 - n / 2;
    assert(dx * dx <= 1_152_921_504_606_846_976 && dy * dy <= 1_152_921_504_606_846_976 && dx * dx >= 0
        && dy * dy >= 0) by (nonlinear_arith)
        requires
            -1_073_741_824 <= dx <= 1_073_741_824,
            -1_073_741_824 <= dy <= 1_073_741_824,
    ;
}

/// The steps of direction `d`, for `d < 8`.
pub fn dxy(d: usize) -> (r: (i64, i64))
    requires
        d < 8,
    ensures
        r.0 == dir_dx(d as int),
        r.1 == dir_dy(d as int),
{
    if d == 0 {
        (1, 0)
    } else if d == 1 {
        (1, 1)
    } else if d == 2 {
        (0, 1)
    } else if d == 3 {
        (-1, 1)
    } else if d == 4 {
        (-1, 0)
    } else if d == 5 {
        (-1, -1)
    } else if d == 6 {
        (0, -1)
    } else {
        (1, -1)
    }
}

/// The weight of cell `p` in a grid of side `n`, for values whose weight
/// fits in an `i64`.
pub fn weight(p: Point, n: usize) -> (w: i64)
    requires
        p.0 <= i64::MAX,
        p.1 <= i64::MAX,
        n <= i64::MAX,
        weight_spec(p, n as int) <= i64::MAX,
    ensures
        w == weight_spec(p, n as int),
        w >= 1,
{
    let dx = p.0 as i64 - n as i64 / 2;
    let dy = p.1 as i64 - n as i64 / 2;
    assert(dx * dx >= 0 && dy * dy >= 0) by (nonlinear_arith);
    dx * dx + dy * dy + 1
}

/// `|a - b|`.
pub fn abs_diff(a: usize, b: usize) -> (r: i64)
    requires
        a <= i64::MAX,
        b <= i64::MAX,
    ensures
        r == abs(a - b),
{
    let d = a as i64 - b as i64;
    if d < 0 {
        -d
    } else {
        d
    }
}

/// Every product computed for the area of `r` fits in an `i64`.
pub open spec fn area_fits(r: Rect) -> bool {
    let dx01 = abs(r[1].0 - r[0].0);
    let dy01 = abs(r[1].1 - r[0].1);
    let dx03 = abs(r[3].0 - r[0].0);
    let dy03 = abs(r[3].1 - r[0].1);
    &&& r[0].0 <= i64::MAX && r[0].1 <= i64::MAX
    &&& r[1].0 <= i64::MAX && r[1].1 <= i64::MAX
    &&& r[3].0 <= i64::MAX && r[3].1 <= i64::MAX
    &&& if dx01 == 0 || dy01 == 0 {
        max(dx01, dy01) * max(dx03, dy03) <= i64::MAX
    } else {
        dx01 * dx03 * 2 <= i64::MAX
    }
}

/// The area of a rectangle whose corners lie in a grid of side at most
/// `MAX_N` fits.
pub proof fn lemma_area_fits(r: Rect, n: int)
    requires
        n <= MAX_N,
        r[0].0 < n && r[0].1 < n,
        r[1].0 < n && r[1].1 < n,
        r[3].0 < n && r[3].1 < n,
    ensures
        area_fits(r),
{
    let e01 = max(abs(r[1].0 - r[0].0), abs(r[1].1 - r[0].1));
    let e03 = max(abs(r[3].0 - r[0].0), abs(r[3].1 - r[0].1));
    let m = MAX_N - 1;
    assert(0 <= e01 * e03 <= m * m && 2 * (e01 * e03) <= 2 * (m * m)) by (nonlinear_arith)
        requires
            0 <= e01 <= m,
            0 <= e03 <= m,
    ;
    let dx01 = abs(r[1].0 - r[0].0);
    let dx03 = abs(r[3].0 - r[0].0);
    assert(0 <= dx01 * dx03 <= m * m) by (nonlinear_arith)
        requires
            0 <= dx01 <= m,
            0 <= dx03 <= m,
    ;
    assert(m * m == 4_611_686_014_132_420_609) by (nonlinear_arith)
        requires
            m == 2_147_483_647,
    ;
}

/// The area of `r`.
pub fn area(r: &Rect) -> (a: i64)
    requires
        area_fits(*r),
    ensures
        a == area_spec(*r),
        a >= 0,
{
    let dx01 = abs_diff(r[1].0, r[0].0);
    let dy01 = abs_diff(r[1].1, r[0].1);
    let dx03 = abs_diff(r[3].0, r[0].0);
    let dy03 = abs_diff(r[3].1, r[0].1);
    if dx01 == 0 || dy01 == 0 {
        let e01 = if dx01 < dy01 { dy01 } else { dx01 };
        let e03 = if dx03 < dy03 { dy03 } else { dx03 };
        assert(e01 * e03 >= 0) by (nonlinear_arith)
            requires
                e01 >= 0,
                e03 >= 0,
        ;
        e01 * e03
    } else {
        assert(dx01 * dx03 >= 0 && dx01 * dx03 <= dx01 * dx03 * 2) by (nonlinear_arith)
            requires
                dx01 >= 0,
                dx03 >= 0,
        ;
        dx01 * dx03 * 2
    }
}

/// The squared length of the segment from `a` to `b`.
pub open spec fn length_sq(a: Point, b: Point) -> int {
    (b.0 - a.0) * (b.0 - a.0) + (b.1 - a.1) * (b.1 - a.1)
}

/// The area of a rectangle is the product of the lengths of its two sides
/// from `p0`: for every rectangle with `p1` and `p3` apart from `p0`, sides
/// at right angles, and the side from `p0` to `p1` along a row, a column or
/// a diagonal, the area is positive and its square is the product of the
/// squared side lengths.
pub proof fn lemma_area_is_side_product(r: Rect)
    requires
        r[0] != r[1],
        r[0] != r[3],
        (r[1].0 - r[0].0) * (r[3].0 - r[0].0) + (r[1].1 - r[0].1) * (r[3].1 - r[0].1) == 0,
        r[1].0 == r[0].0 || r[1].1 == r[0].1 || abs(r[1].0 - r[0].0) == abs(r[1].1 - r[0].1),
    ensures
        area_spec(r) >= 1,
        area_spec(r) * area_spec(r) == length_sq(r[0], r[1]) * length_sq(r[0], r[3]),
{
    let dx01 = r[1].0 - r[0].0;
    let dy01 = r[1].1 - r[0].1;
    let dx03 = r[3].0 - r[0].0;
    let dy03 = r[3].1 - r[0].1;
    let l01 = length_sq(r[0], r[1]);
    let l03 = length_sq(r[0], r[3]);
    assert(l01 == dx01 * dx01 + dy01 * dy01 && l03 == dx03 * dx03 + dy03 * dy03);
    if dy01 == 0 {
        assert(dx01 != 0);
        assert(dx03 == 0) by (nonlinear_arith)
            requires
                dx01 * dx03 + dy01 * dy03 == 0,
                dy01 == 0,
                dx01 != 0,
        ;
        assert(dy03 != 0);
        let a = abs(dx01);
        let b = abs(dy03);
        assert(area_spec(r) == a * b);
        assert(a * b >= 1 && (a * b) * (a * b) == (dx01 * dx01 + dy01 * dy01) * (dx03 * dx03 + dy03 * dy03))
            by (nonlinear_arith)
            requires
                a >= 1,
                b >= 1,
                a == dx01 || a == -dx01,
                b == dy03 || b == -dy03,
                dy01 == 0,
                dx03 == 0,
        ;
    } else if dx01 == 0 {
        assert(dy03 == 0) by (nonlinear_arith)
            requires
                dx01 * dx03 + dy01 * dy03 == 0,
                dx01 == 0,
                dy01 != 0,
        ;
        assert(dx03 != 0);
        let a = abs(dy01);
        let b = abs(dx03);
        assert(area_spec(r) == a * b);
        assert(a * b >= 1 && (a * b) * (a * b) == (dx01 * dx01 + dy01 * dy01) * (dx03 * dx03 + dy03 * dy03))
            by (nonlinear_arith)
            requires
                a >= 1,
                b >= 1,
                a == dy01 || a == -dy01,
                b == dx03 || b == -dx03,
                dx01 == 0,
                dy03 == 0,
        ;
    } else {
        assert(abs(dx01) == abs(dy01));
        assert(abs(dx03) == abs(dy03)) by (nonlinear_arith)
            requires
                dx01 * dx03 + dy01 * dy03 == 0,
                dx01 != 0,
                dx01 == dy01 || dx01 == -dy01,
        ;
        assert(dx03 != 0);
        let a = abs(dx01);
        let b = abs(dx03);
        assert(area_spec(r) == a * b * 2);
        assert(a * b * 2 >= 1 && (a * b * 2) * (a * b * 2) == (dx01 * dx01 + dy01 * dy01) * (dx03 * dx03 + dy03
            * dy03)) by (nonlinear_arith)
            requires
                a >= 1,
                b >= 1,
                a == dx01 || a == -dx01,
                a == dy01 || a == -dy01,
                b == dx03 || b == -dx03,
                b == dy03 || b == -dy03,
        ;
    }
}

/// The weight of a cell is one more than its squared distance from the
/// centre cell `(n / 2, n / 2)`.
pub proof fn lemma_weight_is_distance_from_centre(p: Point, n: usize)
    ensures
        weight_spec(p, n as int) == length_sq(((n / 2) as usize, (n / 2) as usize), p) + 1,
{
}

} // verus!
