//! Rectangles as moves: the two orientations of one rectangle, right angles
//! at the corners, and lists holding each move once.
use vstd::prelude::*;

verus! {

use crate::geometry::{Point, Rect, opposite, abs, max, area_spec};
use crate::state::{
    State, edge_len, edge_dir, along, straight, edge_clear, shape_ok, well_shaped, valid_move,
    lemma_well_shaped_edges, in_grid, corners_in_grid, square_off_edge, lemma_along,
    lemma_interior_not_square_off, lemma_opposite_steps,
};

/// The same rectangle with its corners listed the other way round.
pub open spec fn mirror(r: Rect) -> Rect {
    [r[0], r[3], r[2], r[1]]
}

/// Walking a straight edge backwards visits the same cells in the opposite
/// direction, so the edge is clear one way exactly when it is clear the
/// other way.
pub proof fn lemma_reverse_edge(s: State, a: Point, b: Point)
    requires
        straight(a, b),
    ensures
        straight(b, a),
        edge_len(b, a) == edge_len(a, b),
        edge_dir(b, a) == opposite(edge_dir(a, b)),
        edge_dir(a, b) == opposite(edge_dir(b, a)),
        forall|k: int| #[trigger] along(b, a, k) == along(a, b, edge_len(a, b) - k),
        edge_clear(s, b, a) == edge_clear(s, a, b),
{
    let len = edge_len(a, b);
    assert forall|k: int| #[trigger] along(b, a, k) == along(a, b, len - k) by {}
    if edge_clear(s, a, b) {
        assert forall|k: int| 0 < k < len implies !s.marked(#[trigger] along(b, a, k)) by {
            assert(along(b, a, k) == along(a, b, len - k));
        }
        assert forall|k: int| 0 <= k < len implies !s.used_at(#[trigger] along(b, a, k), edge_dir(b, a)) by {
            assert(along(b, a, k) == along(a, b, len - k));
        }
        assert forall|k: int| 1 <= k <= len implies !s.used_at(#[trigger] along(b, a, k), opposite(edge_dir(b, a))) by {
            assert(along(b, a, k) == along(a, b, len - k));
        }
    }
    if edge_clear(s, b, a) {
        assert forall|k: int| 0 < k < len implies !s.marked(#[trigger] along(a, b, k)) by {
            assert(along(b, a, len - k) == along(a, b, k));
        }
        assert forall|k: int| 0 <= k < len implies !s.used_at(#[trigger] along(a, b, k), edge_dir(a, b)) by {
            assert(along(b, a, len - k) == along(a, b, k));
        }
        assert forall|k: int| 1 <= k <= len implies !s.used_at(#[trigger] along(a, b, k), opposite(edge_dir(a, b))) by {
            assert(along(b, a, len - k) == along(a, b, k));
        }
    }
}

/// A rectangle and its mirror image are the same move.
pub proof fn lemma_mirror_valid(s: State, r: Rect)
    requires
        well_shaped(r),
    ensures
        well_shaped(mirror(r)),
        valid_move(s, mirror(r)) == valid_move(s, r),
        mirror(mirror(r)) =~= r,
{
    let m = mirror(r);
    lemma_well_shaped_edges(r);
    lemma_reverse_edge(s, r[0], r[1]);
    lemma_reverse_edge(s, r[1], r[2]);
    lemma_reverse_edge(s, r[2], r[3]);
    lemma_reverse_edge(s, r[3], r[0]);
    let dx01 = r[1].0 - r[0].0;
    let dy01 = r[1].1 - r[0].1;
    let dx03 = r[3].0 - r[0].0;
    let dy03 = r[3].1 - r[0].1;
    assert(dx03 * dx01 + dy03 * dy01 == 0) by (nonlinear_arith)
        requires
            dx01 * dx03 + dy01 * dy03 == 0,
    ;
    assert(shape_ok(m));
}

/// `p1` lies in a lower-numbered direction from `p0` than `p3` does: the
/// orientation in which the enumeration from scratch lists a rectangle.
pub open spec fn canonical(r: Rect) -> bool {
    edge_dir(r[0], r[1]) < edge_dir(r[0], r[3])
}

/// The sides of a well-shaped rectangle meet at right angles: the directions
/// from `p0` to `p1` and to `p3` differ by a quarter turn, so they are both
/// even (along the axes) or both odd (diagonal); the side from `p1` to `p2`
/// runs like the one from `p0` to `p3`, and the side from `p2` to `p3` like
/// the one from `p1` to `p0`.
pub proof fn lemma_right_angles(r: Rect)
    requires
        well_shaped(r),
    ensures
        edge_dir(r[0], r[3]) == (edge_dir(r[0], r[1]) + 2) % 8 || edge_dir(r[0], r[3]) == (edge_dir(r[0], r[1]) + 6) % 8,
        edge_dir(r[0], r[1]) % 2 == edge_dir(r[0], r[3]) % 2,
        edge_dir(r[1], r[2]) == edge_dir(r[0], r[3]),
        edge_len(r[1], r[2]) == edge_len(r[0], r[3]),
        edge_dir(r[2], r[3]) == edge_dir(r[1], r[0]),
        edge_len(r[2], r[3]) == edge_len(r[0], r[1]),
        edge_dir(r[1], r[0]) == opposite(edge_dir(r[0], r[1])),
{
    lemma_well_shaped_edges(r);
    let dx01 = r[1].0 - r[0].0;
    let dy01 = r[1].1 - r[0].1;
    let dx03 = r[3].0 - r[0].0;
    let dy03 = r[3].1 - r[0].1;
    if dy01 == 0 {
        assert(dx03 == 0) by (nonlinear_arith)
            requires
                dx01 * dx03 + dy01 * dy03 == 0,
                dy01 == 0,
                dx01 != 0,
        ;
    } else if dx01 == 0 {
        assert(dy03 == 0) by (nonlinear_arith)
            requires
                dx01 * dx03 + dy01 * dy03 == 0,
                dx01 == 0,
                dy01 != 0,
        ;
    } else if dx01 == dy01 {
        assert(dx03 == -dy03) by (nonlinear_arith)
            requires
                dx01 * dx03 + dy01 * dy03 == 0,
                dx01 != 0,
                dx01 == dy01,
        ;
    } else {
        assert(dx01 == -dy01);
        assert(dx03 == dy03) by (nonlinear_arith)
            requires
                dx01 * dx03 + dy01 * dy03 == 0,
                dx01 != 0,
                dx01 == -dy01,
        ;
    }
}

/// The pair of directions from `p0` to `p1` and to `p3`, as one number.
pub open spec fn pair_key(r: Rect) -> int {
    edge_dir(r[0], r[1]) * 8 + edge_dir(r[0], r[3])
}

/// An allowed move is a well-shaped rectangle.
pub proof fn lemma_well_shaped_move(s: State, r: Rect)
    requires
        valid_move(s, r),
    ensures
        well_shaped(r),
        0 <= edge_dir(r[0], r[1]) < 8,
        0 <= edge_dir(r[0], r[3]) < 8,
{
}

/// No move is listed twice, neither in the same orientation nor in both.
pub open spec fn unique_moves(v: Seq<Rect>) -> bool {
    &&& v.no_duplicates()
    &&& forall|a: int, b: int| 0 <= a < v.len() && 0 <= b < v.len() ==> #[trigger] v[a] != mirror(#[trigger] v[b])
}

/// The four corners of a well-shaped rectangle are distinct.
pub proof fn lemma_corners_distinct(r: Rect)
    requires
        well_shaped(r),
    ensures
        r[0] != r[1],
        r[0] != r[2],
        r[0] != r[3],
        r[1] != r[2],
        r[1] != r[3],
        r[2] != r[3],
        mirror(r) != r,
{
    lemma_well_shaped_edges(r);
    lemma_right_angles(r);
    let dx01 = r[1].0 - r[0].0;
    let dy01 = r[1].1 - r[0].1;
    let dx03 = r[3].0 - r[0].0;
    let dy03 = r[3].1 - r[0].1;
    if r[1] == r[3] {
        assert(dx01 * dx01 + dy01 * dy01 == 0) by (nonlinear_arith)
            requires
                dx01 * dx03 + dy01 * dy03 == 0,
                dx01 == dx03,
                dy01 == dy03,
        ;
        assert(dx01 == 0 && dy01 == 0) by (nonlinear_arith)
            requires
                dx01 * dx01 + dy01 * dy01 == 0,
        ;
    }
    if r[0] == r[2] {
        assert(dx01 == -dx03 && dy01 == -dy03);
        assert(dx01 * dx01 + dy01 * dy01 == 0) by (nonlinear_arith)
            requires
                dx01 * dx03 + dy01 * dy03 == 0,
                dx01 == -dx03,
                dy01 == -dy03,
        ;
        assert(dx01 == 0 && dy01 == 0) by (nonlinear_arith)
            requires
                dx01 * dx01 + dy01 * dy01 == 0,
        ;
    }
    if mirror(r) == r {
        assert(mirror(r)[1] == r[1]);
    }
}

/// The area of a well-shaped rectangle does not depend on the orientation
/// in which its corners are listed, and is at least 1.
pub proof fn lemma_area_of_mirror(r: Rect)
    requires
        well_shaped(r),
    ensures
        area_spec(r) == area_spec(mirror(r)),
        area_spec(r) >= 1,
{
    let dx01 = r[1].0 - r[0].0;
    let dy01 = r[1].1 - r[0].1;
    let dx03 = r[3].0 - r[0].0;
    let dy03 = r[3].1 - r[0].1;
    let m = mirror(r);
    assert(m[1] == r[3] && m[3] == r[1] && m[0] == r[0]);
    if dx01 == 0 || dy01 == 0 {
        if dy01 == 0 {
            assert(dx03 == 0) by (nonlinear_arith)
                requires
                    dx01 * dx03 + dy01 * dy03 == 0,
                    dy01 == 0,
                    dx01 != 0,
            ;
        } else {
            assert(dy03 == 0) by (nonlinear_arith)
                requires
                    dx01 * dx03 + dy01 * dy03 == 0,
                    dx01 == 0,
                    dy01 != 0,
            ;
        }
        let e01 = max(abs(dx01), abs(dy01));
        let e03 = max(abs(dx03), abs(dy03));
        assert(e01 >= 1 && e03 >= 1);
        assert(e01 * e03 == e03 * e01 && e01 * e03 >= 1) by (nonlinear_arith)
            requires
                e01 >= 1,
                e03 >= 1,
        ;
    } else {
        assert(abs(dx03) == abs(dy03)) by (nonlinear_arith)
            requires
                dx01 * dx03 + dy01 * dy03 == 0,
                dx01 != 0,
                dx01 == dy01 || dx01 == -dy01,
        ;
        assert(dx03 != 0);
        let a = abs(dx01);
        let b = abs(dx03);
        assert(a * b * 2 == b * a * 2 && a * b * 2 >= 1) by (nonlinear_arith)
            requires
                a >= 1,
                b >= 1,
        ;
    }
}

/// A straight edge is clear on a board where nothing is covered and the only
/// marked cells are `q1`, `q2`, `q3`, each an end of the edge or square off
/// it.
proof fn lemma_edge_unblocked(s: State, a: Point, b: Point, q1: Point, q2: Point, q3: Point)
    requires
        straight(a, b),
        a.0 < s.n() && a.1 < s.n() && b.0 < s.n() && b.1 < s.n(),
        forall|x: int, y: int|
            in_grid((x, y), s.n()) && #[trigger] s.marked((x, y)) ==> (x, y) == (q1.0 as int, q1.1 as int) || (x, y)
                == (q2.0 as int, q2.1 as int) || (x, y) == (q3.0 as int, q3.1 as int),
        forall|x: int, y: int, d: int| in_grid((x, y), s.n()) && 0 <= d < 8 ==> !#[trigger] s.used_at((x, y), d),
        q1 == a || q1 == b || square_off_edge(a, b, q1),
        q2 == a || q2 == b || square_off_edge(a, b, q2),
        q3 == a || q3 == b || square_off_edge(a, b, q3),
    ensures
        edge_clear(s, a, b),
{
    let len = edge_len(a, b);
    lemma_along(a, b, 0);
    lemma_opposite_steps(edge_dir(a, b));
    assert forall|k: int| 0 < k < len implies !s.marked(#[trigger] along(a, b, k)) by {
        lemma_along(a, b, k);
        let c = along(a, b, k);
        assert(in_grid(c, s.n()));
        if s.marked(c) {
            assert(s.marked((c.0, c.1)));
            if q1 != a && q1 != b {
                lemma_interior_not_square_off(a, b, q1, k);
            }
            if q2 != a && q2 != b {
                lemma_interior_not_square_off(a, b, q2, k);
            }
            if q3 != a && q3 != b {
                lemma_interior_not_square_off(a, b, q3, k);
            }
        }
    }
    assert forall|k: int| 0 <= k < len implies !s.used_at(#[trigger] along(a, b, k), edge_dir(a, b)) by {
        lemma_along(a, b, k);
        let c = along(a, b, k);
        assert(in_grid(c, s.n()));
        assert(!s.used_at((c.0, c.1), edge_dir(a, b)));
    }
    assert forall|k: int| 1 <= k <= len implies !s.used_at(#[trigger] along(a, b, k), opposite(edge_dir(a, b))) by {
        lemma_along(a, b, k);
        let c = along(a, b, k);
        assert(in_grid(c, s.n()));
        assert(!s.used_at((c.0, c.1), opposite(edge_dir(a, b))));
    }
}

/// Any rectangle can be drawn on a board where nothing is covered and the
/// only marked cells are its corners `p1`, `p2`, `p3`, whatever the length of
/// its sides: `p1` and `p3` apart from `p0`, the sides from `p0` at right
/// angles, the side to `p1` along a row, a column or a diagonal, and `p2`
/// completing the rectangle.
pub proof fn lemma_lone_rectangle_allowed(s: State, r: Rect)
    requires
        corners_in_grid(r, s.n()),
        r[0] != r[1],
        r[0] != r[3],
        (r[1].0 - r[0].0) * (r[3].0 - r[0].0) + (r[1].1 - r[0].1) * (r[3].1 - r[0].1) == 0,
        r[1].0 == r[0].0 || r[1].1 == r[0].1 || abs(r[1].0 - r[0].0) == abs(r[1].1 - r[0].1),
        r[2].0 == r[1].0 + r[3].0 - r[0].0,
        r[2].1 == r[1].1 + r[3].1 - r[0].1,
        s.marked((r[1].0 as int, r[1].1 as int)),
        s.marked((r[2].0 as int, r[2].1 as int)),
        s.marked((r[3].0 as int, r[3].1 as int)),
        forall|x: int, y: int|
            in_grid((x, y), s.n()) && #[trigger] s.marked((x, y)) ==> (x, y) == (r[1].0 as int, r[1].1 as int) || (
            x,
            y,
        ) == (r[2].0 as int, r[2].1 as int) || (x, y) == (r[3].0 as int, r[3].1 as int),
        forall|x: int, y: int, d: int| in_grid((x, y), s.n()) && 0 <= d < 8 ==> !#[trigger] s.used_at((x, y), d),
    ensures
        valid_move(s, r),
{
    let dx01 = r[1].0 - r[0].0;
    let dy01 = r[1].1 - r[0].1;
    let dx03 = r[3].0 - r[0].0;
    let dy03 = r[3].1 - r[0].1;
    assert(shape_ok(r));
    assert(well_shaped(r));
    lemma_well_shaped_edges(r);
    lemma_corners_distinct(r);
    assert(in_grid((r[0].0 as int, r[0].1 as int), s.n()));
    if s.marked((r[0].0 as int, r[0].1 as int)) {
        assert(false);
    }
    assert(dx03 * dx01 + dy03 * dy01 == 0 && (-dx01) * dx03 + (-dy01) * dy03 == 0 && (-dx03) * (-dx01) + (-dy03) * (
    -dy01) == 0 && dx01 * (-dx03) + dy01 * (-dy03) == 0) by (nonlinear_arith)
        requires
            dx01 * dx03 + dy01 * dy03 == 0,
    ;
    // From p0 to p1: p3 is square off p0, p2 square off p1.
    assert(square_off_edge(r[0], r[1], r[3]));
    assert(square_off_edge(r[0], r[1], r[2]));
    lemma_edge_unblocked(s, r[0], r[1], r[1], r[2], r[3]);
    // From p1 to p2: p3 is square off p2.
    assert(square_off_edge(r[1], r[2], r[3]));
    lemma_edge_unblocked(s, r[1], r[2], r[1], r[2], r[3]);
    // From p2 to p3: p1 is square off p2.
    assert(square_off_edge(r[2], r[3], r[1]));
    lemma_edge_unblocked(s, r[2], r[3], r[1], r[2], r[3]);
    // From p3 to p0: p1 is square off p0, p2 square off p3.
    assert(square_off_edge(r[3], r[0], r[1]));
    assert(square_off_edge(r[3], r[0], r[2]));
    lemma_edge_unblocked(s, r[3], r[0], r[1], r[2], r[3]);
}

/// Every allowed move is a rectangle drawn to rule: `p1`, `p2`, `p3` are
/// marked and `p0` is not, `p1` and `p3` are apart from `p0`, the sides
/// from `p0` are at right angles, the side to `p1` runs along a row, a
/// column or a diagonal, and `p2` completes the rectangle.
pub proof fn lemma_allowed_move_is_rectangle(s: State, r: Rect)
    requires
        valid_move(s, r),
    ensures
        s.marked((r[1].0 as int, r[1].1 as int)),
        s.marked((r[2].0 as int, r[2].1 as int)),
        s.marked((r[3].0 as int, r[3].1 as int)),
        !s.marked((r[0].0 as int, r[0].1 as int)),
        r[0] != r[1],
        r[0] != r[3],
        (r[1].0 - r[0].0) * (r[3].0 - r[0].0) + (r[1].1 - r[0].1) * (r[3].1 - r[0].1) == 0,
        r[1].0 == r[0].0 || r[1].1 == r[0].1 || abs(r[1].0 - r[0].0) == abs(r[1].1 - r[0].1),
        r[2].0 == r[1].0 + r[3].0 - r[0].0,
        r[2].1 == r[1].1 + r[3].1 - r[0].1,
{
    if r[0] == r[1] {
        assert(s.marked((r[1].0 as int, r[1].1 as int)));
    }
    if r[0] == r[3] {
        assert(s.marked((r[3].0 as int, r[3].1 as int)));
    }
}

} // verus!
