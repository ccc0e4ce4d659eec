//! The problem input and the board state: which cells are marked and which
//! unit segments of the grid are already covered by a drawn rectangle.
use vstd::prelude::*;
verus! {

use crate::geometry::{
    Point, Rect, MAX_N, abs, max, sign, scale, dir_of, dir_dx, dir_dy, opposite, dxy, abs_diff,
};

/// The problem: a grid of side `n` and its initially marked cells.
pub struct Input {
    pub n: usize,
    pub ps: Vec<Point>,
}

impl Input {
    /// The grid fits the integer bounds and every given cell lies in it.
    pub open spec fn wf(&self) -> bool {
        &&& self.n <= MAX_N
        &&& forall|i: int|
            0 <= i < self.ps@.len() ==> #[trigger] self.ps@[i].0 < self.n && self.ps@[i].1 < self.n
    }

    /// Builds the input from the grid side and the marked cells; `None` when a
    /// cell lies outside the grid or when the side exceeds `MAX_N`.
    pub fn new(n: usize, ps: Vec<Point>) -> (res: Option<Input>)
        ensures
            res is Some <==> ({
                &&& n <= MAX_N
                &&& forall|i: int| 0 <= i < ps@.len() ==> #[trigger] ps@[i].0 < n && ps@[i].1 < n
            }),
            res matches Some(input) ==> input.n == n && input.ps@ == ps@ && input.wf(),
    {
        if n > MAX_N {
            return None;
        }
        let mut i: usize = 0;
        while i < ps.len()
            invariant
                i <= ps@.len(),
                forall|j: int| 0 <= j < i ==> #[trigger] ps@[j].0 < n && ps@[j].1 < n,
            decreases ps@.len() - i,
        {
            if ps[i].0 >= n || ps[i].1 >= n {
                return None;
            }
            i = i + 1;
        }
        Some(Input { n, ps })
    }
}

/// The board: `has_point[x][y]` tells whether cell `(x, y)` is marked, and
/// `used[x][y][d]` whether the unit segment leaving `(x, y)` in direction
/// `d` belongs to a drawn rectangle.
pub struct State {
    pub has_point: Vec<Vec<bool>>,
    pub used: Vec<Vec<[bool; 8]>>,
}

pub open spec fn in_grid(p: (int, int), n: int) -> bool {
    0 <= p.0 < n && 0 <= p.1 < n
}

pub open spec fn corners_in_grid(r: Rect, n: int) -> bool {
    &&& r[0].0 < n && r[0].1 < n
    &&& r[1].0 < n && r[1].1 < n
    &&& r[2].0 < n && r[2].1 < n
    &&& r[3].0 < n && r[3].1 < n
}

// ---------------------------------------------------------------------------
// Edges of a rectangle: walking from corner `a` to corner `b`.

pub open spec fn edge_sx(a: Point, b: Point) -> int {
    sign(b.0 - a.0)
}

pub open spec fn edge_sy(a: Point, b: Point) -> int {
    sign(b.1 - a.1)
}

/// The number of unit steps from `a` to `b`.
pub open spec fn edge_len(a: Point, b: Point) -> int {
    max(abs(b.0 - a.0), abs(b.1 - a.1))
}

/// The direction of the walk from `a` to `b`.
pub open spec fn edge_dir(a: Point, b: Point) -> int {
    dir_of(edge_sx(a, b), edge_sy(a, b))
}

/// The cell `k` steps from `a` towards `b`.
pub open spec fn along(a: Point, b: Point, k: int) -> (int, int) {
    (a.0 + scale(k, edge_sx(a, b)), a.1 + scale(k, edge_sy(a, b)))
}

/// The step count at which the walk from `a` towards `b` reaches `(x, y)`,
/// if it does.
pub open spec fn step_of(a: Point, b: Point, x: int, y: int) -> int {
    if edge_sx(a, b) != 0 {
        scale(x - a.0, edge_sx(a, b))
    } else {
        scale(y - a.1, edge_sy(a, b))
    }
}

/// `a` and `b` differ and lie on a common row, column or diagonal.
pub open spec fn straight(a: Point, b: Point) -> bool {
    &&& a != b
    &&& (a.0 == b.0 || a.1 == b.1 || abs(b.0 - a.0) == abs(b.1 - a.1))
}

/// No marked cell strictly between `a` and `b`, and no unit segment of the
/// walk from `a` to `b` already covered, in either direction.
pub open spec fn edge_clear(s: State, a: Point, b: Point) -> bool {
    &&& forall|k: int|
        0 < k < edge_len(a, b) ==> !s.marked(#[trigger] along(a, b, k))
    &&& forall|k: int|
        0 <= k < edge_len(a, b) ==> !s.used_at(#[trigger] along(a, b, k), edge_dir(a, b))
    &&& forall|k: int|
        1 <= k <= edge_len(a, b) ==> !s.used_at(#[trigger] along(a, b, k), opposite(edge_dir(a, b)))
}

/// Segment flag `(x, y, d)` set by the first `k` unit steps from `a` towards
/// `b`: the step leaving a cell in the walk's direction, and the step arriving
/// at a cell in the opposite direction.
pub open spec fn edge_flag(a: Point, b: Point, k: int, x: int, y: int, d: int) -> bool {
    let j = step_of(a, b, x, y);
    &&& along(a, b, j) == (x, y)
    &&& {
        ||| d == edge_dir(a, b) && 0 <= j < k
        ||| d == opposite(edge_dir(a, b)) && 1 <= j <= k
    }
}

/// Segment flags set by drawing the first `m` edges of `r` in full.
pub open spec fn rect_flag(r: Rect, m: int, x: int, y: int, d: int) -> bool {
    ||| m > 0 && edge_flag(r[0], r[1], edge_len(r[0], r[1]), x, y, d)
    ||| m > 1 && edge_flag(r[1], r[2], edge_len(r[1], r[2]), x, y, d)
    ||| m > 2 && edge_flag(r[2], r[3], edge_len(r[2], r[3]), x, y, d)
    ||| m > 3 && edge_flag(r[3], r[0], edge_len(r[3], r[0]), x, y, d)
}

/// The corners form a rectangle with `p1` and `p3` next to `p0`, whose
/// sides run along rows, columns or diagonals.
pub open spec fn shape_ok(r: Rect) -> bool {
    let dx01 = r[1].0 - r[0].0;
    let dy01 = r[1].1 - r[0].1;
    let dx03 = r[3].0 - r[0].0;
    let dy03 = r[3].1 - r[0].1;
    &&& dx01 * dx03 + dy01 * dy03 == 0
    &&& !(dx01 != 0 && dy01 != 0 && abs(dx01) != abs(dy01))
    &&& r[1].0 + dx03 == r[2].0
    &&& r[1].1 + dy03 == r[2].1
}

/// A rectangle that can be drawn: the shape is right and `p0` differs from
/// its neighbours `p1` and `p3`.
pub open spec fn well_shaped(r: Rect) -> bool {
    &&& shape_ok(r)
    &&& r[0] != r[1]
    &&& r[0] != r[3]
}

/// The move that draws `r` is allowed in `s`: `p1`, `p2` and `p3` are marked,
/// `p0` is not, the shape is right and every edge is clear.
pub open spec fn valid_move(s: State, r: Rect) -> bool {
    &&& s.marked((r[1].0 as int, r[1].1 as int))
    &&& s.marked((r[2].0 as int, r[2].1 as int))
    &&& s.marked((r[3].0 as int, r[3].1 as int))
    &&& !s.marked((r[0].0 as int, r[0].1 as int))
    &&& shape_ok(r)
    &&& edge_clear(s, r[0], r[1])
    &&& edge_clear(s, r[1], r[2])
    &&& edge_clear(s, r[2], r[3])
    &&& edge_clear(s, r[3], r[0])
}

/// `s1` is `s0` after drawing `r`: the same grid, `p0` marked in addition,
/// and the unit segments of the perimeter covered in addition, in both
/// directions.
pub open spec fn moved(s0: State, r: Rect, s1: State) -> bool {
    &&& s1.wf()
    &&& s1.n() == s0.n()
    &&& forall|x: int, y: int|
        in_grid((x, y), s0.n()) ==> (#[trigger] s1.marked((x, y)) == (s0.marked((x, y)) || (x, y) == (
            r[0].0 as int,
            r[0].1 as int,
        )))
    &&& forall|x: int, y: int, d: int|
        in_grid((x, y), s0.n()) && 0 <= d < 8 ==> (#[trigger] s1.used_at((x, y), d) == (s0.used_at((x, y), d)
            || rect_flag(r, 4, x, y, d)))
}

/// `q` lies off the line of the edge from `a` to `b` at a right angle from
/// one of its ends.
pub open spec fn square_off_edge(a: Point, b: Point, q: Point) -> bool {
    ||| (q.0 - a.0) * (b.0 - a.0) + (q.1 - a.1) * (b.1 - a.1) == 0
    ||| (q.0 - b.0) * (b.0 - a.0) + (q.1 - b.1) * (b.1 - a.1) == 0
}

/// `k * s` for a unit step `s`.
proof fn lemma_scale_is_product(k: int, s: int)
    requires
        -1 <= s <= 1,
    ensures
        scale(k, s) == k * s,
{
    if s == 1 {
        assert(k * s == k) by (nonlinear_arith)
            requires
                s == 1,
        ;
    } else if s == -1 {
        assert(k * s == -k) by (nonlinear_arith)
            requires
                s == -1,
        ;
    } else {
        assert(k * s == 0) by (nonlinear_arith)
            requires
                s == 0,
        ;
    }
}

/// A cell strictly inside a straight edge is not a cell square off the edge
/// from one of its ends.
pub proof fn lemma_interior_not_square_off(a: Point, b: Point, q: Point, k: int)
    requires
        straight(a, b),
        0 < k < edge_len(a, b),
        square_off_edge(a, b, q),
    ensures
        along(a, b, k) != (q.0 as int, q.1 as int),
{
    let len = edge_len(a, b);
    lemma_along(a, b, k);
    lemma_along(a, b, len);
    let sx = edge_sx(a, b);
    let sy = edge_sy(a, b);
    lemma_scale_is_product(k, sx);
    lemma_scale_is_product(k, sy);
    lemma_scale_is_product(len, sx);
    lemma_scale_is_product(len, sy);
    assert(sx != 0 || sy != 0);
    assert(sx * sx + sy * sy >= 1) by (nonlinear_arith)
        requires
            -1 <= sx <= 1,
            -1 <= sy <= 1,
            sx != 0 || sy != 0,
    ;
    if along(a, b, k) == (q.0 as int, q.1 as int) {
        let u0 = q.0 - a.0;
        let u1 = q.1 - a.1;
        let v0 = b.0 - a.0;
        let v1 = b.1 - a.1;
        assert(u0 == k * sx && u1 == k * sy);
        assert(v0 == len * sx && v1 == len * sy);
        assert(u0 * v0 + u1 * v1 > 0 && (u0 - v0) * v0 + (u1 - v1) * v1 < 0) by (nonlinear_arith)
            requires
                u0 == k * sx,
                u1 == k * sy,
                v0 == len * sx,
                v1 == len * sy,
                0 < k < len,
                sx * sx + sy * sy >= 1,
        ;
        assert((q.0 - b.0) == u0 - v0 && (q.1 - b.1) == u1 - v1);
    }
}

/// The cell one step from `p` in direction `d`.
pub open spec fn step_cell(p: (int, int), d: int) -> (int, int) {
    (p.0 + dir_dx(d), p.1 + dir_dy(d))
}

/// Every covered unit segment is recorded at both of its ends: the flag
/// leaving a cell in direction `d` is set exactly when the neighbour in that
/// direction lies in the grid and its flag in the opposite direction is set.
pub open spec fn segments_paired(s: State) -> bool {
    forall|x: int, y: int, d: int|
        in_grid((x, y), s.n()) && 0 <= d < 8 ==> (#[trigger] s.used_at((x, y), d) == (in_grid(
            step_cell((x, y), d),
            s.n(),
        ) && s.used_at(step_cell((x, y), d), opposite(d))))
}

/// Opposite directions have opposite steps.
pub proof fn lemma_opposite_steps(d: int)
    requires
        0 <= d < 8,
    ensures
        0 <= opposite(d) < 8,
        opposite(opposite(d)) == d,
        dir_dx(opposite(d)) == -dir_dx(d),
        dir_dy(opposite(d)) == -dir_dy(d),
{
    assert(d == 0 || d == 1 || d == 2 || d == 3 || d == 4 || d == 5 || d == 6 || d == 7);
}

/// A segment flag set by drawing a straight edge has its partner flag, at the
/// other end of the same unit segment, set as well.
proof fn lemma_edge_flag_paired(a: Point, b: Point, x: int, y: int, d: int, n: int)
    requires
        straight(a, b),
        a.0 < n && a.1 < n && b.0 < n && b.1 < n,
        edge_flag(a, b, edge_len(a, b), x, y, d),
    ensures
        in_grid(step_cell((x, y), d), n),
        edge_flag(a, b, edge_len(a, b), step_cell((x, y), d).0, step_cell((x, y), d).1, opposite(d)),
{
    let len = edge_len(a, b);
    let dd = edge_dir(a, b);
    let j = step_of(a, b, x, y);
    lemma_along(a, b, 0);
    lemma_opposite_steps(dd);
    if d == dd && 0 <= j < len {
        lemma_along(a, b, j);
        lemma_along(a, b, j + 1);
        assert(step_cell((x, y), d) == along(a, b, j + 1));
    } else {
        assert(d == opposite(dd) && 1 <= j <= len);
        lemma_along(a, b, j);
        lemma_along(a, b, j - 1);
        assert(step_cell((x, y), d) == along(a, b, j - 1));
    }
}

/// A segment flag set by drawing a well-shaped rectangle has its partner
/// flag set as well.
proof fn lemma_rect_flag_paired(r: Rect, x: int, y: int, d: int, n: int)
    requires
        well_shaped(r),
        corners_in_grid(r, n),
        rect_flag(r, 4, x, y, d),
    ensures
        in_grid(step_cell((x, y), d), n),
        rect_flag(r, 4, step_cell((x, y), d).0, step_cell((x, y), d).1, opposite(d)),
{
    lemma_well_shaped_edges(r);
    if edge_flag(r[0], r[1], edge_len(r[0], r[1]), x, y, d) {
        lemma_edge_flag_paired(r[0], r[1], x, y, d, n);
    } else if edge_flag(r[1], r[2], edge_len(r[1], r[2]), x, y, d) {
        lemma_edge_flag_paired(r[1], r[2], x, y, d, n);
    } else if edge_flag(r[2], r[3], edge_len(r[2], r[3]), x, y, d) {
        lemma_edge_flag_paired(r[2], r[3], x, y, d, n);
    } else {
        lemma_edge_flag_paired(r[3], r[0], x, y, d, n);
    }
}

/// Drawing a rectangle keeps every covered segment recorded at both of its
/// ends.
pub proof fn lemma_move_keeps_segments_paired(s0: State, r: Rect, s1: State)
    requires
        segments_paired(s0),
        corners_in_grid(r, s0.n()),
        well_shaped(r),
        moved(s0, r, s1),
    ensures
        segments_paired(s1),
{
    let n = s0.n();
    assert forall|x: int, y: int, d: int| in_grid((x, y), s1.n()) && 0 <= d < 8 implies (#[trigger] s1.used_at(
        (x, y),
        d,
    ) == (in_grid(step_cell((x, y), d), s1.n()) && s1.used_at(step_cell((x, y), d), opposite(d)))) by {
        let q = step_cell((x, y), d);
        let e = opposite(d);
        lemma_opposite_steps(d);
        assert(step_cell(q, e) == (x, y));
        assert(s1.used_at((x, y), d) == (s0.used_at((x, y), d) || rect_flag(r, 4, x, y, d)));
        assert(s0.used_at((x, y), d) == (in_grid(q, n) && s0.used_at(q, e)));
        if rect_flag(r, 4, x, y, d) {
            lemma_rect_flag_paired(r, x, y, d, n);
        }
        if in_grid(q, n) {
            assert(s1.used_at(q, e) == (s0.used_at(q, e) || rect_flag(r, 4, q.0, q.1, e)));
            if rect_flag(r, 4, q.0, q.1, e) {
                lemma_rect_flag_paired(r, q.0, q.1, e, n);
            }
        }
    }
}

/// A rectangle, once drawn, cannot be drawn again: its corner `p0` is now
/// marked.
pub proof fn lemma_drawn_move_not_allowed(s0: State, r: Rect, s1: State)
    requires
        corners_in_grid(r, s0.n()),
        moved(s0, r, s1),
    ensures
        s1.marked((r[0].0 as int, r[0].1 as int)),
        !valid_move(s1, r),
{
    assert(s1.marked((r[0].0 as int, r[0].1 as int)) == (s0.marked((r[0].0 as int, r[0].1 as int)) || true));
}

/// Drawing a rectangle only adds: every marked cell stays marked and every
/// covered segment stays covered.
pub proof fn lemma_move_only_adds(s0: State, r: Rect, s1: State, x: int, y: int, d: int)
    requires
        moved(s0, r, s1),
        in_grid((x, y), s0.n()),
        0 <= d < 8,
    ensures
        s0.marked((x, y)) ==> s1.marked((x, y)),
        s0.used_at((x, y), d) ==> s1.used_at((x, y), d),
{
    assert(s1.marked((x, y)) == (s0.marked((x, y)) || (x, y) == (r[0].0 as int, r[0].1 as int)));
    assert(s1.used_at((x, y), d) == (s0.used_at((x, y), d) || rect_flag(r, 4, x, y, d)));
}

/// The edges of a well-shaped rectangle are straight and end where they
/// should.
pub proof fn lemma_well_shaped_edges(r: Rect)
    requires
        well_shaped(r),
    ensures
        straight(r[0], r[1]),
        straight(r[1], r[2]),
        straight(r[2], r[3]),
        straight(r[3], r[0]),
{
    let dx01 = r[1].0 - r[0].0;
    let dy01 = r[1].1 - r[0].1;
    let dx03 = r[3].0 - r[0].0;
    let dy03 = r[3].1 - r[0].1;
    if dy01 == 0 {
        assert(dx01 != 0);
        assert(dx03 == 0) by (nonlinear_arith)
            requires
                dx01 * dx03 + dy01 * dy03 == 0,
                dy01 == 0,
                dx01 != 0,
        ;
    } else if dx01 == 0 {
        assert(dy03 == 0) by (nonlinear_arith)
            requires
                dx01 * dx03 + dy01 * dy03 == 0,
                dx01 == 0,
                dy01 != 0,
        ;
    } else {
        assert(abs(dx01) == abs(dy01));
        assert(abs(dx03) == abs(dy03)) by (nonlinear_arith)
            requires
                dx01 * dx03 + dy01 * dy03 == 0,
                dx01 != 0,
                dx01 == dy01 || dx01 == -dy01,
        ;
    }
}

/// Walking a straight edge: the cells on it, the step that reaches the far
/// corner, and the step count of each cell.
pub proof fn lemma_along(a: Point, b: Point, k: int)
    requires
        straight(a, b),
        0 <= k <= edge_len(a, b),
    ensures
        along(a, b, 0) == (a.0 as int, a.1 as int),
        along(a, b, edge_len(a, b)) == (b.0 as int, b.1 as int),
        edge_len(a, b) > 0,
        along(a, b, k) == (b.0 as int, b.1 as int) <==> k == edge_len(a, b),
        along(a, b, k) == (a.0 as int, a.1 as int) <==> k == 0,
        step_of(a, b, along(a, b, k).0, along(a, b, k).1) == k,
        min_coord(a.0 as int, b.0 as int) <= along(a, b, k).0 <= max(a.0 as int, b.0 as int),
        min_coord(a.1 as int, b.1 as int) <= along(a, b, k).1 <= max(a.1 as int, b.1 as int),
        0 <= edge_dir(a, b) < 8,
        dir_dx(edge_dir(a, b)) == edge_sx(a, b),
        dir_dy(edge_dir(a, b)) == edge_sy(a, b),
        along(a, b, k + 1) == (along(a, b, k).0 + edge_sx(a, b), along(a, b, k).1 + edge_sy(a, b)),
{
}

pub open spec fn min_coord(a: int, b: int) -> int {
    if a < b { a } else { b }
}

impl State {
    /// The side of the grid.
    pub open spec fn n(&self) -> int {
        self.has_point@.len() as int
    }

    /// Every row has `n` cells, every cell its eight segment flags, and the
    /// side stays within `MAX_N`.
    pub open spec fn wf(&self) -> bool {
        &&& self.has_point@.len() <= MAX_N
        &&& self.used@.len() == self.has_point@.len()
        &&& forall|x: int| 0 <= x < self.n() ==> #[trigger] self.has_point@[x]@.len() == self.n()
        &&& forall|x: int| 0 <= x < self.n() ==> #[trigger] self.used@[x]@.len() == self.n()
    }

    /// Whether cell `p` is marked.
    pub open spec fn marked(&self, p: (int, int)) -> bool {
        self.has_point@[p.0]@[p.1]
    }

    /// Whether the unit segment leaving `p` in direction `d` is covered.
    pub open spec fn used_at(&self, p: (int, int), d: int) -> bool {
        self.used@[p.0]@[p.1]@[d]
    }
}


/// A row of `n` cells, none of them marked.
fn empty_row(n: usize) -> (row: Vec<bool>)
    ensures
        row@.len() == n,
        forall|y: int| 0 <= y < n ==> !#[trigger] row@[y],
{
    let mut row: Vec<bool> = Vec::new();
    let mut y: usize = 0;
    while y < n
        invariant
            y <= n,
            row@.len() == y,
            forall|j: int| 0 <= j < y ==> !#[trigger] row@[j],
        decreases n - y,
    {
        row.push(false);
        y = y + 1;
    }
    row
}

/// A row of `n` cells, none of whose segments is covered.
fn unused_row(n: usize) -> (row: Vec<[bool; 8]>)
    ensures
        row@.len() == n,
        forall|y: int, d: int| 0 <= y < n && 0 <= d < 8 ==> !#[trigger] row@[y]@[d],
{
    let mut row: Vec<[bool; 8]> = Vec::new();
    let mut y: usize = 0;
    while y < n
        invariant
            y <= n,
            row@.len() == y,
            forall|j: int, d: int| 0 <= j < y && 0 <= d < 8 ==> !#[trigger] row@[j]@[d],
        decreases n - y,
    {
        let flags: [bool; 8] = [false, false, false, false, false, false, false, false];
        assert(forall|d: int| 0 <= d < 8 ==> !flags@[d]);
        row.push(flags);
        y = y + 1;
    }
    row
}

impl State {
    /// The board at the start: exactly the input's cells are marked and no
    /// segment is covered.
    pub fn new(input: &Input) -> (s: State)
        requires
            input.wf(),
        ensures
            s.wf(),
            s.n() == input.n,
            forall|x: int, y: int|
                in_grid((x, y), s.n()) ==> (s.marked((x, y)) <==> exists|i: int|
                    0 <= i < input.ps@.len() && #[trigger] input.ps@[i] == (x as usize, y as usize)),
            forall|x: int, y: int, d: int|
                in_grid((x, y), s.n()) && 0 <= d < 8 ==> !s.used_at((x, y), d),
            segments_paired(s),
    {
        let n = input.n;
        let mut has_point: Vec<Vec<bool>> = Vec::new();
        let mut used: Vec<Vec<[bool; 8]>> = Vec::new();
        let mut x: usize = 0;
        while x < n
            invariant
                x <= n,
                n <= MAX_N,
                has_point@.len() == x,
                used@.len() == x,
                forall|i: int| 0 <= i < x ==> #[trigger] has_point@[i]@.len() == n,
                forall|i: int| 0 <= i < x ==> #[trigger] used@[i]@.len() == n,
                forall|i: int, j: int| 0 <= i < x && 0 <= j < n ==> !#[trigger] has_point@[i]@[j],
                forall|i: int, j: int, d: int|
                    0 <= i < x && 0 <= j < n && 0 <= d < 8 ==> !#[trigger] used@[i]@[j]@[d],
            decreases n - x,
        {
            has_point.push(empty_row(n));
            used.push(unused_row(n));
            x = x + 1;
        }
        let mut i: usize = 0;
        while i < input.ps.len()
            invariant
                input.wf(),
                n == input.n,
                i <= input.ps@.len(),
                has_point@.len() == n,
                forall|r: int| 0 <= r < n ==> #[trigger] has_point@[r]@.len() == n,
                forall|a: int, b: int|
                    0 <= a < n && 0 <= b < n ==> (has_point@[a]@[b] <==> exists|j: int|
                        0 <= j < i && #[trigger] input.ps@[j] == (a as usize, b as usize)),
            decreases input.ps@.len() - i,
        {
            let p = input.ps[i];
            assert(input.ps@[i as int].0 < n && input.ps@[i as int].1 < n);
            has_point[p.0][p.1] = true;
            assert forall|a: int, b: int|
                0 <= a < n && 0 <= b < n implies (has_point@[a]@[b] <==> exists|j: int|
                    0 <= j < i + 1 && #[trigger] input.ps@[j] == (a as usize, b as usize)) by {
                if a == p.0 && b == p.1 {
                    assert(input.ps@[i as int] == (a as usize, b as usize));
                } else {
                    if exists|j: int| 0 <= j < i + 1 && #[trigger] input.ps@[j] == (a as usize, b as usize) {
                        let j = choose|j: int| 0 <= j < i + 1 && #[trigger] input.ps@[j] == (a as usize, b as usize);
                        assert(j != i);
                    }
                }
            }
            i = i + 1;
        }
        let s = State { has_point, used };
        assert forall|x: int, y: int, d: int| in_grid((x, y), s.n()) && 0 <= d < 8 implies (#[trigger] s.used_at(
            (x, y),
            d,
        ) == (in_grid(step_cell((x, y), d), s.n()) && s.used_at(step_cell((x, y), d), opposite(d)))) by {
            lemma_opposite_steps(d);
        }
        s
    }
}


/// The direction whose steps are `(sx, sy)`: the first of the eight
/// directions that matches.
pub fn direction_of(sx: i64, sy: i64) -> (d: usize)
    requires
        -1 <= sx <= 1,
        -1 <= sy <= 1,
        sx != 0 || sy != 0,
    ensures
        d < 8,
        d == dir_of(sx as int, sy as int),
        dir_dx(d as int) == sx,
        dir_dy(d as int) == sy,
{
    let mut d: usize = 0;
    while d < 8
        invariant
            d <= 8,
            forall|e: int| 0 <= e < d ==> !(dir_dx(e) == sx && dir_dy(e) == sy),
        decreases 8 - d,
    {
        let (dx, dy) = dxy(d);
        if dx == sx && dy == sy {
            return d;
        }
        d = d + 1;
    }
    assert(dir_dx(dir_of(sx as int, sy as int)) == sx && dir_dy(dir_of(sx as int, sy as int)) == sy);
    assert(false);
    0
}

/// The sign of `to - from`.
fn step_sign(from: usize, to: usize) -> (s: i64)
    ensures
        s == sign(to - from),
{
    if to > from {
        1
    } else if to < from {
        -1
    } else {
        0
    }
}

/// One step from `v` by `s`.
fn step(v: usize, s: i64) -> (r: usize)
    requires
        -1 <= s <= 1,
        0 <= v + s <= usize::MAX,
    ensures
        r == v + s,
{
    if s > 0 {
        v + 1
    } else if s < 0 {
        v - 1
    } else {
        v
    }
}

impl State {
    /// Sets the flag of the unit segment leaving `(x, y)` in direction `d`.
    fn cover(&mut self, x: usize, y: usize, d: usize)
        requires
            old(self).wf(),
            x < old(self).n(),
            y < old(self).n(),
            d < 8,
        ensures
            final(self).wf(),
            final(self).has_point == old(self).has_point,
            forall|p: int, q: int, e: int|
                in_grid((p, q), old(self).n()) && 0 <= e < 8 ==> (#[trigger] final(self).used_at((p, q), e)
                    == (old(self).used_at((p, q), e) || (p == x && q == y && e == d))),
    {
        let mut flags = self.used[x][y];
        flags[d] = true;
        self.used[x].set(y, flags);
    }

    /// Whether the straight edge from `a` to `b` is clear: no marked cell
    /// strictly inside it and none of its unit segments covered.
    fn edge_is_clear(&self, a: Point, b: Point) -> (res: bool)
        requires
            self.wf(),
            corners_in_grid([a, b, a, b], self.n()),
            straight(a, b),
        ensures
            res == edge_clear(*self, a, b),
    {
        let (tx, ty) = b;
        let (mut x, mut y) = a;
        let sx = step_sign(x, tx);
        let sy = step_sign(y, ty);
        let dir = direction_of(sx, sy);
        let opp = (dir + 4) % 8;
        let ghost len = edge_len(a, b);
        let ghost mut k: int = 0;
        proof {
            lemma_along(a, b, 0);
        }
        while x != tx || y != ty
            invariant
                self.wf(),
                corners_in_grid([a, b, a, b], self.n()),
                straight(a, b),
                len == edge_len(a, b),
                0 <= k <= len,
                (x as int, y as int) == along(a, b, k),
                sx == edge_sx(a, b),
                sy == edge_sy(a, b),
                dir == edge_dir(a, b),
                opp == opposite(dir as int),
                tx == b.0,
                ty == b.1,
                forall|j: int| 0 < j < k ==> !self.marked(#[trigger] along(a, b, j)),
                forall|j: int| 0 <= j < k ==> !self.used_at(#[trigger] along(a, b, j), dir as int),
                forall|j: int| 1 <= j <= k ==> !self.used_at(#[trigger] along(a, b, j), opp as int),
            decreases len - k,
        {
            proof {
                lemma_along(a, b, k);
            }
            if (x != a.0 || y != a.1) && self.has_point[x][y] {
                return false;
            }
            if self.used[x][y][dir] {
                return false;
            }
            proof {
                lemma_along(a, b, k + 1);
            }
            x = step(x, sx);
            y = step(y, sy);
            proof {
                k = k + 1;
            }
            if self.used[x][y][opp] {
                return false;
            }
        }
        proof {
            lemma_along(a, b, k);
        }
        true
    }

    /// Whether the move that draws `rect` is allowed.
    pub fn check_move(&self, rect: &Rect) -> (ok: bool)
        requires
            self.wf(),
            corners_in_grid(*rect, self.n()),
        ensures
            ok == valid_move(*self, *rect),
    {
        if !self.has_point[rect[1].0][rect[1].1] || !self.has_point[rect[2].0][rect[2].1]
            || !self.has_point[rect[3].0][rect[3].1] || self.has_point[rect[0].0][rect[0].1] {
            return false;
        }
        let dx01 = rect[1].0 as i64 - rect[0].0 as i64;
        let dy01 = rect[1].1 as i64 - rect[0].1 as i64;
        let dx03 = rect[3].0 as i64 - rect[0].0 as i64;
        let dy03 = rect[3].1 as i64 - rect[0].1 as i64;
        let ghost m: int = MAX_N - 1;
        assert(-(m * m) <= dx01 * dx03 <= m * m) by (nonlinear_arith)
            requires
                -m <= dx01 <= m,
                -m <= dx03 <= m,
        ;
        assert(-(m * m) <= dy01 * dy03 <= m * m) by (nonlinear_arith)
            requires
                -m <= dy01 <= m,
                -m <= dy03 <= m,
        ;
        assert(2 * (m * m) <= i64::MAX);
        if dx01 * dx03 + dy01 * dy03 != 0
            || dx01 != 0 && dy01 != 0 && abs_diff(rect[1].0, rect[0].0) != abs_diff(rect[1].1, rect[0].1)
            || rect[1].0 as i64 + dx03 != rect[2].0 as i64 || rect[1].1 as i64 + dy03 != rect[2].1 as i64 {
            return false;
        }
        proof {
            lemma_well_shaped_edges(*rect);
        }
        let mut i: usize = 0;
        while i < 4
            invariant
                self.wf(),
                corners_in_grid(*rect, self.n()),
                well_shaped(*rect),
                i <= 4,
                i > 0 ==> edge_clear(*self, rect[0], rect[1]),
                i > 1 ==> edge_clear(*self, rect[1], rect[2]),
                i > 2 ==> edge_clear(*self, rect[2], rect[3]),
                i > 3 ==> edge_clear(*self, rect[3], rect[0]),
            decreases 4 - i,
        {
            proof {
                lemma_well_shaped_edges(*rect);
            }
            let a = rect[i];
            let b = rect[(i + 1) % 4];
            if !self.edge_is_clear(a, b) {
                return false;
            }
            i = i + 1;
        }
        true
    }

    /// Covers the unit segments of the straight edge from `a` to `b`, in
    /// both directions.
    fn draw_edge(&mut self, a: Point, b: Point)
        requires
            old(self).wf(),
            corners_in_grid([a, b, a, b], old(self).n()),
            straight(a, b),
        ensures
            final(self).wf(),
            final(self).has_point == old(self).has_point,
            forall|x: int, y: int, d: int|
                in_grid((x, y), old(self).n()) && 0 <= d < 8 ==> (#[trigger] final(self).used_at((x, y), d)
                    == (old(self).used_at((x, y), d) || edge_flag(a, b, edge_len(a, b), x, y, d))),
    {
        let (tx, ty) = b;
        let (mut x, mut y) = a;
        let sx = step_sign(x, tx);
        let sy = step_sign(y, ty);
        let dir = direction_of(sx, sy);
        let opp = (dir + 4) % 8;
        let ghost len = edge_len(a, b);
        let ghost mut k: int = 0;
        let ghost start = *self;
        proof {
            lemma_along(a, b, 0);
        }
        while x != tx || y != ty
            invariant
                self.wf(),
                self.n() == start.n(),
                self.has_point == start.has_point,
                corners_in_grid([a, b, a, b], self.n()),
                straight(a, b),
                len == edge_len(a, b),
                0 <= k <= len,
                (x as int, y as int) == along(a, b, k),
                sx == edge_sx(a, b),
                sy == edge_sy(a, b),
                dir == edge_dir(a, b),
                opp == opposite(dir as int),
                tx == b.0,
                ty == b.1,
                forall|p: int, q: int, d: int|
                    in_grid((p, q), self.n()) && 0 <= d < 8 ==> (#[trigger] self.used_at((p, q), d)
                        == (start.used_at((p, q), d) || edge_flag(a, b, k, p, q, d))),
            decreases len - k,
        {
            proof {
                lemma_along(a, b, k);
                lemma_along(a, b, k + 1);
            }
            let ghost before = *self;
            let ghost here = along(a, b, k);
            let ghost next = along(a, b, k + 1);
            self.cover(x, y, dir);
            let ghost mid = *self;
            x = step(x, sx);
            y = step(y, sy);
            self.cover(x, y, opp);
            proof {
                let kk = k;
                assert(dir != opp);
                assert forall|p: int, q: int, d: int|
                    in_grid((p, q), self.n()) && 0 <= d < 8 implies (self.used_at((p, q), d)
                        == (start.used_at((p, q), d) || edge_flag(a, b, kk + 1, p, q, d))) by {
                    assert(self.used_at((p, q), d) == (mid.used_at((p, q), d) || ((p, q) == next && d == opp)));
                    assert(mid.used_at((p, q), d) == (before.used_at((p, q), d) || ((p, q) == here && d == dir)));
                    assert(before.used_at((p, q), d) == (start.used_at((p, q), d) || edge_flag(a, b, kk, p, q, d)));
                    let j = step_of(a, b, p, q);
                    if (p, q) == here {
                        lemma_along(a, b, kk);
                        assert(j == kk);
                    }
                    if (p, q) == next {
                        lemma_along(a, b, kk + 1);
                        assert(j == kk + 1);
                    }
                }
                k = k + 1;
            }
        }
        proof {
            lemma_along(a, b, k);
        }
    }

    /// Draws `rect`: marks `p0` and covers every unit segment of the
    /// perimeter in both directions.
    pub fn apply_move(&mut self, rect: &Rect)
        requires
            old(self).wf(),
            corners_in_grid(*rect, old(self).n()),
            well_shaped(*rect),
        ensures
            moved(*old(self), *rect, *final(self)),
    {
        self.has_point[rect[0].0][rect[0].1] = true;
        let ghost marked = *self;
        proof {
            lemma_well_shaped_edges(*rect);
        }
        let mut i: usize = 0;
        while i < 4
            invariant
                self.wf(),
                self.n() == old(self).n(),
                self.has_point == marked.has_point,
                corners_in_grid(*rect, self.n()),
                well_shaped(*rect),
                i <= 4,
                forall|x: int, y: int, d: int|
                    in_grid((x, y), self.n()) && 0 <= d < 8 ==> (#[trigger] self.used_at((x, y), d)
                        == (old(self).used_at((x, y), d) || rect_flag(*rect, i as int, x, y, d))),
            decreases 4 - i,
        {
            proof {
                lemma_well_shaped_edges(*rect);
            }
            let a = rect[i];
            let b = rect[(i + 1) % 4];
            self.draw_edge(a, b);
            i = i + 1;
        }
    }
}

} // verus!
