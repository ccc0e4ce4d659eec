//! Looking along the eight directions from a cell: the first marked cell
//! met, if any.
use vstd::prelude::*;

verus! {

use crate::geometry::{Point, abs, max, scale, dir_of, dir_dx, dir_dy, opposite, dxy};
use crate::state::{State, in_grid, edge_len, edge_dir, along, straight, edge_clear, lemma_along};

/// The cell `k` steps from `p` in direction `d`.
pub open spec fn ray(p: Point, d: int, k: int) -> (int, int) {
    (p.0 + scale(k, dir_dx(d)), p.1 + scale(k, dir_dy(d)))
}

/// The first marked cell met walking from `p` in direction `d` lies `k`
/// steps away.
pub open spec fn ray_hit(s: State, p: Point, d: int, k: int) -> bool {
    &&& k >= 1
    &&& in_grid(ray(p, d, k), s.n())
    &&& s.marked(ray(p, d, k))
    &&& forall|j: int| 1 <= j < k ==> !s.marked(#[trigger] ray(p, d, j))
}

/// The number of steps between two cells on a common line.
pub open spec fn steps(p: Point, q: Point) -> int {
    max(abs(q.0 - p.0), abs(q.1 - p.1))
}

/// The result of looking from `p` in direction `d`: the first marked cell,
/// or `None` when the walk leaves the grid first.
pub open spec fn nearest_spec(s: State, p: Point, d: int, r: Option<Point>) -> bool {
    match r {
        Some(q) => {
            &&& q.0 < s.n() && q.1 < s.n()
            &&& (q.0 as int, q.1 as int) == ray(p, d, steps(p, q))
            &&& ray_hit(s, p, d, steps(p, q))
        },
        None => forall|k: int|
            k >= 1 && #[trigger] in_grid(ray(p, d, k), s.n()) ==> !s.marked(ray(p, d, k)),
    }
}

/// The first hit of a ray is unique.
pub proof fn lemma_ray_hit_unique(s: State, p: Point, d: int, k1: int, k2: int)
    requires
        ray_hit(s, p, d, k1),
        ray_hit(s, p, d, k2),
    ensures
        k1 == k2,
{
    if k1 < k2 {
        assert(!s.marked(ray(p, d, k1)));
    } else if k2 < k1 {
        assert(!s.marked(ray(p, d, k2)));
    }
}

/// A ray that has left the grid does not come back.
proof fn lemma_ray_leaves(p: Point, d: int, k: int, j: int, n: int)
    requires
        0 <= p.0 < n,
        0 <= p.1 < n,
        0 <= d < 8,
        1 <= k <= j,
        !in_grid(ray(p, d, k), n),
    ensures
        !in_grid(ray(p, d, j), n),
{
}

/// Walks from `p` in direction `d` and returns the first marked cell, if
/// the walk meets one before it leaves the grid.
pub fn nearest_marked(s: &State, p: Point, d: usize) -> (r: Option<Point>)
    requires
        s.wf(),
        p.0 < s.n(),
        p.1 < s.n(),
        d < 8,
    ensures
        nearest_spec(*s, p, d as int, r),
{
    let n = s.has_point.len();
    let (dx, dy) = dxy(d);
    let (mut x, mut y) = p;
    let ghost mut k: int = 0;
    loop
        invariant
            s.wf(),
            n == s.n(),
            p.0 < n,
            p.1 < n,
            d < 8,
            dx == dir_dx(d as int),
            dy == dir_dy(d as int),
            k >= 0,
            (x as int, y as int) == ray(p, d as int, k),
            x < n,
            y < n,
            forall|j: int| 1 <= j <= k ==> !s.marked(#[trigger] ray(p, d as int, j)),
        decreases (if dx > 0 { n - x } else if dx < 0 { x as int } else { 0 }) + (if dy > 0 { n - y } else if dy < 0 {
            y as int
        } else {
            0
        }),
    {
        if (dx < 0 && x == 0) || (dx > 0 && x + 1 >= n) || (dy < 0 && y == 0) || (dy > 0 && y + 1 >= n) {
            proof {
                assert forall|j: int| j >= 1 && #[trigger] in_grid(ray(p, d as int, j), s.n()) implies !s.marked(ray(p, d as int, j)) by {
                    if j > k {
                        lemma_ray_leaves(p, d as int, k + 1, j, n as int);
                    }
                }
            }
            return None;
        }
        x = if dx > 0 { x + 1 } else if dx < 0 { x - 1 } else { x };
        y = if dy > 0 { y + 1 } else if dy < 0 { y - 1 } else { y };
        proof {
            k = k + 1;
        }
        if s.has_point[x][y] {
            let q = (x, y);
            assert(steps(p, q) == k);
            return Some(q);
        }
    }
}


/// The far corner of a clear edge is the first marked cell met looking from
/// the near corner along the edge.
pub proof fn lemma_edge_is_ray(s: State, a: Point, b: Point)
    requires
        straight(a, b),
        edge_clear(s, a, b),
        s.marked((b.0 as int, b.1 as int)),
        b.0 < s.n(),
        b.1 < s.n(),
    ensures
        0 <= edge_dir(a, b) < 8,
        steps(a, b) == edge_len(a, b),
        (b.0 as int, b.1 as int) == ray(a, edge_dir(a, b), edge_len(a, b)),
        ray_hit(s, a, edge_dir(a, b), edge_len(a, b)),
        forall|k: int| #[trigger] ray(a, edge_dir(a, b), k) == along(a, b, k),
{
    lemma_along(a, b, 0);
    assert forall|k: int| #[trigger] ray(a, edge_dir(a, b), k) == along(a, b, k) by {}
    lemma_along(a, b, edge_len(a, b));
    assert forall|j: int| 1 <= j < edge_len(a, b) implies !s.marked(#[trigger] ray(a, edge_dir(a, b), j)) by {
        assert(ray(a, edge_dir(a, b), j) == along(a, b, j));
    }
}

/// Directions are recovered from their steps.
pub proof fn lemma_dir_of_steps(d: int)
    requires
        0 <= d < 8,
    ensures
        dir_of(dir_dx(d), dir_dy(d)) == d,
        opposite(opposite(d)) == d,
        0 <= opposite(d) < 8,
        opposite(d) != d,
{
}

/// The direction from `p` to any cell `k >= 1` steps along direction `d`
/// is `d`.
pub proof fn lemma_ray_dir(p: Point, q: Point, d: int, k: int)
    requires
        0 <= d < 8,
        k >= 1,
        (q.0 as int, q.1 as int) == ray(p, d, k),
    ensures
        edge_dir(p, q) == d,
        straight(p, q),
        edge_len(p, q) == k,
        steps(p, q) == k,
{
}


} // verus!
