//! The moves that can be made from a board: their enumeration from scratch
//! and their update after one move.
use vstd::prelude::*;
use std::collections::VecDeque;

verus! {

use crate::geometry::{Point, Rect, MAX_N, dir_dx, dir_dy, opposite, dxy};
use crate::rays::{
    ray, steps, nearest_spec, nearest_marked, lemma_ray_hit_unique, lemma_edge_is_ray, lemma_dir_of_steps,
    lemma_ray_dir,
};
use crate::rects::{
    mirror, canonical, pair_key, unique_moves, lemma_reverse_edge, lemma_mirror_valid, lemma_right_angles,
    lemma_well_shaped_move, lemma_corners_distinct,
};
use crate::state::{
    Input, State, in_grid, corners_in_grid, edge_len, edge_dir, along, straight,
    edge_clear, valid_move, lemma_along, lemma_well_shaped_edges, moved, rect_flag,
};

/// The corners `p1` and `p3` of an allowed move are the nearest marked
/// cells seen from `p0` in the directions of the two sides.
pub proof fn lemma_move_from_rays(s: State, r: Rect, pa: Option<Point>, pb: Option<Point>, da: int, db: int)
    requires
        s.wf(),
        valid_move(s, r),
        corners_in_grid(r, s.n()),
        edge_dir(r[0], r[1]) == da,
        edge_dir(r[0], r[3]) == db,
        nearest_spec(s, r[0], da, pa),
        nearest_spec(s, r[0], db, pb),
    ensures
        pa == Some(r[1]),
        pb == Some(r[3]),
        r[2].0 == r[1].0 + (r[3].0 - r[0].0),
        r[2].1 == r[1].1 + (r[3].1 - r[0].1),
{
    lemma_well_shaped_move(s, r);
    lemma_well_shaped_edges(r);
    lemma_reverse_edge(s, r[3], r[0]);
    lemma_edge_is_ray(s, r[0], r[1]);
    lemma_edge_is_ray(s, r[0], r[3]);
    let k1 = edge_len(r[0], r[1]);
    let k3 = edge_len(r[0], r[3]);
    match pa {
        Some(q) => {
            lemma_ray_hit_unique(s, r[0], da, k1, steps(r[0], q));
        },
        None => {
            assert(in_grid(ray(r[0], da, k1), s.n()));
        },
    }
    match pb {
        Some(q) => {
            lemma_ray_hit_unique(s, r[0], db, k3, steps(r[0], q));
        },
        None => {
            assert(in_grid(ray(r[0], db, k3), s.n()));
        },
    }
}

/// Adds, for the cell `p0` and the nearest marked cells `points[t]` seen
/// from it in directions `2 t + parity`, every rectangle `[p0, p1, p2, p3]`
/// with `p1 = points[a]`, `p3 = points[b]`, `a < b`, whose move is allowed.
fn add_pairs(s: &State, p0: Point, points: &Vec<Option<Point>>, parity: usize, out: &mut Vec<Rect>)
    requires
        s.wf(),
        p0.0 < s.n(),
        p0.1 < s.n(),
        parity < 2,
        points@.len() == 4,
        forall|t: int| 0 <= t < 4 ==> nearest_spec(*s, p0, 2 * t + parity, #[trigger] points@[t]),
    ensures
        final(out)@.len() >= old(out)@.len(),
        final(out)@.subrange(0, old(out)@.len() as int) == old(out)@,
        forall|t: int|
            old(out)@.len() <= t < final(out)@.len() ==> {
                &&& corners_in_grid(#[trigger] final(out)@[t], s.n())
                &&& valid_move(*s, final(out)@[t])
                &&& canonical(final(out)@[t])
                &&& final(out)@[t][0] == p0
            },
        forall|r: Rect|
            #[trigger] valid_move(*s, r) && corners_in_grid(r, s.n()) && canonical(r) && r[0] == p0
                && edge_dir(r[0], r[1]) % 2 == parity ==> final(out)@.contains(r),
        forall|t: int|
            old(out)@.len() <= t < final(out)@.len() ==> edge_dir(#[trigger] final(out)@[t][0], final(out)@[t][1]) % 2
                == parity,
        forall|t1: int, t2: int|
            old(out)@.len() <= t1 < t2 < final(out)@.len() ==> pair_key(#[trigger] final(out)@[t1]) < pair_key(
                #[trigger] final(out)@[t2],
            ),
{
    let ghost start = out@;
    let n = s.has_point.len();
    let mut a: usize = 0;
    while a < points.len()
        invariant
            s.wf(),
            n == s.n(),
            p0.0 < n,
            p0.1 < n,
            parity < 2,
            points@.len() == 4,
            forall|t: int| 0 <= t < 4 ==> nearest_spec(*s, p0, 2 * t + parity, #[trigger] points@[t]),
            a <= 4,
            forall|t: int|
                start.len() <= t < out@.len() ==> edge_dir(#[trigger] out@[t][0], out@[t][1]) % 2 == parity
                    && pair_key(out@[t]) < (2 * a + parity) * 8,
            forall|t1: int, t2: int|
                start.len() <= t1 < t2 < out@.len() ==> pair_key(#[trigger] out@[t1]) < pair_key(#[trigger] out@[t2]),
            out@.len() >= start.len(),
            out@.subrange(0, start.len() as int) == start,
            forall|t: int|
                start.len() <= t < out@.len() ==> {
                    &&& corners_in_grid(#[trigger] out@[t], n as int)
                    &&& valid_move(*s, out@[t])
                    &&& canonical(out@[t])
                    &&& out@[t][0] == p0
                },
            forall|r: Rect|
                #[trigger] valid_move(*s, r) && corners_in_grid(r, n as int) && canonical(r) && r[0] == p0
                    && edge_dir(r[0], r[1]) % 2 == parity && edge_dir(r[0], r[1]) < 2 * a + parity
                    ==> out@.contains(r),
        decreases 4 - a,
    {
        let mut b: usize = a + 1;
        proof {
            assert forall|t: int| start.len() <= t < out@.len() implies edge_dir(#[trigger] out@[t][0], out@[t][1]) % 2 == parity
                && pair_key(out@[t]) < (2 * a + parity) * 8 + 2 * b + parity by {}
            assert forall|r: Rect|
                #[trigger] valid_move(*s, r) && corners_in_grid(r, n as int) && canonical(r) && r[0] == p0
                    && edge_dir(r[0], r[1]) % 2 == parity && (edge_dir(r[0], r[1]) < 2 * a + parity || (
                edge_dir(r[0], r[1]) == 2 * a + parity && edge_dir(r[0], r[3]) < 2 * b + parity))
                    implies out@.contains(r) by {
                lemma_well_shaped_move(*s, r);
                lemma_right_angles(r);
            }
        }
        while b < points.len()
            invariant
                s.wf(),
                n == s.n(),
                p0.0 < n,
                p0.1 < n,
                parity < 2,
                points@.len() == 4,
                forall|t: int| 0 <= t < 4 ==> nearest_spec(*s, p0, 2 * t + parity, #[trigger] points@[t]),
                a < 4,
                a + 1 <= b <= 4,
                forall|t: int|
                    start.len() <= t < out@.len() ==> edge_dir(#[trigger] out@[t][0], out@[t][1]) % 2 == parity
                        && pair_key(out@[t]) < (2 * a + parity) * 8 + 2 * b + parity,
                forall|t1: int, t2: int|
                    start.len() <= t1 < t2 < out@.len() ==> pair_key(#[trigger] out@[t1]) < pair_key(#[trigger] out@[t2]),
                out@.len() >= start.len(),
                out@.subrange(0, start.len() as int) == start,
                forall|t: int|
                    start.len() <= t < out@.len() ==> {
                        &&& corners_in_grid(#[trigger] out@[t], n as int)
                        &&& valid_move(*s, out@[t])
                        &&& canonical(out@[t])
                        &&& out@[t][0] == p0
                    },
                forall|r: Rect|
                    #[trigger] valid_move(*s, r) && corners_in_grid(r, n as int) && canonical(r) && r[0] == p0
                        && edge_dir(r[0], r[1]) % 2 == parity && (edge_dir(r[0], r[1]) < 2 * a + parity || (
                    edge_dir(r[0], r[1]) == 2 * a + parity && edge_dir(r[0], r[3]) < 2 * b + parity))
                        ==> out@.contains(r),
            decreases 4 - b,
        {
            let ghost before = out@;
            // Any allowed move with these two directions is the rectangle
            // built from the two nearest cells.
            let ghost da: int = 2 * a + parity;
            let ghost db: int = 2 * b + parity;
            proof {
                assert(nearest_spec(*s, p0, da, points@[a as int]));
                assert(nearest_spec(*s, p0, db, points@[b as int]));
            }
            let pa = points[a];
            let pb = points[b];
            match (pa, pb) {
                (Some(p1), Some(p3)) => {
                    let p2x = p1.0 as i64 + (p3.0 as i64 - p0.0 as i64);
                    let p2y = p1.1 as i64 + (p3.1 as i64 - p0.1 as i64);
                    if 0 <= p2x && p2x < n as i64 && 0 <= p2y && p2y < n as i64 {
                        let rect: Rect = [p0, p1, (p2x as usize, p2y as usize), p3];
                        if s.check_move(&rect) {
                            proof {
                                lemma_ray_dir(p0, p1, da, steps(p0, p1));
                                lemma_ray_dir(p0, p3, db, steps(p0, p3));
                            }
                            out.push(rect);
                            proof {
                                assert(out@[out@.len() - 1] == rect);
                                assert(pair_key(rect) == (2 * a + parity) * 8 + 2 * b + parity);
                                assert forall|t: int| start.len() <= t < out@.len() - 1 implies #[trigger] out@[t] == before[t] by {}
                                assert(out@.subrange(0, start.len() as int) =~= start) by {
                                    assert(out@.subrange(0, before.len() as int) =~= before);
                                }
                            }
                        }
                    }
                },
                _ => {},
            }
            proof {
                assert forall|r: Rect|
                    #[trigger] valid_move(*s, r) && corners_in_grid(r, n as int) && canonical(r) && r[0] == p0
                        && edge_dir(r[0], r[1]) % 2 == parity && (edge_dir(r[0], r[1]) < 2 * a + parity || (
                    edge_dir(r[0], r[1]) == 2 * a + parity && edge_dir(r[0], r[3]) < 2 * (b + 1) + parity))
                        implies out@.contains(r) by {
                    if edge_dir(r[0], r[1]) == da && edge_dir(r[0], r[3]) == db {
                        lemma_move_from_rays(*s, r, points@[a as int], points@[b as int], da, db);
                        assert(out@[out@.len() - 1] =~= r);
                    } else {
                        lemma_well_shaped_move(*s, r);
                        lemma_right_angles(r);
                        assert(before.contains(r));
                        let t = choose|t: int| 0 <= t < before.len() && before[t] == r;
                        assert(out@[t] == r);
                    }
                }
            }
            b = b + 1;
        }
        proof {
            assert forall|r: Rect|
                #[trigger] valid_move(*s, r) && corners_in_grid(r, n as int) && canonical(r) && r[0] == p0
                    && edge_dir(r[0], r[1]) % 2 == parity && edge_dir(r[0], r[1]) < 2 * (a + 1) + parity
                    implies out@.contains(r) by {
                lemma_well_shaped_move(*s, r);
                lemma_right_angles(r);
            }
        }
        a = a + 1;
    }
    proof {
        assert forall|r: Rect|
            #[trigger] valid_move(*s, r) && corners_in_grid(r, n as int) && canonical(r) && r[0] == p0
                && edge_dir(r[0], r[1]) % 2 == parity implies out@.contains(r) by {
            lemma_well_shaped_move(*s, r);
            lemma_right_angles(r);
        }
    }
}


/// Whether `p` is in the tabu list.
pub fn is_tabu(tabu: &VecDeque<Point>, p: Point) -> (res: bool)
    ensures
        res == tabu@.contains(p),
{
    let mut i: usize = 0;
    while i < tabu.len()
        invariant
            i <= tabu@.len(),
            forall|j: int| 0 <= j < i ==> tabu@[j] != p,
        decreases tabu@.len() - i,
    {
        let q = tabu[i];
        if q.0 == p.0 && q.1 == p.1 {
            return true;
        }
        i = i + 1;
    }
    false
}

/// The moves listed in `v` are all allowed in `s`, lie in the grid and do
/// not mark a tabu cell.
pub open spec fn all_allowed(v: Seq<Rect>, s: State, tabu: Seq<Point>) -> bool {
    forall|t: int|
        0 <= t < v.len() ==> {
            &&& corners_in_grid(#[trigger] v[t], s.n())
            &&& valid_move(s, v[t])
            &&& !tabu.contains(v[t][0])
        }
}

/// Every move allowed in `s` that does not mark a tabu cell is listed in
/// `v`, in one orientation or the other.
pub open spec fn lists_every_move(v: Seq<Rect>, s: State, tabu: Seq<Point>) -> bool {
    forall|r: Rect|
        #[trigger] valid_move(s, r) && corners_in_grid(r, s.n()) && !tabu.contains(r[0])
            ==> v.contains(r) || v.contains(mirror(r))
}

/// Cell `p` comes no later than cell `q` in row-major order.
pub open spec fn cell_le(p: Point, q: Point) -> bool {
    p.0 < q.0 || (p.0 == q.0 && p.1 <= q.1)
}

/// Cell `p` comes strictly before `q` in row-major order.
pub open spec fn cell_lt(p: Point, q: (usize, usize)) -> bool {
    p.0 < q.0 || (p.0 == q.0 && p.1 < q.1)
}

/// `a` is listed before `b` in a fresh listing: by cell `p0` in row-major
/// order, then axis-parallel rectangles before tilted ones, then by the
/// directions from `p0` to `p1` and to `p3`.
pub open spec fn listed_before(a: Rect, b: Rect) -> bool {
    ||| cell_lt(a[0], b[0])
    ||| a[0] == b[0] && edge_dir(a[0], a[1]) % 2 < edge_dir(b[0], b[1]) % 2
    ||| a[0] == b[0] && edge_dir(a[0], a[1]) % 2 == edge_dir(b[0], b[1]) % 2 && pair_key(a) < pair_key(b)
}

/// `v` is the listing from scratch of the moves allowed in `s`: every
/// allowed move that does not mark a tabu cell, each once, in canonical
/// orientation, in the order of `listed_before`; so it also lists every
/// allowed move in one orientation or the other.
pub open spec fn fresh_listing(v: Seq<Rect>, s: State, tabu: Seq<Point>) -> bool {
    &&& all_allowed(v, s, tabu)
    &&& forall|t: int| 0 <= t < v.len() ==> canonical(#[trigger] v[t])
    &&& forall|r: Rect|
        #[trigger] valid_move(s, r) && corners_in_grid(r, s.n()) && canonical(r) && !tabu.contains(r[0])
            ==> v.contains(r)
    &&& lists_every_move(v, s, tabu)
    &&& v.no_duplicates()
    &&& forall|u: int, w: int| 0 <= u < w < v.len() ==> listed_before(#[trigger] v[u], #[trigger] v[w])
}

/// Lists every allowed move that does not mark a tabu cell, each once, in
/// its canonical orientation, by cells `p0` in row-major order.
pub fn construct_insertable(input: &Input, state: &State, tabu_list: &VecDeque<Point>) -> (insertable: Vec<Rect>)
    requires
        state.wf(),
        state.n() == input.n,
    ensures
        fresh_listing(insertable@, *state, tabu_list@),
{
    let n = input.n;
    let mut insertable: Vec<Rect> = Vec::new();
    let mut i: usize = 0;
    while i < n
        invariant
            state.wf(),
            n == state.n(),
            i <= n,
            insertable@.no_duplicates(),
            forall|u: int, v: int|
                0 <= u < v < insertable@.len() ==> listed_before(#[trigger] insertable@[u], #[trigger] insertable@[v]),
            forall|u: int| 0 <= u < insertable@.len() ==> (#[trigger] insertable@[u])[0].0 < i,
            all_allowed(insertable@, *state, tabu_list@),
            forall|t: int| 0 <= t < insertable@.len() ==> canonical(#[trigger] insertable@[t]),
            forall|r: Rect|
                #[trigger] valid_move(*state, r) && corners_in_grid(r, n as int) && canonical(r)
                    && !tabu_list@.contains(r[0]) && r[0].0 < i ==> insertable@.contains(r),
        decreases n - i,
    {
        let mut j: usize = 0;
        while j < n
            invariant
                state.wf(),
                n == state.n(),
                i < n,
                j <= n,
                insertable@.no_duplicates(),
                forall|u: int, v: int|
                    0 <= u < v < insertable@.len() ==> listed_before(#[trigger] insertable@[u], #[trigger] insertable@[v]),
                forall|u: int| 0 <= u < insertable@.len() ==> cell_lt(#[trigger] insertable@[u][0], (i, j)),
                all_allowed(insertable@, *state, tabu_list@),
                forall|t: int| 0 <= t < insertable@.len() ==> canonical(#[trigger] insertable@[t]),
                forall|r: Rect|
                    #[trigger] valid_move(*state, r) && corners_in_grid(r, n as int) && canonical(r)
                        && !tabu_list@.contains(r[0]) && (r[0].0 < i || (r[0].0 == i && r[0].1 < j))
                        ==> insertable@.contains(r),
            decreases n - j,
        {
            let p0 = (i, j);
            let ghost before = insertable@;
            if !state.has_point[i][j] && !is_tabu(tabu_list, p0) {
                let mut even_points: Vec<Option<Point>> = Vec::new();
                let mut odd_points: Vec<Option<Point>> = Vec::new();
                let mut dir: usize = 0;
                while dir < 8
                    invariant
                        state.wf(),
                        n == state.n(),
                        i < n,
                        j < n,
                        p0 == (i, j),
                        dir <= 8,
                        even_points@.len() == (dir + 1) / 2,
                        odd_points@.len() == dir / 2,
                        forall|t: int| 0 <= t < even_points@.len() ==> nearest_spec(*state, p0, 2 * t, #[trigger] even_points@[t]),
                        forall|t: int| 0 <= t < odd_points@.len() ==> nearest_spec(*state, p0, 2 * t + 1, #[trigger] odd_points@[t]),
                    decreases 8 - dir,
                {
                    let q = nearest_marked(state, p0, dir);
                    if dir % 2 == 0 {
                        even_points.push(q);
                    } else {
                        odd_points.push(q);
                    }
                    dir = dir + 1;
                }
                let ghost mid0 = insertable@;
                add_pairs(state, p0, &even_points, 0, &mut insertable);
                let ghost mid1 = insertable@;
                add_pairs(state, p0, &odd_points, 1, &mut insertable);
                proof {
                    assert forall|t: int| 0 <= t < insertable@.len() implies #[trigger] insertable@[t] == (if t < mid0.len() {
                        before[t]
                    } else if t < mid1.len() {
                        mid1[t]
                    } else {
                        insertable@[t]
                    }) by {
                        if t < mid1.len() {
                            assert(insertable@[t] == insertable@.subrange(0, mid1.len() as int)[t]);
                            if t < mid0.len() {
                                assert(mid1[t] == mid1.subrange(0, mid0.len() as int)[t]);
                            }
                        }
                    }
                    assert forall|u: int| 0 <= u < insertable@.len() implies cell_le(#[trigger] insertable@[u][0], (i, j)) by {}
                    assert forall|u: int, v: int|
                        0 <= u < v < insertable@.len() implies insertable@[u] != insertable@[v] by {
                        if u >= mid0.len() && v < mid1.len() {
                            assert(pair_key(mid1[u]) < pair_key(mid1[v]));
                        } else if u >= mid1.len() {
                            assert(pair_key(insertable@[u]) < pair_key(insertable@[v]));
                        } else if u >= mid0.len() && v >= mid1.len() {
                            assert(edge_dir(insertable@[u][0], insertable@[u][1]) % 2 == 0);
                            assert(edge_dir(insertable@[v][0], insertable@[v][1]) % 2 == 1);
                        }
                    }
                    assert forall|t: int| 0 <= t < insertable@.len() implies {
                        &&& corners_in_grid(#[trigger] insertable@[t], state.n())
                        &&& valid_move(*state, insertable@[t])
                        &&& !tabu_list@.contains(insertable@[t][0])
                    } && canonical(insertable@[t]) by {
                        if t < mid1.len() {
                            assert(insertable@[t] == insertable@.subrange(0, mid1.len() as int)[t]);
                            if t < mid0.len() {
                                assert(mid1[t] == mid1.subrange(0, mid0.len() as int)[t]);
                            }
                        }
                    }
                    assert forall|r: Rect|
                        #[trigger] valid_move(*state, r) && corners_in_grid(r, n as int) && canonical(r)
                            && !tabu_list@.contains(r[0]) && (r[0].0 < i || (r[0].0 == i && r[0].1 < j + 1))
                            implies insertable@.contains(r) by {
                        lemma_well_shaped_move(*state, r);
                        lemma_right_angles(r);
                        if r[0].0 == i && r[0].1 == j {
                            if edge_dir(r[0], r[1]) % 2 == 0 {
                                let t = choose|t: int| 0 <= t < mid1.len() && mid1[t] == r;
                                assert(insertable@[t] == insertable@.subrange(0, mid1.len() as int)[t]);
                            }
                        } else {
                            let t = choose|t: int| 0 <= t < before.len() && before[t] == r;
                            assert(mid1[t] == mid1.subrange(0, mid0.len() as int)[t]);
                            assert(insertable@[t] == insertable@.subrange(0, mid1.len() as int)[t]);
                        }
                    }
                }
            }
            j = j + 1;
        }
        proof {
            assert forall|u: int| 0 <= u < insertable@.len() implies (#[trigger] insertable@[u])[0].0 < i + 1 by {
                assert(cell_lt(insertable@[u][0], (i, n)));
            }
        }
        i = i + 1;
    }
    proof {
        assert forall|r: Rect|
            #[trigger] valid_move(*state, r) && corners_in_grid(r, state.n()) && !tabu_list@.contains(r[0])
                implies insertable@.contains(r) || insertable@.contains(mirror(r)) by {
            lemma_well_shaped_move(*state, r);
            lemma_mirror_valid(*state, r);
            lemma_well_shaped_move(*state, mirror(r));
            lemma_right_angles(r);
            if !canonical(r) {
                assert(canonical(mirror(r)));
            }
        }
    }
    insertable
}


/// The corners of an allowed move seen from its corner `p1`: `p2` is the
/// nearest marked cell in the direction of the side `p1 p2`, `p0` lies on
/// the walk from `p1` over unmarked cells in the direction of the side
/// `p1 p0`, and `p3` closes the rectangle.
pub proof fn lemma_corners_from_p1(s: State, r: Rect, near: Seq<Option<Point>>)
    requires
        s.wf(),
        valid_move(s, r),
        corners_in_grid(r, s.n()),
        near.len() == 8,
        forall|d: int| 0 <= d < 8 ==> nearest_spec(s, r[1], d, #[trigger] near[d]),
    ensures
        0 <= edge_dir(r[1], r[0]) < 8,
        edge_len(r[1], r[0]) >= 1,
        (r[0].0 as int, r[0].1 as int) == ray(r[1], edge_dir(r[1], r[0]), edge_len(r[1], r[0])),
        forall|j: int| 1 <= j <= edge_len(r[1], r[0]) ==> in_grid(#[trigger] ray(r[1], edge_dir(r[1], r[0]), j), s.n())
            && !s.marked(ray(r[1], edge_dir(r[1], r[0]), j)),
        opposite(edge_dir(r[1], r[0])) == edge_dir(r[0], r[1]),
        edge_dir(r[1], r[2]) == (opposite(edge_dir(r[1], r[0])) + 6) % 8
            || edge_dir(r[1], r[2]) == (opposite(edge_dir(r[1], r[0])) + 2) % 8,
        near[edge_dir(r[1], r[2])] == Some(r[2]),
        r[3].0 == r[2].0 + (r[0].0 - r[1].0),
        r[3].1 == r[2].1 + (r[0].1 - r[1].1),
{
    lemma_well_shaped_move(s, r);
    lemma_well_shaped_edges(r);
    lemma_right_angles(r);
    lemma_reverse_edge(s, r[0], r[1]);
    lemma_dir_of_steps(edge_dir(r[0], r[1]));
    let len = edge_len(r[1], r[0]);
    let d = edge_dir(r[1], r[0]);
    lemma_along(r[1], r[0], len);
    assert forall|j: int| #[trigger] ray(r[1], d, j) == along(r[1], r[0], j) by {}
    assert forall|j: int| 1 <= j <= len implies in_grid(#[trigger] ray(r[1], d, j), s.n())
        && !s.marked(ray(r[1], d, j)) by {
        lemma_along(r[1], r[0], j);
        assert(ray(r[1], d, j) == along(r[1], r[0], j));
    }
    lemma_edge_is_ray(s, r[1], r[2]);
    let d12 = edge_dir(r[1], r[2]);
    let k12 = edge_len(r[1], r[2]);
    match near[d12] {
        Some(q) => {
            lemma_ray_hit_unique(s, r[1], d12, k12, steps(r[1], q));
        },
        None => {
            assert(in_grid(ray(r[1], d12, k12), s.n()));
        },
    }
}

/// The corners of an allowed move seen from its corner `p2`: `p1` and `p3`
/// are the nearest marked cells in the directions of the two sides at `p2`,
/// a quarter turn apart, and `p0` closes the rectangle.
pub proof fn lemma_corners_from_p2(s: State, r: Rect, near: Seq<Option<Point>>)
    requires
        s.wf(),
        valid_move(s, r),
        corners_in_grid(r, s.n()),
        near.len() == 8,
        forall|d: int| 0 <= d < 8 ==> nearest_spec(s, r[2], d, #[trigger] near[d]),
    ensures
        0 <= edge_dir(r[2], r[1]) < 8,
        0 <= edge_dir(r[2], r[3]) < 8,
        edge_dir(r[2], r[3]) == (edge_dir(r[2], r[1]) + 2) % 8 || edge_dir(r[2], r[1]) == (edge_dir(r[2], r[3]) + 2) % 8,
        near[edge_dir(r[2], r[1])] == Some(r[1]),
        near[edge_dir(r[2], r[3])] == Some(r[3]),
        r[0].0 == r[3].0 + (r[1].0 - r[2].0),
        r[0].1 == r[3].1 + (r[1].1 - r[2].1),
{
    lemma_well_shaped_move(s, r);
    lemma_well_shaped_edges(r);
    lemma_right_angles(r);
    lemma_reverse_edge(s, r[1], r[2]);
    lemma_reverse_edge(s, r[0], r[3]);
    lemma_reverse_edge(s, r[3], r[0]);
    lemma_dir_of_steps(edge_dir(r[0], r[1]));
    lemma_dir_of_steps(edge_dir(r[0], r[3]));
    lemma_edge_is_ray(s, r[2], r[1]);
    lemma_edge_is_ray(s, r[2], r[3]);
    let d21 = edge_dir(r[2], r[1]);
    let k21 = edge_len(r[2], r[1]);
    let d23 = edge_dir(r[2], r[3]);
    let k23 = edge_len(r[2], r[3]);
    match near[d21] {
        Some(q) => {
            lemma_ray_hit_unique(s, r[2], d21, k21, steps(r[2], q));
        },
        None => {
            assert(in_grid(ray(r[2], d21, k21), s.n()));
        },
    }
    match near[d23] {
        Some(q) => {
            lemma_ray_hit_unique(s, r[2], d23, k23, steps(r[2], q));
        },
        None => {
            assert(in_grid(ray(r[2], d23, k23), s.n()));
        },
    }
}

/// The cell one step from `(x, y)` in direction `d`, if it is in the grid.
fn next_cell(x: usize, y: usize, d: usize, n: usize) -> (r: Option<Point>)
    requires
        x < n,
        y < n,
        d < 8,
    ensures
        r is Some <==> in_grid(ray((x, y), d as int, 1), n as int),
        r matches Some(q) ==> (q.0 as int, q.1 as int) == ray((x, y), d as int, 1),
{
    let (dx, dy) = dxy(d);
    if (dx < 0 && x == 0) || (dx > 0 && x + 1 >= n) || (dy < 0 && y == 0) || (dy > 0 && y + 1 >= n) {
        return None;
    }
    let nx = if dx > 0 { x + 1 } else if dx < 0 { x - 1 } else { x };
    let ny = if dy > 0 { y + 1 } else if dy < 0 { y - 1 } else { y };
    Some((nx, ny))
}

/// `b` is `a` with zero or more elements appended.
pub open spec fn extends(a: Seq<Rect>, b: Seq<Rect>) -> bool {
    &&& a.len() <= b.len()
    &&& b.subrange(0, a.len() as int) == a
}

/// Appending keeps what a list contains.
pub proof fn lemma_extends(a: Seq<Rect>, b: Seq<Rect>, c: Seq<Rect>)
    requires
        extends(a, b),
    ensures
        forall|r: Rect| a.contains(r) ==> #[trigger] b.contains(r),
        forall|u: int| 0 <= u < a.len() ==> #[trigger] b[u] == a[u],
        extends(b, c) ==> extends(a, c),
        forall|x: Rect| #[trigger] extends(a, b.push(x)),
        forall|from: int, r: Rect| #[trigger] added_since(a, from, r) ==> added_since(b, from, r),
{
    assert forall|from: int, r: Rect| #[trigger] added_since(a, from, r) implies added_since(b, from, r) by {
        let u = choose|u: int| 0 <= from <= u < a.len() && a[u] == r;
        assert(b.subrange(0, a.len() as int)[u] == b[u]);
    }
    assert forall|u: int| 0 <= u < a.len() implies #[trigger] b[u] == a[u] by {
        assert(b.subrange(0, a.len() as int)[u] == b[u]);
    }
    assert forall|r: Rect| a.contains(r) implies #[trigger] b.contains(r) by {
        let u = choose|u: int| 0 <= u < a.len() && a[u] == r;
        assert(b[u] == r);
    }
    if extends(b, c) {
        assert(c.subrange(0, a.len() as int) =~= a) by {
            assert forall|u: int| 0 <= u < a.len() implies c.subrange(0, a.len() as int)[u] == a[u] by {
                assert(c.subrange(0, b.len() as int)[u] == c[u]);
            }
        }
    }
    assert forall|x: Rect| #[trigger] extends(a, b.push(x)) by {
        assert(b.push(x).subrange(0, a.len() as int) =~= a) by {
            assert forall|u: int| 0 <= u < a.len() implies b.push(x).subrange(0, a.len() as int)[u] == a[u] by {
                assert(b.push(x)[u] == b[u]);
            }
        }
    }
}

/// Appending one element extends a list.
pub proof fn lemma_extends_push(a: Seq<Rect>, x: Rect)
    ensures
        extends(a, a.push(x)),
{
    assert(a.push(x).subrange(0, a.len() as int) =~= a);
}

/// `r` is an entry of `v` at position `from` or later.
pub open spec fn added_since(v: Seq<Rect>, from: int, r: Rect) -> bool {
    exists|u: int| 0 <= from <= u < v.len() && v[u] == r
}

/// Every list extends itself.
pub proof fn lemma_extends_self(a: Seq<Rect>)
    ensures
        extends(a, a),
{
    assert(a.subrange(0, a.len() as int) =~= a);
}

/// With `p0` and `p1` fixed and `p2` the nearest marked cell seen from `p1`
/// in direction `search_dir`, adds `[p0, p1, p2, p3]` when its move is
/// allowed.
fn try_from_p1(s: &State, p0: Point, p1: Point, near: &Vec<Option<Point>>, search_dir: usize, res: &mut Vec<Rect>)
    requires
        s.wf(),
        p0.0 < s.n(),
        p0.1 < s.n(),
        p1.0 < s.n(),
        p1.1 < s.n(),
        search_dir < 8,
        near@.len() == 8,
        forall|d: int| 0 <= d < 8 ==> nearest_spec(*s, p1, d, #[trigger] near@[d]),
    ensures
        extends(old(res)@, final(res)@),
        forall|u: int|
            old(res)@.len() <= u < final(res)@.len() ==> {
                &&& corners_in_grid(#[trigger] final(res)@[u], s.n())
                &&& valid_move(*s, final(res)@[u])
                &&& final(res)@[u][0] == p0
                &&& final(res)@[u][1] == p1
                &&& edge_dir(final(res)@[u][1], final(res)@[u][2]) == search_dir
            },
        final(res)@.len() <= old(res)@.len() + 1,
        forall|r: Rect|
            #[trigger] valid_move(*s, r) && corners_in_grid(r, s.n()) && r[0] == p0 && r[1] == p1
                && edge_dir(r[1], r[2]) == search_dir ==> added_since(final(res)@, old(res)@.len() as int, r),
{
    broadcast use vstd::seq_lib::lemma_seq_contains_after_push;
    let n = s.has_point.len();
    if let Some(p2) = near[search_dir] {
        let p3x = p2.0 as i64 + (p0.0 as i64 - p1.0 as i64);
        let p3y = p2.1 as i64 + (p0.1 as i64 - p1.1 as i64);
        if 0 <= p3x && p3x < n as i64 && 0 <= p3y && p3y < n as i64 {
            let rect: Rect = [p0, p1, p2, (p3x as usize, p3y as usize)];
            proof {
                assert(nearest_spec(*s, p1, search_dir as int, near@[search_dir as int]));
                lemma_ray_dir(p1, p2, search_dir as int, steps(p1, p2));
            }
            if s.check_move(&rect) {
                res.push(rect);
            }
        }
    }
    proof {
        assert forall|r: Rect|
            #[trigger] valid_move(*s, r) && corners_in_grid(r, s.n()) && r[0] == p0 && r[1] == p1
                && edge_dir(r[1], r[2]) == search_dir implies added_since(res@, old(res)@.len() as int, r) by {
            lemma_corners_from_p1(*s, r, near@);
            assert(res@[res@.len() - 1] =~= r);
            assert(res@.len() - 1 >= old(res)@.len());
        }
        lemma_extends_self(old(res)@);
        lemma_extends_push(old(res)@, res@[res@.len() - 1]);
        assert(res@ == old(res)@ || res@ == old(res)@.push(res@[res@.len() - 1]));
    }
}

/// With `p2` fixed and `p1`, `p3` the nearest marked cells seen from it in
/// directions `i` and `i + 2`, adds `[p0, p1, p2, p3]` when `p0` is not tabu
/// and its move is allowed.
fn try_from_p2(s: &State, p2: Point, near: &Vec<Option<Point>>, i: usize, tabu_list: &VecDeque<Point>, res: &mut Vec<Rect>)
    requires
        s.wf(),
        p2.0 < s.n(),
        p2.1 < s.n(),
        i < 8,
        near@.len() == 8,
        forall|d: int| 0 <= d < 8 ==> nearest_spec(*s, p2, d, #[trigger] near@[d]),
    ensures
        extends(old(res)@, final(res)@),
        forall|u: int|
            old(res)@.len() <= u < final(res)@.len() ==> {
                &&& corners_in_grid(#[trigger] final(res)@[u], s.n())
                &&& valid_move(*s, final(res)@[u])
                &&& !tabu_list@.contains(final(res)@[u][0])
                &&& final(res)@[u][2] == p2
                &&& edge_dir(final(res)@[u][2], final(res)@[u][1]) == i
                &&& edge_dir(final(res)@[u][2], final(res)@[u][3]) == (i + 2) % 8
            },
        final(res)@.len() <= old(res)@.len() + 1,
        forall|r: Rect|
            #[trigger] valid_move(*s, r) && corners_in_grid(r, s.n()) && r[2] == p2 && !tabu_list@.contains(r[0])
                && edge_dir(r[2], r[1]) == i && edge_dir(r[2], r[3]) == (i + 2) % 8 ==> added_since(
                final(res)@,
                old(res)@.len() as int,
                r,
            ),
{
    broadcast use vstd::seq_lib::lemma_seq_contains_after_push;
    let n = s.has_point.len();
    let p1 = near[i];
    let p3 = near[(i + 2) % 8];
    if let (Some(p1), Some(p3)) = (p1, p3) {
        let p0x = p3.0 as i64 + (p1.0 as i64 - p2.0 as i64);
        let p0y = p3.1 as i64 + (p1.1 as i64 - p2.1 as i64);
        if 0 <= p0x && p0x < n as i64 && 0 <= p0y && p0y < n as i64 {
            let p0 = (p0x as usize, p0y as usize);
            if !is_tabu(tabu_list, p0) {
                let rect: Rect = [p0, p1, p2, p3];
                proof {
                    assert(nearest_spec(*s, p2, i as int, near@[i as int]));
                    assert(nearest_spec(*s, p2, (i + 2) % 8, near@[(i + 2) % 8]));
                    lemma_ray_dir(p2, p1, i as int, steps(p2, p1));
                    lemma_ray_dir(p2, p3, (i + 2) % 8, steps(p2, p3));
                }
                if s.check_move(&rect) {
                    res.push(rect);
                }
            }
        }
    }
    proof {
        assert forall|r: Rect|
            #[trigger] valid_move(*s, r) && corners_in_grid(r, s.n()) && r[2] == p2 && !tabu_list@.contains(r[0])
                && edge_dir(r[2], r[1]) == i && edge_dir(r[2], r[3]) == (i + 2) % 8 implies added_since(
                res@,
                old(res)@.len() as int,
                r,
            ) by {
            lemma_corners_from_p2(*s, r, near@);
            assert(res@[res@.len() - 1] =~= r);
            assert(res@.len() - 1 >= old(res)@.len());
        }
        lemma_extends_self(old(res)@);
        lemma_extends_push(old(res)@, res@[res@.len() - 1]);
        assert(res@ == old(res)@ || res@ == old(res)@.push(res@[res@.len() - 1]));
    }
}


/// After the move that marked `pre_p0`: drops the listed moves that are no
/// longer allowed, then adds the allowed moves that use `pre_p0` as a corner
/// next to `p0` (as `p1`) or opposite it (as `p2`), skipping tabu cells `p0`.
#[verifier::rlimit(80)]
pub fn update_insertable(
    input: &Input,
    state: &State,
    pre_p0: Point,
    insertable: &mut Vec<Rect>,
    tabu_list: &VecDeque<Point>,
)
    requires
        state.wf(),
        state.n() == input.n,
        pre_p0.0 < input.n,
        pre_p0.1 < input.n,
        forall|t: int| 0 <= t < old(insertable)@.len() ==> corners_in_grid(#[trigger] old(insertable)@[t], input.n as int),
    ensures
        updated(*state, tabu_list@, pre_p0, old(insertable)@, final(insertable)@),
{
    let n = input.n;
    let ghost old_list = insertable@;
    // Keep the moves that are still allowed, in their order.
    let mut res: Vec<Rect> = Vec::new();
    let mut t: usize = 0;
    while t < insertable.len()
        invariant
            state.wf(),
            n == state.n(),
            insertable@ == old_list,
            t <= old_list.len(),
            forall|u: int| 0 <= u < old_list.len() ==> corners_in_grid(#[trigger] old_list[u], n as int),
            forall|u: int| 0 <= u < res@.len() ==> update_entry(*state, tabu_list@, pre_p0, old_list, #[trigger] res@[u]),
            forall|u: int| 0 <= u < t && valid_move(*state, old_list[u]) ==> res@.contains(#[trigger] old_list[u]),
            res@ == old_list.take(t as int).filter(|r: Rect| valid_move(*state, r)),
        decreases old_list.len() - t,
    {
        let rect = insertable[t];
        let ghost before = res@;
        proof {
            assert(old_list.take(t + 1) =~= old_list.take(t as int).push(rect));
            old_list.take(t as int).lemma_filter_push(rect, |r: Rect| valid_move(*state, r));
        }
        if state.check_move(&rect) {
            res.push(rect);
            proof {
                lemma_extends_push(before, rect);
                lemma_extends(before, res@, res@);
                assert(res@[res@.len() - 1] == rect);
                assert(old_list[t as int] == rect);
            }
        }
        t = t + 1;
    }
    let ghost kept = res@;
    proof {
        assert(old_list.take(old_list.len() as int) =~= old_list);
        lemma_extends_self(kept);
    }
    // The nearest marked cell seen from the new point in each direction.
    let mut near_points: Vec<Option<Point>> = Vec::new();
    let mut d: usize = 0;
    while d < 8
        invariant
            state.wf(),
            n == state.n(),
            pre_p0.0 < n,
            pre_p0.1 < n,
            d <= 8,
            near_points@.len() == d,
            forall|e: int| 0 <= e < d ==> nearest_spec(*state, pre_p0, e, #[trigger] near_points@[e]),
        decreases 8 - d,
    {
        near_points.push(nearest_marked(state, pre_p0, d));
        d = d + 1;
    }
    let mut i: usize = 0;
    while i < 8
        invariant
            state.wf(),
            n == state.n(),
            pre_p0.0 < n,
            pre_p0.1 < n,
            i <= 8,
            near_points@.len() == 8,
            forall|e: int| 0 <= e < 8 ==> nearest_spec(*state, pre_p0, e, #[trigger] near_points@[e]),
            extends(kept, res@),
            forall|u: int| kept.len() <= u < res@.len() ==> added_entry(#[trigger] res@[u], pre_p0) && added_key(res@[u], pre_p0) < i * added_stride()
                && !tabu_list@.contains(res@[u][0]),
            forall|u: int, v: int| kept.len() <= u < v < res@.len() ==> added_key(#[trigger] res@[u], pre_p0) < added_key(#[trigger] res@[v], pre_p0),
            forall|u: int| 0 <= u < res@.len() ==> update_entry(*state, tabu_list@, pre_p0, old_list, #[trigger] res@[u]),
            forall|r: Rect| #[trigger] valid_move(*state, r) && old_list.contains(r) ==> res@.contains(r),
            forall|r: Rect|
                #[trigger] valid_move(*state, r) && corners_in_grid(r, n as int) && !tabu_list@.contains(r[0])
                    && r[1] == pre_p0 && edge_dir(r[1], r[0]) < i ==> added_since(res@, kept.len() as int, r),
            forall|r: Rect|
                #[trigger] valid_move(*state, r) && corners_in_grid(r, n as int) && !tabu_list@.contains(r[0])
                    && r[2] == pre_p0 && edge_dir(r[2], r[1]) < i && edge_dir(r[2], r[3]) == (edge_dir(r[2], r[1]) + 2) % 8
                    ==> added_since(res@, kept.len() as int, r),
        decreases 8 - i,
    {
        // `pre_p0` as `p1`: walk from it over unmarked cells, each a
        // candidate `p0`.
        let dir = (i + 4) % 8;
        let (mut x, mut y) = pre_p0;
        let ghost mut k: int = 0;
        loop
            invariant
                state.wf(),
                n == state.n(),
                pre_p0.0 < n,
                pre_p0.1 < n,
                i < 8,
                dir == opposite(i as int),
                x < n,
                y < n,
                k >= 0,
                (x as int, y as int) == ray(pre_p0, i as int, k),
                forall|j: int| 1 <= j <= k ==> !state.marked(#[trigger] ray(pre_p0, i as int, j)),
                near_points@.len() == 8,
                forall|e: int| 0 <= e < 8 ==> nearest_spec(*state, pre_p0, e, #[trigger] near_points@[e]),
                extends(kept, res@),
                k < n,
                forall|u: int| kept.len() <= u < res@.len() ==> added_entry(#[trigger] res@[u], pre_p0) && added_key(res@[u], pre_p0) < i * added_stride() + 2 * k + 2
                    && !tabu_list@.contains(res@[u][0]),
                forall|u: int, v: int| kept.len() <= u < v < res@.len() ==> added_key(#[trigger] res@[u], pre_p0) < added_key(#[trigger] res@[v], pre_p0),
                forall|u: int| 0 <= u < res@.len() ==> update_entry(*state, tabu_list@, pre_p0, old_list, #[trigger] res@[u]),
                forall|r: Rect| #[trigger] valid_move(*state, r) && old_list.contains(r) ==> res@.contains(r),
                forall|r: Rect|
                    #[trigger] valid_move(*state, r) && corners_in_grid(r, n as int) && !tabu_list@.contains(r[0])
                        && r[1] == pre_p0 && (edge_dir(r[1], r[0]) < i || (edge_dir(r[1], r[0]) == i
                        && edge_len(r[1], r[0]) <= k)) ==> added_since(res@, kept.len() as int, r),
                forall|r: Rect|
                    #[trigger] valid_move(*state, r) && corners_in_grid(r, n as int) && !tabu_list@.contains(r[0])
                        && r[2] == pre_p0 && edge_dir(r[2], r[1]) < i && edge_dir(r[2], r[3]) == (edge_dir(r[2], r[1]) + 2) % 8
                        ==> added_since(res@, kept.len() as int, r),
            ensures
                extends(kept, res@),
                forall|u: int| kept.len() <= u < res@.len() ==> added_entry(#[trigger] res@[u], pre_p0) && added_key(res@[u], pre_p0) < i * added_stride() + 2 * MAX_N + 2
                    && !tabu_list@.contains(res@[u][0]),
                forall|u: int, v: int| kept.len() <= u < v < res@.len() ==> added_key(#[trigger] res@[u], pre_p0) < added_key(#[trigger] res@[v], pre_p0),
                forall|u: int| 0 <= u < res@.len() ==> update_entry(*state, tabu_list@, pre_p0, old_list, #[trigger] res@[u]),
                forall|r: Rect| #[trigger] valid_move(*state, r) && old_list.contains(r) ==> res@.contains(r),
                forall|r: Rect|
                    #[trigger] valid_move(*state, r) && corners_in_grid(r, n as int) && !tabu_list@.contains(r[0])
                        && r[1] == pre_p0 && edge_dir(r[1], r[0]) < i + 1 ==> added_since(res@, kept.len() as int, r),
                forall|r: Rect|
                    #[trigger] valid_move(*state, r) && corners_in_grid(r, n as int) && !tabu_list@.contains(r[0])
                        && r[2] == pre_p0 && edge_dir(r[2], r[1]) < i && edge_dir(r[2], r[3]) == (edge_dir(r[2], r[1]) + 2) % 8
                        ==> added_since(res@, kept.len() as int, r),
            decreases (if dir_dx(i as int) > 0 { n - x } else if dir_dx(i as int) < 0 { x as int } else { 0 })
                + (if dir_dy(i as int) > 0 { n - y } else if dir_dy(i as int) < 0 { y as int } else { 0 }),
        {
            let next = next_cell(x, y, i, n);
            let stop = match next {
                None => true,
                Some(c) => state.has_point[c.0][c.1],
            };
            if stop {
                proof {
                    assert forall|r: Rect|
                        #[trigger] valid_move(*state, r) && corners_in_grid(r, n as int) && !tabu_list@.contains(r[0])
                            && r[1] == pre_p0 && edge_dir(r[1], r[0]) < i + 1 implies added_since(res@, kept.len() as int, r) by {
                        lemma_corners_from_p1(*state, r, near_points@);
                        if edge_dir(r[1], r[0]) == i && edge_len(r[1], r[0]) > k {
                            assert(in_grid(ray(pre_p0, i as int, k + 1), n as int));
                            assert(!state.marked(ray(pre_p0, i as int, k + 1)));
                        }
                    }
                }
                break;
            }
            let c = next.unwrap();
            x = c.0;
            y = c.1;
            proof {
                k = k + 1;
            }
            let p0 = (x, y);
            if !is_tabu(tabu_list, p0) {
                let ghost before = res@;
                try_from_p1(state, p0, pre_p0, &near_points, (dir + 6) % 8, &mut res);
                let ghost mid = res@;
                try_from_p1(state, p0, pre_p0, &near_points, (dir + 2) % 8, &mut res);
                proof {
                    lemma_ray_dir(pre_p0, p0, i as int, k);
                    lemma_dir_of_steps(i as int);
                    lemma_extends(kept, before, mid);
                    lemma_extends(kept, mid, res@);
                    lemma_extends(before, mid, res@);
                    assert forall|u: int| kept.len() <= u < res@.len() implies added_entry(#[trigger] res@[u], pre_p0)
                        && added_key(res@[u], pre_p0) < i * added_stride() + 2 * k + 2 && !tabu_list@.contains(res@[u][0]) by {
                        if u < before.len() {
                            assert(res@[u] == before[u]);
                        } else if u < mid.len() {
                            assert(res@[u] == mid[u]);
                        }
                    }
                    assert forall|u: int, v: int| kept.len() <= u < v < res@.len() implies added_key(#[trigger] res@[u], pre_p0)
                        < added_key(#[trigger] res@[v], pre_p0) by {
                        if v < before.len() {
                            assert(res@[u] == before[u]);
                            assert(res@[v] == before[v]);
                        } else if v < mid.len() {
                            assert(res@[v] == mid[v]);
                            if u < before.len() {
                                assert(res@[u] == before[u]);
                            }
                        } else {
                            if u < before.len() {
                                assert(res@[u] == before[u]);
                            } else if u < mid.len() {
                                assert(res@[u] == mid[u]);
                            }
                        }
                    }
                    lemma_extends(mid, res@, res@);
                    lemma_extends(before, res@, res@);
                    assert forall|u: int| 0 <= u < res@.len() implies update_entry(
                        *state,
                        tabu_list@,
                        pre_p0,
                        old_list,
                        #[trigger] res@[u],
                    ) by {
                        if u < before.len() {
                            assert(res@[u] == before[u]);
                        } else if u < mid.len() {
                            assert(res@[u] == mid[u]);
                        }
                    }
                    assert forall|r: Rect|
                        #[trigger] valid_move(*state, r) && corners_in_grid(r, n as int) && !tabu_list@.contains(r[0])
                            && r[1] == pre_p0 && edge_dir(r[1], r[0]) == i && edge_len(r[1], r[0]) == k
                            implies added_since(res@, kept.len() as int, r) by {
                        lemma_corners_from_p1(*state, r, near_points@);
                        assert(r[0] == p0);
                        if added_since(res@, mid.len() as int, r) {
                            let u = choose|u: int| 0 <= mid.len() <= u < res@.len() && res@[u] == r;
                        } else {
                            assert(added_since(mid, before.len() as int, r));
                            let u = choose|u: int| 0 <= before.len() <= u < mid.len() && mid[u] == r;
                            assert(res@[u] == mid[u]);
                        }
                    }
                }
            } else {
                proof {
                    assert forall|r: Rect|
                        #[trigger] valid_move(*state, r) && corners_in_grid(r, n as int) && !tabu_list@.contains(r[0])
                            && r[1] == pre_p0 && edge_dir(r[1], r[0]) == i && edge_len(r[1], r[0]) == k
                            implies false by {
                        lemma_corners_from_p1(*state, r, near_points@);
                        assert(r[0] == p0);
                    }
                }
            }
        }
        // `pre_p0` as `p2`.
        let ghost before = res@;
        try_from_p2(state, pre_p0, &near_points, i, tabu_list, &mut res);
        proof {
            lemma_extends(kept, before, res@);
            lemma_extends(before, res@, res@);
            assert((i + 1) * added_stride() == i * added_stride() + 2 * MAX_N + 4) by (nonlinear_arith);
            assert forall|u: int| kept.len() <= u < res@.len() implies added_entry(#[trigger] res@[u], pre_p0)
                && added_key(res@[u], pre_p0) < (i + 1) * added_stride() && !tabu_list@.contains(res@[u][0]) by {
                if u < before.len() {
                    assert(res@[u] == before[u]);
                    assert(added_entry(before[u], pre_p0));
                    assert(added_key(before[u], pre_p0) < i * added_stride() + 2 * MAX_N + 2);
                } else {
                    lemma_well_shaped_move(*state, res@[u]);
                    lemma_well_shaped_edges(res@[u]);
                    assert(res@[u][2] == pre_p0);
                    assert(res@[u][1] != pre_p0);
                    assert(edge_dir(res@[u][2], res@[u][1]) == i);
                    assert(added_key(res@[u], pre_p0) == i * added_stride() + 2 * MAX_N + 3);
                }
            }
            assert forall|u: int, v: int| kept.len() <= u < v < res@.len() implies added_key(#[trigger] res@[u], pre_p0)
                < added_key(#[trigger] res@[v], pre_p0) by {
                if v < before.len() {
                    assert(res@[u] == before[u]);
                    assert(res@[v] == before[v]);
                } else if u < before.len() {
                    assert(res@[u] == before[u]);
                    lemma_well_shaped_move(*state, res@[v]);
                    lemma_well_shaped_edges(res@[v]);
                }
            }
            assert forall|u: int| 0 <= u < res@.len() implies update_entry(
                *state,
                tabu_list@,
                pre_p0,
                old_list,
                #[trigger] res@[u],
            ) by {
                if u < before.len() {
                    assert(res@[u] == before[u]);
                }
            }
        }
        i = i + 1;
    }
    proof {
        assert forall|r: Rect|
            #[trigger] valid_move(*state, r) && corners_in_grid(r, state.n()) && !tabu_list@.contains(r[0])
                && added_entry(r, pre_p0) implies added_since(res@, kept.len() as int, r) by {
            lemma_well_shaped_move(*state, r);
            if r[1] == pre_p0 {
                lemma_corners_from_p1(*state, r, near_points@);
            } else {
                lemma_corners_from_p2(*state, r, near_points@);
            }
        }
        assert forall|r: Rect|
            #[trigger] valid_move(*state, r) && corners_in_grid(r, state.n()) && !tabu_list@.contains(r[0])
                && (r[1] == pre_p0 || r[2] == pre_p0 || r[3] == pre_p0)
                implies res@.contains(r) || res@.contains(mirror(r)) by {
            lemma_well_shaped_move(*state, r);
            lemma_mirror_valid(*state, r);
            lemma_corners_distinct(r);
            if r[1] == pre_p0 {
                lemma_corners_from_p1(*state, r, near_points@);
                assert(added_since(res@, kept.len() as int, r));
            } else if r[3] == pre_p0 {
                lemma_corners_from_p1(*state, mirror(r), near_points@);
                assert(added_since(res@, kept.len() as int, mirror(r)));
            } else {
                lemma_corners_from_p2(*state, r, near_points@);
                lemma_corners_from_p2(*state, mirror(r), near_points@);
                if edge_dir(r[2], r[3]) == (edge_dir(r[2], r[1]) + 2) % 8 {
                    assert(added_since(res@, kept.len() as int, r));
                } else {
                    assert(added_since(res@, kept.len() as int, mirror(r)));
                }
            }
        }
    }
    *insertable = res;
}

/// Spacing of the keys of the moves an update adds, per direction `i`.
pub open spec fn added_stride() -> int {
    2 * MAX_N + 4
}

/// A move added by an update: `pre_p0` is its corner `p1`, or its corner
/// `p2` with `p3` a quarter turn counter-clockwise from `p1` seen from `p2`.
pub open spec fn added_entry(r: Rect, pre_p0: Point) -> bool {
    ||| r[1] == pre_p0
    ||| r[2] == pre_p0 && edge_dir(r[2], r[3]) == (edge_dir(r[2], r[1]) + 2) % 8
}

/// The order in which an update adds moves: by the direction from `pre_p0`,
/// moves with `pre_p0` as `p1` by their distance to `p0` (the side turning
/// clockwise first), then the move with `pre_p0` as `p2`.
pub open spec fn added_key(r: Rect, pre_p0: Point) -> int {
    if r[1] == pre_p0 {
        edge_dir(r[1], r[0]) * added_stride() + 2 * edge_len(r[1], r[0]) + (if edge_dir(r[1], r[2]) == (opposite(
            edge_dir(r[1], r[0]),
        ) + 6) % 8 {
            0int
        } else {
            1int
        })
    } else {
        edge_dir(r[2], r[1]) * added_stride() + 2 * MAX_N + 3
    }
}

/// The entries of `before` still allowed in `s`, in their order.
pub open spec fn kept_moves_of(s: State, before: Seq<Rect>) -> Seq<Rect> {
    before.filter(|r: Rect| valid_move(s, r))
}

/// What an update guarantees of the list `after` it, given the list
/// `before` it. The list starts with the entries of `before` still allowed
/// in `s`, in their order. The rest are the added moves: exactly the allowed
/// moves of `added_entry` shape for `pre_p0` whose `p0` is not tabu, in the
/// order of `added_key`. Every entry lies in the grid and is allowed; every
/// move listed before that is still allowed stays; and every allowed move
/// with `pre_p0` as one of its corners `p1`, `p2`, `p3` and `p0` not tabu is
/// listed, in one orientation or the other.
pub open spec fn updated(s: State, tabu: Seq<Point>, pre_p0: Point, before: Seq<Rect>, after: Seq<Rect>) -> bool {
    &&& extends(kept_moves_of(s, before), after)
    &&& forall|u: int|
        kept_moves_of(s, before).len() <= u < after.len() ==> added_entry(#[trigger] after[u], pre_p0)
    &&& forall|u: int, v: int|
        kept_moves_of(s, before).len() <= u < v < after.len() ==> added_key(#[trigger] after[u], pre_p0) < added_key(
            #[trigger] after[v],
            pre_p0,
        )
    &&& forall|u: int| kept_moves_of(s, before).len() <= u < after.len() ==> !tabu.contains(#[trigger] after[u][0])
    &&& forall|r: Rect|
        #[trigger] valid_move(s, r) && corners_in_grid(r, s.n()) && !tabu.contains(r[0]) && added_entry(r, pre_p0)
            ==> added_since(after, kept_moves_of(s, before).len() as int, r)
    &&& forall|t: int| 0 <= t < after.len() ==> update_entry(s, tabu, pre_p0, before, #[trigger] after[t])
    &&& forall|r: Rect| #[trigger] valid_move(s, r) && before.contains(r) ==> after.contains(r)
    &&& forall|r: Rect|
        #[trigger] valid_move(s, r) && corners_in_grid(r, s.n()) && !tabu.contains(r[0])
            && (r[1] == pre_p0 || r[2] == pre_p0 || r[3] == pre_p0) ==> after.contains(r) || after.contains(mirror(r))
}

/// What an entry of the list after an update is: a move allowed in `s` that
/// lies in the grid, and either an entry of the list before the update or a
/// move, not marking a tabu cell, with `pre_p0` as its corner `p1` or `p2`.
pub open spec fn update_entry(s: State, tabu: Seq<Point>, pre_p0: Point, before: Seq<Rect>, r: Rect) -> bool {
    &&& corners_in_grid(r, s.n())
    &&& valid_move(s, r)
    &&& (before.contains(r) || (!tabu.contains(r[0]) && (r[1] == pre_p0 || r[2] == pre_p0)))
}


/// A move allowed after drawing `m` that does not use the newly marked cell
/// `m[0]` as one of its corners `p1`, `p2`, `p3` was already allowed before:
/// drawing only marks cells and covers segments.
pub proof fn lemma_new_moves_use_new_point(s0: State, m: Rect, s1: State, r: Rect)
    requires
        s0.wf(),
        moved(s0, m, s1),
        corners_in_grid(r, s0.n()),
        valid_move(s1, r),
        r[1] != m[0],
        r[2] != m[0],
        r[3] != m[0],
    ensures
        valid_move(s0, r),
{
    lemma_well_shaped_move(s1, r);
    lemma_well_shaped_edges(r);
    let n = s0.n();
    assert(s1.marked((r[1].0 as int, r[1].1 as int)));
    assert(s1.marked((r[2].0 as int, r[2].1 as int)));
    assert(s1.marked((r[3].0 as int, r[3].1 as int)));
    assert(s1.marked((r[0].0 as int, r[0].1 as int)) == s0.marked((r[0].0 as int, r[0].1 as int))
        || (r[0].0 as int, r[0].1 as int) == (m[0].0 as int, m[0].1 as int));
    lemma_edge_clear_shrinks(s0, m, s1, r[0], r[1]);
    lemma_edge_clear_shrinks(s0, m, s1, r[1], r[2]);
    lemma_edge_clear_shrinks(s0, m, s1, r[2], r[3]);
    lemma_edge_clear_shrinks(s0, m, s1, r[3], r[0]);
}

/// An edge that is clear after a move was clear before it.
proof fn lemma_edge_clear_shrinks(s0: State, m: Rect, s1: State, a: Point, b: Point)
    requires
        s0.wf(),
        moved(s0, m, s1),
        corners_in_grid([a, b, a, b], s0.n()),
        straight(a, b),
        edge_clear(s1, a, b),
    ensures
        edge_clear(s0, a, b),
{
    let len = edge_len(a, b);
    let d = edge_dir(a, b);
    assert forall|k: int| 0 < k < len implies !s0.marked(#[trigger] along(a, b, k)) by {
        lemma_along(a, b, k);
        assert(s1.marked(along(a, b, k)) == (s0.marked(along(a, b, k)) || along(a, b, k) == (m[0].0 as int, m[0].1 as int)));
    }
    assert forall|k: int| 0 <= k < len implies !s0.used_at(#[trigger] along(a, b, k), d) by {
        lemma_along(a, b, k);
        assert(s1.used_at(along(a, b, k), d) == (s0.used_at(along(a, b, k), d) || rect_flag(m, 4, along(a, b, k).0, along(a, b, k).1, d)));
    }
    assert forall|k: int| 1 <= k <= len implies !s0.used_at(#[trigger] along(a, b, k), opposite(d)) by {
        lemma_along(a, b, k);
        lemma_dir_of_steps(d);
        assert(s1.used_at(along(a, b, k), opposite(d)) == (s0.used_at(along(a, b, k), opposite(d)) || rect_flag(
            m,
            4,
            along(a, b, k).0,
            along(a, b, k).1,
            opposite(d),
        )));
    }
}

/// The list of moves stays complete across a move: if `before` lists exactly
/// the moves allowed in `s0` (each in one orientation or the other, none
/// marking a tabu cell), then after drawing `m` and updating the list with
/// the newly marked cell, `after` lists exactly the moves allowed in `s1`.
pub proof fn lemma_update_lists_every_move(
    s0: State,
    m: Rect,
    s1: State,
    tabu: Seq<Point>,
    before: Seq<Rect>,
    after: Seq<Rect>,
)
    requires
        s0.wf(),
        corners_in_grid(m, s0.n()),
        moved(s0, m, s1),
        all_allowed(before, s0, tabu),
        lists_every_move(before, s0, tabu),
        updated(s1, tabu, m[0], before, after),
    ensures
        all_allowed(after, s1, tabu),
        lists_every_move(after, s1, tabu),
{
    assert forall|t: int| 0 <= t < after.len() implies {
        &&& corners_in_grid(#[trigger] after[t], s1.n())
        &&& valid_move(s1, after[t])
        &&& !tabu.contains(after[t][0])
    } by {
        assert(update_entry(s1, tabu, m[0], before, after[t]));
        if before.contains(after[t]) {
            let u = choose|u: int| 0 <= u < before.len() && before[u] == after[t];
            assert(!tabu.contains(before[u][0]));
        }
    }
    assert forall|r: Rect|
        #[trigger] valid_move(s1, r) && corners_in_grid(r, s1.n()) && !tabu.contains(r[0])
            implies after.contains(r) || after.contains(mirror(r)) by {
        if r[1] != m[0] && r[2] != m[0] && r[3] != m[0] {
            lemma_new_moves_use_new_point(s0, m, s1, r);
            lemma_well_shaped_move(s1, r);
            lemma_mirror_valid(s1, r);
            assert(before.contains(r) || before.contains(mirror(r)));
        }
    }
}


/// A filtered list of unique moves is unique and holds only moves of the
/// list.
pub proof fn lemma_filter_unique(v: Seq<Rect>, pred: spec_fn(Rect) -> bool)
    requires
        unique_moves(v),
    ensures
        unique_moves(v.filter(pred)),
        forall|x: Rect| #[trigger] v.filter(pred).contains(x) ==> v.contains(x),
    decreases v.len(),
{
    reveal(Seq::filter);
    if v.len() > 0 {
        let w = v.drop_last();
        let x = v.last();
        assert(v =~= w.push(x));
        assert(unique_moves(w)) by {
            assert forall|a: int, b: int| 0 <= a < w.len() && 0 <= b < w.len() implies #[trigger] w[a] != mirror(
                #[trigger] w[b],
            ) by {
                assert(v[a] == w[a] && v[b] == w[b]);
            }
        }
        lemma_filter_unique(w, pred);
        w.lemma_filter_push(x, pred);
        let fw = w.filter(pred);
        assert forall|y: Rect| #[trigger] v.filter(pred).contains(y) implies v.contains(y) by {
            if fw.contains(y) {
                let t = choose|t: int| 0 <= t < w.len() && w[t] == y;
                assert(v[t] == y);
            } else {
                assert(v[v.len() - 1] == y);
            }
        }
        if pred(x) {
            let fv = fw.push(x);
            assert(!fw.contains(x)) by {
                if fw.contains(x) {
                    let t = choose|t: int| 0 <= t < w.len() && w[t] == x;
                    assert(v[t] == v[v.len() - 1]);
                }
            }
            assert(!fw.contains(mirror(x))) by {
                if fw.contains(mirror(x)) {
                    let t = choose|t: int| 0 <= t < w.len() && w[t] == mirror(x);
                    assert(v[t] == mirror(v[v.len() - 1]));
                }
            }
            assert forall|a: int, b: int| 0 <= a < fv.len() && 0 <= b < fv.len() implies #[trigger] fv[a] != mirror(
                #[trigger] fv[b],
            ) by {
                if a < fw.len() && b < fw.len() {
                } else if a == fw.len() && b == fw.len() {
                    assert(v[v.len() - 1] != mirror(v[v.len() - 1]));
                } else if a == fw.len() {
                    assert(fw.contains(fw[b]));
                    let t = choose|t: int| 0 <= t < w.len() && w[t] == fw[b];
                    assert(v[t] == fw[b]);
                    assert(v[v.len() - 1] != mirror(v[t]));
                } else {
                    assert(fw.contains(fw[a]));
                    let t = choose|t: int| 0 <= t < w.len() && w[t] == fw[a];
                    assert(v[t] == fw[a]);
                    assert(v[t] != mirror(v[v.len() - 1]));
                }
            }
            assert(fv.no_duplicates()) by {
                assert forall|a: int, b: int| 0 <= a < fv.len() && 0 <= b < fv.len() && a != b implies fv[a] != fv[b] by {
                    if a < fw.len() && b < fw.len() {
                    } else if a == fw.len() {
                        assert(fw.contains(fw[b]));
                    } else {
                        assert(fw.contains(fw[a]));
                    }
                }
            }
        }
    }
}

/// A rectangle with the newly marked cell as one of `p1`, `p2`, `p3` was
/// not an allowed move before that cell was marked.
proof fn lemma_uses_unmarked(s0: State, m: Rect, r: Rect)
    requires
        valid_move(s0, m),
        r[1] == m[0] || r[2] == m[0] || r[3] == m[0],
    ensures
        !valid_move(s0, r),
{
}

/// The candidate list keeps every move once across a move: if `before`
/// holds moves allowed in `s0`, each once in one orientation, then
/// after drawing `m` from it and updating the list, `after` again holds
/// every move once in one orientation.
#[verifier::rlimit(30)]
pub proof fn lemma_update_keeps_unique(
    s0: State,
    m: Rect,
    s1: State,
    tabu: Seq<Point>,
    before: Seq<Rect>,
    after: Seq<Rect>,
)
    requires
        valid_move(s0, m),
        forall|t: int| 0 <= t < before.len() ==> valid_move(s0, #[trigger] before[t]),
        unique_moves(before),
        updated(s1, tabu, m[0], before, after),
    ensures
        unique_moves(after),
{
    let kept = kept_moves_of(s1, before);
    lemma_filter_unique(before, |r: Rect| valid_move(s1, r));
    let k = kept.len();
    assert forall|a: int| 0 <= a < k implies #[trigger] after[a] == kept[a] by {
        assert(after.subrange(0, k as int)[a] == after[a]);
    }
    assert forall|a: int, b: int| 0 <= a < after.len() && 0 <= b < after.len() implies #[trigger] after[a] != mirror(
        #[trigger] after[b],
    ) && (a != b ==> after[a] != after[b]) by {
        assert(update_entry(s1, tabu, m[0], before, after[a]));
        assert(update_entry(s1, tabu, m[0], before, after[b]));
        lemma_well_shaped_move(s1, after[a]);
        lemma_well_shaped_move(s1, after[b]);
        lemma_corners_distinct(after[a]);
        lemma_corners_distinct(after[b]);
        lemma_mirror_valid(s0, after[a]);
        lemma_mirror_valid(s0, after[b]);
        lemma_mirror_valid(s1, after[b]);
        lemma_right_angles(after[b]);
        lemma_reverse_edge(s1, after[b][1], after[b][2]);
        lemma_reverse_edge(s1, after[b][2], after[b][3]);
        if a < k && b < k {
            assert(kept.contains(kept[a]) && kept.contains(kept[b]));
        } else if a < k {
            assert(kept.contains(kept[a]));
            assert(before.contains(after[a]));
            let t = choose|t: int| 0 <= t < before.len() && before[t] == after[a];
            assert(valid_move(s0, before[t]));
            assert(added_entry(after[b], m[0]));
            lemma_uses_unmarked(s0, m, after[b]);
            lemma_uses_unmarked(s0, m, mirror(after[b]));
        } else if b < k {
            assert(kept.contains(kept[b]));
            assert(before.contains(after[b]));
            let t = choose|t: int| 0 <= t < before.len() && before[t] == after[b];
            assert(valid_move(s0, before[t]));
            assert(added_entry(after[a], m[0]));
            lemma_uses_unmarked(s0, m, after[a]);
            lemma_well_shaped_move(s0, before[t]);
            lemma_mirror_valid(s0, before[t]);
        } else {
            assert(added_entry(after[a], m[0]));
            assert(added_entry(after[b], m[0]));
            if a < b {
                assert(added_key(after[a], m[0]) < added_key(after[b], m[0]));
            } else if b < a {
                assert(added_key(after[b], m[0]) < added_key(after[a], m[0]));
            }
            lemma_dir_of_steps(edge_dir(after[b][2], after[b][1]));
        }
    }
}

/// `v` is strictly ordered by `listed_before`, as a fresh listing is.
pub open spec fn listed_in_order(v: Seq<Rect>) -> bool {
    forall|u: int, w: int| 0 <= u < w < v.len() ==> listed_before(#[trigger] v[u], #[trigger] v[w])
}

/// No move is listed before itself, and of two moves at most one is listed
/// before the other.
proof fn lemma_listed_before_asymmetric(a: Rect, b: Rect)
    ensures
        !(listed_before(a, b) && listed_before(b, a)),
        !listed_before(a, a),
{
}

/// Two lists in strict `listed_before` order that hold the same moves are
/// equal.
pub proof fn lemma_ordered_lists_equal(a: Seq<Rect>, b: Seq<Rect>)
    requires
        listed_in_order(a),
        listed_in_order(b),
        forall|r: Rect| a.contains(r) <==> b.contains(r),
    ensures
        a == b,
    decreases a.len(),
{
    if a.len() == 0 {
        if b.len() > 0 {
            assert(b.contains(b[0]));
        }
        assert(a =~= b);
    } else {
        assert(a.contains(a[0]));
        let w = choose|w: int| 0 <= w < b.len() && b[w] == a[0];
        assert(b.contains(b[0]));
        let u = choose|u: int| 0 <= u < a.len() && a[u] == b[0];
        lemma_listed_before_asymmetric(a[0], b[0]);
        lemma_listed_before_asymmetric(b[0], b[0]);
        if w > 0 {
            assert(listed_before(b[0], b[w]));
            if u > 0 {
                assert(listed_before(a[0], a[u]));
            }
        }
        assert(a[0] == b[0]);
        let a1 = a.drop_first();
        let b1 = b.drop_first();
        assert forall|r: Rect| a1.contains(r) <==> b1.contains(r) by {
            if a1.contains(r) {
                let i = choose|i: int| 0 <= i < a1.len() && a1[i] == r;
                assert(a[i + 1] == r);
                assert(listed_before(a[0], a[i + 1]));
                lemma_listed_before_asymmetric(r, r);
                assert(b.contains(r));
                let j = choose|j: int| 0 <= j < b.len() && b[j] == r;
                assert(b1[j - 1] == r);
            }
            if b1.contains(r) {
                let i = choose|i: int| 0 <= i < b1.len() && b1[i] == r;
                assert(b[i + 1] == r);
                assert(listed_before(b[0], b[i + 1]));
                lemma_listed_before_asymmetric(r, r);
                assert(a.contains(r));
                let j = choose|j: int| 0 <= j < a.len() && a[j] == r;
                assert(a1[j - 1] == r);
            }
        }
        assert(listed_in_order(a1)) by {
            assert forall|x: int, y: int| 0 <= x < y < a1.len() implies listed_before(#[trigger] a1[x], #[trigger] a1[y]) by {
                assert(a1[x] == a[x + 1] && a1[y] == a[y + 1]);
            }
        }
        assert(listed_in_order(b1)) by {
            assert forall|x: int, y: int| 0 <= x < y < b1.len() implies listed_before(#[trigger] b1[x], #[trigger] b1[y]) by {
                assert(b1[x] == b[x + 1] && b1[y] == b[y + 1]);
            }
        }
        lemma_ordered_lists_equal(a1, b1);
        assert forall|i: int| 0 <= i < a.len() implies a[i] == b[i] by {
            if i > 0 {
                assert(a[i] == a1[i - 1] && b[i] == b1[i - 1]);
            }
        }
        assert(a =~= b);
    }
}

/// Keeping some moves of an ordered list keeps them in order.
pub proof fn lemma_filter_in_order(v: Seq<Rect>, pred: spec_fn(Rect) -> bool)
    requires
        listed_in_order(v),
    ensures
        listed_in_order(v.filter(pred)),
    decreases v.len(),
{
    reveal(Seq::filter);
    if v.len() > 0 {
        let w = v.drop_last();
        let x = v.last();
        assert(listed_in_order(w)) by {
            assert forall|a: int, b: int| 0 <= a < b < w.len() implies listed_before(#[trigger] w[a], #[trigger] w[b]) by {
                assert(w[a] == v[a] && w[b] == v[b]);
            }
        }
        lemma_filter_in_order(w, pred);
        let fw = w.filter(pred);
        if pred(x) {
            let fv = fw.push(x);
            assert(v.filter(pred) == fv);
            assert forall|a: int, b: int| 0 <= a < b < fv.len() implies listed_before(#[trigger] fv[a], #[trigger] fv[b]) by {
                if b == fw.len() {
                    assert(fw.contains(fw[a]));
                    w.lemma_filter_contains_rev(pred, fw[a]);
                    let t = choose|t: int| 0 <= t < w.len() && w[t] == fw[a];
                    assert(v[t] == fw[a]);
                    assert(listed_before(v[t], v[v.len() - 1]));
                }
            }
        } else {
            assert(v.filter(pred) == fw);
        }
    }
}

/// Making a cell tabu removes exactly the moves that would mark it: the
/// fresh listing with `p` added to the tabu cells is the fresh listing
/// without `p`, less its moves whose `p0` is `p`, in the same order.
pub proof fn lemma_tabu_removes_its_moves(s: State, tabu: Seq<Point>, p: Point, a: Seq<Rect>, b: Seq<Rect>)
    requires
        fresh_listing(a, s, tabu),
        fresh_listing(b, s, tabu.push(p)),
    ensures
        b == a.filter(|r: Rect| r[0] != p),
{
    let pred = |r: Rect| r[0] != p;
    let f = a.filter(pred);
    assert(listed_in_order(a));
    assert(listed_in_order(b));
    lemma_filter_in_order(a, pred);
    assert(tabu.push(p).contains(p)) by {
        assert(tabu.push(p)[tabu.len() as int] == p);
    }
    assert forall|r: Rect| f.contains(r) <==> b.contains(r) by {
        if f.contains(r) {
            let j = choose|j: int| 0 <= j < f.len() && f[j] == r;
            a.lemma_filter_pred(pred, j);
            a.lemma_filter_contains_rev(pred, r);
            let i = choose|i: int| 0 <= i < a.len() && a[i] == r;
            assert(corners_in_grid(a[i], s.n()) && valid_move(s, a[i]) && !tabu.contains(a[i][0]) && canonical(a[i]));
            assert(!tabu.push(p).contains(r[0])) by {
                if tabu.push(p).contains(r[0]) {
                    let k = choose|k: int| 0 <= k < tabu.push(p).len() && tabu.push(p)[k] == r[0];
                    if k < tabu.len() {
                        assert(tabu[k] == r[0]);
                    }
                }
            }
            assert(valid_move(s, r));
        }
        if b.contains(r) {
            let j = choose|j: int| 0 <= j < b.len() && b[j] == r;
            assert(corners_in_grid(b[j], s.n()) && valid_move(s, b[j]) && !tabu.push(p).contains(b[j][0]) && canonical(b[j]));
            assert(r[0] != p);
            assert(!tabu.contains(r[0])) by {
                if tabu.contains(r[0]) {
                    let k = choose|k: int| 0 <= k < tabu.len() && tabu[k] == r[0];
                    assert(tabu.push(p)[k] == r[0]);
                }
            }
            assert(valid_move(s, r));
            assert(a.contains(r));
            let i = choose|i: int| 0 <= i < a.len() && a[i] == r;
            a.lemma_filter_contains(pred, i);
        }
    }
    lemma_ordered_lists_equal(f, b);
}

} // verus!
