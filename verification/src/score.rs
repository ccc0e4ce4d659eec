//! The integer parts of the score: the total weight of the marked cells and
//! the total weight of the grid.
use vstd::prelude::*;

verus! {

use crate::geometry::{Point, Rect, weight, weight_spec, lemma_weight_positive};
use crate::state::Input;

/// The sum of the weights of the first `m` cells of `ps`.
pub open spec fn points_weight(ps: Seq<Point>, n: int, m: int) -> int
    decreases m,
{
    if m <= 0 { 0 } else { points_weight(ps, n, m - 1) + weight_spec(ps[m - 1], n) }
}

/// The sum of the weights of the cells `p0` of the first `m` moves of `out`.
pub open spec fn moves_weight(out: Seq<Rect>, n: int, m: int) -> int
    decreases m,
{
    if m <= 0 { 0 } else { moves_weight(out, n, m - 1) + weight_spec(out[m - 1][0], n) }
}

/// The sum of the weights of the cells `(x, y)` with `y < m` in row `x`.
pub open spec fn row_weight(x: int, n: int, m: int) -> int
    decreases m,
{
    if m <= 0 { 0 } else { row_weight(x, n, m - 1) + weight_spec((x as usize, (m - 1) as usize), n) }
}

/// The sum of the weights of all cells in the rows `x < m`.
pub open spec fn rows_weight(n: int, m: int) -> int
    decreases m,
{
    if m <= 0 { 0 } else { rows_weight(n, m - 1) + row_weight(m - 1, n, n) }
}

/// The integer weights the score is computed from: the total weight of the
/// initially marked cells and the total weight of the whole grid.
pub struct ScoreWeight {
    pub ps_weight: i64,
    pub den: i64,
}

impl ScoreWeight {
    /// Sums the weights of the initially marked cells and of all cells of
    /// the grid, for inputs whose coordinates and sums fit in an `i64`.
    pub fn new(input: &Input) -> (sw: ScoreWeight)
        requires
            forall|i: int| 0 <= i < input.ps@.len() ==> #[trigger] input.ps@[i].0 <= i64::MAX && input.ps@[i].1 <= i64::MAX,
            points_weight(input.ps@, input.n as int, input.ps@.len() as int) <= i64::MAX,
            rows_weight(input.n as int, input.n as int) <= i64::MAX,
        ensures
            sw.ps_weight == points_weight(input.ps@, input.n as int, input.ps@.len() as int),
            sw.den == rows_weight(input.n as int, input.n as int),
    {
        let n = input.n;
        proof {
            lemma_grid_weight_covers_side(n as int);
        }
        let mut ps_weight: i64 = 0;
        let mut t: usize = 0;
        while t < input.ps.len()
            invariant
                n == input.n,
                n <= i64::MAX,
                t <= input.ps@.len(),
                forall|i: int| 0 <= i < input.ps@.len() ==> #[trigger] input.ps@[i].0 <= i64::MAX && input.ps@[i].1 <= i64::MAX,
                points_weight(input.ps@, n as int, input.ps@.len() as int) <= i64::MAX,
                ps_weight == points_weight(input.ps@, n as int, t as int),
            decreases input.ps@.len() - t,
        {
            let p = input.ps[t];
            assert(input.ps@[t as int].0 <= i64::MAX && input.ps@[t as int].1 <= i64::MAX);
            proof {
                lemma_points_weight_grows(input.ps@, n as int, t as int + 1, input.ps@.len() as int);
                lemma_points_weight_grows(input.ps@, n as int, 0, t as int);
            }
            ps_weight = ps_weight + weight(p, n);
            t = t + 1;
        }
        let mut den: i64 = 0;
        let mut i: usize = 0;
        while i < n
            invariant
                n <= i64::MAX,
                i <= n,
                rows_weight(n as int, n as int) <= i64::MAX,
                den == rows_weight(n as int, i as int),
            decreases n - i,
        {
            let mut j: usize = 0;
            proof {
                lemma_rows_weight_grows(n as int, i as int + 1, n as int);
            }
            while j < n
                invariant
                    n <= i64::MAX,
                    i < n,
                    j <= n,
                    rows_weight(n as int, i as int + 1) <= i64::MAX,
                    den == rows_weight(n as int, i as int) + row_weight(i as int, n as int, j as int),
                decreases n - j,
            {
                proof {
                    lemma_row_weight_grows(i as int, n as int, j as int + 1, n as int);
                    lemma_rows_weight_grows(n as int, 0, i as int);
                    lemma_row_weight_grows(i as int, n as int, 0, j as int);
                }
                den = den + weight((i, j), n);
                j = j + 1;
            }
            i = i + 1;
        }
        ScoreWeight { ps_weight, den }
    }
}

/// Adding cells of a row never lowers their total weight; each adds at
/// least 1.
pub proof fn lemma_row_weight_grows(x: int, n: int, m: int, k: int)
    requires
        0 <= m <= k,
    ensures
        row_weight(x, n, m) + (k - m) <= row_weight(x, n, k),
        row_weight(x, n, m) >= 0,
    decreases k,
{
    if k > m {
        lemma_weight_positive((x as usize, (k - 1) as usize), n);
        lemma_row_weight_grows(x, n, m, k - 1);
    } else if m > 0 {
        lemma_weight_positive((x as usize, (m - 1) as usize), n);
        lemma_row_weight_grows(x, n, m - 1, m - 1);
    }
}

/// Adding rows never lowers the total weight.
pub proof fn lemma_rows_weight_grows(n: int, m: int, k: int)
    requires
        0 <= m <= k,
        0 <= n,
    ensures
        0 <= rows_weight(n, m) <= rows_weight(n, k),
    decreases k,
{
    if k > m {
        lemma_row_weight_grows(k - 1, n, 0, n);
        lemma_rows_weight_grows(n, m, k - 1);
    } else if m > 0 {
        lemma_row_weight_grows(m - 1, n, 0, n);
        lemma_rows_weight_grows(n, m - 1, m - 1);
    }
}

/// The total weight of a grid is at least its side.
proof fn lemma_grid_weight_covers_side(n: int)
    requires
        0 <= n,
    ensures
        n <= rows_weight(n, n) || n == 0,
{
    if n > 0 {
        lemma_row_weight_grows(n - 1, n, 0, n);
        lemma_rows_weight_grows(n, 0, n - 1);
    }
}

/// The total weight of the marked cells after the moves `out`: the initial
/// cells' weight plus the weight of each move's cell `p0`, for coordinates
/// and sums that fit in an `i64`.
pub fn score_numerator(input: &Input, out: &Vec<Rect>, score_weight: &ScoreWeight) -> (num: i64)
    requires
        input.n <= i64::MAX,
        forall|t: int| 0 <= t < out@.len() ==> #[trigger] out@[t][0].0 <= i64::MAX && out@[t][0].1 <= i64::MAX,
        0 <= score_weight.ps_weight,
        score_weight.ps_weight + moves_weight(out@, input.n as int, out@.len() as int) <= i64::MAX,
    ensures
        num == score_weight.ps_weight + moves_weight(out@, input.n as int, out@.len() as int),
{
    let n = input.n;
    let mut num = score_weight.ps_weight;
    let mut t: usize = 0;
    while t < out.len()
        invariant
            n == input.n,
            n <= i64::MAX,
            t <= out@.len(),
            0 <= score_weight.ps_weight,
            forall|u: int| 0 <= u < out@.len() ==> #[trigger] out@[u][0].0 <= i64::MAX && out@[u][0].1 <= i64::MAX,
            score_weight.ps_weight + moves_weight(out@, n as int, out@.len() as int) <= i64::MAX,
            num == score_weight.ps_weight + moves_weight(out@, n as int, t as int),
        decreases out@.len() - t,
    {
        assert(out@[t as int][0].0 <= i64::MAX && out@[t as int][0].1 <= i64::MAX);
        proof {
            lemma_moves_weight_grows(out@, n as int, t as int + 1, out@.len() as int);
            lemma_moves_weight_grows(out@, n as int, 0, t as int);
        }
        num = num + weight(out[t][0], n);
        t = t + 1;
    }
    num
}

/// Adding moves never lowers the total weight.
pub proof fn lemma_moves_weight_grows(out: Seq<Rect>, n: int, m: int, k: int)
    requires
        0 <= m <= k <= out.len(),
    ensures
        0 <= moves_weight(out, n, m) <= moves_weight(out, n, k),
    decreases k,
{
    if m < k {
        lemma_weight_positive(out[k - 1][0], n);
        lemma_moves_weight_grows(out, n, m, k - 1);
    } else if m > 0 {
        lemma_weight_positive(out[m - 1][0], n);
        lemma_moves_weight_grows(out, n, m - 1, m - 1);
    }
}

/// Adding cells never lowers their total weight.
pub proof fn lemma_points_weight_grows(ps: Seq<Point>, n: int, m: int, k: int)
    requires
        0 <= m <= k <= ps.len(),
    ensures
        0 <= points_weight(ps, n, m) <= points_weight(ps, n, k),
    decreases k,
{
    if m < k {
        lemma_weight_positive(ps[k - 1], n);
        lemma_points_weight_grows(ps, n, m, k - 1);
    } else if m > 0 {
        lemma_weight_positive(ps[m - 1], n);
        lemma_points_weight_grows(ps, n, m - 1, m - 1);
    }
}

} // verus!
