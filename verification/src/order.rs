//! The order in which candidate moves are offered: smaller area first, and
//! for equal areas the cell `p0` of larger weight first.
use vstd::prelude::*;

verus! {

use crate::geometry::{Rect, MAX_N, area, area_spec, weight, weight_spec, lemma_area_fits, lemma_weight_bounds};
use crate::state::{Input, corners_in_grid};

/// `a` comes strictly before `b`: smaller area, or equal area and heavier
/// cell `p0`.
pub open spec fn key_before(a: Rect, b: Rect, n: int) -> bool {
    ||| area_spec(a) < area_spec(b)
    ||| area_spec(a) == area_spec(b) && weight_spec(a[0], n) > weight_spec(b[0], n)
}

/// No entry comes strictly before an earlier one.
pub open spec fn sorted_by_key(v: Seq<Rect>, n: int) -> bool {
    forall|i: int, j: int| 0 <= i < j < v.len() ==> !key_before(#[trigger] v[j], #[trigger] v[i], n)
}

/// `out` is an arrangement of the entries of `src` (position `t` of `out`
/// holds entry `origin[t]` of `src`, each entry used once) in which entries
/// with equal keys keep their order in `src`.
pub open spec fn keeps_ties_in_order(src: Seq<Rect>, out: Seq<Rect>, origin: Seq<int>, n: int) -> bool {
    &&& origin.len() == out.len()
    &&& forall|t: int| 0 <= t < out.len() ==> 0 <= #[trigger] origin[t] < src.len() && out[t] == src[origin[t]]
    &&& forall|a: int, b: int| 0 <= a < b < out.len() ==> #[trigger] origin[a] != #[trigger] origin[b]
    &&& forall|a: int, b: int|
        0 <= a < b < out.len() && !key_before(out[a], out[b], n) && !key_before(out[b], out[a], n)
            ==> #[trigger] origin[a] < #[trigger] origin[b]
}

/// Whether key `(area, weight)` comes strictly before key `(area2, weight2)`.
fn key_less(area1: i64, weight1: i64, area2: i64, weight2: i64) -> (r: bool)
    ensures
        r == (area1 < area2 || (area1 == area2 && weight1 > weight2)),
{
    area1 < area2 || (area1 == area2 && weight1 > weight2)
}

/// Sorts the candidate moves by key, keeping the order of moves with equal
/// keys: each move is inserted after every earlier move whose key does not
/// come after its own.
pub fn sort_insertable(input: &Input, insertable: &mut Vec<Rect>)
    requires
        input.n <= MAX_N,
        forall|t: int| 0 <= t < old(insertable)@.len() ==> corners_in_grid(#[trigger] old(insertable)@[t], input.n as int),
    ensures
        final(insertable)@.to_multiset() == old(insertable)@.to_multiset(),
        final(insertable)@.len() == old(insertable)@.len(),
        sorted_by_key(final(insertable)@, input.n as int),
        exists|origin: Seq<int>| keeps_ties_in_order(old(insertable)@, final(insertable)@, origin, input.n as int),
        forall|t: int| 0 <= t < final(insertable)@.len() ==> corners_in_grid(#[trigger] final(insertable)@[t], input.n as int),
{
    broadcast use vstd::seq_lib::group_to_multiset_ensures;
    let n = input.n;
    let ghost src = insertable@;
    let mut res: Vec<Rect> = Vec::new();
    let ghost mut origin: Seq<int> = Seq::empty();
    let mut i: usize = 0;
    while i < insertable.len()
        invariant
            n == input.n,
            n <= MAX_N,
            insertable@ == src,
            i <= src.len(),
            forall|t: int| 0 <= t < src.len() ==> corners_in_grid(#[trigger] src[t], n as int),
            res@.to_multiset() == src.take(i as int).to_multiset(),
            res@.len() == i,
            sorted_by_key(res@, n as int),
            keeps_ties_in_order(src, res@, origin, n as int),
            forall|t: int| 0 <= t < origin.len() ==> #[trigger] origin[t] < i,
            forall|t: int| 0 <= t < res@.len() ==> corners_in_grid(#[trigger] res@[t], n as int),
        decreases src.len() - i,
    {
        let x = insertable[i];
        assert(corners_in_grid(src[i as int], n as int));
        proof {
            lemma_area_fits(x, n as int);
            lemma_weight_bounds(x[0], n as int);
        }
        let ax = area(&x);
        let wx = weight(x[0], n);
        let mut pos = res.len();
        while pos > 0
            invariant
                n <= MAX_N,
                pos <= res@.len(),
                ax == area_spec(x),
                wx == weight_spec(x[0], n as int),
                forall|t: int| 0 <= t < res@.len() ==> corners_in_grid(#[trigger] res@[t], n as int),
                forall|t: int| pos <= t < res@.len() ==> key_before(x, #[trigger] res@[t], n as int),
            ensures
                pos <= res@.len(),
                forall|t: int| pos <= t < res@.len() ==> key_before(x, #[trigger] res@[t], n as int),
                pos == 0 || !key_before(x, res@[pos - 1], n as int),
            decreases pos,
        {
            let y = res[pos - 1];
            assert(corners_in_grid(res@[pos - 1], n as int));
            proof {
                lemma_area_fits(y, n as int);
                lemma_weight_bounds(y[0], n as int);
            }
            let ay = area(&y);
            let wy = weight(y[0], n);
            if !key_less(ax, wx, ay, wy) {
                break;
            }
            pos = pos - 1;
        }
        let ghost old_res = res@;
        let ghost old_origin = origin;
        res.insert(pos, x);
        proof {
            origin = old_origin.insert(pos as int, i as int);
            assert forall|t: int| 0 <= t < res@.len() implies 0 <= #[trigger] origin[t] < src.len() && res@[t] == src[origin[t]] by {
                if t < pos {
                    assert(res@[t] == old_res[t]);
                } else if t > pos {
                    assert(res@[t] == old_res[t - 1]);
                }
            }
            assert forall|a: int, b: int| 0 <= a < b < res@.len() implies #[trigger] origin[a] != #[trigger] origin[b] by {
                if a < pos && b > pos {
                    assert(origin[b] == old_origin[b - 1]);
                } else if b > pos && a > pos {
                    assert(origin[b] == old_origin[b - 1]);
                    assert(origin[a] == old_origin[a - 1]);
                } else if b == pos {
                    assert(old_origin[a] < i);
                } else if a == pos {
                    assert(old_origin[b - 1] < i);
                }
            }
            assert forall|a: int, b: int|
                0 <= a < b < res@.len() && !key_before(res@[a], res@[b], n as int) && !key_before(res@[b], res@[a], n as int)
                    implies #[trigger] origin[a] < #[trigger] origin[b] by {
                if a < pos && b > pos {
                    assert(res@[a] == old_res[a]);
                    assert(res@[b] == old_res[b - 1]);
                    assert(origin[b] == old_origin[b - 1]);
                } else if b > pos && a > pos {
                    assert(res@[a] == old_res[a - 1]);
                    assert(res@[b] == old_res[b - 1]);
                    assert(origin[b] == old_origin[b - 1]);
                    assert(origin[a] == old_origin[a - 1]);
                } else if b == pos {
                    assert(old_origin[a] < i);
                } else if a == pos {
                    assert(res@[b] == old_res[b - 1]);
                } else {
                    assert(res@[a] == old_res[a]);
                    assert(res@[b] == old_res[b]);
                }
            }
            assert forall|t: int| 0 <= t < origin.len() implies #[trigger] origin[t] < i + 1 by {
                if t < pos {
                } else if t > pos {
                    assert(origin[t] == old_origin[t - 1]);
                }
            }
            assert(src.take(i + 1) =~= src.take(i as int).push(x));
            vstd::seq_lib::to_multiset_insert(old_res, pos as int, x);
            vstd::seq_lib::to_multiset_build(src.take(i as int), x);
            assert forall|a: int, b: int| 0 <= a < b < res@.len() implies !key_before(
                #[trigger] res@[b],
                #[trigger] res@[a],
                n as int,
            ) by {
                if a < pos && b > pos {
                    assert(res@[a] == old_res[a]);
                    assert(res@[b] == old_res[b - 1]);
                } else if a < pos && b == pos {
                    assert(res@[a] == old_res[a]);
                    if pos > 0 {
                        assert(!key_before(old_res[pos - 1], old_res[a], n as int) || a == pos - 1);
                    }
                } else if a == pos {
                    assert(res@[b] == old_res[b - 1]);
                } else if b < pos {
                    assert(res@[a] == old_res[a]);
                    assert(res@[b] == old_res[b]);
                } else {
                    assert(res@[a] == old_res[a - 1]);
                    assert(res@[b] == old_res[b - 1]);
                }
            }
            assert forall|t: int| 0 <= t < res@.len() implies corners_in_grid(#[trigger] res@[t], n as int) by {
                if t < pos {
                    assert(res@[t] == old_res[t]);
                } else if t > pos {
                    assert(res@[t] == old_res[t - 1]);
                }
            }
        }
        i = i + 1;
    }
    proof {
        assert(src.take(src.len() as int) =~= src);
    }
    *insertable = res;
}

/// A sorted list offers smaller areas first and, among equal areas, heavier
/// cells `p0` first: for any two positions, the earlier entry's area is at
/// most the later one's, and if the areas are equal its `p0` weighs at least
/// as much.
pub proof fn lemma_sorted_means_area_then_weight(v: Seq<Rect>, n: int, i: int, j: int)
    requires
        sorted_by_key(v, n),
        0 <= i < j < v.len(),
    ensures
        area_spec(v[i]) <= area_spec(v[j]),
        area_spec(v[i]) == area_spec(v[j]) ==> weight_spec(v[i][0], n) >= weight_spec(v[j][0], n),
{
    assert(!key_before(v[j], v[i], n));
}

} // verus!
