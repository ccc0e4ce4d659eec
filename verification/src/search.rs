//! One step of the greedy fill shared by the first search and the local
//! search: draw the chosen candidate, then bring the candidate list up to
//! date and back into order.
use vstd::prelude::*;
use std::collections::VecDeque;

verus! {

use crate::geometry::{Point, Rect};
use crate::state::{Input, State, corners_in_grid, valid_move, well_shaped, moved};
use crate::candidates::{
    construct_insertable, update_insertable, updated, all_allowed, lists_every_move, fresh_listing,
    lemma_update_lists_every_move, lemma_update_keeps_unique, update_entry,
};
use crate::rects::{mirror, unique_moves, lemma_well_shaped_move};
use crate::state::lemma_well_shaped_edges;
use crate::order::{sort_insertable, sorted_by_key, keeps_ties_in_order};
use crate::replay::{replay, legal_board, initial_board, lemma_replay_step, lemma_replay_empty};

/// The candidate moves of `state` in offering order: the listing from
/// scratch, sorted by key, moves with equal keys in listing order.
pub fn prepare_insertable(input: &Input, state: &State, tabu_list: &VecDeque<Point>) -> (insertable: Vec<Rect>)
    requires
        state.wf(),
        state.n() == input.n,
    ensures
        exists|listed: Seq<Rect>, origin: Seq<int>| {
            &&& fresh_listing(listed, *state, tabu_list@)
            &&& insertable@.to_multiset() == listed.to_multiset()
            &&& keeps_ties_in_order(listed, insertable@, origin, input.n as int)
        },
        sorted_by_key(insertable@, input.n as int),
        all_allowed(insertable@, *state, tabu_list@),
        lists_every_move(insertable@, *state, tabu_list@),
        unique_moves(insertable@),
{
    let mut insertable = construct_insertable(input, state, tabu_list);
    let ghost listed = insertable@;
    sort_insertable(input, &mut insertable);
    proof {
        assert forall|a: int, b: int| 0 <= a < listed.len() && 0 <= b < listed.len() implies #[trigger] listed[a]
            != mirror(#[trigger] listed[b]) by {
            lemma_well_shaped_move(*state, listed[b]);
            lemma_well_shaped_edges(listed[b]);
        }
        lemma_same_entries(listed, insertable@);
        lemma_unique_permutation(listed, insertable@);
    }
    insertable
}

/// Two lists with the same multiset of entries contain the same moves.
pub proof fn lemma_same_entries(a: Seq<Rect>, b: Seq<Rect>)
    requires
        a.to_multiset() == b.to_multiset(),
    ensures
        forall|r: Rect| #[trigger] a.contains(r) <==> b.contains(r),
        forall|t: int| 0 <= t < b.len() ==> a.contains(#[trigger] b[t]),
{
    assert forall|r: Rect| #[trigger] a.contains(r) <==> b.contains(r) by {
        vstd::seq_lib::to_multiset_contains(a, r);
        vstd::seq_lib::to_multiset_contains(b, r);
    }
    assert forall|t: int| 0 <= t < b.len() implies a.contains(#[trigger] b[t]) by {
        assert(b.contains(b[t]));
    }
}

/// Reordering a list keeps its moves unique.
pub proof fn lemma_unique_permutation(a: Seq<Rect>, b: Seq<Rect>)
    requires
        unique_moves(a),
        a.to_multiset() == b.to_multiset(),
    ensures
        unique_moves(b),
{
    lemma_same_entries(a, b);
    a.lemma_multiset_has_no_duplicates();
    b.lemma_multiset_has_no_duplicates_conv();
    assert forall|x: int, y: int| 0 <= x < b.len() && 0 <= y < b.len() implies #[trigger] b[x] != mirror(#[trigger] b[y]) by {
        assert(a.contains(b[x]) && a.contains(b[y]));
        let i = choose|i: int| 0 <= i < a.len() && a[i] == b[x];
        let j = choose|j: int| 0 <= j < a.len() && a[j] == b[y];
        assert(a[i] != mirror(a[j]));
    }
}

/// Draws the candidate `insertable[choice]`, records it in `out`, and
/// brings the candidate list up to date with the new board, sorted by key.
pub fn fill_step(
    input: &Input,
    state: &mut State,
    insertable: &mut Vec<Rect>,
    out: &mut Vec<Rect>,
    choice: usize,
    tabu_list: &VecDeque<Point>,
)
    requires
        old(state).wf(),
        old(state).n() == input.n,
        choice < old(insertable)@.len(),
        forall|t: int| 0 <= t < old(insertable)@.len() ==> corners_in_grid(#[trigger] old(insertable)@[t], input.n as int),
        well_shaped(old(insertable)@[choice as int]),
    ensures
        moved(*old(state), old(insertable)@[choice as int], *final(state)),
        final(out)@ == old(out)@.push(old(insertable)@[choice as int]),
        exists|mid: Seq<Rect>, origin: Seq<int>| {
            &&& updated(*final(state), tabu_list@, old(insertable)@[choice as int][0], old(insertable)@, mid)
            &&& final(insertable)@.to_multiset() == mid.to_multiset()
            &&& keeps_ties_in_order(mid, final(insertable)@, origin, input.n as int)
        },
        sorted_by_key(final(insertable)@, input.n as int),
        forall|t: int| 0 <= t < final(insertable)@.len() ==> corners_in_grid(#[trigger] final(insertable)@[t], input.n as int),
        valid_move(*old(state), old(insertable)@[choice as int]) ==> replay(
            *old(state),
            seq![old(insertable)@[choice as int]],
            *final(state),
            seq![old(insertable)@[choice as int]],
        ),
        valid_move(*old(state), old(insertable)@[choice as int]) && legal_board(*input, old(out)@, *old(state))
            ==> legal_board(*input, final(out)@, *final(state)),
        all_allowed(old(insertable)@, *old(state), tabu_list@) ==> all_allowed(
            final(insertable)@,
            *final(state),
            tabu_list@,
        ),
{
    let rect = insertable[choice];
    state.apply_move(&rect);
    out.push(rect);
    proof {
        if valid_move(*old(state), rect) {
            lemma_replay_empty(*old(state));
            lemma_replay_step(*old(state), Seq::empty(), *old(state), Seq::empty(), rect, *state, seq![rect]);
            assert(Seq::<Rect>::empty().push(rect) =~= seq![rect]);
            if legal_board(*input, old(out)@, *old(state)) {
                let s0 = choose|s0: State| initial_board(*input, s0) && #[trigger] replay(
                    s0,
                    old(out)@,
                    *old(state),
                    old(out)@,
                );
                assert(replay(s0, old(out)@, *old(state), old(out)@));
                lemma_replay_step(s0, old(out)@, *old(state), old(out)@, rect, *state, out@);
                assert(replay(s0, out@, *state, out@));
            }
        }
    }
    update_insertable(input, state, rect[0], insertable, tabu_list);
    let ghost mid = insertable@;
    proof {
        assert forall|t: int| 0 <= t < mid.len() implies corners_in_grid(#[trigger] mid[t], input.n as int) by {
            assert(update_entry(*state, tabu_list@, rect[0], old(insertable)@, mid[t]));
        }
    }
    sort_insertable(input, insertable);
    proof {
        if all_allowed(old(insertable)@, *old(state), tabu_list@) {
            lemma_same_entries(mid, insertable@);
            assert forall|t: int| 0 <= t < insertable@.len() implies {
                &&& corners_in_grid(#[trigger] insertable@[t], state.n())
                &&& valid_move(*state, insertable@[t])
                &&& !tabu_list@.contains(insertable@[t][0])
            } by {
                assert(mid.contains(insertable@[t]));
                let u = choose|u: int| 0 <= u < mid.len() && mid[u] == insertable@[t];
                assert(update_entry(*state, tabu_list@, rect[0], old(insertable)@, mid[u]));
                if old(insertable)@.contains(mid[u]) {
                    let v = choose|v: int| 0 <= v < old(insertable)@.len() && old(insertable)@[v] == mid[u];
                    assert(!tabu_list@.contains(old(insertable)@[v][0]));
                }
            }
        }
    }
}

/// The candidate list stays exact across a fill step: if it listed exactly
/// the moves allowed before the step, it lists exactly the moves allowed
/// after it.
pub proof fn lemma_fill_step_lists_every_move(
    s0: State,
    s1: State,
    tabu: Seq<Point>,
    before: Seq<Rect>,
    choice: int,
    mid: Seq<Rect>,
    after: Seq<Rect>,
)
    requires
        s0.wf(),
        0 <= choice < before.len(),
        all_allowed(before, s0, tabu),
        lists_every_move(before, s0, tabu),
        moved(s0, before[choice], s1),
        updated(s1, tabu, before[choice][0], before, mid),
        after.to_multiset() == mid.to_multiset(),
    ensures
        all_allowed(after, s1, tabu),
        lists_every_move(after, s1, tabu),
{
    lemma_update_lists_every_move(s0, before[choice], s1, tabu, before, mid);
    lemma_same_entries(mid, after);
    assert forall|t: int| 0 <= t < after.len() implies {
        &&& corners_in_grid(#[trigger] after[t], s1.n())
        &&& valid_move(s1, after[t])
        &&& !tabu.contains(after[t][0])
    } by {
        assert(mid.contains(after[t]));
        let u = choose|u: int| 0 <= u < mid.len() && mid[u] == after[t];
        assert(corners_in_grid(mid[u], s1.n()));
    }
}

/// An exact candidate list that is empty means that every allowed move
/// marks a tabu cell; with no tabu cell, no move is left: the fill stops
/// exactly when the board admits no further rectangle.
pub proof fn lemma_empty_list_no_moves(s: State, tabu: Seq<Point>, v: Seq<Rect>, r: Rect)
    requires
        lists_every_move(v, s, tabu),
        v.len() == 0,
        valid_move(s, r),
        corners_in_grid(r, s.n()),
    ensures
        tabu.contains(r[0]),
{
}

/// A fill step keeps every candidate listed once: if the list held allowed
/// moves, each once in one orientation, it still does after the step.
pub proof fn lemma_fill_step_keeps_unique(
    s0: State,
    s1: State,
    tabu: Seq<Point>,
    before: Seq<Rect>,
    choice: int,
    mid: Seq<Rect>,
    after: Seq<Rect>,
)
    requires
        0 <= choice < before.len(),
        forall|t: int| 0 <= t < before.len() ==> valid_move(s0, #[trigger] before[t]),
        unique_moves(before),
        moved(s0, before[choice], s1),
        updated(s1, tabu, before[choice][0], before, mid),
        after.to_multiset() == mid.to_multiset(),
    ensures
        unique_moves(after),
{
    lemma_update_keeps_unique(s0, before[choice], s1, tabu, before, mid);
    lemma_unique_permutation(mid, after);
}

/// Every move a fill step draws is allowed when it is drawn: a solution
/// built by fill steps from the board of the input replays in full, so it is
/// legal.
pub proof fn lemma_fill_step_stays_legal(
    s0: State,
    offered: Seq<Rect>,
    s: State,
    tabu: Seq<Point>,
    before: Seq<Rect>,
    choice: int,
    s1: State,
)
    requires
        replay(s0, offered, s, offered),
        all_allowed(before, s, tabu),
        0 <= choice < before.len(),
        moved(s, before[choice], s1),
    ensures
        replay(s0, offered.push(before[choice]), s1, offered.push(before[choice])),
{
    lemma_replay_step(s0, offered, s, offered, before[choice], s1, offered.push(before[choice]));
}

} // verus!
