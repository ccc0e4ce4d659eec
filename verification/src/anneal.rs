//! The bookkeeping of the local search: the neighbour of a solution (one
//! move taken out, the rest replayed), the short tabu list of cells whose
//! move was just taken out, and the current and best solutions.
use vstd::prelude::*;
use std::collections::VecDeque;
use rand::Rng;
use rand_chacha::ChaCha20Rng;

verus! {

use crate::geometry::{Point, Rect};
use crate::state::{Input, State, corners_in_grid, valid_move, moved};
use crate::replay::{
    initial_board, replay, legal, legal_board, lemma_replay_empty, lemma_replay_step, lemma_replay_kept,
    lemma_legal_board, lemma_replay_append,
};
use crate::rects::lemma_well_shaped_move;

/// How many cells the tabu list keeps.
pub const TABU_TENURE: usize = 4;

/// Iterations without improvement, summed over the grid side, after which
/// the search returns to the best solution.
pub const BACK_TO_BEST: usize = 16000;

#[verifier::external_type_specification]
#[verifier::external_body]
pub struct ExChaCha20Rng(ChaCha20Rng);

/// `rand::Rng::gen_range(rng, 0, len)`: a value drawn from `0..len`. Only
/// the range is stated; which value comes out depends on the generator's
/// state.
#[verifier::external_body]
fn random_index(rng: &mut ChaCha20Rng, len: usize) -> (r: usize)
    requires
        len > 0,
    ensures
        r < len,
{
    rng.gen_range(0, len)
}

/// The tabu list after trimming it to `TABU_TENURE` cells: the oldest cell
/// leaves when there is one too many.
pub open spec fn trimmed(t: Seq<Point>) -> Seq<Point> {
    if t.len() > TABU_TENURE { t.drop_first() } else { t }
}

/// Settling keeps no solution it was not given: the current solution
/// `cur1` afterwards is the previous current one `cur0`, the neighbour
/// `new` or the best one `best1`; the best solution `best1` is the previous
/// best `best0`, the previous current one or the neighbour.
pub open spec fn kept_solutions(
    cur0: Seq<Rect>,
    best0: Seq<Rect>,
    new: Seq<Rect>,
    cur1: Seq<Rect>,
    best1: Seq<Rect>,
) -> bool {
    &&& cur1 == cur0 || cur1 == new || cur1 == best1
    &&& best1 == best0 || best1 == cur0 || best1 == new
}

/// The local search's state between iterations.
pub struct Annealer {
    pub now_score: i64,
    pub best_score: i64,
    pub best_output: Vec<Rect>,
    pub no_improved: usize,
    pub back_to_best: usize,
    pub tabu_list: VecDeque<Point>,
}

/// A copy of a list of moves.
fn copy_moves(v: &Vec<Rect>) -> (c: Vec<Rect>)
    ensures
        c@ == v@,
{
    let mut c: Vec<Rect> = Vec::new();
    let mut i: usize = 0;
    while i < v.len()
        invariant
            i <= v@.len(),
            c@ == v@.take(i as int),
        decreases v@.len() - i,
    {
        c.push(v[i]);
        proof {
            assert(v@.take(i + 1) =~= v@.take(i as int).push(v@[i as int]));
        }
        i = i + 1;
    }
    proof {
        assert(v@.take(v@.len() as int) =~= v@);
    }
    c
}

impl Annealer {
    /// The counter of iterations without improvement and the tabu list stay
    /// within their limits, and the best score is at least the current one.
    pub open spec fn wf(&self) -> bool {
        &&& self.no_improved <= self.back_to_best
        &&& self.back_to_best <= BACK_TO_BEST
        &&& self.tabu_list@.len() <= TABU_TENURE
        &&& self.best_score >= self.now_score
    }

    /// Starts from the solution `out` of score `now_score`, which is also the
    /// best so far, with an empty tabu list.
    pub fn new(input: &Input, out: &Vec<Rect>, now_score: i64) -> (a: Annealer)
        requires
            input.n > 0,
        ensures
            a.wf(),
            a.now_score == now_score,
            a.best_score == now_score,
            a.best_output@ == out@,
            a.no_improved == 0,
            a.back_to_best == BACK_TO_BEST / input.n,
            a.tabu_list@.len() == 0,
    {
        Annealer {
            now_score,
            best_score: now_score,
            best_output: copy_moves(out),
            no_improved: 0,
            back_to_best: BACK_TO_BEST / input.n,
            tabu_list: VecDeque::new(),
        }
    }

    /// The neighbour of `out` with the move at `pos` taken out: the board of
    /// the input, on which the other moves of `out` are replayed in order,
    /// each drawn when it is still allowed; the cell `p0` of the removed move
    /// joins the tabu list, which is then trimmed.
    pub fn remove_and_replay(&mut self, input: &Input, out: &Vec<Rect>, pos: usize) -> (res: (State, Vec<Rect>))
        requires
            old(self).wf(),
            input.wf(),
            pos < out@.len(),
            forall|t: int| 0 <= t < out@.len() ==> corners_in_grid(#[trigger] out@[t], input.n as int),
        ensures
            final(self).wf(),
            final(self).tabu_list@ == trimmed(old(self).tabu_list@.push(out@[pos as int][0])),
            exists|s0: State| initial_board(*input, s0) && replay(s0, out@.remove(pos as int), res.0, res.1@),
            legal_board(*input, res.1@, res.0),
            legal(*input, res.1@),
            res.0.wf(),
            res.0.n() == input.n,
            final(self).now_score == old(self).now_score,
            final(self).best_score == old(self).best_score,
            final(self).best_output == old(self).best_output,
            final(self).no_improved == old(self).no_improved,
            final(self).back_to_best == old(self).back_to_best,
    {
        let mut new_state = State::new(input);
        let ghost s0 = new_state;
        let mut new_out: Vec<Rect> = Vec::new();
        let ghost mut offered: Seq<Rect> = Seq::empty();
        proof {
            lemma_replay_empty(s0);
            assert(out@.take(0) =~= offered);
        }
        let mut i: usize = 0;
        while i < out.len()
            invariant
                input.wf(),
                pos < out@.len(),
                i <= out@.len(),
                forall|t: int| 0 <= t < out@.len() ==> corners_in_grid(#[trigger] out@[t], input.n as int),
                initial_board(*input, s0),
                new_state.wf(),
                new_state.n() == input.n,
                offered == (if i <= pos { out@.take(i as int) } else { out@.take(i as int).remove(pos as int) }),
                replay(s0, offered, new_state, new_out@),
                self.tabu_list@ == (if i <= pos { old(self).tabu_list@ } else { old(self).tabu_list@.push(out@[pos as int][0]) }),
                self.now_score == old(self).now_score,
                self.best_score == old(self).best_score,
                self.best_output == old(self).best_output,
                self.no_improved == old(self).no_improved,
                self.back_to_best == old(self).back_to_best,
            decreases out@.len() - i,
        {
            let rect = out[i];
            assert(corners_in_grid(out@[i as int], input.n as int));
            if i == pos {
                self.tabu_list.push_back(rect[0]);
                proof {
                    assert(out@.take(i + 1).remove(pos as int) =~= out@.take(i as int));
                }
            } else {
                let ghost prev_state = new_state;
                let ghost prev_kept = new_out@;
                let ghost prev_offered = offered;
                if new_state.check_move(&rect) {
                    proof {
                        lemma_well_shaped_move(new_state, rect);
                    }
                    new_state.apply_move(&rect);
                    new_out.push(rect);
                }
                proof {
                    offered = prev_offered.push(rect);
                    assert(offered.drop_last() =~= prev_offered);
                    assert(replay(s0, offered.drop_last(), prev_state, prev_kept));
                    assert(offered.last() == rect);
                    if valid_move(prev_state, rect) {
                        assert(new_out@ == prev_kept.push(rect));
                        assert(moved(prev_state, rect, new_state));
                    } else {
                        assert(new_state == prev_state);
                        assert(new_out@ == prev_kept);
                    }
                    lemma_replay_step(s0, prev_offered, prev_state, prev_kept, rect, new_state, new_out@);
                    if i < pos {
                        assert(out@.take(i + 1) =~= out@.take(i as int).push(rect));
                    } else {
                        assert(out@.take(i + 1).remove(pos as int) =~= out@.take(i as int).remove(pos as int).push(rect));
                    }
                }
            }
            i = i + 1;
        }
        proof {
            assert(out@.take(out@.len() as int) =~= out@);
            lemma_replay_kept(s0, offered, new_state, new_out@);
            assert(replay(s0, new_out@, new_state, new_out@));
            lemma_legal_board(*input, new_out@, new_state);
        }
        if self.tabu_list.len() > TABU_TENURE {
            self.tabu_list.pop_front();
            proof {
                assert(self.tabu_list@ =~= trimmed(old(self).tabu_list@.push(out@[pos as int][0])));
            }
        }
        (new_state, new_out)
    }

    /// The neighbour of `out`: when `out` holds a move, one drawn at random
    /// is taken out as by `remove_and_replay`; otherwise the board of the
    /// input, with no move, and the tabu list only trimmed.
    pub fn neighbour(&mut self, input: &Input, out: &Vec<Rect>, rng: &mut ChaCha20Rng) -> (res: (State, Vec<Rect>))
        requires
            old(self).wf(),
            input.wf(),
            forall|t: int| 0 <= t < out@.len() ==> corners_in_grid(#[trigger] out@[t], input.n as int),
        ensures
            final(self).wf(),
            res.0.wf(),
            res.0.n() == input.n,
            legal_board(*input, res.1@, res.0),
            legal(*input, res.1@),
            out@.len() == 0 ==> initial_board(*input, res.0) && res.1@.len() == 0
                && final(self).tabu_list@ == trimmed(old(self).tabu_list@),
            out@.len() > 0 ==> exists|pos: int|
                0 <= pos < out@.len() && final(self).tabu_list@ == trimmed(old(self).tabu_list@.push(out@[pos][0]))
                    && exists|s0: State| initial_board(*input, s0) && replay(s0, out@.remove(pos), res.0, res.1@),
            final(self).now_score == old(self).now_score,
            final(self).best_score == old(self).best_score,
            final(self).best_output == old(self).best_output,
            final(self).no_improved == old(self).no_improved,
            final(self).back_to_best == old(self).back_to_best,
    {
        if out.len() > 0 {
            let pos = random_index(rng, out.len());
            self.remove_and_replay(input, out, pos)
        } else {
            let new_state = State::new(input);
            if self.tabu_list.len() > TABU_TENURE {
                self.tabu_list.pop_front();
            }
            let none: Vec<Rect> = Vec::new();
            proof {
                lemma_replay_empty(new_state);
                assert(none@ =~= Seq::<Rect>::empty());
                assert(replay(new_state, none@, new_state, none@));
                lemma_legal_board(*input, none@, new_state);
            }
            (new_state, none)
        }
    }

    /// Whether `new_score` improves on the current score.
    pub fn improves(&self, new_score: i64) -> (r: bool)
        ensures
            r == (self.now_score < new_score),
    {
        self.now_score < new_score
    }

    /// Settles one iteration: an accepted neighbour `new_out` of score
    /// `new_score` becomes the current solution `out`; a current score above
    /// the best becomes the best; and after more than `back_to_best`
    /// iterations without improvement the search returns to the best
    /// solution.
    pub fn settle(&mut self, out: &mut Vec<Rect>, new_out: Vec<Rect>, new_score: i64, accept: bool)
        requires
            old(self).wf(),
        ensures
            final(self).wf(),
            ({
                let now1 = if accept { new_score } else { old(self).now_score };
                let out1 = if accept { new_out@ } else { old(out)@ };
                let improved = old(self).best_score < now1;
                let best1 = if improved { now1 } else { old(self).best_score };
                let best_out1 = if improved { out1 } else { old(self).best_output@ };
                let idle1 = if improved { 0 } else { old(self).no_improved + 1 };
                &&& final(self).best_score == best1
                &&& final(self).best_output@ == best_out1
                &&& if old(self).back_to_best < idle1 {
                    &&& final(self).now_score == best1
                    &&& final(out)@ == best_out1
                    &&& final(self).no_improved == 0
                } else {
                    &&& final(self).now_score == now1
                    &&& final(out)@ == out1
                    &&& final(self).no_improved == idle1
                }
            }),
            final(self).best_score >= final(self).now_score,
            final(self).best_score >= old(self).best_score,
            final(self).best_output@ == old(self).best_output@ || (accept && final(self).best_output@ == new_out@),
            kept_solutions(old(out)@, old(self).best_output@, new_out@, final(out)@, final(self).best_output@),
            final(self).back_to_best == old(self).back_to_best,
            final(self).tabu_list == old(self).tabu_list,
    {
        if accept {
            self.now_score = new_score;
            *out = new_out;
        }
        if self.best_score < self.now_score {
            self.no_improved = 0;
            self.best_score = self.now_score;
            self.best_output = copy_moves(out);
        } else {
            self.no_improved = self.no_improved + 1;
        }
        if self.back_to_best < self.no_improved {
            self.now_score = self.best_score;
            *out = copy_moves(&self.best_output);
            self.no_improved = 0;
        }
    }

    /// Ends the search: `out` becomes the best solution and its score is
    /// returned.
    pub fn finish(self, out: &mut Vec<Rect>) -> (best: i64)
        ensures
            final(out)@ == self.best_output@,
            best == self.best_score,
    {
        *out = self.best_output;
        self.best_score
    }
}

/// The best solution stays legal: the annealer starts from a legal
/// solution, and settling only ever makes an accepted neighbour the best,
/// and neighbours are legal.
pub proof fn lemma_best_stays_legal(input: Input, best0: Seq<Rect>, new_out: Seq<Rect>, accept: bool, best1: Seq<Rect>)
    requires
        legal(input, best0),
        accept ==> legal(input, new_out),
        best1 == best0 || (accept && best1 == new_out),
    ensures
        legal(input, best1),
{
}

/// One iteration of the local search keeps every solution it holds legal.
/// The current solution `cur0` and the best one `best0` are legal; the
/// neighbour's replayed moves `kept` lead legally to board `s1`; the moves
/// `refill` drawn after them are each allowed at their turn from `s1`, up to
/// board `s2`; settling keeps only solutions it was given. Then the
/// neighbour `kept + refill` is legal with board `s2`, and the current and
/// best solutions after settling are legal.
pub proof fn lemma_iteration_keeps_solutions_legal(
    input: Input,
    cur0: Seq<Rect>,
    best0: Seq<Rect>,
    kept: Seq<Rect>,
    s1: State,
    refill: Seq<Rect>,
    s2: State,
    cur1: Seq<Rect>,
    best1: Seq<Rect>,
)
    requires
        legal(input, cur0),
        legal(input, best0),
        legal_board(input, kept, s1),
        replay(s1, refill, s2, refill),
        kept_solutions(cur0, best0, kept + refill, cur1, best1),
    ensures
        legal_board(input, kept + refill, s2),
        legal(input, cur1),
        legal(input, best1),
{
    let s0 = choose|s0: State| initial_board(input, s0) && #[trigger] replay(s0, kept, s1, kept);
    assert(replay(s0, kept, s1, kept));
    lemma_replay_append(s0, kept, s1, refill, s2);
    assert(replay(s0, kept + refill, s2, kept + refill));
    lemma_legal_board(input, kept + refill, s2);
}

} // verus!
