//! Solutions as sequences of moves: replaying moves in order from the
//! board of the input, and legal solutions, whose every move is allowed at
//! its turn.
use vstd::prelude::*;

verus! {

use crate::geometry::Rect;
use crate::state::{Input, State, in_grid, valid_move, moved};

/// `s` is the board before any move: the input's cells marked, no segment
/// covered.
pub open spec fn initial_board(input: Input, s: State) -> bool {
    &&& s.wf()
    &&& s.n() == input.n
    &&& forall|x: int, y: int|
        in_grid((x, y), s.n()) ==> (s.marked((x, y)) <==> exists|i: int|
            0 <= i < input.ps@.len() && #[trigger] input.ps@[i] == (x as usize, y as usize))
    &&& forall|x: int, y: int, d: int| in_grid((x, y), s.n()) && 0 <= d < 8 ==> !s.used_at((x, y), d)
}

/// The moves drawn when the moves `offered` are offered in turn on the
/// boards `boards` (board `t` being the one met by move `t`): the first `m`
/// offered moves that were allowed on their board.
pub open spec fn kept_moves(offered: Seq<Rect>, boards: Seq<State>, m: int) -> Seq<Rect>
    decreases m,
{
    if m <= 0 {
        Seq::empty()
    } else if valid_move(boards[m - 1], offered[m - 1]) {
        kept_moves(offered, boards, m - 1).push(offered[m - 1])
    } else {
        kept_moves(offered, boards, m - 1)
    }
}

/// `boards` is the sequence of boards met when the moves `offered` are
/// offered in turn starting from `s0`: each allowed move is drawn, each
/// other one passed over.
pub open spec fn replay_trace(s0: State, offered: Seq<Rect>, boards: Seq<State>) -> bool {
    &&& boards.len() == offered.len() + 1
    &&& boards[0] == s0
    &&& forall|t: int|
        0 <= t < offered.len() ==> if valid_move(#[trigger] boards[t], offered[t]) {
            moved(boards[t], offered[t], boards[t + 1])
        } else {
            boards[t + 1] == boards[t]
        }
}

/// Offering the moves `offered` in order from board `s0`, drawing each that
/// is allowed at its turn and passing over the others, leads to board `s`
/// and draws the moves `kept`.
pub open spec fn replay(s0: State, offered: Seq<Rect>, s: State, kept: Seq<Rect>) -> bool {
    exists|boards: Seq<State>|
        #[trigger] replay_trace(s0, offered, boards) && boards.last() == s && kept == kept_moves(
            offered,
            boards,
            offered.len() as int,
        )
}

/// Offering nothing draws nothing.
pub proof fn lemma_replay_empty(s0: State)
    ensures
        replay(s0, Seq::empty(), s0, Seq::empty()),
{
    let boards = seq![s0];
    assert(replay_trace(s0, Seq::empty(), boards));
}

/// One more offered move extends a replay.
pub proof fn lemma_replay_step(s0: State, offered: Seq<Rect>, mid: State, kept0: Seq<Rect>, r: Rect, s: State, kept: Seq<Rect>)
    requires
        replay(s0, offered, mid, kept0),
        if valid_move(mid, r) {
            moved(mid, r, s) && kept == kept0.push(r)
        } else {
            s == mid && kept == kept0
        },
    ensures
        replay(s0, offered.push(r), s, kept),
{
    let boards = choose|boards: Seq<State>|
        #[trigger] replay_trace(s0, offered, boards) && boards.last() == mid && kept0 == kept_moves(
            offered,
            boards,
            offered.len() as int,
        );
    let o2 = offered.push(r);
    let b2 = boards.push(s);
    assert forall|t: int| 0 <= t < o2.len() implies if valid_move(#[trigger] b2[t], o2[t]) {
        moved(b2[t], o2[t], b2[t + 1])
    } else {
        b2[t + 1] == b2[t]
    } by {
        if t < offered.len() {
            assert(b2[t] == boards[t]);
            assert(b2[t + 1] == boards[t + 1]);
            assert(o2[t] == offered[t]);
        } else {
            assert(b2[t] == mid);
            assert(o2[t] == r);
        }
    }
    assert(replay_trace(s0, o2, b2));
    assert forall|m: int| 0 <= m <= offered.len() implies kept_moves(o2, b2, m) == kept_moves(offered, boards, m) by {
        lemma_kept_moves_prefix(offered, boards, o2, b2, m);
    }
    assert(kept_moves(o2, b2, o2.len() as int) == kept);
}

/// The moves drawn from a prefix depend only on that prefix.
proof fn lemma_kept_moves_prefix(offered: Seq<Rect>, boards: Seq<State>, o2: Seq<Rect>, b2: Seq<State>, m: int)
    requires
        0 <= m <= offered.len(),
        offered.len() <= o2.len(),
        boards.len() <= b2.len(),
        offered.len() < boards.len(),
        forall|t: int| 0 <= t < offered.len() ==> o2[t] == offered[t] && b2[t] == boards[t],
    ensures
        kept_moves(o2, b2, m) == kept_moves(offered, boards, m),
    decreases m,
{
    if m > 0 {
        lemma_kept_moves_prefix(offered, boards, o2, b2, m - 1);
    }
}

/// Taking the last offered move off a replay: the replay of the earlier
/// moves, and what the last move did to its board.
pub proof fn lemma_replay_last(s0: State, offered: Seq<Rect>, s: State, kept: Seq<Rect>)
    requires
        replay(s0, offered, s, kept),
        offered.len() > 0,
    ensures
        exists|mid: State, kept0: Seq<Rect>|
            #[trigger] replay(s0, offered.drop_last(), mid, kept0) && if valid_move(mid, offered.last()) {
                moved(mid, offered.last(), s) && kept == kept0.push(offered.last())
            } else {
                s == mid && kept == kept0
            },
{
    let boards = choose|boards: Seq<State>|
        #[trigger] replay_trace(s0, offered, boards) && boards.last() == s && kept == kept_moves(
            offered,
            boards,
            offered.len() as int,
        );
    let m = offered.len() - 1;
    let o1 = offered.drop_last();
    let b1 = boards.drop_last();
    assert(replay_trace(s0, o1, b1)) by {
        assert forall|t: int| 0 <= t < o1.len() implies if valid_move(#[trigger] b1[t], o1[t]) {
            moved(b1[t], o1[t], b1[t + 1])
        } else {
            b1[t + 1] == b1[t]
        } by {
            assert(valid_move(boards[t], offered[t]) ==> moved(boards[t], offered[t], boards[t + 1]));
        }
    }
    lemma_kept_moves_prefix(o1, b1, offered, boards, m);
    let mid = b1.last();
    let kept0 = kept_moves(o1, b1, m);
    assert(replay(s0, o1, mid, kept0));
    assert(mid == boards[m]);
    assert(valid_move(boards[m], offered[m]) ==> moved(boards[m], offered[m], boards[m + 1]));
}

/// The moves a replay draws, offered alone, are all drawn and lead to the
/// same board: passing over a move leaves the board unchanged.
pub proof fn lemma_replay_kept(s0: State, offered: Seq<Rect>, s: State, kept: Seq<Rect>)
    requires
        replay(s0, offered, s, kept),
    ensures
        replay(s0, kept, s, kept),
    decreases offered.len(),
{
    if offered.len() == 0 {
        let boards = choose|boards: Seq<State>|
            #[trigger] replay_trace(s0, offered, boards) && boards.last() == s && kept == kept_moves(
                offered,
                boards,
                offered.len() as int,
            );
        assert(s == s0);
        assert(kept =~= Seq::<Rect>::empty());
        lemma_replay_empty(s0);
    } else {
        lemma_replay_last(s0, offered, s, kept);
        let (mid, kept0) = choose|mid: State, kept0: Seq<Rect>|
            #[trigger] replay(s0, offered.drop_last(), mid, kept0) && if valid_move(mid, offered.last()) {
                moved(mid, offered.last(), s) && kept == kept0.push(offered.last())
            } else {
                s == mid && kept == kept0
            };
        lemma_replay_kept(s0, offered.drop_last(), mid, kept0);
        if valid_move(mid, offered.last()) {
            lemma_replay_step(s0, kept0, mid, kept0, offered.last(), s, kept);
        }
    }
}

/// `out` is a legal solution of `input`: offered in order on the board of
/// the input, every one of its moves is allowed at its turn.
pub open spec fn legal(input: Input, out: Seq<Rect>) -> bool {
    exists|s0: State, s: State| initial_board(input, s0) && #[trigger] replay(s0, out, s, out)
}

/// `out` is a legal solution of `input` whose moves, drawn in order on the
/// board of the input, lead to board `s`.
pub open spec fn legal_board(input: Input, out: Seq<Rect>, s: State) -> bool {
    exists|s0: State| initial_board(input, s0) && #[trigger] replay(s0, out, s, out)
}

/// A legal solution with its board is a legal solution.
pub proof fn lemma_legal_board(input: Input, out: Seq<Rect>, s: State)
    requires
        legal_board(input, out, s),
    ensures
        legal(input, out),
{
    let s0 = choose|s0: State| initial_board(input, s0) && #[trigger] replay(s0, out, s, out);
    assert(replay(s0, out, s, out));
}

/// A replay draws no more moves than it is offered.
proof fn lemma_kept_moves_len(offered: Seq<Rect>, boards: Seq<State>, m: int)
    requires
        0 <= m,
    ensures
        kept_moves(offered, boards, m).len() <= m,
    decreases m,
{
    if m > 0 {
        lemma_kept_moves_len(offered, boards, m - 1);
    }
}

/// Offering nothing leaves the board as it is and draws nothing.
proof fn lemma_replay_nothing(s0: State, s: State, kept: Seq<Rect>)
    requires
        replay(s0, Seq::empty(), s, kept),
    ensures
        s == s0,
        kept.len() == 0,
{
    let boards = choose|boards: Seq<State>|
        #[trigger] replay_trace(s0, Seq::empty(), boards) && boards.last() == s && kept == kept_moves(
            Seq::empty(),
            boards,
            0,
        );
    assert(boards.len() == 1);
}

/// Two replays in which every offered move is drawn chain into one: the
/// moves `a` then `b`, all drawn, lead from `s0` through `s1` to `s2`.
pub proof fn lemma_replay_append(s0: State, a: Seq<Rect>, s1: State, b: Seq<Rect>, s2: State)
    requires
        replay(s0, a, s1, a),
        replay(s1, b, s2, b),
    ensures
        replay(s0, a + b, s2, a + b),
    decreases b.len(),
{
    if b.len() == 0 {
        lemma_replay_nothing(s1, s2, b);
        assert(a + b =~= a);
    } else {
        lemma_replay_last(s1, b, s2, b);
        let (mid, kept0) = choose|mid: State, kept0: Seq<Rect>|
            #[trigger] replay(s1, b.drop_last(), mid, kept0) && if valid_move(mid, b.last()) {
                moved(mid, b.last(), s2) && b == kept0.push(b.last())
            } else {
                s2 == mid && b == kept0
            };
        let boards = choose|boards: Seq<State>|
            #[trigger] replay_trace(s1, b.drop_last(), boards) && boards.last() == mid && kept0 == kept_moves(
                b.drop_last(),
                boards,
                b.drop_last().len() as int,
            );
        lemma_kept_moves_len(b.drop_last(), boards, b.drop_last().len() as int);
        assert(valid_move(mid, b.last()));
        assert(kept0 =~= b.drop_last());
        lemma_replay_append(s0, a, s1, b.drop_last(), mid);
        assert((a + b.drop_last()).push(b.last()) =~= a + b);
        lemma_replay_step(s0, a + b.drop_last(), mid, a + b.drop_last(), b.last(), s2, a + b);
    }
}

} // verus!
