use std::collections::VecDeque;

use ahc014::anneal::{Annealer, BACK_TO_BEST, TABU_TENURE};
use ahc014::geometry::Rect;
use ahc014::score::{score_numerator, ScoreWeight};
use ahc014::search::{fill_step, prepare_insertable};
use ahc014::state::{Input, State};
use rand::SeedableRng;

fn sample_input() -> Input {
    Input::new(5, vec![(2, 0), (2, 1), (0, 1)]).unwrap()
}

#[test]
fn score_weight_sums_cells_and_grid() {
    let input = sample_input();
    let sw = ScoreWeight::new(&input);
    assert_eq!(sw.ps_weight, 5 + 2 + 6);
    assert_eq!(sw.den, 125);
}

#[test]
fn score_weight_takes_cells_outside_the_grid() {
    let input = Input { n: 3, ps: vec![(5, 5)] };
    let sw = ScoreWeight::new(&input);
    assert_eq!(sw.ps_weight, 33);
    assert_eq!(sw.den, 21);
}

#[test]
fn score_numerator_adds_the_weight_of_each_new_point() {
    let input = sample_input();
    let sw = ScoreWeight::new(&input);
    assert_eq!(score_numerator(&input, &vec![], &sw), 13);
    let out: Vec<Rect> = vec![[(0, 0), (2, 0), (2, 1), (0, 1)]];
    assert_eq!(score_numerator(&input, &out, &sw), 13 + 9);
}

#[test]
fn annealer_starts_from_the_given_solution() {
    let input = sample_input();
    let out: Vec<Rect> = vec![[(0, 0), (2, 0), (2, 1), (0, 1)]];
    let a = Annealer::new(&input, &out, 22);
    assert_eq!(a.now_score, 22);
    assert_eq!(a.best_score, 22);
    assert_eq!(a.best_output, out);
    assert_eq!(a.no_improved, 0);
    assert_eq!(a.back_to_best, BACK_TO_BEST / 5);
    assert!(a.tabu_list.is_empty());
    assert!(a.improves(23));
    assert!(!a.improves(22));
}

#[test]
fn settle_accepts_and_tracks_the_best() {
    let input = sample_input();
    let start: Vec<Rect> = vec![];
    let mut out = start.clone();
    let mut a = Annealer::new(&input, &out, 10);
    let better: Vec<Rect> = vec![[(0, 0), (2, 0), (2, 1), (0, 1)]];
    a.settle(&mut out, better.clone(), 20, true);
    assert_eq!(a.now_score, 20);
    assert_eq!(a.best_score, 20);
    assert_eq!(out, better);
    assert_eq!(a.best_output, better);
    assert_eq!(a.no_improved, 0);
    // a worse neighbour accepted: the best stays
    a.settle(&mut out, start.clone(), 5, true);
    assert_eq!(a.now_score, 5);
    assert_eq!(a.best_score, 20);
    assert_eq!(out, start);
    assert_eq!(a.no_improved, 1);
    // a rejected neighbour changes nothing but the counter
    a.settle(&mut out, better.clone(), 30, false);
    assert_eq!(a.now_score, 5);
    assert_eq!(out, start);
    assert_eq!(a.no_improved, 2);
}

#[test]
fn settle_returns_to_the_best_after_too_long() {
    let input = Input::new(20_000, vec![]).unwrap();
    let mut out: Vec<Rect> = vec![];
    let mut a = Annealer::new(&input, &out, 10);
    assert_eq!(a.back_to_best, 0);
    let other: Vec<Rect> = vec![[(0, 0), (2, 0), (2, 1), (0, 1)]];
    a.settle(&mut out, other.clone(), 3, true);
    // one iteration without improvement is already too many
    assert_eq!(a.now_score, 10);
    assert_eq!(out, Vec::<Rect>::new());
    assert_eq!(a.no_improved, 0);
    let mut fin = other.clone();
    assert_eq!(a.finish(&mut fin), 10);
    assert!(fin.is_empty());
}

#[test]
fn remove_and_replay_drops_moves_that_depended_on_the_removed_one() {
    // The second rectangle needs the point marked by the first.
    let input = Input::new(6, vec![(4, 2), (4, 3), (2, 3), (2, 0), (0, 0)]).unwrap();
    let first: Rect = [(2, 2), (4, 2), (4, 3), (2, 3)];
    let second: Rect = [(0, 2), (2, 2), (2, 0), (0, 0)];
    let mut s = State::new(&input);
    assert!(s.check_move(&first));
    s.apply_move(&first);
    assert!(s.check_move(&second));
    let out = vec![first, second];
    let mut a = Annealer::new(&input, &out, 0);
    let (state, kept) = a.remove_and_replay(&input, &out, 0);
    assert_eq!(a.tabu_list, VecDeque::from(vec![(2, 2)]));
    assert!(!state.has_point[2][2]);
    assert!(!state.has_point[0][2]);
    let mut expected = vec![];
    let mut check = State::new(&input);
    for r in [second] {
        if check.check_move(&r) {
            check.apply_move(&r);
            expected.push(r);
        }
    }
    assert_eq!(kept, expected);
    assert!(kept.is_empty());
    assert_eq!(state.has_point, check.has_point);
    assert_eq!(state.used, check.used);
}

#[test]
fn remove_and_replay_keeps_independent_moves() {
    let input = Input::new(5, vec![(2, 0), (2, 1), (0, 1), (0, 3), (2, 3), (2, 4)]).unwrap();
    let first: Rect = [(0, 0), (2, 0), (2, 1), (0, 1)];
    let other: Rect = [(0, 4), (0, 3), (2, 3), (2, 4)];
    let out = vec![first, other];
    let mut a = Annealer::new(&input, &out, 0);
    let (state, kept) = a.remove_and_replay(&input, &out, 1);
    assert_eq!(kept, vec![first]);
    assert!(state.has_point[0][0]);
    assert!(!state.has_point[0][4]);
    assert_eq!(a.tabu_list, VecDeque::from(vec![(0, 4)]));
}

#[test]
fn tabu_list_keeps_the_last_cells() {
    let input = sample_input();
    let first: Rect = [(0, 0), (2, 0), (2, 1), (0, 1)];
    let out = vec![first];
    let mut a = Annealer::new(&input, &out, 0);
    for _ in 0..(TABU_TENURE + 3) {
        a.remove_and_replay(&input, &out, 0);
        assert!(a.tabu_list.len() <= TABU_TENURE);
    }
    assert_eq!(a.tabu_list.len(), TABU_TENURE);
}

#[test]
fn neighbour_removes_one_drawn_move() {
    let input = sample_input();
    let first: Rect = [(0, 0), (2, 0), (2, 1), (0, 1)];
    let out = vec![first];
    let mut a = Annealer::new(&input, &out, 0);
    let mut rng = rand_chacha::ChaCha20Rng::seed_from_u64(0);
    let (state, kept) = a.neighbour(&input, &out, &mut rng);
    // the only move is the one taken out
    assert!(kept.is_empty());
    assert!(!state.has_point[0][0]);
    assert_eq!(a.tabu_list, VecDeque::from(vec![(0, 0)]));
    let (state, kept) = a.neighbour(&input, &vec![], &mut rng);
    assert!(kept.is_empty());
    assert_eq!(state.has_point, State::new(&input).has_point);
    assert_eq!(a.tabu_list.len(), 1);
}

fn is_legal(input: &Input, out: &[Rect]) -> bool {
    let mut s = State::new(input);
    for r in out {
        if !s.check_move(r) {
            return false;
        }
        s.apply_move(r);
    }
    true
}

#[test]
fn local_search_keeps_the_best_solution_legal() {
    let input = Input::new(
        7,
        vec![(1, 1), (1, 3), (3, 1), (3, 3), (5, 3), (3, 5), (2, 4), (4, 2), (0, 5), (6, 0), (5, 5)],
    )
    .unwrap();
    let sw = ScoreWeight::new(&input);
    let empty = VecDeque::new();
    let mut s = State::new(&input);
    let mut list = prepare_insertable(&input, &s, &empty);
    let mut out: Vec<Rect> = vec![];
    while !list.is_empty() {
        fill_step(&input, &mut s, &mut list, &mut out, 0, &empty);
    }
    assert!(is_legal(&input, &out));
    let mut a = Annealer::new(&input, &out, score_numerator(&input, &out, &sw));
    let mut rng = rand_chacha::ChaCha20Rng::seed_from_u64(7);
    for round in 0..30 {
        let (mut state, mut new_out) = a.neighbour(&input, &out, &mut rng);
        assert!(is_legal(&input, &new_out));
        let tabu = a.tabu_list.clone();
        let mut list = prepare_insertable(&input, &state, &tabu);
        while !list.is_empty() {
            let choice = round % list.len();
            fill_step(&input, &mut state, &mut list, &mut new_out, choice, &tabu);
        }
        assert!(is_legal(&input, &new_out));
        let score = score_numerator(&input, &new_out, &sw);
        let accept = a.improves(score) || round % 3 == 0;
        a.settle(&mut out, new_out, score, accept);
        assert!(a.best_score >= a.now_score);
        assert!(is_legal(&input, &a.best_output));
    }
    let best = a.best_score;
    let mut fin = vec![];
    assert_eq!(a.finish(&mut fin), best);
    assert!(is_legal(&input, &fin));
}

#[test]
fn neighbour_board_is_its_moves_replayed() {
    let input = Input::new(
        7,
        vec![(1, 1), (1, 3), (3, 1), (3, 3), (5, 3), (3, 5), (2, 4), (4, 2), (0, 5), (6, 0), (5, 5)],
    )
    .unwrap();
    let empty = VecDeque::new();
    let mut s = State::new(&input);
    let mut list = prepare_insertable(&input, &s, &empty);
    let mut out: Vec<Rect> = vec![];
    while !list.is_empty() {
        fill_step(&input, &mut s, &mut list, &mut out, 0, &empty);
    }
    assert!(out.len() > 1);
    let mut a = Annealer::new(&input, &out, 0);
    let mut rng = rand_chacha::ChaCha20Rng::seed_from_u64(3);
    for _ in 0..10 {
        let (board, moves) = a.neighbour(&input, &out, &mut rng);
        assert!(moves.len() < out.len());
        let mut again = State::new(&input);
        for r in &moves {
            assert!(again.check_move(r));
            again.apply_move(r);
        }
        assert_eq!(again.has_point, board.has_point);
        assert_eq!(again.used, board.used);
    }
}
