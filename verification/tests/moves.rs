use std::collections::VecDeque;

use ahc014::candidates::{construct_insertable, is_tabu, update_insertable};
use ahc014::rays::nearest_marked;
use ahc014::geometry::{area, weight, Point, Rect};
use ahc014::order::sort_insertable;
use ahc014::search::{fill_step, prepare_insertable};
use ahc014::state::{Input, State};

fn sample_input() -> Input {
    Input::new(5, vec![(2, 0), (2, 1), (0, 1)]).unwrap()
}

fn mirror(r: &Rect) -> Rect {
    [r[0], r[3], r[2], r[1]]
}

/// Every allowed move, found by trying every pair of corners next to p0.
fn all_moves(input: &Input, s: &State) -> Vec<Rect> {
    let n = input.n as i64;
    let mut found = vec![];
    for x0 in 0..n {
        for y0 in 0..n {
            for x1 in 0..n {
                for y1 in 0..n {
                    for x3 in 0..n {
                        for y3 in 0..n {
                            let x2 = x1 + x3 - x0;
                            let y2 = y1 + y3 - y0;
                            if x2 < 0 || x2 >= n || y2 < 0 || y2 >= n {
                                continue;
                            }
                            let r: Rect = [
                                (x0 as usize, y0 as usize),
                                (x1 as usize, y1 as usize),
                                (x2 as usize, y2 as usize),
                                (x3 as usize, y3 as usize),
                            ];
                            if s.check_move(&r) {
                                found.push(r);
                            }
                        }
                    }
                }
            }
        }
    }
    found
}

fn same_moves(listed: &[Rect], expected: &[Rect], tabu: &VecDeque<Point>) {
    for r in listed {
        assert!(expected.contains(r), "listed move {:?} is not allowed", r);
        assert!(!tabu.contains(&r[0]));
    }
    for r in expected {
        if tabu.contains(&r[0]) {
            continue;
        }
        assert!(listed.contains(r) || listed.contains(&mirror(r)), "move {:?} is missing", r);
    }
}

fn crowded_input() -> Input {
    Input::new(
        7,
        vec![(1, 1), (1, 3), (3, 1), (3, 3), (5, 3), (3, 5), (2, 4), (4, 2), (0, 5), (6, 0), (5, 5)],
    )
    .unwrap()
}

#[test]
fn construct_lists_the_single_move() {
    let input = sample_input();
    let s = State::new(&input);
    let tabu = VecDeque::new();
    let list = construct_insertable(&input, &s, &tabu);
    assert_eq!(list, vec![[(0, 0), (2, 0), (2, 1), (0, 1)]]);
}

#[test]
fn construct_skips_tabu_cells() {
    let input = sample_input();
    let s = State::new(&input);
    let mut tabu = VecDeque::new();
    tabu.push_back((0, 0));
    assert!(is_tabu(&tabu, (0, 0)));
    assert!(!is_tabu(&tabu, (0, 1)));
    let list = construct_insertable(&input, &s, &tabu);
    assert!(list.is_empty());
}

#[test]
fn construct_lists_exactly_the_allowed_moves() {
    let input = crowded_input();
    let s = State::new(&input);
    let tabu = VecDeque::new();
    let list = construct_insertable(&input, &s, &tabu);
    let expected = all_moves(&input, &s);
    assert!(!expected.is_empty());
    same_moves(&list, &expected, &tabu);
    // one orientation each
    for (i, r) in list.iter().enumerate() {
        for q in list.iter().skip(i + 1) {
            assert!(q != r && *q != mirror(r));
        }
    }
}

#[test]
fn construct_with_tabu_lists_exactly_the_other_moves() {
    let input = crowded_input();
    let s = State::new(&input);
    let expected = all_moves(&input, &s);
    let mut tabu = VecDeque::new();
    tabu.push_back(expected[0][0]);
    let list = construct_insertable(&input, &s, &tabu);
    same_moves(&list, &expected, &tabu);
}

#[test]
fn nearest_marked_cell_in_each_direction() {
    let input = crowded_input();
    let s = State::new(&input);
    assert_eq!(nearest_marked(&s, (3, 3), 0), Some((5, 3)));
    assert_eq!(nearest_marked(&s, (3, 3), 1), Some((5, 5)));
    assert_eq!(nearest_marked(&s, (3, 3), 2), Some((3, 5)));
    assert_eq!(nearest_marked(&s, (3, 3), 3), Some((2, 4)));
    assert_eq!(nearest_marked(&s, (3, 3), 4), Some((1, 3)));
    assert_eq!(nearest_marked(&s, (3, 3), 5), Some((1, 1)));
    assert_eq!(nearest_marked(&s, (3, 3), 6), Some((3, 1)));
    assert_eq!(nearest_marked(&s, (3, 3), 7), Some((4, 2)));
    assert_eq!(nearest_marked(&s, (0, 0), 4), None);
}

#[test]
fn update_after_each_move_matches_a_fresh_listing() {
    let input = crowded_input();
    let mut s = State::new(&input);
    let tabu = VecDeque::new();
    let mut list = construct_insertable(&input, &s, &tabu);
    let mut steps = 0;
    while !list.is_empty() {
        let choice = steps % list.len();
        let rect = list[choice];
        s.apply_move(&rect);
        update_insertable(&input, &s, rect[0], &mut list, &tabu);
        let expected = all_moves(&input, &s);
        same_moves(&list, &expected, &tabu);
        steps += 1;
    }
    assert!(steps > 0);
    assert!(all_moves(&input, &s).is_empty());
}

#[test]
fn update_adds_moves_through_the_new_point() {
    // Before the move that marks (2, 2) no rectangle uses it; afterwards
    // [(0, 2), (2, 2), (2, 0), (0, 0)] does, with (2, 2) as p1.
    let input = Input::new(6, vec![(4, 2), (4, 3), (2, 3), (2, 0), (0, 0)]).unwrap();
    let mut s = State::new(&input);
    let tabu = VecDeque::new();
    let mut list = construct_insertable(&input, &s, &tabu);
    let first: Rect = [(2, 2), (4, 2), (4, 3), (2, 3)];
    let second: Rect = [(0, 2), (2, 2), (2, 0), (0, 0)];
    assert!(list.contains(&first));
    assert!(!s.check_move(&second));
    s.apply_move(&first);
    update_insertable(&input, &s, (2, 2), &mut list, &tabu);
    let expected = all_moves(&input, &s);
    same_moves(&list, &expected, &tabu);
    assert!(!list.contains(&first));
    assert!(s.check_move(&second));
    assert!(list.contains(&second) || list.contains(&mirror(&second)));
}

#[test]
fn sort_orders_by_area_then_heavier_p0() {
    let input = Input::new(7, vec![]).unwrap();
    let big: Rect = [(0, 0), (3, 0), (3, 3), (0, 3)];
    let small_light: Rect = [(3, 3), (4, 3), (4, 4), (3, 4)];
    let small_heavy: Rect = [(0, 0), (1, 0), (1, 1), (0, 1)];
    let tilted: Rect = [(1, 0), (2, 1), (1, 2), (0, 1)];
    assert_eq!(area(&big), 9);
    assert_eq!(area(&small_light), 1);
    assert_eq!(area(&tilted), 2);
    assert!(weight(small_heavy[0], 7) > weight(small_light[0], 7));
    let mut list = vec![big, small_light, tilted, small_heavy];
    sort_insertable(&input, &mut list);
    assert_eq!(list, vec![small_heavy, small_light, tilted, big]);
}

#[test]
fn sort_compares_true_areas_of_both_kinds() {
    let input = Input::new(7, vec![]).unwrap();
    // a 2 x 1 rectangle (area 2) before a tilted one of area 4, and a
    // 2 x 2 square (area 4) after the 2 x 1 one
    let flat: Rect = [(0, 0), (2, 0), (2, 1), (0, 1)];
    let tilted: Rect = [(2, 0), (4, 2), (3, 3), (1, 1)];
    let square: Rect = [(4, 4), (6, 4), (6, 6), (4, 6)];
    assert_eq!(area(&flat), 2);
    assert_eq!(area(&tilted), 4);
    assert_eq!(area(&square), 4);
    assert!(weight(tilted[0], 7) > weight(square[0], 7));
    let mut list = vec![square, tilted, flat];
    sort_insertable(&input, &mut list);
    assert_eq!(list, vec![flat, tilted, square]);
}

#[test]
fn making_a_cell_tabu_removes_exactly_its_moves() {
    let input = crowded_input();
    let s = State::new(&input);
    let tabu: VecDeque<Point> = VecDeque::new();
    let all = construct_insertable(&input, &s, &tabu);
    assert!(!all.is_empty());
    let mut cells: Vec<Point> = all.iter().map(|r| r[0]).collect();
    cells.push((0, 0));
    for p in cells {
        let mut more = tabu.clone();
        more.push_back(p);
        let fewer = construct_insertable(&input, &s, &more);
        let expected: Vec<Rect> = all.iter().copied().filter(|r| r[0] != p).collect();
        assert_eq!(fewer, expected);
    }
}

#[test]
fn sort_keeps_ties_in_order() {
    let input = Input::new(7, vec![]).unwrap();
    // same area and same weight of p0
    let a: Rect = [(0, 0), (1, 0), (1, 1), (0, 1)];
    let b: Rect = [(0, 0), (0, 1), (1, 1), (1, 0)];
    let c: Rect = [(6, 6), (5, 6), (5, 5), (6, 5)];
    let mut list = vec![b, c, a];
    sort_insertable(&input, &mut list);
    assert_eq!(list, vec![b, c, a]);
}

#[test]
fn greedy_fill_stops_when_no_move_is_left() {
    let input = crowded_input();
    let mut s = State::new(&input);
    let tabu = VecDeque::new();
    let mut list = prepare_insertable(&input, &s, &tabu);
    let mut out: Vec<Rect> = vec![];
    while !list.is_empty() {
        let before = list.clone();
        let choice = out.len() % list.len();
        fill_step(&input, &mut s, &mut list, &mut out, choice, &tabu);
        assert_eq!(out.last(), Some(&before[choice]));
        let expected = all_moves(&input, &s);
        same_moves(&list, &expected, &tabu);
        for (i, r) in list.iter().enumerate() {
            for q in list.iter().skip(i + 1) {
                assert!(q != r && *q != mirror(r), "{:?} listed twice", r);
            }
        }
        for w in list.windows(2) {
            let (a0, a1) = (area(&w[0]), area(&w[1]));
            assert!(a0 < a1 || (a0 == a1 && weight(w[0][0], 7) >= weight(w[1][0], 7)));
        }
    }
    assert!(!out.is_empty());
    assert!(all_moves(&input, &s).is_empty());
    // the fill's output is legal: replayed from the start, every move is
    // allowed at its turn
    let mut again = State::new(&input);
    for r in &out {
        assert!(again.check_move(r));
        again.apply_move(r);
    }
    assert_eq!(again.has_point, s.has_point);
}
