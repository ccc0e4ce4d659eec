use ahc014::geometry::{area, dxy, weight, Rect};
use ahc014::state::{direction_of, Input, State};

fn sample_input() -> Input {
    Input::new(5, vec![(2, 0), (2, 1), (0, 1)]).unwrap()
}

#[test]
fn weight_is_one_at_the_centre() {
    assert_eq!(weight((2, 2), 5), 1);
    assert_eq!(weight((0, 0), 5), 9);
    assert_eq!(weight((4, 1), 5), 6);
    assert_eq!(weight((3, 3), 6), 1);
    assert_eq!(weight((0, 0), 6), 19);
}

#[test]
fn area_of_axis_parallel_rectangle_is_its_area() {
    let r: Rect = [(0, 0), (2, 0), (2, 1), (0, 1)];
    assert_eq!(area(&r), 2);
    let r: Rect = [(1, 1), (4, 1), (4, 3), (1, 3)];
    assert_eq!(area(&r), 6);
    let r: Rect = [(2, 2), (0, 2), (0, 0), (2, 0)];
    assert_eq!(area(&r), 4);
}

#[test]
fn area_is_the_same_in_both_orientations_and_positive() {
    let rects: Vec<Rect> = vec![
        [(0, 0), (2, 0), (2, 1), (0, 1)],
        [(1, 1), (4, 1), (4, 3), (1, 3)],
        [(1, 0), (2, 1), (1, 2), (0, 1)],
        [(2, 0), (4, 2), (3, 3), (1, 1)],
        [(3, 3), (3, 4), (4, 4), (4, 3)],
    ];
    for r in rects {
        let m: Rect = [r[0], r[3], r[2], r[1]];
        assert_eq!(area(&r), area(&m));
        assert!(area(&r) >= 1);
    }
}

#[test]
fn area_of_tilted_rectangle() {
    let r: Rect = [(1, 0), (2, 1), (1, 2), (0, 1)];
    assert_eq!(area(&r), 2);
    let r: Rect = [(2, 0), (4, 2), (3, 3), (1, 1)];
    assert_eq!(area(&r), 4);
}

#[test]
fn directions_run_counter_clockwise() {
    assert_eq!(dxy(0), (1, 0));
    assert_eq!(dxy(1), (1, 1));
    assert_eq!(dxy(2), (0, 1));
    assert_eq!(dxy(3), (-1, 1));
    assert_eq!(dxy(4), (-1, 0));
    assert_eq!(dxy(5), (-1, -1));
    assert_eq!(dxy(6), (0, -1));
    assert_eq!(dxy(7), (1, -1));
    for d in 0..8 {
        let (dx, dy) = dxy(d);
        assert_eq!(direction_of(dx, dy), d);
    }
}

#[test]
fn input_rejects_cells_outside_the_grid() {
    assert!(Input::new(5, vec![(5, 0)]).is_none());
    assert!(Input::new(5, vec![(0, 7)]).is_none());
    assert!(Input::new(1, vec![(0, 0), (0, 1)]).is_none());
    assert!(Input::new(1, vec![(0, 0), (0, 0)]).is_some());
    assert!(Input::new(2_147_483_649, vec![]).is_none());
    assert!(Input::new(2_147_483_648, vec![]).is_some());
    let input = Input::new(3, vec![(0, 0), (2, 2)]).unwrap();
    assert_eq!(input.n, 3);
    assert_eq!(input.ps, vec![(0, 0), (2, 2)]);
}

#[test]
fn initial_board_marks_the_input_cells() {
    let input = sample_input();
    let s = State::new(&input);
    assert_eq!(s.has_point.len(), 5);
    for x in 0..5 {
        for y in 0..5 {
            let expected = (x, y) == (2, 0) || (x, y) == (2, 1) || (x, y) == (0, 1);
            assert_eq!(s.has_point[x][y], expected);
            assert_eq!(s.used[x][y], [false; 8]);
        }
    }
}

#[test]
fn check_move_accepts_a_free_rectangle() {
    let input = sample_input();
    let s = State::new(&input);
    assert!(s.check_move(&[(0, 0), (2, 0), (2, 1), (0, 1)]));
    // The same rectangle listed the other way round.
    assert!(s.check_move(&[(0, 0), (0, 1), (2, 1), (2, 0)]));
}

#[test]
fn check_move_rejects_missing_corner_or_marked_p0() {
    let input = sample_input();
    let s = State::new(&input);
    // p2 not marked
    assert!(!s.check_move(&[(0, 0), (2, 0), (2, 2), (0, 2)]));
    // p0 marked
    assert!(!s.check_move(&[(2, 0), (0, 0), (0, 1), (2, 1)]));
}

#[test]
fn check_move_rejects_bad_shapes() {
    let input = Input::new(5, vec![(2, 0), (3, 2), (1, 2)]).unwrap();
    let s = State::new(&input);
    // corners marked but the sides are not perpendicular
    assert!(!s.check_move(&[(0, 0), (2, 0), (3, 2), (1, 2)]));
    let input = Input::new(5, vec![(3, 1), (2, 3), (0, 2)]).unwrap();
    let s = State::new(&input);
    // perpendicular sides that run along no row, column or diagonal
    assert!(!s.check_move(&[(1, 0), (3, 1), (2, 3), (0, 2)]));
}

#[test]
fn check_move_rejects_a_marked_cell_on_an_edge() {
    let input = Input::new(5, vec![(3, 0), (3, 1), (0, 1), (1, 0)]).unwrap();
    let s = State::new(&input);
    assert!(!s.check_move(&[(0, 0), (3, 0), (3, 1), (0, 1)]));
}

#[test]
fn apply_move_marks_p0_and_covers_the_perimeter() {
    let input = sample_input();
    let mut s = State::new(&input);
    let r: Rect = [(0, 0), (2, 0), (2, 1), (0, 1)];
    s.apply_move(&r);
    assert!(s.has_point[0][0]);
    // edge (0,0) -> (2,0): direction 0 leaving (0,0) and (1,0), direction 4 arriving
    assert!(s.used[0][0][0] && s.used[1][0][0]);
    assert!(s.used[1][0][4] && s.used[2][0][4]);
    // edge (2,0) -> (2,1): direction 2
    assert!(s.used[2][0][2] && s.used[2][1][6]);
    // edge (2,1) -> (0,1): direction 4
    assert!(s.used[2][1][4] && s.used[1][1][4] && s.used[1][1][0] && s.used[0][1][0]);
    // edge (0,1) -> (0,0): direction 6
    assert!(s.used[0][1][6] && s.used[0][0][2]);
    // nothing else
    assert!(!s.used[3][0][0] && !s.used[1][1][2] && !s.has_point[1][1]);
}

#[test]
fn a_drawn_rectangle_cannot_be_drawn_again() {
    let input = sample_input();
    let mut s = State::new(&input);
    let r: Rect = [(0, 0), (2, 0), (2, 1), (0, 1)];
    assert!(s.check_move(&r));
    s.apply_move(&r);
    assert!(!s.check_move(&r));
}

#[test]
fn rectangles_cannot_share_a_segment() {
    // After drawing the first rectangle, a second one running along its
    // top side is refused although its corners are right.
    let input = Input::new(5, vec![(2, 0), (2, 1), (0, 1), (2, 3)]).unwrap();
    let mut s = State::new(&input);
    let first: Rect = [(0, 0), (2, 0), (2, 1), (0, 1)];
    let second: Rect = [(0, 3), (0, 1), (2, 1), (2, 3)];
    assert!(s.check_move(&second));
    s.apply_move(&first);
    assert!(!s.check_move(&second));
}

#[test]
fn drawn_segments_are_recorded_at_both_ends() {
    let input = Input::new(5, vec![(2, 0), (2, 1), (0, 1), (3, 2), (1, 2)]).unwrap();
    let mut s = State::new(&input);
    let moves: Vec<Rect> = vec![[(0, 0), (2, 0), (2, 1), (0, 1)], [(2, 3), (3, 2), (2, 1), (1, 2)]];
    for r in &moves {
        assert!(s.check_move(r));
        s.apply_move(r);
    }
    let n = input.n as i64;
    let mut covered = 0;
    for x in 0..n {
        for y in 0..n {
            for d in 0..8 {
                let (dx, dy) = dxy(d);
                let (qx, qy) = (x + dx, y + dy);
                let inside = 0 <= qx && qx < n && 0 <= qy && qy < n;
                let here = s.used[x as usize][y as usize][d];
                let there = inside && s.used[qx as usize][qy as usize][(d + 4) % 8];
                assert_eq!(here, there, "segment ({}, {}) towards {}", x, y, d);
                if here {
                    covered += 1;
                }
            }
        }
    }
    // 6 unit segments around the 2 x 1 rectangle and 4 around the tilted
    // one, each recorded at both ends
    assert_eq!(covered, 20);
}
