use hdd_autopilot::solver::nonogram::line::{line_matches_clue, propagate_line};
use hdd_autopilot::solver::nonogram::{solve, NonogramPuzzle};

#[test]
fn solves_simple_5x5() {
    let session = NonogramPuzzle {
        width: 5,
        height: 5,
        cells: vec![vec![0; 5]; 5],
        row_clues: vec![vec![5]; 5],
        col_clues: vec![vec![5]; 5],
    };
    let clicks = solve(&session).expect("solvable");
    assert_eq!(clicks.len(), 25);
}

#[test]
fn cross_shaped_picture() {
    // . X .
    // X X X
    // . X .
    let puzzle = NonogramPuzzle {
        width: 3,
        height: 3,
        cells: vec![vec![0; 3]; 3],
        row_clues: vec![vec![1], vec![3], vec![1]],
        col_clues: vec![vec![1], vec![3], vec![1]],
    };
    let clicks = solve(&puzzle).unwrap();
    assert_eq!(clicks, vec![(0, 1), (1, 0), (1, 1), (1, 2), (2, 1)]);
}

#[test]
fn squares_already_filled_are_not_clicked() {
    let puzzle = NonogramPuzzle {
        width: 2,
        height: 1,
        cells: vec![vec![1, 0]],
        row_clues: vec![vec![2]],
        col_clues: vec![vec![1], vec![1]],
    };
    assert_eq!(solve(&puzzle).unwrap(), vec![(0, 1)]);
}

#[test]
fn ambiguous_puzzle_is_settled_by_guessing() {
    // Two diagonal solutions; the first guess (fill the first unknown square) succeeds.
    let puzzle = NonogramPuzzle {
        width: 2,
        height: 2,
        cells: vec![vec![0; 2]; 2],
        row_clues: vec![vec![1], vec![1]],
        col_clues: vec![vec![1], vec![1]],
    };
    assert_eq!(solve(&puzzle).unwrap(), vec![(0, 0), (1, 1)]);
}

#[test]
fn contradictory_clues_give_none() {
    let puzzle = NonogramPuzzle {
        width: 2,
        height: 2,
        cells: vec![vec![0; 2]; 2],
        row_clues: vec![vec![2], vec![2]],
        col_clues: vec![vec![1], vec![1]],
    };
    assert!(solve(&puzzle).is_none());
}

#[test]
fn shown_cross_is_kept() {
    // Row clue 1 over two squares with the first crossed: the second must be filled.
    let puzzle = NonogramPuzzle {
        width: 2,
        height: 1,
        cells: vec![vec![2, 0]],
        row_clues: vec![vec![1]],
        col_clues: vec![vec![], vec![1]],
    };
    assert_eq!(solve(&puzzle).unwrap(), vec![(0, 1)]);
}

#[test]
fn missing_clues_give_none() {
    let puzzle = NonogramPuzzle {
        width: 2,
        height: 2,
        cells: Vec::new(),
        row_clues: vec![vec![1]],
        col_clues: vec![vec![1], vec![1]],
    };
    assert!(solve(&puzzle).is_none());
    let empty = NonogramPuzzle {
        width: 0,
        height: 0,
        cells: Vec::new(),
        row_clues: Vec::new(),
        col_clues: Vec::new(),
    };
    assert!(solve(&empty).is_none());
}

#[test]
fn line_runs_match_clue() {
    assert!(line_matches_clue(&vec![1, 1, 2, 1, 0], &vec![2, 1]));
    assert!(!line_matches_clue(&vec![1, 1, 2, 1, 0], &vec![2, 2]));
    assert!(!line_matches_clue(&vec![1, 1, 1], &vec![2]));
    assert!(line_matches_clue(&vec![2, 2], &vec![]));
}

#[test]
fn propagation_forces_the_overlap() {
    // A run of 3 in 4 squares always covers the middle two.
    let mut line = vec![0u8, 0, 0, 0];
    let mut changed = false;
    assert!(propagate_line(&mut line, &vec![3], &mut changed));
    assert!(changed);
    assert_eq!(line, vec![0, 1, 1, 0]);
    // Nothing more to learn the second time round.
    let mut again = false;
    assert!(propagate_line(&mut line, &vec![3], &mut again));
    assert!(!again);
    // A run longer than the line cannot be laid out.
    let mut short = vec![0u8, 0];
    let mut flag = false;
    assert!(!propagate_line(&mut short, &vec![3], &mut flag));
}

#[test]
fn propagation_settles_only_what_every_layout_shares() {
    // Runs 1 and 1 in three squares: only one layout, fill-cross-fill.
    let mut line = vec![0u8, 0, 0];
    let mut changed = false;
    assert!(propagate_line(&mut line, &vec![1, 1], &mut changed));
    assert_eq!(line, vec![1, 2, 1]);
    // A filled first square fixes a run of 2 in four squares.
    let mut line = vec![1u8, 0, 0, 0];
    let mut changed = false;
    assert!(propagate_line(&mut line, &vec![2], &mut changed));
    assert_eq!(line, vec![1, 1, 2, 2]);
    // A line that contradicts its clue is left as it was.
    let mut line = vec![1u8, 2, 1];
    let mut changed = false;
    assert!(!propagate_line(&mut line, &vec![3], &mut changed));
    assert_eq!(line, vec![1, 2, 1]);
    assert!(!changed);
    // A run of length zero lays out as an all-crossed line.
    let mut line = vec![0u8, 0, 0];
    let mut changed = false;
    assert!(propagate_line(&mut line, &vec![0], &mut changed));
    assert_eq!(line, vec![2, 2, 2]);
}
