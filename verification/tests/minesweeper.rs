use hdd_autopilot::solver::minesweeper::{next_actions, Action, Board, Cell};
use hdd_autopilot::solver::minesweeper::probability::{binomial, convolve, frac_lt, gcd, sat_mul};

#[test]
fn first_click_picks_corner_when_all_unknown() {
    let board = Board::new(8, 8, 10);
    let acts = next_actions(&board);
    assert_eq!(acts.len(), 1);
    match acts[0] {
        Action::Reveal { x, y } => {
            assert_eq!(x, 0);
            assert_eq!(y, 0);
        }
        _ => panic!("expected reveal"),
    }
}

#[test]
fn trivial_inference_flags_obvious_mine() {
    let mut board = Board::new(3, 3, 1);
    board.set_number(0, 0, 1);
    board.set_number(1, 0, 1);
    board.set_number(0, 1, 1);
    let acts = next_actions(&board);
    assert!(acts.iter().any(|a| matches!(a, Action::Flag { x: 1, y: 1 })));
}

#[test]
fn safe_reveal_when_all_constraints_zero() {
    let mut board = Board::new(3, 3, 1);
    board.set_number(1, 1, 1);
    board.set_flag(0, 0);
    let acts = next_actions(&board);
    let reveals = acts
        .iter()
        .filter(|a| matches!(a, Action::Reveal { .. }))
        .count();
    assert!(reveals >= 1);
}

#[test]
fn subset_elimination_works() {
    let mut board = Board::new(3, 3, 2);
    board.set_number(0, 1, 1);
    board.set_number(1, 1, 2);
    board.set_number(2, 1, 0);
    board.set_number(0, 2, 0);
    board.set_number(1, 2, 0);
    board.set_number(2, 2, 0);
    let acts = next_actions(&board);
    assert!(
        acts.iter().any(|a| matches!(a, Action::Flag { x: 2, y: 0 })),
        "subset elimination should flag (2,0): {:?}",
        acts
    );
}

#[test]
fn fully_revealed_board_needs_no_move() {
    let mut board = Board::new(2, 2, 0);
    for y in 0..2 {
        for x in 0..2 {
            board.set_number(x, y, 0);
        }
    }
    assert!(next_actions(&board).is_empty());
}

#[test]
fn cell_off_the_board_reads_unknown() {
    let mut board = Board::new(2, 3, 1);
    board.set_number(1, 1, 2);
    assert_eq!(board.cell(1, 1), Cell::Number(2));
    assert_eq!(board.cell(-1, 0), Cell::Unknown);
    assert_eq!(board.cell(3, 0), Cell::Unknown);
    assert_eq!(board.cell(0, 2), Cell::Unknown);
}

#[test]
fn set_unknown_only_clears_flags() {
    let mut board = Board::new(2, 2, 1);
    board.set_flag(0, 0);
    board.set_number(1, 0, 1);
    board.set_unknown(0, 0);
    board.set_unknown(1, 0);
    assert_eq!(board.cell(0, 0), Cell::Unknown);
    assert_eq!(board.cell(1, 0), Cell::Number(1));
}

#[test]
fn writes_off_the_board_change_nothing() {
    let mut board = Board::new(2, 2, 1);
    board.set_number(5, 5, 3);
    board.set_flag(-1, 0);
    for y in 0..2 {
        for x in 0..2 {
            assert_eq!(board.cell(x, y), Cell::Unknown);
        }
    }
}

#[test]
fn guess_when_nothing_is_certain() {
    // A 1 in the middle with its single mine anywhere around it.
    let mut board = Board::new(3, 3, 1);
    board.set_number(1, 1, 1);
    let acts = next_actions(&board);
    assert_eq!(acts.len(), 1);
    assert!(matches!(acts[0], Action::Reveal { .. }));
}

#[test]
fn lone_neighbour_of_a_one_is_flagged() {
    let mut board = Board::new(1, 3, 1);
    board.set_number(1, 0, 1);
    board.set_number(0, 0, 1);
    let acts = next_actions(&board);
    assert_eq!(acts, vec![Action::Flag { x: 2, y: 0 }]);
}

#[test]
fn mine_count_clears_the_squares_away_from_the_numbers() {
    // The only mine lies around the 1, so the two squares far from it are safe.
    let mut board = Board::new(2, 3, 1);
    board.set_number(0, 0, 1);
    let acts = next_actions(&board);
    assert_eq!(acts, vec![Action::Reveal { x: 2, y: 0 }, Action::Reveal { x: 2, y: 1 }]);
}

#[test]
fn binomial_coefficients() {
    assert_eq!(binomial(5, 2), 10);
    assert_eq!(binomial(5, 3), 10);
    assert_eq!(binomial(10, 0), 1);
    assert_eq!(binomial(0, 0), 1);
    assert_eq!(binomial(52, 5), 2_598_960);
    assert_eq!(binomial(3, 5), 0);
}

#[test]
fn binomial_that_overflows_is_capped() {
    assert_eq!(binomial(200, 100), u128::MAX);
    assert_eq!(binomial(200, 1), 200);
}

#[test]
fn gcd_by_euclid() {
    assert_eq!(gcd(12, 18), 6);
    assert_eq!(gcd(7, 0), 7);
    assert_eq!(gcd(0, 9), 9);
    assert_eq!(gcd(0, 0), 0);
}

#[test]
fn fractions_compare_exactly() {
    assert!(frac_lt(1, 3, 1, 2));
    assert!(!frac_lt(1, 2, 1, 3));
    assert!(!frac_lt(2, 4, 1, 2));
    assert!(frac_lt(u128::MAX - 1, u128::MAX, 1, 1));
}

#[test]
fn products_are_capped() {
    assert_eq!(sat_mul(6, 7), 42);
    assert_eq!(sat_mul(u128::MAX, 2), u128::MAX);
    assert_eq!(sat_mul(0, u128::MAX), 0);
}

#[test]
fn convolution_of_counts() {
    // (1 + 2z) * (3 + z) = 3 + 7z + 2z^2, cut to three terms.
    assert_eq!(convolve(&vec![1, 2, 0], &vec![3, 1]), vec![3, 7, 2]);
    // Cut to the length of the first sequence.
    assert_eq!(convolve(&vec![1, 1], &vec![1, 1, 1]), vec![1, 2]);
    assert_eq!(convolve(&vec![u128::MAX, 1], &vec![2, 1]), vec![u128::MAX, u128::MAX]);
}

#[test]
fn a_zero_reveals_every_unknown_neighbour_once() {
    let mut board = Board::new(3, 3, 1);
    board.set_number(1, 1, 1);
    board.set_flag(0, 0);
    let acts = next_actions(&board);
    let expected = [(1, 0), (2, 0), (0, 1), (2, 1), (0, 2), (1, 2), (2, 2)];
    for (x, y) in expected {
        assert_eq!(acts.iter().filter(|a| **a == Action::Reveal { x, y }).count(), 1);
    }
    assert_eq!(acts.len(), expected.len());
}

#[test]
fn moves_never_name_a_square_twice() {
    let mut board = Board::new(3, 4, 2);
    board.set_number(0, 0, 1);
    board.set_number(1, 0, 1);
    board.set_number(2, 0, 1);
    board.set_number(3, 0, 1);
    let acts = next_actions(&board);
    assert!(!acts.is_empty());
    let target = |a: &Action| match *a {
        Action::Reveal { x, y } | Action::Flag { x, y } => (x, y),
    };
    for i in 0..acts.len() {
        for j in i + 1..acts.len() {
            assert_ne!(target(&acts[i]), target(&acts[j]));
        }
    }
}

#[test]
fn guess_avoids_the_square_more_likely_mined() {
    // Mines 2; the ones at x = 1 and x = 3 leave x = 2 mined in two of three layouts, the other
    // unknown squares in one of three.
    let mut board = Board::new(1, 7, 2);
    board.set_number(1, 0, 1);
    board.set_number(3, 0, 1);
    let acts = next_actions(&board);
    assert_eq!(acts.len(), 1);
    match acts[0] {
        Action::Reveal { x, y } => {
            assert_eq!(y, 0);
            assert!([0, 4, 5, 6].contains(&x));
        }
        _ => panic!("expected a reveal"),
    }
}

#[test]
fn mine_count_flags_the_squares_away_from_the_numbers() {
    // Three mines, one of them beside the 1: the two far squares must hold the other two.
    let mut board = Board::new(1, 5, 3);
    board.set_number(2, 0, 1);
    let acts = next_actions(&board);
    assert_eq!(acts.len(), 2);
    assert!(acts.contains(&Action::Flag { x: 0, y: 0 }));
    assert!(acts.contains(&Action::Flag { x: 4, y: 0 }));
}
