use hdd_autopilot::solver::lightsout::{solve, LightsBoard};

fn press_all(cells: &mut Vec<Vec<i32>>, n: i32, clicks: &[(i32, i32)]) {
    for &(r, c) in clicks {
        for &(dr, dc) in &[(0, 0), (-1, 0), (1, 0), (0, -1), (0, 1)] {
            let nr = r + dr;
            let nc = c + dc;
            if nr >= 0 && nr < n && nc >= 0 && nc < n {
                cells[nr as usize][nc as usize] ^= 1;
            }
        }
    }
}

#[test]
fn already_solved_returns_empty() {
    let board = LightsBoard {
        size: 3,
        cells: vec![vec![0; 3]; 3],
    };
    assert!(solve(&board).unwrap().is_empty());
}

#[test]
fn single_corner_light_has_no_solution_on_five_by_five() {
    // A lone corner light cannot be switched off on a 5x5 board: the press matrix has rank 23 and
    // the equations for this board are inconsistent, so no list of presses exists to return.
    let mut cells = vec![vec![0; 5]; 5];
    cells[0][0] = 1;
    let board = LightsBoard { size: 5, cells };
    assert!(solve(&board).is_none());
}

#[test]
fn scrambled_board_is_switched_off() {
    let n = 5;
    let mut cells = vec![vec![0; 5]; 5];
    press_all(&mut cells, n, &[(0, 0), (2, 3), (4, 4), (1, 1)]);
    let board = LightsBoard { size: n, cells: cells.clone() };
    let clicks = solve(&board).expect("a scramble of presses can be undone");
    press_all(&mut cells, n, &clicks);
    assert!(cells.iter().flatten().all(|v| *v == 0));
}

#[test]
fn single_light_on_three_by_three_is_solved() {
    let n = 3;
    let mut cells = vec![vec![0; 3]; 3];
    cells[1][1] = 1;
    let board = LightsBoard { size: n, cells: cells.clone() };
    let clicks = solve(&board).expect("3x3 lights out is always solvable");
    press_all(&mut cells, n, &clicks);
    assert!(cells.iter().flatten().all(|v| *v == 0));
}

#[test]
fn one_press_answer_for_one_press_scramble() {
    let board = LightsBoard {
        size: 1,
        cells: vec![vec![1]],
    };
    assert_eq!(solve(&board).unwrap(), vec![(0, 0)]);
}

#[test]
fn board_that_is_not_square_gives_none() {
    let ragged = LightsBoard {
        size: 2,
        cells: vec![vec![1, 0], vec![1]],
    };
    assert!(solve(&ragged).is_none());
    let short = LightsBoard {
        size: 3,
        cells: vec![vec![0; 3]; 2],
    };
    assert!(solve(&short).is_none());
    let empty = LightsBoard {
        size: 0,
        cells: Vec::new(),
    };
    assert!(solve(&empty).is_none());
}
