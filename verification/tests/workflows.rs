use hdd_autopilot::model::minesweeper::{MinesweeperClickDelta, MinesweeperFlagDelta};
use hdd_autopilot::solver::minesweeper::{Board, Cell};
use hdd_autopilot::workflows::minesweeper::{
    apply_click_response, apply_flagged_grid, apply_revealed, bump, ensure_tally, first_click, plan_budgets, resolution_of,
    DifficultyTally, Resolution, Round, Step,
};
use hdd_autopilot::workflows::sokoban::{AfterMove, SokobanRun, MAX_STEPS};
use hdd_autopilot::workflows::{session_outcome, Outcome};

#[test]
fn revealed_numbers_are_clamped_and_off_board_ones_ignored() {
    let mut board = Board::new(2, 2, 1);
    apply_revealed(&mut board, &vec![[0, 0, 12], [1, 0, -3], [1, 1, 2], [5, 5, 1]]);
    assert_eq!(board.cell(0, 0), Cell::Number(8));
    assert_eq!(board.cell(1, 0), Cell::Number(0));
    assert_eq!(board.cell(1, 1), Cell::Number(2));
    assert_eq!(board.cell(0, 1), Cell::Unknown);
}

#[test]
fn flagged_grid_marks_flags() {
    let mut board = Board::new(2, 3, 2);
    apply_flagged_grid(&mut board, &vec![vec![false, true, false], vec![true]]);
    assert_eq!(board.cell(1, 0), Cell::Flag);
    assert_eq!(board.cell(0, 1), Cell::Flag);
    assert_eq!(board.cell(0, 0), Cell::Unknown);
    assert_eq!(board.cell(2, 1), Cell::Unknown);
}

#[test]
fn click_response_reveals_then_reflags_then_shows_numbers() {
    let mut board = Board::new(2, 2, 1);
    board.set_flag(1, 1);
    let delta = MinesweeperClickDelta {
        first_click: Some([0, 0]),
        revealed_cells: vec![[0, 0, 1]],
        flagged_cells: vec![MinesweeperFlagDelta(1, 1, false), MinesweeperFlagDelta(0, 1, true)],
        hit_mine: false,
        lost: false,
        won: false,
    };
    apply_click_response(&mut board, &delta, &vec![[1, 0, 1]]);
    assert_eq!(board.cell(0, 0), Cell::Number(1));
    assert_eq!(board.cell(1, 1), Cell::Unknown);
    assert_eq!(board.cell(0, 1), Cell::Flag);
    assert_eq!(board.cell(1, 0), Cell::Number(1));
}

#[test]
fn quota_is_spread_seventy_twenty_ten() {
    let plan = plan_budgets(100);
    assert_eq!(plan, vec![("beginner", 70), ("intermediate", 20), ("expert", 10)]);
    let plan = plan_budgets(8);
    assert_eq!(plan, vec![("beginner", 5), ("intermediate", 1), ("expert", 1)]);
    let plan = plan_budgets(0);
    assert_eq!(plan, vec![("beginner", 0), ("intermediate", 0), ("expert", 0)]);
}

#[test]
fn resolutions_are_read() {
    assert_eq!(resolution_of(&"pending".to_string()), Resolution::Pending);
    assert_eq!(resolution_of(&String::new()), Resolution::Pending);
    assert_eq!(resolution_of(&"won".to_string()), Resolution::Won);
    assert_eq!(resolution_of(&"lost".to_string()), Resolution::Lost);
    assert_eq!(resolution_of(&"abandoned".to_string()), Resolution::Other);
}

#[test]
fn first_click_is_the_middle() {
    assert_eq!(first_click(8, 8), (4, 4));
    assert_eq!(first_click(16, 30), (15, 8));
}

#[test]
fn round_over_finishes() {
    let mut round = Round::new(3, 3, 1);
    assert_eq!(round.next_step(Resolution::Won), Step::Finish { won: true });
    assert_eq!(round.next_step(Resolution::Lost), Step::Finish { won: false });
    assert_eq!(round.clicks, 0);
}

#[test]
fn round_past_click_limit_gives_up() {
    let mut round = Round::new(1, 1, 0);
    round.clicks = round.max_clicks + 1;
    assert_eq!(round.next_step(Resolution::Pending), Step::Abandon);
}

#[test]
fn round_flags_the_forced_mine_and_reveals_the_rest() {
    // 1 x 3: a 1 at the left with one unknown neighbour, then one more unknown square.
    let mut round = Round::new(1, 3, 1);
    round.board.set_number(0, 0, 1);
    // The solver flags (1, 0) first; the next step reveals (2, 0), which the count makes safe.
    assert_eq!(round.next_step(Resolution::Pending), Step::Flagged);
    assert_eq!(round.board.cell(1, 0), Cell::Flag);
    assert_eq!(round.clicks, 0);
    assert_eq!(round.next_step(Resolution::Pending), Step::Reveal { x: 2, y: 0 });
    assert_eq!(round.clicks, 1);
}

#[test]
fn round_on_a_blank_board_opens_the_corner() {
    let mut round = Round::new(3, 3, 1);
    assert_eq!(round.next_step(Resolution::Pending), Step::Reveal { x: 0, y: 0 });
}

#[test]
fn round_with_nothing_unknown_finishes_unwon() {
    let mut round = Round::new(1, 1, 0);
    round.board.set_number(0, 0, 0);
    assert_eq!(round.next_step(Resolution::Pending), Step::Finish { won: false });
}

#[test]
fn tally_counts_rounds_per_difficulty() {
    let mut list: Vec<DifficultyTally> = Vec::new();
    assert_eq!(bump(&mut list, &"beginner".to_string(), true), 0);
    assert_eq!(bump(&mut list, &"expert".to_string(), false), 1);
    assert_eq!(bump(&mut list, &"beginner".to_string(), false), 0);
    assert_eq!(list.len(), 2);
    assert_eq!((list[0].played, list[0].won, list[0].lost), (2, 1, 1));
    assert_eq!((list[1].played, list[1].won, list[1].lost), (1, 0, 1));
}

#[test]
fn session_outcomes() {
    assert_eq!(session_outcome(&"won".to_string(), false), Outcome::Won);
    assert_eq!(session_outcome(&"pending".to_string(), true), Outcome::Won);
    assert_eq!(session_outcome(&"abandoned".to_string(), false), Outcome::Failed);
    assert_eq!(session_outcome(&"failed".to_string(), false), Outcome::Failed);
    assert_eq!(session_outcome(&"lost".to_string(), false), Outcome::Failed);
    assert_eq!(session_outcome(&"pending".to_string(), false), Outcome::Open);
}

#[test]
fn sokoban_run_gives_up_after_the_step_limit() {
    let mut run = SokobanRun::new();
    assert_eq!(run.after_move(Outcome::Open), AfterMove::Continue);
    assert_eq!(run.after_move(Outcome::Won), AfterMove::Settle);
    run.steps = MAX_STEPS;
    assert_eq!(run.after_move(Outcome::Open), AfterMove::GiveUp);
}

#[test]
fn ensure_tally_adds_an_empty_entry_once() {
    let mut list: Vec<DifficultyTally> = Vec::new();
    ensure_tally(&mut list, &"easy".to_string());
    assert_eq!(list.len(), 1);
    assert_eq!(list[0], DifficultyTally { difficulty: "easy".to_string(), played: 0, won: 0, lost: 0 });
    bump(&mut list, &"easy".to_string(), true);
    ensure_tally(&mut list, &"easy".to_string());
    assert_eq!(list.len(), 1);
    assert_eq!(list[0].played, 1);
    ensure_tally(&mut list, &"hard".to_string());
    assert_eq!(list.len(), 2);
    assert_eq!(list[1].difficulty, "hard");
}
