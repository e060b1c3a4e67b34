use hdd_autopilot::solver::maze::{solve, Direction, MazeLayout};

#[test]
fn solves_trivial_two_cell_maze() {
    let maze = MazeLayout {
        player: [0, 0],
        exit: [0, 1],
        open_edges: vec![[[0, 0], [0, 1]]],
    };
    let path = solve(&maze).expect("should solve");
    assert_eq!(path.len(), 1);
    assert_eq!(path[0].name(), "right");
}

#[test]
fn returns_empty_when_already_at_exit() {
    let maze = MazeLayout {
        player: [3, 4],
        exit: [3, 4],
        open_edges: Vec::new(),
    };
    assert!(solve(&maze).unwrap().is_empty());
}

#[test]
fn direction_names() {
    assert_eq!(Direction::Up.name(), "up");
    assert_eq!(Direction::Down.name(), "down");
    assert_eq!(Direction::Left.name(), "left");
    assert_eq!(Direction::Right.name(), "right");
}

#[test]
fn unreachable_exit_gives_none() {
    let maze = MazeLayout {
        player: [0, 0],
        exit: [2, 2],
        open_edges: vec![[[0, 0], [0, 1]], [[2, 1], [2, 2]]],
    };
    assert!(solve(&maze).is_none());
}

#[test]
fn edge_that_is_not_a_step_gives_none() {
    let maze = MazeLayout {
        player: [0, 0],
        exit: [0, 2],
        open_edges: vec![[[0, 0], [0, 2]]],
    };
    assert!(solve(&maze).is_none());
}

#[test]
fn breadth_first_walk_takes_the_short_way() {
    // Around the block (4 moves) or straight down (2 moves).
    let maze = MazeLayout {
        player: [0, 0],
        exit: [2, 0],
        open_edges: vec![
            [[0, 0], [0, 1]],
            [[0, 1], [1, 1]],
            [[1, 1], [2, 1]],
            [[2, 1], [2, 0]],
            [[1, 0], [0, 0]],
            [[2, 0], [1, 0]],
        ],
    };
    let path = solve(&maze).unwrap();
    let names: Vec<&str> = path.iter().map(|d| d.name()).collect();
    assert_eq!(names, vec!["down", "down"]);
}

#[test]
fn edges_work_in_both_directions() {
    let maze = MazeLayout {
        player: [1, 1],
        exit: [0, 0],
        open_edges: vec![[[0, 0], [0, 1]], [[0, 1], [1, 1]]],
    };
    let path = solve(&maze).unwrap();
    let names: Vec<&str> = path.iter().map(|d| d.name()).collect();
    assert_eq!(names, vec!["up", "left"]);
}
