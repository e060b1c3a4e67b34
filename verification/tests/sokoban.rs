use hdd_autopilot::solver::sokoban::{solve, SokobanLevel};

fn s(walls: &[[i32; 2]], boxes: &[[i32; 2]], targets: &[[i32; 2]], player: [i32; 2]) -> SokobanLevel {
    SokobanLevel {
        player,
        boxes: boxes.to_vec(),
        targets: targets.to_vec(),
        walls: walls.to_vec(),
    }
}

fn border(width: i32, height: i32) -> Vec<[i32; 2]> {
    (0..width)
        .map(|c| [0, c])
        .chain((0..width).map(|c| [height - 1, c]))
        .chain((0..height).map(|r| [r, 0]))
        .chain((0..height).map(|r| [r, width - 1]))
        .collect()
}

#[test]
fn solves_two_box_easy_level() {
    let walls: Vec<[i32; 2]> = (0..9)
        .map(|c| [0, c])
        .chain((0..9).map(|c| [5, c]))
        .chain((0..6).map(|r| [r, 0]))
        .chain((0..6).map(|r| [r, 8]))
        .collect();
    let session = s(&walls, &[[2, 3], [2, 4]], &[[1, 3], [1, 4]], [3, 4]);
    let path = solve(&session).expect("solver finds a path");
    assert!(!path.is_empty());
    assert!(path.len() <= 10);
}

#[test]
fn returns_empty_when_already_solved() {
    let session = s(&[], &[[1, 1]], &[[1, 1]], [2, 2]);
    let path = solve(&session).expect("already solved");
    assert!(path.is_empty());
}

#[test]
fn single_push_level() {
    // Player below the box, target above it: one push up.
    let walls = border(5, 5);
    let level = s(&walls, &[[2, 2]], &[[1, 2]], [3, 2]);
    assert_eq!(solve(&level).unwrap(), vec!["up"]);
}

#[test]
fn box_against_the_wall_cannot_reach_target_in_the_corner_of_another_wall() {
    // The only box sits in a corner off the target: it can never move.
    let walls = border(5, 5);
    let level = s(&walls, &[[1, 1]], &[[3, 3]], [2, 2]);
    assert!(solve(&level).is_none());
}

#[test]
fn walk_then_push() {
    // Corridor: player left of the box, target right of it.
    let walls = border(6, 3);
    let level = s(&walls, &[[1, 2]], &[[1, 4]], [1, 1]);
    assert_eq!(solve(&level).unwrap(), vec!["right", "right"]);
}

#[test]
fn pushes_a_box_into_a_corner_that_holds_a_target() {
    // A corner is no dead end when the target is there: up, then around, then left.
    let walls = border(5, 5);
    let level = s(&walls, &[[2, 2]], &[[1, 1]], [3, 2]);
    assert_eq!(solve(&level).unwrap(), vec!["up", "right", "up", "left"]);
}

#[test]
fn player_in_a_wall_pushes_a_cornered_box_out() {
    // The level puts the player on a wall square beside a box in a corner; the first move frees it.
    let walls = border(5, 5);
    let level = s(&walls, &[[1, 1]], &[[1, 2]], [1, 0]);
    assert_eq!(solve(&level).unwrap(), vec!["right"]);
}
