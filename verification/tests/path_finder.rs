use quoridor::board::Board;
use quoridor::path_finder::{is_path, shortest_distance, PathFinder};
use quoridor::point::create;
use quoridor::wall::Orientation;

#[test]
fn no_walls_0() {
    let board = Board::create_default();
    assert_eq!(Some(11), shortest_distance(&board, &create(4, 7), &create(0, 0)));
}

#[test]
fn no_walls_1() {
    let board = Board::create_default();
    assert_eq!(Some(4), shortest_distance(&board, &create(3, 4), &create(7, 4)));
}

#[test]
fn no_walls_2() {
    let board = Board::create_default();
    assert_eq!(Some(16), shortest_distance(&board, &create(0, 0), &create(8, 8)));
}

#[test]
fn one_wall() {
    let board = Board::create_default()
        .place_wall(create(4, 4), Orientation::Horizontal)
        .place_wall(create(3, 3), Orientation::Vertical);
    assert_eq!(Some(10), shortest_distance(&board, &create(4, 0), &create(4, 8)))
}

#[test]
fn is_path_no_walls() {
    let board = Board::create_default();
    assert!(is_path(&board, &create(0, 0), 8));
}

#[test]
fn is_path_no_walls_2() {
    let board = Board::create_default();
    assert!(is_path(&board, &create(7, 7), 0));
}

#[test]
fn no_path_when_blocked() {
    let board = Board::create_default()
        .place_wall(create(0, 2), Orientation::Horizontal)
        .place_wall(create(2, 2), Orientation::Horizontal)
        .place_wall(create(4, 2), Orientation::Horizontal)
        .place_wall(create(6, 2), Orientation::Horizontal)
        .place_wall(create(7, 2), Orientation::Vertical)
        .place_wall(create(7, 1), Orientation::Horizontal);
    assert!(!is_path(&board, &create(0, 0), 7));
}

#[test]
fn starting_board() {
    let board = Board::create_default();
    assert_eq!(Some(7), shortest_distance(&board, &create(0, 4), &create(7, 4)));
}

#[test]
fn distance_default_grid() {
    let board = Board::create_default();
    assert_eq!(Some(8), shortest_distance(&board, &create(4, 0), &create(4, 8)));
    assert_eq!(Some(16), shortest_distance(&board, &create(0, 0), &create(8, 8)));
}

#[test]
fn wall_detour_increases_distance() {
    let open_board = Board::create_default();
    assert_eq!(Some(8), shortest_distance(&open_board, &create(4, 0), &create(4, 8)));
    let walled = open_board
        .place_wall(create(4, 4), Orientation::Horizontal)
        .place_wall(create(3, 3), Orientation::Vertical);
    assert_eq!(Some(10), shortest_distance(&walled, &create(4, 0), &create(4, 8)));
}

#[test]
fn distance_is_symmetric_without_walls() {
    let board = Board::create_default();
    let a = create(1, 2);
    let b = create(7, 5);
    assert_eq!(Some(9), shortest_distance(&board, &a, &b));
    assert_eq!(Some(9), shortest_distance(&board, &b, &a));
}

#[test]
fn distance_to_self_is_zero() {
    let board = Board::create().set_width(1).set_height(1).set_pawn(0, create(0, 0));
    assert_eq!(Some(0), shortest_distance(&board, &create(0, 0), &create(0, 0)));
}

#[test]
fn distance_to_goal_row() {
    let finder = PathFinder { board: Board::create_default() };
    assert_eq!(Some(8), finder.distance_to_goal(create(4, 0), 8));
    assert_eq!(Some(0), finder.distance_to_goal(create(4, 0), 0));
    assert_eq!(None, finder.distance_to_goal(create(4, 0), 9));
}

#[test]
fn blocked_pocket_has_no_distance() {
    let sealed = Board::create()
        .set_width(2)
        .set_height(2)
        .set_pawn(0, create(1, 1))
        .set_pawn(1, create(0, 1))
        .place_wall(create(0, 0), Orientation::Horizontal);
    // on a 2 by 2 grid a horizontal wall at the origin blocks both
    // up-moves, cutting the bottom row off from the top row
    assert_eq!(None, shortest_distance(&sealed, &create(0, 0), &create(0, 1)));
    assert!(!is_path(&sealed, &create(0, 0), 1));
    assert_eq!(Some(1), shortest_distance(&sealed, &create(0, 0), &create(1, 0)));
}
