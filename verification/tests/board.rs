use quoridor::board::Board;
use quoridor::point::{create, Direction};
use quoridor::wall::Orientation;

#[test]
fn create_board() {
    let _: Board = Board::create();
    assert!(true);
}

#[test]
fn test_get_width() {
    let mut board: Board = Board::create();
    board = board.set_width(9);
    assert_eq!(9, board.get_width());
}

#[test]
fn test_get_height() {
    let mut board: Board = Board::create();
    board = board.set_height(4);
    assert_eq!(4, board.get_height());
}

#[test]
fn test_place_pawn() {
    let board = Board::create().set_pawn(0, create(5, 2));
    assert_eq!(create(5, 2), board.get_pawn(0).unwrap());
}

#[test]
fn test_get_pawns() {
    let mut board = Board::create();
    board = board.set_pawn(0, create(4, 4));
    assert_eq!(create(4, 4), board.get_pawn(0).unwrap());
}

#[test]
fn test_create_default_board() {
    let board = Board::create_default();
    assert_eq!(9, board.get_width());
    assert_eq!(9, board.get_height());
    assert_eq!(create(4, 0), board.get_pawn(0).unwrap());
    assert_eq!(create(4, 8), board.get_pawn(1).unwrap());
}

#[test]
fn test_move_pawn() {
    let starting_board = Board::create_default().set_pawn(0, create(5, 4));
    let mut board = starting_board.move_pawn(0, Direction::Down);

    assert_eq!(create(5, 3), board.get_pawn(0).unwrap());

    board = starting_board.move_pawn(0, Direction::Up);
    assert_eq!(create(5, 5), board.get_pawn(0).unwrap());

    board = starting_board.move_pawn(0, Direction::Right);
    assert_eq!(create(6, 4), board.get_pawn(0).unwrap());

    board = starting_board.move_pawn(0, Direction::Left);
    assert_eq!(create(4, 4), board.get_pawn(0).unwrap());
}

#[test]
fn test_move_pawn_edge() {
    let mut starting_board = Board::create_default().set_pawn(0, create(0, 0));
    let board = starting_board.move_pawn(0, Direction::Left);
    assert_eq!(create(0, 0), board.get_pawn(0).unwrap());
    let board = starting_board.move_pawn(0, Direction::Down);
    assert_eq!(create(0, 0), board.get_pawn(0).unwrap());
    starting_board = Board::create()
        .set_width(5)
        .set_height(8)
        .set_pawn(0, create(4, 7));
    let board = starting_board.move_pawn(0, Direction::Right);
    assert_eq!(create(4, 7), board.get_pawn(0).unwrap());
    let board = starting_board.move_pawn(0, Direction::Up);
    assert_eq!(create(4, 7), board.get_pawn(0).unwrap());
}

#[test]
fn test_place_wall() {
    let board = Board::create_default().place_wall(create(4, 4), Orientation::Horizontal);
    assert!(board.has_wall(create(4, 4), Orientation::Horizontal));
    assert!(!board.has_wall(create(4, 5), Orientation::Horizontal));
}

#[test]
fn test_place_wall_off_board() {
    let starting_board = Board::create().set_width(5).set_height(3);

    let mut board = starting_board.place_wall(create(-1, 0), Orientation::Vertical);
    assert_eq!(starting_board, board);
    board = board.place_wall(create(-1, -1), Orientation::Vertical);
    assert_eq!(starting_board, board);
    board = board.place_wall(create(5, 1), Orientation::Vertical);
    assert_eq!(starting_board, board);
    board = board.place_wall(create(1, 3), Orientation::Vertical);
    assert_eq!(starting_board, board);
    board = board.place_wall(create(5, 3), Orientation::Vertical);
    assert_eq!(starting_board, board);
}

#[test]
fn test_wall_cant_be_placed_on_wall() {
    let start_board = Board::create()
        .set_width(10)
        .set_height(10)
        .place_wall(create(4, 5), Orientation::Horizontal);

    let mut board = start_board.place_wall(create(4, 5), Orientation::Vertical);
    assert_eq!(start_board, board);

    board = start_board.place_wall(create(3, 5), Orientation::Horizontal);
    assert_eq!(start_board, board);

    let start_board2 = Board::create()
        .set_width(10)
        .set_height(10)
        .place_wall(create(4, 5), Orientation::Vertical);

    board = start_board2.place_wall(create(4, 6), Orientation::Vertical);
    assert_eq!(start_board2, board);

    board = start_board2.place_wall(create(4, 4), Orientation::Vertical);
    assert_eq!(start_board2, board);
}

#[test]
fn test_pawn_cant_pawn_move_though_wall() {
    let start_board = Board::create()
        .set_width(10)
        .set_height(10)
        .set_pawn(0, create(5, 5));
    assert!(start_board.can_move(0, Direction::Up));
    assert!(start_board.can_move(0, Direction::Right));
    assert!(start_board.can_move(0, Direction::Down));
    assert!(start_board.can_move(0, Direction::Left));

    let board = start_board.place_wall(create(5, 5), Orientation::Horizontal);
    assert!(!board.can_move(0, Direction::Up));

    let board = start_board.place_wall(create(4, 5), Orientation::Horizontal);
    assert!(!board.can_move(0, Direction::Up));

    let board = start_board.place_wall(create(5, 5), Orientation::Vertical);
    assert!(!board.can_move(0, Direction::Right));

    let board = start_board.place_wall(create(5, 4), Orientation::Vertical);
    assert!(!board.can_move(0, Direction::Right));

    let board = start_board.place_wall(create(4, 5), Orientation::Vertical);
    assert!(!board.can_move(0, Direction::Left));

    let board = start_board.place_wall(create(4, 4), Orientation::Vertical);
    assert!(!board.can_move(0, Direction::Left));

    let board = start_board.place_wall(create(4, 4), Orientation::Horizontal);
    assert!(!board.can_move(0, Direction::Down));

    let board = start_board.place_wall(create(5, 4), Orientation::Horizontal);
    assert!(!board.can_move(0, Direction::Down));
}

#[test]
fn test_can_move() {
    let mut board = Board::create_default();
    assert!(!board.can_move(0, Direction::Down));
    assert!(board.can_move(0, Direction::Up));
    assert!(!board.can_move(1, Direction::Up));
    assert!(board.can_move(1, Direction::Down));

    board = board.set_pawn(0, create(0, 0));
    assert!(!board.can_move(0, Direction::Left));
    assert!(!board.can_move(0, Direction::Down));
    assert!(board.can_move(0, Direction::Up));
    assert!(board.can_move(0, Direction::Right));
}

#[test]
fn edge_case_wall_placement() {
    let board = Board::create_default()
        .place_wall(create(0, 0), Orientation::Vertical)
        .place_wall(create(1, 1), Orientation::Vertical);

    assert!(board.has_wall(create(0, 0), Orientation::Vertical));
    assert!(board.has_wall(create(1, 1), Orientation::Vertical));
}

#[test]
fn winning_state() {
    let mut board = quoridor::board::default_board();
    assert!(!board.is_won());
    board = board.set_pawn(0, create(3, 8));
    assert!(board.is_won());
    let _ = board.move_pawn(0, Direction::Left);
    assert!(board.is_won());
    board = board.set_pawn(0, create(0, 0));
    assert!(!board.is_won());
    board = board.set_pawn(1, create(0, 0));
    assert!(board.is_won());
}

#[test]
fn wall_cant_be_placed_on_walls() {
    let mut board = quoridor::board::default_board();
    board = board.place_wall(create(4, 4), Orientation::Vertical);
    assert_ne!(board, quoridor::board::default_board());
    let board2 = board.place_wall(create(4, 4), Orientation::Horizontal);
    assert_eq!(board, board2);
}

#[test]
fn boundary_moves_rejected_on_tiny_board() {
    let board = Board::create().set_width(1).set_height(1).set_pawn(0, create(0, 0));
    assert!(!board.can_move(0, Direction::Up));
    assert!(!board.can_move(0, Direction::Down));
    assert!(!board.can_move(0, Direction::Left));
    assert!(!board.can_move(0, Direction::Right));
}

#[test]
fn moves_off_grid_rejected_everywhere() {
    // every cell of the wall-free default grid, all four directions: a
    // step is legal exactly when it stays on the board
    for x in 0..9 {
        for y in 0..9 {
            let b = Board::create_default().set_pawn(0, create(x, y));
            assert_eq!(b.can_move(0, Direction::Left), x > 0);
            assert_eq!(b.can_move(0, Direction::Right), x < 8);
            assert_eq!(b.can_move(0, Direction::Down), y > 0);
            assert_eq!(b.can_move(0, Direction::Up), y < 8);
        }
    }
}

#[test]
fn wall_needs_room_for_its_footprint() {
    // a wall spans two cell boundaries, so the last column and the last
    // row admit no wall at all
    let board = Board::create_default();
    assert!(!board.can_place_wall(create(8, 4), Orientation::Vertical));
    assert!(!board.can_place_wall(create(4, 8), Orientation::Horizontal));
    let unchanged = board.place_wall(create(8, 4), Orientation::Vertical);
    assert_eq!(board, unchanged);
    let unchanged = board.place_wall(create(4, 8), Orientation::Horizontal);
    assert_eq!(board, unchanged);
    assert!(board.can_place_wall(create(7, 7), Orientation::Vertical));
}
