use quoridor::game::{Quoridor, Turn};
use quoridor::point::{create, Direction};
use quoridor::wall::Orientation;

#[test]
fn test_create_two_player_game() {
    let game = Quoridor::new_two_player();
    assert_eq!(2, game.number_of_players());
    assert_eq!(0, game.current_player());
    assert_eq!(10, game.walls_left(0));
    assert_eq!(10, game.walls_left(1));
    assert_eq!(create(4, 0), game.pawn(0));
    assert_eq!(create(4, 8), game.pawn(1));
}

#[test]
fn test_can_move_pawn() {
    let mut game = Quoridor::new_two_player();
    assert_eq!(0, game.current_player());
    game.move_pawn(Direction::Up);
    assert_eq!(create(4, 1), game.pawn(0));
}

#[test]
fn test_turn_swaps() {
    let mut game = Quoridor::new_two_player();
    assert_eq!(0, game.current_player());
    game.move_pawn(Direction::Up);
    assert_eq!(1, game.current_player());
}

#[test]
fn test_wall_left() {
    let mut game = Quoridor::new_two_player();
    assert_eq!(10, game.walls_left(0));
    game.place_wall(create(4, 4), Orientation::Vertical);
}

#[test]
fn can_win() {
    let mut game = Quoridor::new_two_player();
    assert!(!game.has_won());
    let move_list = [
        Direction::Up,
        Direction::Down,
        Direction::Up,
        Direction::Right,
        Direction::Up,
        Direction::Down,
        Direction::Up,
        Direction::Down,
        Direction::Up,
        Direction::Down,
        Direction::Up,
        Direction::Down,
        Direction::Up,
        Direction::Down,
    ];
    for m in move_list.iter() {
        game.move_pawn(*m);
        assert!(!game.has_won());
    }

    game.move_pawn(Direction::Up);

    assert!(game.has_won());

    game.move_pawn(Direction::Down);
    game.move_pawn(Direction::Down);
    assert!(!game.has_won());
    game.move_pawn(Direction::Down);
    assert!(game.has_won());
}

#[test]
fn test_playing() {
    let mut game = Quoridor::new_two_player();
    let invalid = Turn::MovePawn(Direction::Down);
    let valid = Turn::MovePawn(Direction::Up);
    assert!(!game.play(invalid));
    assert!(game.play(valid));
}

#[test]
fn turn_alternation() {
    let mut game = Quoridor::new_two_player();
    assert_eq!(0, game.current_player());
    // a rejected turn leaves the player on turn
    assert!(!game.play(Turn::MovePawn(Direction::Down)));
    assert_eq!(0, game.current_player());
    // a single accepted turn hands play to the other player
    assert!(game.play(Turn::MovePawn(Direction::Up)));
    assert_eq!(1, game.current_player());
}

#[test]
fn wall_placement_spends_budget_and_logs_turn() {
    let mut game = Quoridor::new_two_player();
    assert!(game.play(Turn::PlaceWall(create(4, 4), Orientation::Horizontal)));
    assert_eq!(9, game.walls_left(0));
    assert_eq!(10, game.walls_left(1));
    assert_eq!(1, game.current_player());
    assert_eq!(1, game.history().len());
    assert!(game.get_board().has_wall(create(4, 4), Orientation::Horizontal));
}

#[test]
fn wall_budget_exhausted() {
    let mut game = Quoridor::new_two_player();
    // vertical walls never block a row crossing, so all of these are legal
    for x in [0, 2, 4, 6] {
        for y in [0, 2, 4, 6] {
            assert!(game.play(Turn::PlaceWall(create(x, y), Orientation::Vertical)));
        }
    }
    for x in [1, 3, 5, 7] {
        assert!(game.play(Turn::PlaceWall(create(x, 7), Orientation::Vertical)));
    }
    assert_eq!(0, game.walls_left(0));
    assert_eq!(0, game.walls_left(1));
    assert!(!game.is_valid(Turn::PlaceWall(create(1, 1), Orientation::Vertical)));
    assert!(!game.play(Turn::PlaceWall(create(1, 1), Orientation::Vertical)));
}

#[test]
fn completing_a_blockade_is_rejected() {
    let mut game = Quoridor::new_two_player();
    // five walls build a barrier with a single way through at the far column
    assert!(game.play(Turn::PlaceWall(create(0, 2), Orientation::Horizontal)));
    assert!(game.play(Turn::PlaceWall(create(2, 2), Orientation::Horizontal)));
    assert!(game.play(Turn::PlaceWall(create(4, 2), Orientation::Horizontal)));
    assert!(game.play(Turn::PlaceWall(create(6, 2), Orientation::Horizontal)));
    assert!(game.play(Turn::PlaceWall(create(7, 2), Orientation::Vertical)));
    // the sixth would seal both pawns away from their goal rows
    let blocking = Turn::PlaceWall(create(7, 1), Orientation::Horizontal);
    assert!(!game.is_valid(blocking));
    let before = game.current_player();
    assert!(!game.play(blocking));
    assert_eq!(before, game.current_player());
    // and the game can still go on with a legal move
    assert!(game.play(Turn::MovePawn(Direction::Down)));
}

#[test]
fn win_detection_rows() {
    let mut game = Quoridor::new_two_player();
    // player 0 climbs towards row 8 while player 1 shuffles sideways
    let mut row = 0;
    while row < 7 {
        game.move_pawn(Direction::Up);
        row += 1;
        if row % 2 == 1 {
            game.move_pawn(Direction::Left);
        } else {
            game.move_pawn(Direction::Right);
        }
    }
    assert_eq!(create(4, 7), game.pawn(0));
    assert!(!game.has_won());
    game.move_pawn(Direction::Up);
    assert_eq!(create(4, 8), game.pawn(0));
    assert!(game.has_won());
}

#[test]
fn history_encodes_turns() {
    let mut game = Quoridor::new_two_player();
    assert_eq!("", game.history_to_str());
    assert!(game.play(Turn::MovePawn(Direction::Up)));
    assert!(game.play(Turn::PlaceWall(create(4, 4), Orientation::Horizontal)));
    assert!(game.play(Turn::MovePawn(Direction::Left)));
    assert_eq!("Up\n4,4,Horizontal\nLeft\n", game.history_to_str());
    assert_eq!(3, game.history().len());
}

#[test]
fn history_encodes_vertical_walls() {
    let mut game = Quoridor::new_two_player();
    assert!(game.play(Turn::PlaceWall(create(7, 0), Orientation::Vertical)));
    assert_eq!("7,0,Vertical\n", game.history_to_str());
}
