use quoridor::pawn::Pawn;
use quoridor::point::{create, Direction};

#[test]
fn move_test() {
    let pawn: Pawn = Pawn::create().set_location(5, 5);
    assert_eq!(create(5, 5), pawn.location);
    // Basic movement
    assert_eq!(create(6, 5), pawn.move_to(Direction::Right).location);
    assert_eq!(create(4, 5), pawn.move_to(Direction::Left).location);
    assert_eq!(create(5, 6), pawn.move_to(Direction::Up).location);
    assert_eq!(create(5, 4), pawn.move_to(Direction::Down).location);
}
