use quoridor::point::create;
use quoridor::wall::{default_wall, Orientation};

#[test]
fn wall_clashes() {
    let mut wall_a = default_wall();
    wall_a.location = create(4, 4);
    wall_a.orientation = Orientation::Vertical;

    let mut wall_b = default_wall();
    wall_b.location = create(4, 4);
    wall_b.orientation = Orientation::Vertical;

    assert!(wall_a.clashes(wall_b));
    assert!(wall_b.clashes(wall_a));

    wall_b.location = create(4, 5);
    assert!(wall_a.clashes(wall_b));
    assert!(wall_b.clashes(wall_a));

    wall_b.location = create(5, 4);
    assert!(!wall_a.clashes(wall_b));
    assert!(!wall_b.clashes(wall_a));

    wall_b.orientation = Orientation::Horizontal;
    wall_a.orientation = Orientation::Horizontal;

    assert!(wall_a.clashes(wall_b));
    assert!(wall_b.clashes(wall_a));

    wall_b.location = create(6, 4);

    assert!(!wall_a.clashes(wall_b));
    assert!(!wall_b.clashes(wall_a));
}

#[test]
fn crossing_centre_clashes_regardless_of_orientation() {
    let mut a = default_wall();
    a.location = create(2, 7);
    a.orientation = Orientation::Horizontal;
    let mut b = default_wall();
    b.location = create(2, 7);
    b.orientation = Orientation::Vertical;
    assert!(a.clashes(b));
    assert!(b.clashes(a));
}
