use qwirkle::direction::Direction;

#[test]
fn apply_moves_one_step() {
    assert_eq!(Direction::U.apply((3, 4)), (3, 5));
    assert_eq!(Direction::D.apply((3, 4)), (3, 3));
    assert_eq!(Direction::L.apply((3, 4)), (2, 4));
    assert_eq!(Direction::R.apply((3, 4)), (4, 4));
}

#[test]
fn opposite_turns_round() {
    assert!(Direction::U.opposite() == Direction::D);
    assert!(Direction::D.opposite() == Direction::U);
    assert!(Direction::L.opposite() == Direction::R);
    assert!(Direction::R.opposite() == Direction::L);
}

#[test]
fn perpendiculars_cross_the_direction() {
    assert!(Direction::U.perpendiculars() == (Direction::L, Direction::R));
    assert!(Direction::D.perpendiculars() == (Direction::L, Direction::R));
    assert!(Direction::L.perpendiculars() == (Direction::U, Direction::D));
    assert!(Direction::R.perpendiculars() == (Direction::U, Direction::D));
}

#[test]
fn apply_all_lists_consecutive_squares() {
    assert_eq!(Direction::R.apply_all((0, 0), 3), vec![(0, 0), (1, 0), (2, 0)]);
    assert_eq!(Direction::D.apply_all((-1, 2), 4), vec![(-1, 2), (-1, 1), (-1, 0), (-1, -1)]);
    assert_eq!(Direction::L.apply_all((5, 5), 1), vec![(5, 5)]);
    assert_eq!(Direction::U.apply_all((5, 5), 0), vec![]);
}

#[test]
fn apply_all_works_at_the_edge_of_the_integers() {
    assert_eq!(
        Direction::R.apply_all((isize::MAX - 1, 0), 2),
        vec![(isize::MAX - 1, 0), (isize::MAX, 0)]
    );
}

#[test]
fn all_lists_the_four_directions() {
    assert!(Direction::all() == vec![Direction::U, Direction::D, Direction::L, Direction::R]);
    assert!(Direction::initial() == Direction::R);
}

#[test]
fn there_and_back_again() {
    for d in Direction::all() {
        assert_eq!(d.opposite().apply(d.apply((7, -3))), (7, -3));
        assert!(d.opposite().opposite() == d);
    }
}
