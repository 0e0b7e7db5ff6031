use qwirkle::board::Board;
use qwirkle::direction::{Direction, Square};
use qwirkle::linevalidator::LineValidator;
use qwirkle::partial::Partial;
use qwirkle::piece::{Colour, Piece, Shape};

const SHAPES: [Shape; 6] = [Shape::A, Shape::B, Shape::C, Shape::D, Shape::E, Shape::F];

fn red(s: Shape) -> Piece {
    Piece::new(Colour::R, s)
}

fn neighbours(sq: Square) -> Vec<Square> {
    vec![(sq.0 + 1, sq.1), (sq.0 - 1, sq.1), (sq.0, sq.1 + 1), (sq.0, sq.1 - 1)]
}

fn check_start_squares(board: &Board) {
    let starts = board.get_start_squares();
    assert!(!starts.is_empty());
    for (i, &(sq, d)) in starts.iter().enumerate() {
        assert!(board.get(sq).is_none());
        assert!(board.get(d.apply(sq)).is_none());
        assert!(neighbours(sq).iter().any(|&n| board.get(n).is_some()));
        for &(sq2, d2) in starts[i + 1..].iter() {
            assert!(!(sq == sq2 && d == d2));
        }
    }
}

#[test]
fn empty_board_has_one_start_square() {
    let board = Board::new();
    let starts = board.get_start_squares();
    assert_eq!(starts.len(), 1);
    assert_eq!(starts[0].0, (0, 0));
    assert!(starts[0].1 == Direction::R);
    assert!(board.get((0, 0)).is_none());
}

#[test]
fn get_outside_the_grid_is_empty() {
    let board = Board::new();
    assert!(board.get((25, 0)).is_none());
    assert!(board.get((-26, 0)).is_none());
    assert!(board.get((0, 1000)).is_none());
    assert!(board.get((isize::MAX, isize::MIN)).is_none());
    assert!(Board::is_on_grid((24, -25)));
    assert!(!Board::is_on_grid((25, 0)));
    assert!(!Board::is_on_grid((0, -26)));
}

#[test]
fn put_then_get_gives_the_tiles_back_in_order() {
    for d in Direction::all() {
        let mut board = Board::new();
        let tiles = vec![red(Shape::A), red(Shape::B), red(Shape::C), red(Shape::D)];
        board.put((2, -3), &d, &tiles);
        let squares = d.apply_all((2, -3), 4);
        for i in 0..4 {
            assert_eq!(board.get(squares[i]), Some(tiles[i]));
        }
        assert!(board.get(d.apply(squares[3])).is_none());
        assert!(board.get(d.opposite().apply((2, -3))).is_none());
    }
}

#[test]
fn put_reaches_the_corners_of_the_grid() {
    let mut board = Board::new();
    board.put((-25, -25), &Direction::R, &vec![red(Shape::A)]);
    board.put((24, 24), &Direction::L, &vec![red(Shape::B), red(Shape::C)]);
    assert_eq!(board.get((-25, -25)), Some(red(Shape::A)));
    assert_eq!(board.get((24, 24)), Some(red(Shape::B)));
    assert_eq!(board.get((23, 24)), Some(red(Shape::C)));
    check_start_squares(&board);
}

#[test]
fn start_squares_after_one_tile() {
    let mut board = Board::new();
    board.put((0, 0), &Direction::R, &vec![red(Shape::A)]);
    let starts = board.get_start_squares();
    // four squares round the tile, each with the three directions that lead away from it
    assert_eq!(starts.len(), 12);
    for sq in neighbours((0, 0)) {
        for d in Direction::all() {
            let there = starts.iter().any(|&(s, e)| s == sq && e == d);
            assert_eq!(there, d.apply(sq) != (0, 0));
        }
    }
    check_start_squares(&board);
}

#[test]
fn start_squares_after_several_moves() {
    let mut board = Board::new();
    board.put((0, 0), &Direction::R, &vec![red(Shape::A), red(Shape::B), red(Shape::C)]);
    check_start_squares(&board);
    board.put(
        (1, 1),
        &Direction::U,
        &vec![Piece::new(Colour::G, Shape::B), Piece::new(Colour::B, Shape::B)],
    );
    check_start_squares(&board);
    board.put((0, -1), &Direction::D, &vec![Piece::new(Colour::Y, Shape::A)]);
    check_start_squares(&board);
    // squares that took a tile have left the frontier
    let starts = board.get_start_squares();
    assert!(!starts.iter().any(|&(s, _)| s == (1, 1) || s == (0, -1)));
}

#[test]
fn a_full_line_does_not_open_the_square_after_its_end() {
    let mut board = Board::new();
    let six: Vec<Piece> = SHAPES.iter().map(|&s| red(s)).collect();
    board.put((0, 0), &Direction::R, &six);
    let starts = board.get_start_squares();
    assert!(!starts.iter().any(|&(s, _)| s == (6, 0)));
    assert!(starts.iter().any(|&(s, _)| s == (-1, 0)));
    check_start_squares(&board);

    let mut board = Board::new();
    board.put((0, 0), &Direction::R, &six[0..5].to_vec());
    let starts = board.get_start_squares();
    assert!(starts.iter().any(|&(s, _)| s == (5, 0)));
}

#[test]
fn single_tile_then_matching_neighbour() {
    let board = Board::new();
    let first = Piece::new(Colour::R, Shape::A);
    let mut partial = Partial::new((0, 0), &Direction::R, first);
    assert!(partial.main_validator.is_none());
    assert!(board.allows(&mut partial));
    assert_eq!(partial.mainline_score, 1);
    assert_eq!(partial.perp_scores, 0);
    assert_eq!(partial.total_score(), 1);

    // only a tile that shares the colour or the shape can follow
    assert!(partial.try_extend(Piece::new(Colour::G, Shape::B)).is_none());
    assert!(partial.try_extend(Piece::new(Colour::R, Shape::A)).is_none());
    assert!(partial.try_extend(Piece::new(Colour::G, Shape::A)).is_some());

    let mut two = partial.try_extend(Piece::new(Colour::R, Shape::B)).unwrap();
    assert_eq!(two.last_square, (1, 0));
    assert_eq!(two.pieces, vec![first, Piece::new(Colour::R, Shape::B)]);
    assert!(board.allows(&mut two));
    assert_eq!(two.mainline_score, 2);
    assert_eq!(two.perp_scores, 0);
}

#[test]
fn six_red_shapes_score_twelve() {
    let board = Board::new();
    let mut partial = Partial::new((0, 0), &Direction::R, red(SHAPES[0]));
    assert!(board.allows(&mut partial));
    for i in 1..6 {
        partial = partial.try_extend(red(SHAPES[i])).unwrap();
        assert!(board.allows(&mut partial));
        let expected = if i == 5 { 12 } else { i + 1 };
        assert_eq!(partial.mainline_score, expected);
    }
    assert_eq!(partial.total_score(), 12);
    assert!(partial.try_extend(Piece::new(Colour::R, Shape::A)).is_none());
}

#[test]
fn perpendicular_line_of_six_scores_twelve() {
    let mut board = Board::new();
    let five: Vec<Piece> = SHAPES[0..5].iter().map(|&s| red(s)).collect();
    board.put((0, 0), &Direction::U, &five);
    assert_eq!(board.check_perpendicular((0, 5), &Direction::R, red(Shape::F)), Some(12));
    assert_eq!(board.check_perpendicular((0, -1), &Direction::L, red(Shape::F)), Some(12));
    // a tile that is in the line already, or of another colour, is refused
    assert_eq!(board.check_perpendicular((0, 5), &Direction::R, red(Shape::A)), None);
    assert_eq!(
        board.check_perpendicular((0, 5), &Direction::R, Piece::new(Colour::G, Shape::F)),
        None
    );
    // a tile with nothing across scores nothing there
    assert_eq!(board.check_perpendicular((3, 3), &Direction::R, red(Shape::F)), Some(0));
    // beside the line, the line across has two tiles
    assert_eq!(board.check_perpendicular((1, 2), &Direction::U, red(Shape::F)), Some(2));
}

#[test]
fn perpendicular_line_joins_both_sides() {
    let mut board = Board::new();
    board.put((0, 1), &Direction::U, &vec![red(Shape::A), red(Shape::B)]);
    board.put((0, -1), &Direction::D, &vec![red(Shape::C)]);
    assert_eq!(board.check_perpendicular((0, 0), &Direction::R, red(Shape::D)), Some(4));
    assert_eq!(board.check_perpendicular((0, 0), &Direction::R, red(Shape::C)), None);
}

#[test]
fn allows_counts_tiles_behind_the_start() {
    let mut board = Board::new();
    board.put((0, 0), &Direction::R, &vec![red(Shape::A), red(Shape::B)]);
    // a third tile at the right end of the line
    let mut partial = Partial::new((2, 0), &Direction::R, red(Shape::C));
    assert!(board.allows(&mut partial));
    assert_eq!(partial.mainline_score, 3);
    assert_eq!(partial.perp_scores, 0);
    // the same tile heading up: the line of three is the line across
    let mut partial = Partial::new((2, 0), &Direction::U, red(Shape::C));
    assert!(board.allows(&mut partial));
    assert_eq!(partial.mainline_score, 1);
    assert_eq!(partial.perp_scores, 3);
    // a tile that does not fit the line
    let mut partial = Partial::new((2, 0), &Direction::R, Piece::new(Colour::G, Shape::C));
    assert!(!board.allows(&mut partial));
    assert!(partial.main_validator.is_none());
    assert_eq!(partial.mainline_score, 0);
}

#[test]
fn allows_seals_a_line_that_runs_into_tiles() {
    let mut board = Board::new();
    board.put((0, 0), &Direction::R, &vec![red(Shape::A), red(Shape::B)]);
    // a tile before the line, heading towards it
    let mut partial = Partial::new((-1, 0), &Direction::R, red(Shape::C));
    assert!(board.allows(&mut partial));
    // the line of three scores 3, and is closed to more tiles
    assert_eq!(partial.mainline_score, 3);
    assert_eq!(partial.perp_scores, 0);
    assert_eq!(partial.main_validator.unwrap().length, 6);
    assert!(partial.try_extend(red(Shape::D)).is_none());
    // a tile that the tiles ahead do not accept
    let mut partial = Partial::new((-1, 0), &Direction::R, red(Shape::B));
    assert!(!board.allows(&mut partial));
}

#[test]
fn a_tile_before_one_tile_makes_a_line_of_two() {
    let mut board = Board::new();
    board.put((2, 0), &Direction::R, &vec![red(Shape::C)]);
    let mut partial = Partial::new((1, 0), &Direction::R, red(Shape::A));
    assert!(board.allows(&mut partial));
    assert_eq!(partial.mainline_score, 2);
    assert_eq!(partial.perp_scores, 0);
    assert_eq!(partial.total_score(), 2);
    assert!(partial.try_extend(red(Shape::B)).is_none());
}

#[test]
fn a_line_that_runs_into_tiles_gets_the_bonus_only_at_six() {
    let mut board = Board::new();
    let five: Vec<Piece> = SHAPES[0..5].iter().map(|&s| red(s)).collect();
    board.put((1, 0), &Direction::R, &five);
    let mut partial = Partial::new((0, 0), &Direction::R, red(Shape::F));
    assert!(board.allows(&mut partial));
    assert_eq!(partial.mainline_score, 12);

    let mut board = Board::new();
    board.put((1, 0), &Direction::R, &five[0..4].to_vec());
    let mut partial = Partial::new((0, 0), &Direction::R, red(Shape::F));
    assert!(board.allows(&mut partial));
    assert_eq!(partial.mainline_score, 5);
}

#[test]
fn a_longer_placement_that_runs_into_tiles_counts_them_all() {
    let mut board = Board::new();
    board.put((2, 0), &Direction::R, &vec![red(Shape::C), red(Shape::D)]);
    board.put((-1, 0), &Direction::R, &vec![red(Shape::E)]);
    let mut partial = Partial::new((0, 0), &Direction::R, red(Shape::A));
    assert!(board.allows(&mut partial));
    assert_eq!(partial.mainline_score, 2);
    let mut two = partial.try_extend(red(Shape::B)).unwrap();
    assert!(board.allows(&mut two));
    // E, A, B, C, D
    assert_eq!(two.mainline_score, 5);
    assert!(two.try_extend(red(Shape::F)).is_none());
}

#[test]
fn the_walk_goes_on_after_a_refusal() {
    let mut board = Board::new();
    board.put(
        (1, 0),
        &Direction::R,
        &vec![
            Piece::new(Colour::G, Shape::A),
            Piece::new(Colour::G, Shape::B),
            Piece::new(Colour::B, Shape::A),
        ],
    );
    let mut lv = LineValidator::new(red(Shape::A));
    let mut it = board.non_blank_iter((0, 0), Direction::R);
    assert!(!lv.extend_from_iter(&mut it));
    assert_eq!(lv.length, 2);
    assert_eq!(it.next(), Some(Piece::new(Colour::B, Shape::A)));
    assert_eq!(it.next(), None);
}

#[test]
fn non_blank_iter_walks_to_the_first_gap() {
    let mut board = Board::new();
    board.put((0, 0), &Direction::R, &vec![red(Shape::A), red(Shape::B), red(Shape::C)]);
    board.put((4, 0), &Direction::R, &vec![red(Shape::D)]);
    let mut it = board.non_blank_iter((-1, 0), Direction::R);
    assert_eq!(it.next(), Some(red(Shape::A)));
    assert_eq!(it.next(), Some(red(Shape::B)));
    assert_eq!(it.next(), Some(red(Shape::C)));
    assert_eq!(it.next(), None);
    assert_eq!(it.next(), Some(red(Shape::D)));
    assert_eq!(it.next(), None);
}

#[test]
fn extend_from_iter_stops_at_the_first_refusal() {
    let mut board = Board::new();
    board.put(
        (1, 0),
        &Direction::R,
        &vec![red(Shape::B), red(Shape::C), Piece::new(Colour::G, Shape::D), red(Shape::E)],
    );
    let mut lv = LineValidator::new(red(Shape::A));
    let mut it = board.non_blank_iter((0, 0), Direction::R);
    assert!(!lv.extend_from_iter(&mut it));
    assert_eq!(lv.length, 3);
    // the walk stands on the tile that was refused
    assert_eq!(it.next(), Some(red(Shape::E)));

    let mut lv = LineValidator::new(red(Shape::A));
    let mut it = board.non_blank_iter((3, 0), Direction::L);
    assert!(lv.extend_from_iter(&mut it));
    assert_eq!(lv.length, 3);
}

#[test]
fn board_to_string_shows_the_bounding_box_and_a_margin() {
    let mut board = Board::new();
    assert_eq!(board.to_string(), ".. .. .. \n.. .. .. \n.. .. .. \n");
    board.put((0, 0), &Direction::R, &vec![red(Shape::A), Piece::new(Colour::G, Shape::B)]);
    assert_eq!(
        board.to_string(),
        ".. .. .. .. \n.. 11 42 .. \n.. .. .. .. \n"
    );
    board.put((1, 1), &Direction::U, &vec![Piece::new(Colour::P, Shape::F)]);
    assert_eq!(
        board.to_string(),
        ".. .. .. .. \n.. 11 42 .. \n.. .. 66 .. \n.. .. .. .. \n"
    );
}
