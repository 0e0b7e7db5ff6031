use qwirkle::direction::Direction;
use qwirkle::piece::{draw, make_bag, resupply_player_mutate, Colour, Piece, Shape};

#[test]
fn make_bag_should_produce_108_pieces() {
    assert!(make_bag().len() == 108);
}

#[test]
fn make_bag_should_produce_18_red_pieces() {
    assert!(make_bag().iter().filter(|&piece| piece.colour == Colour::R).count() == 18);
}

#[test]
fn make_bag_should_produce_3_red_shape_a() {
    assert!(
        make_bag()
            .iter()
            .filter(|&piece| piece.colour == Colour::R && piece.shape == Shape::A)
            .count()
            == 3
    );
}

#[test]
fn resupply_should_not_change_anything_if_player_has_6_pieces() {
    let mut player_bag = vec![
        Piece::new(Colour::R, Shape::A),
        Piece::new(Colour::O, Shape::B),
        Piece::new(Colour::Y, Shape::C),
        Piece::new(Colour::G, Shape::D),
        Piece::new(Colour::B, Shape::E),
        Piece::new(Colour::P, Shape::F),
    ];
    let mut main_bag = make_bag();
    resupply_player_mutate(&mut player_bag, &mut main_bag);
    assert!(main_bag.len() == 108);
}

#[test]
fn resupply_should_deplete_main_bag_if_player_has_5_pieces() {
    let mut player_bag = vec![
        Piece::new(Colour::R, Shape::A),
        Piece::new(Colour::O, Shape::B),
        Piece::new(Colour::Y, Shape::C),
        Piece::new(Colour::G, Shape::D),
        Piece::new(Colour::B, Shape::E),
    ];
    let mut main_bag = vec![Piece::new(Colour::P, Shape::F)];
    resupply_player_mutate(&mut player_bag, &mut main_bag);
    assert!(main_bag.len() == 0);
    assert!(player_bag.len() == 6);
}

#[test]
fn resupply_should_handle_empties_gracefully() {
    let mut player_bag = vec![];
    let mut main_bag = vec![];
    resupply_player_mutate(&mut player_bag, &mut main_bag);
    assert!(main_bag.len() == 0);
    assert!(player_bag.len() == 0);
}

#[test]
fn make_bag_is_ordered_by_colour_then_shape() {
    let bag = make_bag();
    assert_eq!(bag[0], Piece::new(Colour::R, Shape::A));
    assert_eq!(bag[2], Piece::new(Colour::R, Shape::A));
    assert_eq!(bag[3], Piece::new(Colour::R, Shape::B));
    assert_eq!(bag[17], Piece::new(Colour::R, Shape::F));
    assert_eq!(bag[18], Piece::new(Colour::O, Shape::A));
    assert_eq!(bag[107], Piece::new(Colour::P, Shape::F));
}

#[test]
fn indices_run_from_0_to_5() {
    assert_eq!(Colour::R.index(), 0);
    assert_eq!(Colour::O.index(), 1);
    assert_eq!(Colour::Y.index(), 2);
    assert_eq!(Colour::G.index(), 3);
    assert_eq!(Colour::B.index(), 4);
    assert_eq!(Colour::P.index(), 5);
    assert_eq!(Shape::A.index(), 0);
    assert_eq!(Shape::B.index(), 1);
    assert_eq!(Shape::C.index(), 2);
    assert_eq!(Shape::D.index(), 3);
    assert_eq!(Shape::E.index(), 4);
    assert_eq!(Shape::F.index(), 5);
}

#[test]
fn piece_to_string_gives_two_digits() {
    assert_eq!(Piece::new(Colour::R, Shape::A).to_string(), "11");
    assert_eq!(Piece::new(Colour::O, Shape::C).to_string(), "23");
    assert_eq!(Piece::new(Colour::P, Shape::F).to_string(), "66");
    assert_eq!(Piece::new(Colour::G, Shape::B).to_string(), "42");
}

#[test]
fn direction_to_string_gives_its_letter() {
    assert_eq!(Direction::U.to_string(), "U");
    assert_eq!(Direction::D.to_string(), "D");
    assert_eq!(Direction::L.to_string(), "L");
    assert_eq!(Direction::R.to_string(), "R");
}

#[test]
fn draw_takes_from_the_end_of_the_supply() {
    let ra = Piece::new(Colour::R, Shape::A);
    let gb = Piece::new(Colour::G, Shape::B);
    let yc = Piece::new(Colour::Y, Shape::C);
    let pd = Piece::new(Colour::P, Shape::D);
    let mut hand = vec![ra, ra, ra, ra];
    let mut supply = vec![gb, yc, pd];
    draw(&mut hand, &mut supply);
    assert_eq!(hand, vec![ra, ra, ra, ra, pd, yc]);
    assert_eq!(supply, vec![gb]);
}

#[test]
fn draw_leaves_a_hand_of_more_than_six_alone() {
    let ra = Piece::new(Colour::R, Shape::A);
    let mut hand = vec![ra; 7];
    let mut supply = vec![ra, ra];
    draw(&mut hand, &mut supply);
    assert_eq!(hand.len(), 7);
    assert_eq!(supply.len(), 2);
}

fn count(bag: &Vec<Piece>, p: Piece) -> usize {
    bag.iter().filter(|&&q| q == p).count()
}

#[test]
fn resupply_keeps_the_tiles_and_the_hand() {
    let ra = Piece::new(Colour::R, Shape::A);
    let gb = Piece::new(Colour::G, Shape::B);
    let mut hand = vec![ra, gb];
    let mut supply = make_bag();
    resupply_player_mutate(&mut hand, &mut supply);
    assert_eq!(hand.len(), 6);
    assert_eq!(supply.len(), 104);
    assert_eq!(hand[0], ra);
    assert_eq!(hand[1], gb);
    for p in make_bag() {
        let extra = if p == ra || p == gb { 1 } else { 0 };
        assert_eq!(count(&hand, p) + count(&supply, p), 3 + extra);
    }
}

#[test]
fn resupply_shuffles_the_supply() {
    let mut hand = vec![Piece::new(Colour::R, Shape::A); 6];
    let mut supply = make_bag();
    resupply_player_mutate(&mut hand, &mut supply);
    assert_eq!(supply.len(), 108);
    assert_ne!(supply, make_bag());
}
