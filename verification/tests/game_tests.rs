use qwirkle::board::Board;
use qwirkle::direction::Direction;
use qwirkle::gamestate::GameState;
use qwirkle::mv::Move;
use qwirkle::partial::Partial;
use qwirkle::piece::{make_bag, Colour, Piece, Shape};
use qwirkle::player::PlayerState;
use qwirkle::search::best_move;

fn red(s: Shape) -> Piece {
    Piece::new(Colour::R, s)
}

fn count(bag: &Vec<Piece>, p: Piece) -> usize {
    bag.iter().filter(|&&q| q == p).count()
}

#[test]
fn best_move_places_three_red_tiles_in_one_line() {
    let mut game = GameState::new(1);
    let hand = vec![red(Shape::A), red(Shape::B), red(Shape::C)];
    game.players[0].bag = hand.clone();
    match game.generate_best_move() {
        Some(Move::PlacePieces(sq, d, pieces, score)) => {
            assert_eq!(sq, (0, 0));
            assert!(d == Direction::R);
            assert_eq!(pieces, hand);
            assert_eq!(score, 3);
        }
        other => panic!("expected a placement, got {:?}", other),
    }
    // a single tile alone scores 1
    let mut single = Partial::new((0, 0), &Direction::R, red(Shape::A));
    assert!(game.board.allows(&mut single));
    assert_eq!(single.total_score(), 1);
}

#[test]
fn best_move_keeps_the_first_of_equal_scores() {
    let board = Board::new();
    let hand = vec![red(Shape::B), Piece::new(Colour::G, Shape::D)];
    let starts = vec![((0, 0), Direction::R), ((0, 0), Direction::U)];
    let (score, mv) = best_move(&board, &hand, &starts);
    assert_eq!(score, 1);
    match mv {
        Move::PlacePieces(sq, d, pieces, s) => {
            assert_eq!(sq, (0, 0));
            assert!(d == Direction::R);
            assert_eq!(pieces, vec![red(Shape::B)]);
            assert_eq!(s, 1);
        }
        Move::SwapPieces => panic!("expected a placement"),
    }
}

#[test]
fn best_move_without_tiles_or_starts_is_a_swap() {
    let board = Board::new();
    let (score, mv) = best_move(&board, &vec![], &vec![((0, 0), Direction::R)]);
    assert_eq!(score, 0);
    assert!(matches!(mv, Move::SwapPieces));
    let (score, mv) = best_move(&board, &vec![red(Shape::A)], &vec![]);
    assert_eq!(score, 0);
    assert!(matches!(mv, Move::SwapPieces));
}

#[test]
fn best_move_uses_the_tiles_on_the_board() {
    let mut board = Board::new();
    board.put(
        (0, 0),
        &Direction::R,
        &vec![red(Shape::A), red(Shape::B), red(Shape::C), red(Shape::D), red(Shape::E)],
    );
    let hand = vec![Piece::new(Colour::G, Shape::A), red(Shape::F)];
    let starts = board.get_start_squares();
    let (score, mv) = best_move(&board, &hand, &starts);
    // the sixth red tile closes the line; laid out across it, the tile
    // counts once more as a line of its own
    assert_eq!(score, 13);
    match mv {
        Move::PlacePieces(sq, d, pieces, s) => {
            assert!(sq == (5, 0) || sq == (-1, 0));
            assert!(d == Direction::U || d == Direction::D);
            assert_eq!(pieces, vec![red(Shape::F)]);
            assert_eq!(s, 13);
        }
        Move::SwapPieces => panic!("expected a placement"),
    }
    // along the line it scores the line alone
    let along = vec![((5, 0), Direction::R)];
    let (score, _) = best_move(&board, &hand, &along);
    assert_eq!(score, 12);
}

#[test]
fn generate_best_move_from_gives_what_the_search_finds() {
    let mut game = GameState::new(2);
    game.players[0].bag = vec![red(Shape::A), Piece::new(Colour::G, Shape::A)];
    let starts = vec![((0, 0), Direction::U)];
    match game.generate_best_move_from(&starts) {
        Some(Move::PlacePieces(sq, d, pieces, score)) => {
            assert_eq!(sq, (0, 0));
            assert!(d == Direction::U);
            assert_eq!(pieces, vec![red(Shape::A), Piece::new(Colour::G, Shape::A)]);
            assert_eq!(score, 2);
        }
        other => panic!("expected a placement, got {:?}", other),
    }
    // nothing to place, tiles left in the supply: a swap
    game.players[0].bag = vec![];
    assert!(matches!(game.generate_best_move(), Some(Move::SwapPieces)));
}

#[test]
fn no_move_when_nothing_fits_and_the_supply_is_empty() {
    // 18 players take the whole supply
    let mut game = GameState::new(18);
    game.players[0].bag = vec![];
    assert!(game.generate_best_move().is_none());
    game.players[0].bag = vec![red(Shape::A)];
    assert!(matches!(game.generate_best_move(), Some(Move::PlacePieces(_, _, _, 1))));
}

#[test]
fn new_game_deals_six_tiles_to_each_player() {
    let game = GameState::new(2);
    assert_eq!(game.players.len(), 2);
    assert_eq!(game.turn, 0);
    assert_eq!(game.total_score(), 0);
    let mut all: Vec<Piece> = Vec::new();
    for p in game.players.iter() {
        assert_eq!(p.bag.len(), 6);
        assert_eq!(p.score, 0);
        all.extend(p.bag.iter().cloned());
    }
    assert!(game.board.get((0, 0)).is_none());
    assert_eq!(game.board.get_start_squares().len(), 1);
    // twelve tiles of the full supply, none more than three times
    for p in make_bag() {
        assert!(count(&all, p) <= 3);
    }
}

#[test]
fn new_game_with_more_players_than_tiles() {
    let game = GameState::new(20);
    assert_eq!(game.players.len(), 20);
    for (i, p) in game.players.iter().enumerate() {
        assert_eq!(p.bag.len(), if i < 18 { 6 } else { 0 });
    }
    assert_eq!(GameState::new(0).players.len(), 0);
    assert_eq!(GameState::new(-3).players.len(), 0);
}

#[test]
fn total_score_adds_the_players_up() {
    let mut game = GameState::new(3);
    game.players[0].score = 5;
    game.players[1].score = 12;
    game.players[2].score = 1;
    assert_eq!(game.total_score(), 18);
}

#[test]
fn apply_move_places_scores_refills_and_passes_the_turn() {
    let mut game = GameState::new(2);
    let ra = red(Shape::A);
    let rb = red(Shape::B);
    let gc = Piece::new(Colour::G, Shape::C);
    game.players[0].bag = vec![ra, gc, rb, ra];
    let other = game.players[1].bag.clone();
    game.apply_move(&Move::PlacePieces((0, 0), Direction::R, vec![ra, rb], 2));
    assert_eq!(game.board.get((0, 0)), Some(ra));
    assert_eq!(game.board.get((1, 0)), Some(rb));
    assert_eq!(game.players[0].score, 2);
    assert_eq!(game.players[1].score, 0);
    assert_eq!(game.players[1].bag, other);
    assert_eq!(game.turn, 1);
    // both red As left the hand; the green tile stayed in front
    assert_eq!(game.players[0].bag.len(), 6);
    assert_eq!(game.players[0].bag[0], gc);

    game.apply_move(&Move::SwapPieces);
    assert_eq!(game.turn, 0);
    assert_eq!(game.players[1].bag.len(), 6);
    assert_eq!(game.players[1].score, 0);
    assert_eq!(game.total_score(), 2);
}

#[test]
fn player_state_starts_empty() {
    let ps = PlayerState::new();
    assert!(ps.bag.is_empty());
    assert_eq!(ps.score, 0);
}

#[test]
fn save_as_move_carries_the_placement() {
    let board = Board::new();
    let mut partial = Partial::new((3, -2), &Direction::D, red(Shape::A));
    assert!(board.allows(&mut partial));
    let mut two = partial.try_extend(red(Shape::E)).unwrap();
    assert!(board.allows(&mut two));
    match two.save_as_move() {
        Move::PlacePieces(sq, d, pieces, score) => {
            assert_eq!(sq, (3, -2));
            assert!(d == Direction::D);
            assert_eq!(pieces, vec![red(Shape::A), red(Shape::E)]);
            assert_eq!(score, 2);
        }
        Move::SwapPieces => panic!("expected a placement"),
    }
    assert_eq!(two.last_square, (3, -3));
}

#[test]
fn a_whole_game_comes_to_an_end() {
    let mut game = GameState::new(2);
    let mut turns = 0;
    while turns < 400 {
        let chosen = match game.generate_best_move() {
            None => break,
            Some(m) => m,
        };
        if let Move::PlacePieces(sq, d, pieces, score) = &chosen {
            let last = d.apply_all(*sq, pieces.len())[pieces.len() - 1];
            if !Board::is_on_grid(*sq) || !Board::is_on_grid(last) {
                break;
            }
            assert!(*score >= 1);
            assert!(pieces.len() >= 1 && pieces.len() <= 6);
        }
        game.apply_move(&chosen);
        turns += 1;
    }
    assert!(turns > 0);
    assert!(game.total_score() > 0);
}
