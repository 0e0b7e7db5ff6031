use qwirkle::linevalidator::LineValidator;
use qwirkle::piece::{Colour, Piece, Shape};

const COLOURS: [Colour; 6] = [Colour::R, Colour::O, Colour::Y, Colour::G, Colour::B, Colour::P];
const SHAPES: [Shape; 6] = [Shape::A, Shape::B, Shape::C, Shape::D, Shape::E, Shape::F];

#[test]
fn test_length1() {
    let ra = Piece::new(Colour::R, Shape::A);
    let lv = LineValidator::new(ra);
    assert!(lv.length == 1);
}

#[test]
fn test_add_same_colour() {
    let ra = Piece::new(Colour::R, Shape::A);
    let rb = Piece::new(Colour::R, Shape::B);
    let mut lv = LineValidator::new(ra);
    assert!(lv.add_piece(rb));
}

#[test]
fn test_add_same_shape() {
    let first = Piece::new(Colour::R, Shape::A);
    let second = Piece::new(Colour::G, Shape::A);
    let mut lv = LineValidator::new(first);
    assert!(lv.add_piece(second));
}

#[test]
#[should_panic]
fn test_add_identical_fail() {
    let first = Piece::new(Colour::R, Shape::A);
    let mut lv = LineValidator::new(first);
    assert!(lv.add_piece(first));
}

#[test]
#[should_panic]
fn test_duplicate_first() {
    let first = Piece::new(Colour::R, Shape::A);
    let second = Piece::new(Colour::G, Shape::A);
    let mut lv = LineValidator::new(first);
    lv.add_piece(second);
    assert!(lv.add_piece(first));
}

#[test]
#[should_panic]
fn test_change_common_feature() {
    let first = Piece::new(Colour::R, Shape::A);
    let second = Piece::new(Colour::G, Shape::A);
    let third = Piece::new(Colour::G, Shape::B);
    let lv = LineValidator::new(first);
    let lv2 = lv.clone_extend(second).unwrap();
    assert!(lv2.clone_extend(third).is_some());
}

#[test]
fn first_extension_succeeds_iff_colour_or_shape_is_shared() {
    for &c1 in COLOURS.iter() {
        for &s1 in SHAPES.iter() {
            for &c2 in COLOURS.iter() {
                for &s2 in SHAPES.iter() {
                    let t1 = Piece::new(c1, s1);
                    let t2 = Piece::new(c2, s2);
                    let r = LineValidator::new(t1).clone_extend(t2);
                    if t1 == t2 {
                        assert!(r.is_none());
                    } else {
                        assert_eq!(r.is_some(), c1 == c2 || s1 == s2);
                    }
                }
            }
        }
    }
}

#[test]
fn clone_extend_leaves_the_validator_as_it_was() {
    let lv = LineValidator::new(Piece::new(Colour::R, Shape::A));
    let a = lv.clone_extend(Piece::new(Colour::R, Shape::B)).unwrap();
    let b = lv.clone_extend(Piece::new(Colour::G, Shape::A)).unwrap();
    assert_eq!(lv.length, 1);
    assert_eq!(a.length, 2);
    assert_eq!(b.length, 2);
    // the two siblings are committed to different lines
    assert!(a.clone_extend(Piece::new(Colour::B, Shape::A)).is_none());
    assert!(b.clone_extend(Piece::new(Colour::B, Shape::A)).is_some());
}

#[test]
fn six_tiles_of_one_colour_fill_the_line() {
    let mut lv = LineValidator::new(Piece::new(Colour::R, SHAPES[0]));
    for i in 1..6 {
        lv = lv.clone_extend(Piece::new(Colour::R, SHAPES[i])).unwrap();
        assert_eq!(lv.length, i + 1);
        assert_eq!(lv.len(), i + 1);
    }
    // a full line takes nothing more
    for &c in COLOURS.iter() {
        for &s in SHAPES.iter() {
            assert!(lv.clone_extend(Piece::new(c, s)).is_none());
        }
    }
}

#[test]
fn six_tiles_of_one_shape_fill_the_line() {
    let mut lv = LineValidator::new(Piece::new(COLOURS[0], Shape::D));
    for i in 1..6 {
        assert!(lv.add_piece(Piece::new(COLOURS[i], Shape::D)));
        assert_eq!(lv.length, i + 1);
    }
    assert!(!lv.add_piece(Piece::new(Colour::R, Shape::D)));
    assert!(!lv.add_piece(Piece::new(Colour::R, Shape::A)));
    assert_eq!(lv.length, 6);
}

#[test]
fn sealed_validator_rejects_everything() {
    let mut lv = LineValidator::new(Piece::new(Colour::R, Shape::A));
    lv.seal();
    assert_eq!(lv.length, 6);
    for &c in COLOURS.iter() {
        for &s in SHAPES.iter() {
            assert!(lv.clone_extend(Piece::new(c, s)).is_none());
            assert!(!lv.add_piece(Piece::new(c, s)));
        }
    }
    let mut lv2 = LineValidator::new(Piece::new(Colour::R, Shape::A));
    assert!(lv2.add_piece(Piece::new(Colour::R, Shape::B)));
    lv2.seal();
    assert!(lv2.clone_extend(Piece::new(Colour::R, Shape::C)).is_none());
}

#[test]
fn repeated_shape_in_a_colour_line_is_refused() {
    let mut lv = LineValidator::new(Piece::new(Colour::R, Shape::A));
    assert!(lv.add_piece(Piece::new(Colour::R, Shape::B)));
    assert!(lv.add_piece(Piece::new(Colour::R, Shape::C)));
    assert!(!lv.add_piece(Piece::new(Colour::R, Shape::B)));
    assert!(!lv.add_piece(Piece::new(Colour::R, Shape::A)));
    assert!(!lv.add_piece(Piece::new(Colour::G, Shape::D)));
    assert_eq!(lv.length, 3);
    assert!(lv.add_piece(Piece::new(Colour::R, Shape::D)));
    assert_eq!(lv.length, 4);
}

#[test]
fn repeated_colour_in_a_shape_line_is_refused() {
    let mut lv = LineValidator::new(Piece::new(Colour::R, Shape::A));
    assert!(lv.add_piece(Piece::new(Colour::G, Shape::A)));
    assert!(!lv.add_piece(Piece::new(Colour::G, Shape::A)));
    assert!(!lv.add_piece(Piece::new(Colour::R, Shape::A)));
    assert!(!lv.add_piece(Piece::new(Colour::R, Shape::B)));
    assert_eq!(lv.length, 2);
}
