//! Tiles, and the supply they are drawn from.

use rand::seq::SliceRandom;
use vstd::prelude::*;

verus! {

/// A collection of tiles: the shared supply, or a player's hand.
pub type Bag = Vec<Piece>;

#[derive(Copy, Clone, PartialEq, Eq, Structural, Debug)]
pub enum Colour {
    R,
    O,
    Y,
    G,
    B,
    P,
}

impl Colour {
    pub open spec fn spec_index(&self) -> usize {
        match *self {
            Colour::R => 0,
            Colour::O => 1,
            Colour::Y => 2,
            Colour::G => 3,
            Colour::B => 4,
            Colour::P => 5,
        }
    }

    /// The colour with the given index; `P` for an index past the last.
    pub open spec fn of_index(i: int) -> Colour {
        if i == 0 {
            Colour::R
        } else if i == 1 {
            Colour::O
        } else if i == 2 {
            Colour::Y
        } else if i == 3 {
            Colour::G
        } else if i == 4 {
            Colour::B
        } else {
            Colour::P
        }
    }

    #[verifier::when_used_as_spec(spec_index)]
    pub fn index(&self) -> (i: usize)
        ensures
            i == self.spec_index(),
            i < 6,
            Colour::of_index(i as int) == *self,
    {
        match *self {
            Colour::R => 0,
            Colour::O => 1,
            Colour::Y => 2,
            Colour::G => 3,
            Colour::B => 4,
            Colour::P => 5,
        }
    }
}

#[derive(Copy, Clone, PartialEq, Eq, Structural, Debug)]
pub enum Shape {
    A,
    B,
    C,
    D,
    E,
    F,
}

impl Shape {
    pub open spec fn spec_index(&self) -> usize {
        match *self {
            Shape::A => 0,
            Shape::B => 1,
            Shape::C => 2,
            Shape::D => 3,
            Shape::E => 4,
            Shape::F => 5,
        }
    }

    /// The shape with the given index; `F` for an index past the last.
    pub open spec fn of_index(i: int) -> Shape {
        if i == 0 {
            Shape::A
        } else if i == 1 {
            Shape::B
        } else if i == 2 {
            Shape::C
        } else if i == 3 {
            Shape::D
        } else if i == 4 {
            Shape::E
        } else {
            Shape::F
        }
    }

    #[verifier::when_used_as_spec(spec_index)]
    pub fn index(&self) -> (i: usize)
        ensures
            i == self.spec_index(),
            i < 6,
            Shape::of_index(i as int) == *self,
    {
        match *self {
            Shape::A => 0,
            Shape::B => 1,
            Shape::C => 2,
            Shape::D => 3,
            Shape::E => 4,
            Shape::F => 5,
        }
    }
}

#[derive(Copy, Clone, PartialEq, Eq, Structural, Debug)]
pub struct Piece {
    pub colour: Colour,
    pub shape: Shape,
}

/// The character that names the `i`-th colour or shape: `'1'` for index 0
/// up to `'6'` for index 5.
pub open spec fn label(i: int) -> char {
    if i == 0 {
        '1'
    } else if i == 1 {
        '2'
    } else if i == 2 {
        '3'
    } else if i == 3 {
        '4'
    } else if i == 4 {
        '5'
    } else {
        '6'
    }
}

pub(crate) fn label_of(i: usize) -> (c: char)
    ensures
        c == label(i as int),
{
    if i == 0 {
        '1'
    } else if i == 1 {
        '2'
    } else if i == 2 {
        '3'
    } else if i == 3 {
        '4'
    } else if i == 4 {
        '5'
    } else {
        '6'
    }
}

/// `String::push` of std: appends one character to the string.
#[verifier::external_body]
pub(crate) fn push_char(s: &mut String, c: char)
    ensures
        final(s)@ == old(s)@.push(c),
{
    s.push(c);
}

impl Piece {
    pub fn new(colour: Colour, shape: Shape) -> (p: Piece)
        ensures
            p == (Piece { colour, shape }),
    {
        Piece { colour, shape }
    }

    /// Two tiles can stand in one line only if they share a colour or a
    /// shape.
    pub open spec fn compatible(self, other: Piece) -> bool {
        self.colour == other.colour || self.shape == other.shape
    }

    /// Two characters: the colour's label, then the shape's.
    pub fn to_string(&self) -> (s: String)
        ensures
            s@ == seq![label(self.colour.spec_index() as int), label(self.shape.spec_index() as int)],
    {
        let mut s = String::new();
        push_char(&mut s, label_of(self.colour.index()));
        push_char(&mut s, label_of(self.shape.index()));
        s
    }
}

/// The tile that stands at position `i` of a full supply: three copies of
/// each of the 36 tiles, colour by colour and, within a colour, shape by
/// shape.
pub open spec fn bag_piece(i: int) -> Piece {
    Piece { colour: Colour::of_index(i / 18), shape: Shape::of_index((i / 3) % 6) }
}

fn colour_at(i: usize) -> (c: Colour)
    ensures
        c == Colour::of_index(i as int),
{
    if i == 0 {
        Colour::R
    } else if i == 1 {
        Colour::O
    } else if i == 2 {
        Colour::Y
    } else if i == 3 {
        Colour::G
    } else if i == 4 {
        Colour::B
    } else {
        Colour::P
    }
}

fn shape_at(i: usize) -> (s: Shape)
    ensures
        s == Shape::of_index(i as int),
{
    if i == 0 {
        Shape::A
    } else if i == 1 {
        Shape::B
    } else if i == 2 {
        Shape::C
    } else if i == 3 {
        Shape::D
    } else if i == 4 {
        Shape::E
    } else {
        Shape::F
    }
}

/// A full supply of 108 tiles.
pub fn make_bag() -> (bag: Bag)
    ensures
        bag@.len() == 108,
        forall|i: int| 0 <= i < 108 ==> #[trigger] bag@[i] == bag_piece(i),
{
    let mut res: Vec<Piece> = Vec::new();
    let mut i: usize = 0;
    while i < 108
        invariant
            i <= 108,
            res@.len() == i,
            forall|j: int| 0 <= j < i ==> #[trigger] res@[j] == bag_piece(j),
        decreases 108 - i,
    {
        res.push(Piece::new(colour_at(i / 18), shape_at((i / 3) % 6)));
        i += 1;
    }
    res
}

/// `SliceRandom::shuffle` of rand, with the thread's generator: reorders
/// the tiles in place. Which order comes out is left open; the tiles
/// themselves stay the same.
#[verifier::external_body]
fn shuffle(bag: &mut Vec<Piece>)
    ensures
        final(bag)@.to_multiset() == old(bag)@.to_multiset(),
{
    let mut rng = rand::thread_rng();
    bag.as_mut_slice().shuffle(&mut rng);
}

/// How many tiles a hand of `hand` tiles takes from a supply of `supply`
/// tiles: enough to hold six, as far as the supply goes.
pub open spec fn draw_count(hand: int, supply: int) -> int {
    let want = if hand < 6 {
        6 - hand
    } else {
        0
    };
    if want <= supply {
        want
    } else {
        supply
    }
}

/// Moves tiles from the end of `main_bag` to the end of `player_bag`, one
/// by one, until the player holds six or the supply is empty.
pub fn draw(player_bag: &mut Bag, main_bag: &mut Bag)
    ensures
        final(main_bag)@ == old(main_bag)@.take(
            old(main_bag)@.len() - draw_count(old(player_bag)@.len() as int, old(main_bag)@.len() as int),
        ),
        final(player_bag)@ == old(player_bag)@ + Seq::new(
            draw_count(old(player_bag)@.len() as int, old(main_bag)@.len() as int) as nat,
            |i: int| old(main_bag)@[old(main_bag)@.len() - 1 - i],
        ),
        final(player_bag)@.to_multiset().add(final(main_bag)@.to_multiset()) == old(
            player_bag,
        )@.to_multiset().add(old(main_bag)@.to_multiset()),
{
    let ghost hand0 = player_bag@;
    let ghost main0 = main_bag@;
    let ghost k = draw_count(hand0.len() as int, main0.len() as int);
    let mut taken: usize = 0;
    while player_bag.len() < 6 && main_bag.len() > 0
        invariant
            hand0 == old(player_bag)@,
            main0 == old(main_bag)@,
            k == draw_count(hand0.len() as int, main0.len() as int),
            0 <= taken <= k,
            main_bag@ == main0.take(main0.len() - taken),
            player_bag@ == hand0 + Seq::new(taken as nat, |i: int| main0[main0.len() - 1 - i]),
            player_bag@.to_multiset().add(main_bag@.to_multiset()) == hand0.to_multiset().add(
                main0.to_multiset(),
            ),
        decreases main_bag@.len(),
    {
        let ghost hand_before = player_bag@;
        let ghost main_before = main_bag@;
        match main_bag.pop() {
            Some(piece) => {
                player_bag.push(piece);
                proof {
                    assert(main_before == main_bag@.push(piece));
                    vstd::seq_lib::to_multiset_build(main_bag@, piece);
                    vstd::seq_lib::to_multiset_build(hand_before, piece);
                    assert(player_bag@.to_multiset().add(main_bag@.to_multiset())
                        =~= hand_before.to_multiset().add(main_before.to_multiset()));
                }
            },
            None => {},
        }
        taken += 1;
    }
}

/// Whether `hand1` and `supply1` can come of refilling the hand `hand0`
/// from the supply `supply0`: the hand keeps its tiles and takes as many
/// more as `draw_count` says, the supply loses as many, and the tiles that
/// hand and supply hold together are the same as before.
pub open spec fn refilled(
    hand0: Seq<Piece>,
    supply0: Seq<Piece>,
    hand1: Seq<Piece>,
    supply1: Seq<Piece>,
) -> bool {
    &&& hand1.len() == hand0.len() + draw_count(hand0.len() as int, supply0.len() as int)
    &&& supply1.len() == supply0.len() - draw_count(hand0.len() as int, supply0.len() as int)
    &&& hand1.take(hand0.len() as int) == hand0
    &&& hand1.to_multiset().add(supply1.to_multiset()) == hand0.to_multiset().add(
        supply0.to_multiset(),
    )
}

/// Shuffles the supply, then refills the player's hand from it to six
/// tiles, as far as the supply goes.
///
/// Which tiles the player gets depends on the shuffle; the clause says what
/// holds of every outcome.
pub fn resupply_player_mutate(player_bag: &mut Bag, main_bag: &mut Bag)
    ensures
        refilled(old(player_bag)@, old(main_bag)@, final(player_bag)@, final(main_bag)@),
{
    shuffle(main_bag);
    proof {
        old(main_bag)@.to_multiset_ensures();
        main_bag@.to_multiset_ensures();
    }
    draw(player_bag, main_bag);
    assert(player_bag@.take(old(player_bag)@.len() as int) =~= old(player_bag)@);
}

} // verus!
