//! Squares of the grid and the four directions a line can run in.

use vstd::prelude::*;

verus! {

/// A square of the grid, as `(x, y)`.
pub type Square = (isize, isize);

/// The mathematical position of a square.
pub open spec fn pt(sq: Square) -> (int, int) {
    (sq.0 as int, sq.1 as int)
}

/// Whether a mathematical position can be held in a `Square`.
pub open spec fn fits(p: (int, int)) -> bool {
    isize::MIN <= p.0 <= isize::MAX && isize::MIN <= p.1 <= isize::MAX
}

/// Whether two positions share an edge.
pub open spec fn adjacent(a: (int, int), b: (int, int)) -> bool {
    ||| (a.0 == b.0 && (a.1 == b.1 + 1 || a.1 == b.1 - 1))
    ||| (a.1 == b.1 && (a.0 == b.0 + 1 || a.0 == b.0 - 1))
}

#[derive(Copy, Clone, PartialEq, Eq, Structural, Debug)]
pub enum Direction {
    U,
    D,
    L,
    R,
}

impl Direction {
    /// The position `n` steps away from `p` in this direction.
    pub open spec fn step_n(self, p: (int, int), n: int) -> (int, int) {
        match self {
            Direction::U => (p.0, p.1 + n),
            Direction::D => (p.0, p.1 - n),
            Direction::L => (p.0 - n, p.1),
            Direction::R => (p.0 + n, p.1),
        }
    }

    /// The position one step away from `p` in this direction.
    pub open spec fn step(self, p: (int, int)) -> (int, int) {
        self.step_n(p, 1)
    }

    pub open spec fn spec_opposite(&self) -> Direction {
        match self {
            Direction::U => Direction::D,
            Direction::D => Direction::U,
            Direction::L => Direction::R,
            Direction::R => Direction::L,
        }
    }

    pub open spec fn spec_perpendiculars(&self) -> (Direction, Direction) {
        match self {
            Direction::U | Direction::D => (Direction::L, Direction::R),
            Direction::L | Direction::R => (Direction::U, Direction::D),
        }
    }

    /// Moves one step from `sq`.
    pub fn apply(&self, sq: Square) -> (r: Square)
        requires
            fits(self.step(pt(sq))),
        ensures
            pt(r) == self.step(pt(sq)),
    {
        let (x, y) = sq;
        match *self {
            Direction::U => (x, y + 1),
            Direction::D => (x, y - 1),
            Direction::L => (x - 1, y),
            Direction::R => (x + 1, y),
        }
    }

    #[verifier::when_used_as_spec(spec_opposite)]
    pub fn opposite(&self) -> (r: Direction)
        ensures
            r == self.spec_opposite(),
    {
        match *self {
            Direction::U => Direction::D,
            Direction::D => Direction::U,
            Direction::L => Direction::R,
            Direction::R => Direction::L,
        }
    }

    #[verifier::when_used_as_spec(spec_perpendiculars)]
    pub fn perpendiculars(&self) -> (r: (Direction, Direction))
        ensures
            r == self.spec_perpendiculars(),
    {
        match *self {
            Direction::U | Direction::D => (Direction::L, Direction::R),
            Direction::L | Direction::R => (Direction::U, Direction::D),
        }
    }

    /// The `len` consecutive squares that start at `sq` and run in this
    /// direction.
    pub fn apply_all(&self, sq: Square, len: usize) -> (squares: Vec<Square>)
        requires
            len > 0 ==> fits(self.step_n(pt(sq), len - 1)),
        ensures
            squares@.len() == len,
            forall|i: int| 0 <= i < len ==> pt(#[trigger] squares@[i]) == self.step_n(pt(sq), i),
    {
        let mut squares: Vec<Square> = Vec::new();
        if len == 0 {
            return squares;
        }
        let mut last = sq;
        squares.push(last);
        while squares.len() < len
            invariant
                1 <= squares@.len() <= len,
                fits(self.step_n(pt(sq), len - 1)),
                pt(last) == self.step_n(pt(sq), squares@.len() - 1),
                forall|i: int|
                    0 <= i < squares@.len() ==> pt(#[trigger] squares@[i]) == self.step_n(
                        pt(sq),
                        i,
                    ),
            decreases len - squares@.len(),
        {
            last = self.apply(last);
            squares.push(last);
        }
        squares
    }

    pub fn all() -> (r: Vec<Direction>)
        ensures
            r@ == seq![Direction::U, Direction::D, Direction::L, Direction::R],
    {
        let mut r: Vec<Direction> = Vec::new();
        r.push(Direction::U);
        r.push(Direction::D);
        r.push(Direction::L);
        r.push(Direction::R);
        r
    }

    /// The letter that names the direction.
    pub open spec fn letter(&self) -> char {
        match *self {
            Direction::U => 'U',
            Direction::D => 'D',
            Direction::L => 'L',
            Direction::R => 'R',
        }
    }

    /// The direction's letter as a string.
    pub fn to_string(&self) -> (s: String)
        ensures
            s@ == seq![self.letter()],
    {
        let mut s = String::new();
        crate::piece::push_char(
            &mut s,
            match *self {
                Direction::U => 'U',
                Direction::D => 'D',
                Direction::L => 'L',
                Direction::R => 'R',
            },
        );
        s
    }

    pub fn initial() -> (r: Direction)
        ensures
            r == Direction::R,
    {
        Direction::R
    }

    /// Going there and back again changes nothing, and the two
    /// perpendiculars of a direction are each other's opposites and differ
    /// from the direction and its opposite.
    pub proof fn lemma_opposite_and_perpendiculars(self, p: (int, int))
        ensures
            self.spec_opposite().spec_opposite() == self,
            self.spec_opposite().step(self.step(p)) == p,
            self.spec_perpendiculars().0.spec_opposite() == self.spec_perpendiculars().1,
            self.spec_perpendiculars().0 != self,
            self.spec_perpendiculars().0 != self.spec_opposite(),
            self.spec_perpendiculars().1 != self,
            self.spec_perpendiculars().1 != self.spec_opposite(),
            adjacent(self.step(p), p),
    {
    }
}

} // verus!
