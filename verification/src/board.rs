//! The board: the tiles placed so far, the frontier of squares where a new
//! line may start, and a bounding box.
//!
//! Tiles are stored in a square grid of fixed size around the origin. A
//! square outside the grid is always empty, and no tile can be put there.

use crate::direction::{fits, pt, Direction, Square};
use crate::linevalidator::{
    legal_line, lemma_legal_prefix, lemma_validator_decides, Line, LineValidator,
};
use crate::partial::{Partial, PartialView};
use crate::piece::{label, label_of, push_char, Piece};
use crate::player::Score;
use std::collections::HashSet;
use vstd::prelude::*;
use vstd::std_specs::iter::IteratorSpec;

verus! {

/// The grid holds the squares whose coordinates are both at least `-DIM`
/// and less than `DIM`: 50 rows of 50 squares.
pub const DIM: isize = 25;

/// Whether the grid has a cell for the position.
pub open spec fn on_grid(p: (int, int)) -> bool {
    -DIM <= p.0 < DIM && -DIM <= p.1 < DIM
}

/// Whether the position is on the grid or next to it.
pub open spec fn near_grid(p: (int, int)) -> bool {
    -DIM - 1 <= p.0 <= DIM && -DIM - 1 <= p.1 <= DIM
}

/// Whether one of the four squares around `p` holds a tile.
pub open spec fn has_neighbour(tiles: Map<(int, int), Piece>, p: (int, int)) -> bool {
    ||| tiles.contains_key((p.0 + 1, p.1))
    ||| tiles.contains_key((p.0 - 1, p.1))
    ||| tiles.contains_key((p.0, p.1 + 1))
    ||| tiles.contains_key((p.0, p.1 - 1))
}

/// Whether the two squares above and below `q`, or the two squares left
/// and right of it, each hold a tile or belong to `frontier`.
#[verifier::opaque]
pub open spec fn flanked(
    tiles: Map<(int, int), Piece>,
    frontier: Set<(int, int)>,
    q: (int, int),
) -> bool {
    ||| {
        &&& tiles.contains_key((q.0, q.1 + 1)) || frontier.contains((q.0, q.1 + 1))
        &&& tiles.contains_key((q.0, q.1 - 1)) || frontier.contains((q.0, q.1 - 1))
    }
    ||| {
        &&& tiles.contains_key((q.0 + 1, q.1)) || frontier.contains((q.0 + 1, q.1))
        &&& tiles.contains_key((q.0 - 1, q.1)) || frontier.contains((q.0 - 1, q.1))
    }
}

/// The index of a grid position's cell.
spec fn cell(p: (int, int)) -> int {
    (p.0 + 25) * 50 + (p.1 + 25)
}

/// The number that stands for a position on or next to the grid in the
/// frontier set.
spec fn code(p: (int, int)) -> int {
    (p.0 + 26) * 52 + (p.1 + 26)
}

/// The position that a number of the frontier set stands for.
spec fn decode(k: int) -> (int, int) {
    (k / 52 - 26, k % 52 - 26)
}

proof fn lemma_code(p: (int, int))
    requires
        near_grid(p),
    ensures
        0 <= code(p) < 2704,
        decode(code(p)) == p,
{
}

proof fn lemma_decode(k: int)
    requires
        0 <= k < 2704,
    ensures
        near_grid(decode(k)),
        code(decode(k)) == k,
{
}

/// How far `p` lies ahead of `start` in the direction `dir`; negative for a
/// position behind it.
pub open spec fn along(dir: Direction, start: (int, int), p: (int, int)) -> int {
    match dir {
        Direction::U => p.1 - start.1,
        Direction::D => start.1 - p.1,
        Direction::L => start.0 - p.0,
        Direction::R => p.0 - start.0,
    }
}

/// Whether `p` is one of the `n` squares of the line that starts at `start`
/// and runs in the direction `dir`.
pub open spec fn on_line(start: (int, int), dir: Direction, n: int, p: (int, int)) -> bool {
    0 <= along(dir, start, p) < n && p == dir.step_n(start, along(dir, start, p))
}

/// The tiles after `pieces` were laid out from `start` in the direction
/// `dir`, one per square.
pub open spec fn placed(
    tiles: Map<(int, int), Piece>,
    start: (int, int),
    dir: Direction,
    pieces: Seq<Piece>,
) -> Map<(int, int), Piece> {
    Map::new(
        |p: (int, int)| tiles.contains_key(p) || on_line(start, dir, pieces.len() as int, p),
        |p: (int, int)|
            if on_line(start, dir, pieces.len() as int, p) {
                pieces[along(dir, start, p)]
            } else {
                tiles[p]
            },
    )
}

/// Whether `c` is a square that a line of `n` tiles from `start` in the
/// direction `dir` may open for later lines: the square before its start,
/// the square after its end unless the line is full, and the squares beside
/// it.
pub open spec fn opened_by(start: (int, int), dir: Direction, n: int, c: (int, int)) -> bool {
    ||| c == dir.spec_opposite().step(start)
    ||| (n < 6 && c == dir.step_n(start, n))
    ||| on_line(start, dir, n, dir.spec_perpendiculars().0.step(c))
    ||| on_line(start, dir, n, dir.spec_perpendiculars().1.step(c))
}

/// The frontier after a line of `n` tiles was laid out: what was there
/// before, without the squares of the line, and with the squares that the
/// line opens and that are empty in `tiles_after`.
pub open spec fn frontier_after(
    before: Set<(int, int)>,
    tiles_after: Map<(int, int), Piece>,
    start: (int, int),
    dir: Direction,
    n: int,
) -> Set<(int, int)> {
    Set::new(
        |p: (int, int)|
            (before.contains(p) && !on_line(start, dir, n, p)) || (opened_by(start, dir, n, p)
                && !tiles_after.contains_key(p)),
    )
}

/// How many squares of the grid lie at `p` or beyond it in the direction
/// `dir`, were `p` in line with the grid.
pub open spec fn room(dir: Direction, p: (int, int)) -> nat {
    match dir {
        Direction::U => if p.1 < 25 {
            (25 - p.1) as nat
        } else {
            0
        },
        Direction::D => if p.1 >= -25 {
            (p.1 + 26) as nat
        } else {
            0
        },
        Direction::L => if p.0 >= -25 {
            (p.0 + 26) as nat
        } else {
            0
        },
        Direction::R => if p.0 < 25 {
            (25 - p.0) as nat
        } else {
            0
        },
    }
}

/// The tiles met on the way from `p` in the direction `dir`, beginning with
/// the square after `p` and ending before the first empty square.
pub open spec fn run(tiles: Map<(int, int), Piece>, p: (int, int), dir: Direction) -> Seq<Piece>
    decreases room(dir, dir.step(p)),
{
    let q = dir.step(p);
    if on_grid(q) && tiles.contains_key(q) {
        seq![tiles[q]] + run(tiles, q, dir)
    } else {
        Seq::empty()
    }
}

/// Whether a step from `p` in any direction can be held in a `Square`.
pub open spec fn roomy(p: (int, int)) -> bool {
    isize::MIN < p.0 < isize::MAX && isize::MIN < p.1 < isize::MAX
}

/// What the line across the direction `dir` through `p` comes to when
/// `piece` stands on `p`: the validator that began with `piece` and was fed
/// the tiles to one side and then those to the other, and whether it took
/// them all.
pub open spec fn cross_line(
    tiles: Map<(int, int), Piece>,
    p: (int, int),
    dir: Direction,
    piece: Piece,
) -> (Line, bool) {
    Line::start(piece).feed(
        run(tiles, p, dir.spec_perpendiculars().0) + run(tiles, p, dir.spec_perpendiculars().1),
    )
}

/// What a line across the direction of play is worth: nothing where the
/// tile stands alone in it, so that no tile is counted twice.
pub open spec fn cross_score(line: Line) -> nat {
    if line.length > 1 {
        line.score()
    } else {
        0
    }
}

/// What the board makes of a placement whose tiles but the last were judged
/// before: `None` where the last tile cannot stand on its square, else the
/// placement with its scores and the state of its line brought up to date.
///
/// The line across the direction through the last square must be legal.
/// The line along the direction is begun, for a placement not judged yet,
/// with the first tile and the tiles behind the start; where tiles follow
/// the last square, the line takes them too. It is scored as long as it is
/// then, and after that sealed, so that the placement cannot grow into
/// the tiles ahead.
pub open spec fn judge(tiles: Map<(int, int), Piece>, p: PartialView) -> Option<PartialView> {
    let cross = cross_line(tiles, p.last, p.direction, p.pieces.last());
    let base = match p.validator {
        None => Line::start(p.pieces[0]).feed(run(tiles, p.start, p.direction.spec_opposite())),
        Some(line) => (line, true),
    };
    let ahead = run(tiles, p.last, p.direction);
    let full = if ahead.len() > 0 {
        base.0.feed(ahead)
    } else {
        base
    };
    let line = if ahead.len() > 0 {
        full.0.seal()
    } else {
        full.0
    };
    if cross.1 && base.1 && full.1 {
        Some(
            PartialView {
                start: p.start,
                direction: p.direction,
                pieces: p.pieces,
                last: p.last,
                mainline_score: full.0.score(),
                perp_scores: p.perp_scores + cross_score(cross.0),
                validator: Some(line),
            },
        )
    } else {
        None
    }
}

/// What is shown for a square: the tile's two characters, or two dots for
/// an empty square, and a blank after them.
pub open spec fn cell_text(tile: Option<Piece>) -> Seq<char> {
    match tile {
        None => seq!['.', '.', ' '],
        Some(p) => seq![
            label(p.colour.spec_index() as int),
            label(p.shape.spec_index() as int),
            ' ',
        ],
    }
}

/// What is shown for the squares of row `y` from column `from` up to, and
/// without, column `to`.
pub open spec fn row_text(tiles: Map<(int, int), Piece>, y: int, from: int, to: int) -> Seq<char>
    decreases to - from,
{
    if to <= from {
        Seq::empty()
    } else {
        row_text(tiles, y, from, to - 1) + cell_text(
            if tiles.contains_key((to - 1, y)) {
                Some(tiles[(to - 1, y)])
            } else {
                None
            },
        )
    }
}

/// What is shown for the rows from `from` up to, and without, `to`: each
/// row's squares between the columns `left` and `right`, and a line break.
pub open spec fn rows_text(
    tiles: Map<(int, int), Piece>,
    left: int,
    right: int,
    from: int,
    to: int,
) -> Seq<char>
    decreases to - from,
{
    if to <= from {
        Seq::empty()
    } else {
        rows_text(tiles, left, right, from, to - 1) + row_text(tiles, to - 1, left, right).push(
            '\n',
        )
    }
}

/// An inclusive bounding box.
pub struct Bounds {
    pub min_x: int,
    pub max_x: int,
    pub min_y: int,
    pub max_y: int,
}

impl Bounds {
    pub open spec fn contains(self, p: (int, int)) -> bool {
        self.min_x <= p.0 <= self.max_x && self.min_y <= p.1 <= self.max_y
    }

    /// The smallest box that holds this box and `p`.
    pub open spec fn stretch(self, p: (int, int)) -> Bounds {
        Bounds {
            min_x: if p.0 < self.min_x {
                p.0
            } else {
                self.min_x
            },
            max_x: if p.0 > self.max_x {
                p.0
            } else {
                self.max_x
            },
            min_y: if p.1 < self.min_y {
                p.1
            } else {
                self.min_y
            },
            max_y: if p.1 > self.max_y {
                p.1
            } else {
                self.max_y
            },
        }
    }
}

/// An arrangement of tiles. One board serves a whole game: it is changed
/// only by [`Board::put`].
///
/// The frontier and the bounding box could be computed from the tiles; they
/// are kept so that a search need not recompute them for every move.
pub struct Board {
    board: Vec<Option<Piece>>,
    perimeter: HashSet<u64>,
    min_x: isize,
    max_x: isize,
    min_y: isize,
    max_y: isize,
}

impl View for Board {
    type V = Map<(int, int), Piece>;

    /// The tiles on the board, by position.
    closed spec fn view(&self) -> Map<(int, int), Piece> {
        Map::new(
            |p: (int, int)| on_grid(p) && self.board@[cell(p)] is Some,
            |p: (int, int)| self.board@[cell(p)].unwrap(),
        )
    }
}

impl Board {
    /// The frontier: squares where a new line may start.
    pub closed spec fn perimeter(&self) -> Set<(int, int)> {
        Set::new(|p: (int, int)| near_grid(p) && self.perimeter@.contains(code(p) as u64))
    }

    /// The bounding box.
    pub closed spec fn bounds(&self) -> Bounds {
        Bounds {
            min_x: self.min_x as int,
            max_x: self.max_x as int,
            min_y: self.min_y as int,
            max_y: self.max_y as int,
        }
    }

    /// What the storage needs to be sound.
    pub closed spec fn rep_ok(&self) -> bool {
        &&& self.board@.len() == 2500
        &&& forall|k: u64| self.perimeter@.contains(k) ==> k < 2704
    }

    /// The board's invariant: every tile stands on the grid and inside the
    /// bounding box; every square of the frontier is empty and has a tile
    /// next to it; and every tile is flanked, across the line it was laid
    /// out in, by tiles or squares of the frontier.
    pub open spec fn wf(&self) -> bool {
        &&& self.rep_ok()
        &&& forall|p: (int, int)| #[trigger]
            self@.contains_key(p) ==> on_grid(p) && self.bounds().contains(p)
        &&& forall|p: (int, int)| #[trigger]
            self.perimeter().contains(p) ==> !self@.contains_key(p) && has_neighbour(self@, p)
                && near_grid(p)
        &&& forall|p: (int, int)| #[trigger]
            self@.contains_key(p) ==> flanked(self@, self.perimeter(), p)
        &&& self.bounds().contains((0, 0))
        &&& on_grid((self.bounds().min_x, self.bounds().min_y))
        &&& on_grid((self.bounds().max_x, self.bounds().max_y))
    }

    /// What stands on a square.
    pub open spec fn tile(&self, p: (int, int)) -> Option<Piece> {
        if self@.contains_key(p) {
            Some(self@[p])
        } else {
            None
        }
    }

    /// An empty board.
    pub fn new() -> (b: Board)
        ensures
            b.wf(),
            b@ == Map::<(int, int), Piece>::empty(),
            b.perimeter() == Set::<(int, int)>::empty(),
            b.bounds() == (Bounds { min_x: 0, max_x: 0, min_y: 0, max_y: 0 }),
    {
        let mut cells: Vec<Option<Piece>> = Vec::new();
        while cells.len() < 2500
            invariant
                cells@.len() <= 2500,
                forall|i: int| 0 <= i < cells@.len() ==> cells@[i] is None,
            decreases 2500 - cells@.len(),
        {
            cells.push(None);
        }
        let b = Board {
            board: cells,
            perimeter: HashSet::new(),
            min_x: 0,
            max_x: 0,
            min_y: 0,
            max_y: 0,
        };
        assert(b@ =~= Map::<(int, int), Piece>::empty());
        assert(b.perimeter() =~= Set::<(int, int)>::empty());
        b
    }

    /// The tile on a square, if there is one. A square outside the grid is
    /// empty.
    pub fn get(&self, sq: Square) -> (r: Option<Piece>)
        requires
            self.wf(),
        ensures
            r == self.tile(pt(sq)),
    {
        self.peek(sq)
    }

    /// Whether the grid has a cell for the square, so that a tile can be put
    /// there.
    pub fn is_on_grid(sq: Square) -> (r: bool)
        ensures
            r == on_grid(pt(sq)),
    {
        -DIM <= sq.0 && sq.0 < DIM && -DIM <= sq.1 && sq.1 < DIM
    }

    /// The board as text: the rows of the bounding box and one more on
    /// each side, the row with the least `y` first, each row from the
    /// column before the bounding box to the column after it.
    pub fn to_string(&self) -> (s: String)
        requires
            self.wf(),
        ensures
            s@ == rows_text(
                self@,
                self.bounds().min_x - 1,
                self.bounds().max_x + 2,
                self.bounds().min_y - 1,
                self.bounds().max_y + 2,
            ),
    {
        let mut output = String::new();
        let left = self.min_x - 1;
        let right = self.max_x + 2;
        let top = self.max_y + 2;
        let mut y = self.min_y - 1;
        while y < top
            invariant
                self.wf(),
                left == self.bounds().min_x - 1,
                right == self.bounds().max_x + 2,
                top == self.bounds().max_y + 2,
                self.bounds().min_y - 1 <= y <= top,
                output@ == rows_text(self@, left as int, right as int, self.bounds().min_y - 1, y as int),
            decreases top - y,
        {
            let ghost before = output@;
            let mut x = left;
            while x < right
                invariant
                    self.wf(),
                    left <= x <= right,
                    right == self.bounds().max_x + 2,
                    -27 <= y <= 27,
                    output@ == before + row_text(self@, y as int, left as int, x as int),
                decreases right - x,
            {
                let ghost so_far = output@;
                match self.get((x, y)) {
                    None => {
                        push_char(&mut output, '.');
                        push_char(&mut output, '.');
                    },
                    Some(p) => {
                        push_char(&mut output, label_of(p.colour.index()));
                        push_char(&mut output, label_of(p.shape.index()));
                    },
                }
                push_char(&mut output, ' ');
                proof {
                    assert(output@ =~= so_far + cell_text(self.tile((x as int, y as int))));
                    assert(output@ =~= before + row_text(self@, y as int, left as int, x + 1));
                }
                x += 1;
            }
            push_char(&mut output, '\n');
            proof {
                assert(output@ =~= rows_text(
                    self@,
                    left as int,
                    right as int,
                    self.bounds().min_y - 1,
                    y + 1,
                ));
            }
            y += 1;
        }
        output
    }

    /// As `get`, for a board whose frontier or bounding box is out of date.
    fn peek(&self, sq: Square) -> (r: Option<Piece>)
        requires
            self.rep_ok(),
        ensures
            r == self.tile(pt(sq)),
    {
        let (x, y) = sq;
        if x < -DIM || x >= DIM || y < -DIM || y >= DIM {
            return None;
        }
        let i: usize = ((x + DIM) * 50 + (y + DIM)) as usize;
        self.board[i]
    }

    fn stretch_bounding_box(&mut self, sq: Square)
        ensures
            final(self).bounds() == old(self).bounds().stretch(pt(sq)),
            final(self)@ == old(self)@,
            final(self).perimeter() == old(self).perimeter(),
            old(self).rep_ok() ==> final(self).rep_ok(),
    {
        let (x, y) = sq;
        if x < self.min_x {
            self.min_x = x;
        }
        if x > self.max_x {
            self.max_x = x;
        }
        if y < self.min_y {
            self.min_y = y;
        }
        if y > self.max_y {
            self.max_y = y;
        }
    }

    /// Whether a line may start on `p` and run in the direction `d`: `p` is
    /// in the frontier, and the square after it is empty too.
    pub open spec fn startable(&self, p: (int, int), d: Direction) -> bool {
        self.perimeter().contains(p) && !self@.contains_key(d.step(p))
    }

    /// Whether `r` lists the pairs of a square and a direction that a line
    /// may start with: every pair that is startable, once, and no other; or,
    /// where no pair is startable, as on an empty board, the origin with the
    /// direction `R` alone.
    pub open spec fn start_list(&self, r: Seq<(Square, Direction)>) -> bool {
        &&& r.len() >= 1
        &&& r.no_duplicates()
        &&& (exists|p: (int, int), d: Direction| self.startable(p, d)) ==> {
            &&& forall|i: int| 0 <= i < r.len() ==> self.startable(pt((#[trigger] r[i]).0), r[i].1)
            &&& forall|p: (int, int), d: Direction| #[trigger]
                self.startable(p, d) ==> exists|i: int|
                    0 <= i < r.len() && pt((#[trigger] r[i]).0) == p && r[i].1 == d
        }
        &&& !(exists|p: (int, int), d: Direction| self.startable(p, d)) ==> r == seq![
            ((0isize, 0isize), Direction::R),
        ]
    }

    /// Where a new line may start, and in which direction: every square of
    /// the frontier with every direction in which the next square is empty
    /// too, each pair once, in no particular order. Where there is no such
    /// pair, as on an empty board, the origin with the direction `R`.
    pub fn get_start_squares(&self) -> (r: Vec<(Square, Direction)>)
        requires
            self.wf(),
        ensures
            self.start_list(r@),
            forall|i: int| 0 <= i < r@.len() ==> near_grid(pt((#[trigger] r@[i]).0)),
    {
        broadcast use vstd::std_specs::hash::group_hash_axioms;

        let mut result: Vec<(Square, Direction)> = Vec::new();
        let dirs = Direction::all();
        let ghost keys = vstd::std_specs::hash::spec_hash_keys_iter(&self.perimeter).remaining().unref();
        proof {
            assert(keys.to_set() == self.perimeter@);
            assert forall|m: int| 0 <= m < keys.len() implies #[trigger] keys[m] < 2704 by {
                assert(keys.to_set().contains(keys[m]));
            }
        }
        // where each pair of the result comes from: a direction and a key, by index
        let ghost mut src: Seq<(int, int)> = Seq::empty();
        let mut di: usize = 0;
        while di < 4
            invariant
                0 <= di <= 4,
                self.wf(),
                dirs@ == seq![Direction::U, Direction::D, Direction::L, Direction::R],
                keys == vstd::std_specs::hash::spec_hash_keys_iter(&self.perimeter).remaining().unref(),
                keys.no_duplicates(),
                keys.to_set() == self.perimeter@,
                forall|m: int| 0 <= m < keys.len() ==> #[trigger] keys[m] < 2704,
                src.len() == result@.len(),
                forall|j: int|
                    0 <= j < src.len() ==> {
                        &&& 0 <= (#[trigger] src[j]).0 < di
                        &&& 0 <= src[j].1 < keys.len()
                        &&& pt(result@[j].0) == decode(keys[src[j].1] as int)
                        &&& result@[j].1 == dirs@[src[j].0]
                        &&& self.startable(pt(result@[j].0), result@[j].1)
                    },
                forall|j: int, k: int| 0 <= j < k < src.len() ==> src[j] != src[k],
                forall|d: int, m: int|
                    0 <= d < di && 0 <= m < keys.len() && self.startable(
                        decode(keys[m] as int),
                        dirs@[d],
                    ) ==> exists|j: int| 0 <= j < src.len() && #[trigger] src[j] == (d, m),
            decreases 4 - di,
        {
            let direction = dirs[di];
            for key in it: self.perimeter.iter()
                invariant
                    0 <= di < 4,
                    self.wf(),
                    direction == dirs@[di as int],
                    dirs@ == seq![Direction::U, Direction::D, Direction::L, Direction::R],
                    it.seq().unref() == keys,
                    keys.no_duplicates(),
                    keys.to_set() == self.perimeter@,
                    forall|m: int| 0 <= m < keys.len() ==> #[trigger] keys[m] < 2704,
                    src.len() == result@.len(),
                    forall|j: int|
                        0 <= j < src.len() ==> {
                            &&& 0 <= (#[trigger] src[j]).0 <= di
                            &&& 0 <= src[j].1 < keys.len()
                            &&& src[j].0 == di ==> src[j].1 < it.index()
                            &&& pt(result@[j].0) == decode(keys[src[j].1] as int)
                            &&& result@[j].1 == dirs@[src[j].0]
                            &&& self.startable(pt(result@[j].0), result@[j].1)
                        },
                    forall|j: int, k: int| 0 <= j < k < src.len() ==> src[j] != src[k],
                    forall|d: int, m: int|
                        ((0 <= d < di && 0 <= m < keys.len()) || (d == di && 0 <= m < it.index()))
                            && self.startable(decode(keys[m] as int), dirs@[d]) ==> exists|j: int|
                            0 <= j < src.len() && #[trigger] src[j] == (d, m),
            {
                let k: u64 = *key;
                let ghost m = it.index() as int;
                assert(k == keys[m]);
                assert(keys[m] < 2704);
                let sq: Square = ((k / 52) as isize - 26, (k % 52) as isize - 26);
                proof {
                    lemma_decode(k as int);
                    assert(pt(sq) == decode(k as int));
                    assert(self.perimeter@.contains(k));
                    assert(self.perimeter().contains(pt(sq)));
                }
                if self.get(direction.apply(sq)).is_none() {
                    let ghost old_src = src;
                    result.push((sq, direction));
                    proof {
                        src = src.push((di as int, m));
                        assert forall|j: int| 0 <= j < src.len() implies {
                            &&& 0 <= (#[trigger] src[j]).0 <= di
                            &&& 0 <= src[j].1 < keys.len()
                            &&& src[j].0 == di ==> src[j].1 < m + 1
                            &&& pt(result@[j].0) == decode(keys[src[j].1] as int)
                            &&& result@[j].1 == dirs@[src[j].0]
                            &&& self.startable(pt(result@[j].0), result@[j].1)
                        } by {
                            if j < old_src.len() {
                                assert(src[j] == old_src[j]);
                                assert(0 <= old_src[j].0);
                            }
                        }
                        assert forall|j: int, k: int| 0 <= j < k < src.len() implies src[j]
                            != src[k] by {
                            if k < old_src.len() {
                                assert(old_src[j] != old_src[k]);
                            } else {
                                assert(0 <= old_src[j].0);
                            }
                        }
                        assert forall|d: int, mm: int|
                            ((0 <= d < di && 0 <= mm < keys.len()) || (d == di && 0 <= mm < m + 1))
                                && self.startable(
                                decode(keys[mm] as int),
                                dirs@[d],
                            ) implies exists|j: int|
                            0 <= j < src.len() && #[trigger] src[j] == (d, mm) by {
                            if d == di && mm == m {
                                assert(src[src.len() - 1] == (d, mm));
                            } else {
                                let j = choose|j: int|
                                    0 <= j < old_src.len() && #[trigger] old_src[j] == (d, mm);
                                assert(src[j] == (d, mm));
                            }
                        }
                    }
                } else {
                    proof {
                        assert forall|j: int|
                            0 <= j < src.len() && (#[trigger] src[j]).0 == di implies src[j].1 < m
                            + 1 by {
                            assert(0 <= src[j].0);
                        }
                    }
                }
            }
            di += 1;
        }
        proof {
            assert forall|i: int| 0 <= i < result@.len() implies self.startable(
                pt((#[trigger] result@[i]).0),
                result@[i].1,
            ) by {
                assert(0 <= src[i].0);
            }
            // the pairs of the result differ from each other
            assert forall|j: int, k: int| 0 <= j < k < result@.len() implies result@[j]
                != result@[k] by {
                assert(src[j] != src[k]);
                if src[j].0 == src[k].0 {
                    lemma_decode(keys[src[j].1] as int);
                    lemma_decode(keys[src[k].1] as int);
                }
            }
            // and every pair that can start a line is among them
            assert forall|p: (int, int), d: Direction| #[trigger]
                self.startable(p, d) implies exists|i: int|
                0 <= i < result@.len() && pt((#[trigger] result@[i]).0) == p && result@[i].1
                    == d by {
                lemma_code(p);
                let k = code(p) as u64;
                assert(keys.to_set().contains(k));
                let m = choose|m: int| 0 <= m < keys.len() && keys[m] == k;
                let dn: int = match d {
                    Direction::U => 0,
                    Direction::D => 1,
                    Direction::L => 2,
                    Direction::R => 3,
                };
                assert(dirs@[dn] == d);
                assert(self.startable(decode(keys[m] as int), dirs@[dn]));
                let j = choose|j: int| 0 <= j < src.len() && #[trigger] src[j] == (dn, m);
                assert(pt(result@[j].0) == p);
            }
        }
        if result.len() == 0 {
            let mut only: Vec<(Square, Direction)> = Vec::new();
            only.push(((0, 0), Direction::initial()));
            assert(only@ =~= seq![((0isize, 0isize), Direction::R)]);
            only
        } else {
            assert(self.startable(pt(result@[0].0), result@[0].1));
            result
        }
    }

    /// Looks up, one by one, the tiles that follow `start` in `direction`.
    pub fn non_blank_iter(&self, start: Square, direction: Direction) -> (it: NonBlankIterator<'_>)
        ensures
            it.position() == pt(start),
            it.heading() == direction,
            it.tiles() == self@,
            self.wf() ==> it.board_wf(),
    {
        NonBlankIterator { sq: start, direction, board: self }
    }

    /// The score won from the line across `direction` through `square` when
    /// `piece` is put there, or `None` if that line is not legal.
    pub fn check_perpendicular(&self, square: Square, direction: &Direction, piece: Piece) -> (r:
        Option<Score>)
        requires
            self.wf(),
            roomy(pt(square)),
        ensures
            match r {
                Some(v) => cross_line(self@, pt(square), *direction, piece).1 && v == cross_score(
                    cross_line(self@, pt(square), *direction, piece).0,
                ) && v <= 12,
                None => !cross_line(self@, pt(square), *direction, piece).1,
            },
    {
        let mut perp_lv = LineValidator::new(piece);
        let (d1, d2) = direction.perpendiculars();
        let ghost s1 = run(self@, pt(square), d1);
        let ghost s2 = run(self@, pt(square), d2);
        proof {
            Line::start(piece).lemma_feed_concat(s1, s2);
        }
        let mut it1 = self.non_blank_iter(square, d1);
        if !perp_lv.extend_from_iter(&mut it1) {
            return None;
        }
        let mut it2 = self.non_blank_iter(square, d2);
        if !perp_lv.extend_from_iter(&mut it2) {
            return None;
        }
        let len = perp_lv.len();
        if len > 1 {
            Some(len + if len == 6 { 6 } else { 0 })
        } else {
            Some(0)
        }
    }

    /// Whether the last tile of `partial` can stand on its square, given
    /// that the tiles before it were judged already. Where it can, the
    /// scores and the state of the line in `partial` are brought up to date;
    /// where it cannot, `partial` is left as it was.
    pub fn allows(&self, partial: &mut Partial) -> (ok: bool)
        requires
            self.wf(),
            old(partial).wf(),
            old(partial).pieces@.len() >= 1,
            roomy(pt(old(partial).start_square)),
            roomy(pt(old(partial).last_square)),
            old(partial).perp_scores + 12 <= usize::MAX,
        ensures
            ok == judge(self@, old(partial)@) is Some,
            ok ==> Some(final(partial)@) == judge(self@, old(partial)@),
            !ok ==> *final(partial) == *old(partial),
            final(partial).wf(),
            final(partial).start_square == old(partial).start_square,
            final(partial).last_square == old(partial).last_square,
            ok ==> final(partial).mainline_score <= 12 && final(partial).perp_scores <= old(
                partial,
            ).perp_scores + 12,
    {
        let n = partial.pieces.len();
        let last_piece = partial.pieces[n - 1];
        let new_perp_score = match self.check_perpendicular(
            partial.last_square,
            &partial.direction,
            last_piece,
        ) {
            None => return false,
            Some(v) => v,
        };

        // a placement not judged before has no validator yet
        let mut lv = match partial.main_validator {
            None => {
                let mut first_lv = LineValidator::new(partial.pieces[0]);
                let mut behind = self.non_blank_iter(
                    partial.start_square,
                    partial.direction.opposite(),
                );
                if !first_lv.extend_from_iter(&mut behind) {
                    return false;
                }
                first_lv
            },
            Some(lv) => lv,
        };

        proof {
            lemma_run_begins(self@, pt(partial.last_square), partial.direction);
        }
        let mut runs_on = false;
        if self.get(partial.direction.apply(partial.last_square)).is_some() {
            // the line does not end in a blank: it goes on through the tiles ahead
            let mut ahead = self.non_blank_iter(partial.last_square, partial.direction);
            if !lv.extend_from_iter(&mut ahead) {
                return false;
            }
            runs_on = true;
        }
        // the line is scored as long as it is, and only then closed to more tiles
        let len = lv.len();
        if runs_on {
            lv.seal();
        }
        partial.main_validator = Some(lv);
        partial.mainline_score = len + if len == 6 { 6 } else { 0 };
        partial.perp_scores = partial.perp_scores + new_perp_score;
        true
    }

    /// On a board with tiles, a line can start somewhere: some square of the
    /// frontier has an empty square next to it.
    pub proof fn lemma_some_startable(&self)
        requires
            self.wf(),
            exists|q: (int, int)| self@.contains_key(q),
        ensures
            exists|p: (int, int), d: Direction| self.startable(p, d),
    {
        reveal(flanked);
        let t = lemma_extreme(self@, 24, 24);
        assert(flanked(self@, self.perimeter(), t));
        let above = (t.0, t.1 + 1);
        let right = (t.0 + 1, t.1);
        assert(!self@.contains_key(above));
        assert(!self@.contains_key(right));
        if self.perimeter().contains(above) {
            assert(!self@.contains_key((t.0 + 1, t.1 + 1)));
            assert(Direction::R.step(above) == (t.0 + 1, t.1 + 1));
            assert(self.startable(above, Direction::R));
        } else {
            assert(self.perimeter().contains(right));
            assert(!self@.contains_key((t.0 + 2, t.1)));
            assert(Direction::R.step(right) == (t.0 + 2, t.1));
            assert(self.startable(right, Direction::R));
        }
    }

    /// On an empty board, the start squares are the origin with the
    /// direction `R`, and nothing else.
    pub proof fn lemma_start_list_on_empty_board(&self, r: Seq<(Square, Direction)>)
        requires
            self.wf(),
            forall|q: (int, int)| !self@.contains_key(q),
            self.start_list(r),
        ensures
            r == seq![((0isize, 0isize), Direction::R)],
    {
        assert forall|p: (int, int), d: Direction| !self.startable(p, d) by {
            if self.perimeter().contains(p) {
                assert(has_neighbour(self@, p));
            }
        }
    }

    /// On a board with tiles, as after any `put`, every start square is
    /// empty and has a tile next to it, and the square after it in its
    /// direction is empty too.
    pub proof fn lemma_start_list_with_tiles(&self, r: Seq<(Square, Direction)>, i: int)
        requires
            self.wf(),
            exists|q: (int, int)| self@.contains_key(q),
            self.start_list(r),
            0 <= i < r.len(),
        ensures
            self.startable(pt(r[i].0), r[i].1),
            !self@.contains_key(pt(r[i].0)),
            has_neighbour(self@, pt(r[i].0)),
            !self@.contains_key(r[i].1.step(pt(r[i].0))),
    {
        self.lemma_some_startable();
        assert(self.startable(pt(r[i].0), r[i].1));
        assert(self.perimeter().contains(pt(r[i].0)));
    }

    /// Sets a tile on a square of the grid.
    fn write_tile(&mut self, sq: Square, piece: Piece)
        requires
            old(self).rep_ok(),
            on_grid(pt(sq)),
        ensures
            final(self).rep_ok(),
            final(self)@ == old(self)@.insert(pt(sq), piece),
            final(self).perimeter() == old(self).perimeter(),
            final(self).bounds() == old(self).bounds(),
    {
        let (x, y) = sq;
        let c: usize = ((x + DIM) * 50 + (y + DIM)) as usize;
        self.board.set(c, Some(piece));
        assert(self@ =~= old(self)@.insert(pt(sq), piece));
    }

    /// Takes a square on or next to the grid out of the frontier.
    fn close_square(&mut self, sq: Square)
        requires
            old(self).rep_ok(),
            near_grid(pt(sq)),
        ensures
            final(self).rep_ok(),
            final(self)@ == old(self)@,
            final(self).perimeter() == old(self).perimeter().remove(pt(sq)),
            final(self).bounds() == old(self).bounds(),
    {
        broadcast use vstd::std_specs::hash::group_hash_axioms;

        let k: u64 = ((sq.0 + 26) * 52 + (sq.1 + 26)) as u64;
        self.perimeter.remove(&k);
        proof {
            assert(self.perimeter@ == old(self).perimeter@.remove(k));
            assert forall|p: (int, int)|
                self.perimeter().contains(p) <==> old(self).perimeter().remove(pt(sq)).contains(
                    p,
                ) by {
                if near_grid(p) {
                    lemma_code(p);
                    lemma_code(pt(sq));
                }
            }
            assert(self.perimeter() =~= old(self).perimeter().remove(pt(sq)));
        }
    }

    /// Puts a square on or next to the grid into the frontier if no tile
    /// stands on it.
    fn open_square(&mut self, sq: Square)
        requires
            old(self).rep_ok(),
            near_grid(pt(sq)),
        ensures
            final(self).rep_ok(),
            final(self)@ == old(self)@,
            final(self).perimeter() == if old(self)@.contains_key(pt(sq)) {
                old(self).perimeter()
            } else {
                old(self).perimeter().insert(pt(sq))
            },
            final(self).bounds() == old(self).bounds(),
    {
        broadcast use vstd::std_specs::hash::group_hash_axioms;

        if self.peek(sq).is_none() {
            let k: u64 = ((sq.0 + 26) * 52 + (sq.1 + 26)) as u64;
            self.perimeter.insert(k);
            proof {
                assert(self.perimeter@ == old(self).perimeter@.insert(k));
                lemma_code(pt(sq));
                assert forall|p: (int, int)|
                    self.perimeter().contains(p) <==> old(self).perimeter().insert(
                        pt(sq),
                    ).contains(p) by {
                    if near_grid(p) {
                        lemma_code(p);
                    }
                }
                assert(self.perimeter() =~= old(self).perimeter().insert(pt(sq)));
            }
        }
    }

    /// Sets the tiles of a line on their squares.
    fn lay_tiles(
        &mut self,
        squares: &Vec<Square>,
        pieces: &Vec<Piece>,
        Ghost(start): Ghost<(int, int)>,
        Ghost(dir): Ghost<Direction>,
    )
        requires
            old(self).rep_ok(),
            squares@.len() == pieces@.len(),
            pieces@.len() >= 1,
            on_grid(start),
            on_grid(dir.step_n(start, pieces@.len() - 1)),
            forall|j: int|
                0 <= j < squares@.len() ==> pt(#[trigger] squares@[j]) == dir.step_n(start, j),
        ensures
            final(self).rep_ok(),
            final(self)@ == placed(old(self)@, start, dir, pieces@),
            final(self).perimeter() == old(self).perimeter(),
            final(self).bounds() == old(self).bounds(),
    {
        let n = pieces.len();
        let mut i: usize = 0;
        assert(self@ =~= placed(old(self)@, start, dir, pieces@.take(0)));
        while i < n
            invariant
                0 <= i <= n,
                n == pieces@.len(),
                squares@.len() == n,
                on_grid(start),
                on_grid(dir.step_n(start, n - 1)),
                forall|j: int| 0 <= j < n ==> pt(#[trigger] squares@[j]) == dir.step_n(start, j),
                self.rep_ok(),
                self.perimeter() == old(self).perimeter(),
                self.bounds() == old(self).bounds(),
                self@ == placed(old(self)@, start, dir, pieces@.take(i as int)),
            decreases n - i,
        {
            assert(pt(squares@[i as int]) == dir.step_n(start, i as int));
            self.write_tile(squares[i], pieces[i]);
            proof {
                lemma_placed_step(old(self)@, start, dir, pieces@, i as int);
            }
            i += 1;
        }
        assert(pieces@.take(n as int) =~= pieces@);
    }

    /// Takes the squares of a line out of the frontier.
    fn close_line(
        &mut self,
        squares: &Vec<Square>,
        Ghost(start): Ghost<(int, int)>,
        Ghost(dir): Ghost<Direction>,
    )
        requires
            old(self).rep_ok(),
            squares@.len() >= 1,
            on_grid(start),
            on_grid(dir.step_n(start, squares@.len() - 1)),
            forall|j: int|
                0 <= j < squares@.len() ==> pt(#[trigger] squares@[j]) == dir.step_n(start, j),
        ensures
            final(self).rep_ok(),
            final(self)@ == old(self)@,
            final(self).bounds() == old(self).bounds(),
            final(self).perimeter() == Set::new(
                |p: (int, int)|
                    old(self).perimeter().contains(p) && !on_line(
                        start,
                        dir,
                        squares@.len() as int,
                        p,
                    ),
            ),
    {
        let n = squares.len();
        let mut i: usize = 0;
        assert(self.perimeter() =~= Set::new(
            |p: (int, int)| old(self).perimeter().contains(p) && !on_line(start, dir, 0, p),
        ));
        while i < n
            invariant
                0 <= i <= n,
                squares@.len() == n,
                on_grid(start),
                on_grid(dir.step_n(start, n - 1)),
                forall|j: int| 0 <= j < n ==> pt(#[trigger] squares@[j]) == dir.step_n(start, j),
                self.rep_ok(),
                self.bounds() == old(self).bounds(),
                self@ == old(self)@,
                self.perimeter() == Set::new(
                    |p: (int, int)|
                        old(self).perimeter().contains(p) && !on_line(start, dir, i as int, p),
                ),
            decreases n - i,
        {
            assert(pt(squares@[i as int]) == dir.step_n(start, i as int));
            self.close_square(squares[i]);
            proof {
                assert forall|p: (int, int)|
                    on_line(start, dir, i + 1, p) <==> (on_line(start, dir, i as int, p) || p
                        == dir.step_n(start, i as int)) by {
                    lemma_on_line_step(start, dir, i as int, p);
                }
                assert(self.perimeter() =~= Set::new(
                    |p: (int, int)|
                        old(self).perimeter().contains(p) && !on_line(start, dir, i + 1, p),
                ));
            }
            i += 1;
        }
    }

    /// Puts the squares that a line opens into the frontier, where they are
    /// empty.
    fn open_around(&mut self, squares: &Vec<Square>, start_sq: Square, direction: &Direction)
        requires
            old(self).rep_ok(),
            squares@.len() >= 1,
            on_grid(pt(start_sq)),
            on_grid(direction.step_n(pt(start_sq), squares@.len() - 1)),
            forall|j: int|
                0 <= j < squares@.len() ==> pt(#[trigger] squares@[j]) == direction.step_n(
                    pt(start_sq),
                    j,
                ),
        ensures
            final(self).rep_ok(),
            final(self)@ == old(self)@,
            final(self).bounds() == old(self).bounds(),
            final(self).perimeter() == Set::new(
                |p: (int, int)|
                    old(self).perimeter().contains(p) || (opened_by(
                        pt(start_sq),
                        *direction,
                        squares@.len() as int,
                        p,
                    ) && !old(self)@.contains_key(p)),
            ),
    {
        let n = squares.len();
        let ghost start = pt(start_sq);
        let ghost dir = *direction;
        let ghost cleared = self.perimeter();
        let ghost tiles = self@;
        assert(pt(squares@[n - 1]) == dir.step_n(start, n - 1));
        if n < 6 {
            self.open_square(direction.apply(squares[n - 1]));
        }
        self.open_square(direction.opposite().apply(start_sq));
        let (d1, d2) = direction.perpendiculars();
        assert(self.perimeter() =~= Set::new(
            |p: (int, int)|
                cleared.contains(p) || (opened_upto(start, dir, n as int, 0, p)
                    && !tiles.contains_key(p)),
        ));
        let mut i: usize = 0;
        while i < n
            invariant
                0 <= i <= n,
                squares@.len() == n,
                on_grid(start),
                on_grid(dir.step_n(start, n - 1)),
                (d1, d2) == dir.spec_perpendiculars(),
                forall|j: int| 0 <= j < n ==> pt(#[trigger] squares@[j]) == dir.step_n(start, j),
                self.rep_ok(),
                self.bounds() == old(self).bounds(),
                self@ == tiles,
                self.perimeter() == Set::new(
                    |p: (int, int)|
                        cleared.contains(p) || (opened_upto(start, dir, n as int, i as int, p)
                            && !tiles.contains_key(p)),
                ),
            decreases n - i,
        {
            let sq = squares[i];
            assert(pt(squares@[i as int]) == dir.step_n(start, i as int));
            self.open_square(d1.apply(sq));
            self.open_square(d2.apply(sq));
            proof {
                assert forall|p: (int, int)|
                    opened_upto(start, dir, n as int, i + 1, p) <==> (opened_upto(
                        start,
                        dir,
                        n as int,
                        i as int,
                        p,
                    ) || p == d1.step(pt(sq)) || p == d2.step(pt(sq))) by {
                    lemma_on_line_step(start, dir, i as int, d1.step(p));
                    lemma_on_line_step(start, dir, i as int, d2.step(p));
                }
                assert(self.perimeter() =~= Set::new(
                    |p: (int, int)|
                        cleared.contains(p) || (opened_upto(start, dir, n as int, i + 1, p)
                            && !tiles.contains_key(p)),
                ));
            }
            i += 1;
        }
        assert(self.perimeter() =~= Set::new(
            |p: (int, int)|
                cleared.contains(p) || (opened_by(start, dir, n as int, p) && !tiles.contains_key(
                    p,
                )),
        ));
    }

    /// Lays `pieces` out on the board, the first on `start_sq` and each next
    /// one step further in `direction`, and brings the frontier and the
    /// bounding box up to date.
    ///
    /// The squares must lie on the grid. Whether the move is legal is not
    /// looked at: that is for [`Board::allows`] to say beforehand.
    pub fn put(&mut self, start_sq: Square, direction: &Direction, pieces: &Vec<Piece>)
        requires
            old(self).wf(),
            pieces@.len() >= 1,
            on_grid(pt(start_sq)),
            on_grid(direction.step_n(pt(start_sq), pieces@.len() - 1)),
        ensures
            final(self).wf(),
            final(self)@ == placed(old(self)@, pt(start_sq), *direction, pieces@),
            final(self).perimeter() == frontier_after(
                old(self).perimeter(),
                final(self)@,
                pt(start_sq),
                *direction,
                pieces@.len() as int,
            ),
            final(self).bounds() == old(self).bounds().stretch(pt(start_sq)).stretch(
                direction.step_n(pt(start_sq), pieces@.len() - 1),
            ),
            forall|i: int|
                0 <= i < pieces@.len() ==> final(self).tile(
                    #[trigger] direction.step_n(pt(start_sq), i),
                ) == Some(pieces@[i]),
    {
        let n = pieces.len();
        let ghost start = pt(start_sq);
        let ghost dir = *direction;
        let squares = direction.apply_all(start_sq, n);
        self.lay_tiles(&squares, pieces, Ghost(start), Ghost(dir));
        self.close_line(&squares, Ghost(start), Ghost(dir));
        self.open_around(&squares, start_sq, direction);
        assert(pt(squares@[0]) == dir.step_n(start, 0));
        assert(pt(squares@[n - 1]) == dir.step_n(start, n - 1));
        self.stretch_bounding_box(squares[0]);
        self.stretch_bounding_box(squares[n - 1]);
        proof {
            assert(dir.step_n(start, 0) == start);
            assert(self.perimeter() =~= frontier_after(
                old(self).perimeter(),
                self@,
                start,
                dir,
                n as int,
            ));
            lemma_put_keeps_invariant(
                old(self)@,
                old(self).perimeter(),
                old(self).bounds(),
                start,
                dir,
                pieces@,
            );
            assert forall|i: int| 0 <= i < pieces@.len() implies self.tile(
                #[trigger] dir.step_n(start, i),
            ) == Some(pieces@[i]) by {
                lemma_placed_holds(old(self)@, start, dir, pieces@, i);
            }
        }
    }
}

/// The board accepts the line across the direction exactly where the tile
/// and the tiles to both sides of it make a legal line; the line it then
/// scores is as long as that line.
pub proof fn lemma_cross_line(
    tiles: Map<(int, int), Piece>,
    p: (int, int),
    dir: Direction,
    piece: Piece,
)
    ensures
        ({
            let side0 = run(tiles, p, dir.spec_perpendiculars().0);
            let side1 = run(tiles, p, dir.spec_perpendiculars().1);
            let cross = cross_line(tiles, p, dir, piece);
            &&& cross.1 <==> legal_line(seq![piece] + side0 + side1)
            &&& cross.1 ==> cross.0.length == 1 + side0.len() + side1.len()
        }),
{
    let side0 = run(tiles, p, dir.spec_perpendiculars().0);
    let side1 = run(tiles, p, dir.spec_perpendiculars().1);
    let s = seq![piece] + side0 + side1;
    assert(s.skip(1) =~= side0 + side1);
    assert(s[0] == piece);
    lemma_validator_decides(s);
}

/// The board accepts a single tile exactly where both lines through its
/// square are legal with it: the line across the direction, and the line
/// along it, made of the tile, the tiles behind it and the tiles ahead.
/// The line along the direction scores its length, with 6 more for a line
/// of six, whether or not tiles are ahead.
pub proof fn lemma_single_tile(
    tiles: Map<(int, int), Piece>,
    start: (int, int),
    dir: Direction,
    piece: Piece,
)
    ensures
        ({
            let side0 = run(tiles, start, dir.spec_perpendiculars().0);
            let side1 = run(tiles, start, dir.spec_perpendiculars().1);
            let behind = run(tiles, start, dir.spec_opposite());
            let ahead = run(tiles, start, dir);
            let judged = judge(tiles, PartialView::single(start, dir, piece));
            &&& judged is Some <==> legal_line(seq![piece] + side0 + side1) && legal_line(
                seq![piece] + behind + ahead,
            )
            &&& judged matches Some(j) ==> {
                &&& j.perp_scores == cross_score(cross_line(tiles, start, dir, piece).0)
                &&& j.mainline_score == if 1 + behind.len() + ahead.len() == 6 {
                    12
                } else {
                    1 + behind.len() + ahead.len()
                }
            }
        }),
{
    let behind = run(tiles, start, dir.spec_opposite());
    let ahead = run(tiles, start, dir);
    lemma_cross_line(tiles, start, dir, piece);
    let s = seq![piece] + behind + ahead;
    assert(s.skip(1) =~= behind + ahead);
    assert(s[0] == piece);
    assert(seq![piece][0] == piece);
    lemma_validator_decides(s);
    Line::start(piece).lemma_feed_concat(behind, ahead);
    let t = seq![piece] + behind;
    assert(t.skip(1) =~= behind);
    assert(t[0] == piece);
    lemma_validator_decides(t);
    if ahead.len() == 0 {
        assert(s =~= t);
    } else if legal_line(s) {
        assert(s.take(t.len() as int) =~= t);
        lemma_legal_prefix(s, t.len() as int);
    }
}

/// A run is empty exactly where the next square holds no tile.
pub proof fn lemma_run_begins(tiles: Map<(int, int), Piece>, p: (int, int), dir: Direction)
    requires
        forall|q: (int, int)| #[trigger] tiles.contains_key(q) ==> on_grid(q),
    ensures
        run(tiles, p, dir).len() > 0 <==> tiles.contains_key(dir.step(p)),
{
}

/// Walks from a square in a direction and hands out what stands on each
/// square it comes to. The square it starts from is not handed out.
pub struct NonBlankIterator<'a> {
    sq: Square,
    direction: Direction,
    board: &'a Board,
}

impl<'a> NonBlankIterator<'a> {
    /// The square that was handed out last, or the square to start from.
    pub closed spec fn position(&self) -> (int, int) {
        pt(self.sq)
    }

    pub closed spec fn heading(&self) -> Direction {
        self.direction
    }

    /// The tiles of the board that is walked.
    pub closed spec fn tiles(&self) -> Map<(int, int), Piece> {
        self.board@
    }

    /// Whether the board that is walked meets its invariant.
    pub closed spec fn board_wf(&self) -> bool {
        self.board.wf()
    }

    /// The tiles that are handed out before the first empty square.
    pub open spec fn remaining(&self) -> Seq<Piece> {
        run(self.tiles(), self.position(), self.heading())
    }

    /// Steps to the next square and hands out what stands there.
    pub fn next(&mut self) -> (r: Option<Piece>)
        requires
            old(self).board_wf(),
            fits(old(self).heading().step(old(self).position())),
        ensures
            final(self).position() == old(self).heading().step(old(self).position()),
            final(self).heading() == old(self).heading(),
            final(self).tiles() == old(self).tiles(),
            final(self).board_wf(),
            match r {
                Some(piece) => {
                    &&& old(self).tiles().contains_key(final(self).position())
                    &&& old(self).tiles()[final(self).position()] == piece
                    &&& old(self).remaining() == seq![piece] + final(self).remaining()
                    &&& on_grid(final(self).position())
                },
                None => {
                    &&& !old(self).tiles().contains_key(final(self).position())
                    &&& old(self).remaining() == Seq::<Piece>::empty()
                },
            },
    {
        self.sq = self.direction.apply(self.sq);
        self.board.get(self.sq)
    }
}

/// The `i + 1` first squares of a line are its `i` first squares and the
/// one that follows them.
proof fn lemma_on_line_step(start: (int, int), dir: Direction, i: int, p: (int, int))
    requires
        0 <= i,
    ensures
        on_line(start, dir, i + 1, p) <==> (on_line(start, dir, i, p) || p == dir.step_n(start, i)),
{
}

/// The squares that the end of a line opens, together with those beside
/// its `i` first squares.
spec fn opened_upto(start: (int, int), dir: Direction, n: int, i: int, c: (int, int)) -> bool {
    ||| c == dir.spec_opposite().step(start)
    ||| (n < 6 && c == dir.step_n(start, n))
    ||| on_line(start, dir, i, dir.spec_perpendiculars().0.step(c))
    ||| on_line(start, dir, i, dir.spec_perpendiculars().1.step(c))
}

/// Laying out one tile more changes one square.
proof fn lemma_placed_step(
    tiles: Map<(int, int), Piece>,
    start: (int, int),
    dir: Direction,
    pieces: Seq<Piece>,
    i: int,
)
    requires
        0 <= i < pieces.len(),
    ensures
        placed(tiles, start, dir, pieces.take(i + 1)) == placed(
            tiles,
            start,
            dir,
            pieces.take(i),
        ).insert(dir.step_n(start, i), pieces[i]),
{
    let a = placed(tiles, start, dir, pieces.take(i + 1));
    let b = placed(tiles, start, dir, pieces.take(i)).insert(dir.step_n(start, i), pieces[i]);
    assert forall|p: (int, int)| a.contains_key(p) <==> b.contains_key(p) by {
        lemma_on_line_step(start, dir, i, p);
    }
    assert forall|p: (int, int)| a.contains_key(p) implies a[p] == b[p] by {
        lemma_on_line_step(start, dir, i, p);
    }
    assert(a =~= b);
}

/// Laying out a line keeps every tile flanked.
proof fn lemma_put_keeps_flanks(
    tiles: Map<(int, int), Piece>,
    frontier: Set<(int, int)>,
    start: (int, int),
    dir: Direction,
    pieces: Seq<Piece>,
)
    requires
        pieces.len() >= 1,
        forall|p: (int, int)| #[trigger] tiles.contains_key(p) ==> flanked(tiles, frontier, p),
    ensures
        ({
            let after = placed(tiles, start, dir, pieces);
            let frontier_now = frontier_after(frontier, after, start, dir, pieces.len() as int);
            forall|p: (int, int)| #[trigger]
                after.contains_key(p) ==> flanked(after, frontier_now, p)
        }),
{
    reveal(flanked);
    let n = pieces.len() as int;
    let after = placed(tiles, start, dir, pieces);
    let frontier_now = frontier_after(frontier, after, start, dir, n);
    let (d1, d2) = dir.spec_perpendiculars();
    assert forall|p: (int, int)| #[trigger] after.contains_key(p) implies flanked(
        after,
        frontier_now,
        p,
    ) by {
        // a square that held a tile or was in the frontier does so still, or holds a tile now
        assert forall|c: (int, int)|
            tiles.contains_key(c) || frontier.contains(c) implies after.contains_key(c)
            || frontier_now.contains(c) by {}
        if on_line(start, dir, n, p) {
            let a = d1.step(p);
            let b = d2.step(p);
            assert(d2.step(a) == p);
            assert(d1.step(b) == p);
            assert(opened_by(start, dir, n, a));
            assert(opened_by(start, dir, n, b));
            assert(after.contains_key(a) || frontier_now.contains(a));
            assert(after.contains_key(b) || frontier_now.contains(b));
        } else {
            assert(tiles.contains_key(p));
            assert(flanked(tiles, frontier, p));
        }
    }
}

/// After a line was laid out, its squares hold its tiles in order, and all
/// other squares hold what they held.
pub proof fn lemma_placed_holds(
    tiles: Map<(int, int), Piece>,
    start: (int, int),
    dir: Direction,
    pieces: Seq<Piece>,
    i: int,
)
    requires
        0 <= i < pieces.len(),
    ensures
        placed(tiles, start, dir, pieces).contains_key(dir.step_n(start, i)),
        placed(tiles, start, dir, pieces)[dir.step_n(start, i)] == pieces[i],
        forall|p: (int, int)|
            !on_line(start, dir, pieces.len() as int, p) ==> (placed(
                tiles,
                start,
                dir,
                pieces,
            ).contains_key(p) <==> tiles.contains_key(p)),
        forall|p: (int, int)|
            !on_line(start, dir, pieces.len() as int, p) && tiles.contains_key(p) ==> placed(
                tiles,
                start,
                dir,
                pieces,
            )[p] == tiles[p],
{
    let q = dir.step_n(start, i);
    assert(along(dir, start, q) == i);
    assert(on_line(start, dir, pieces.len() as int, q));
}

/// Among tiles on the grid there is one that stands furthest right and,
/// of those in its column, furthest up.
proof fn lemma_extreme(tiles: Map<(int, int), Piece>, cx: int, cy: int) -> (t: (int, int))
    requires
        forall|q: (int, int)| #[trigger] tiles.contains_key(q) ==> on_grid(q),
        exists|q: (int, int)| tiles.contains_key(q),
        -25 <= cx <= 24,
        -26 <= cy <= 24,
        forall|q: (int, int)| #[trigger]
            tiles.contains_key(q) ==> q.0 < cx || (q.0 == cx && q.1 <= cy),
    ensures
        tiles.contains_key(t),
        forall|q: (int, int)| #[trigger] tiles.contains_key(q) ==> q.0 <= t.0,
        forall|q: (int, int)| #[trigger] tiles.contains_key(q) && q.0 == t.0 ==> q.1 <= t.1,
    decreases (cx + 26) * 60 + (cy + 27),
{
    if cy < -25 {
        if cx == -25 {
            let q = choose|q: (int, int)| tiles.contains_key(q);
            assert(on_grid(q));
            assert(false);
            (0, 0)
        } else {
            lemma_extreme(tiles, cx - 1, 24)
        }
    } else if tiles.contains_key((cx, cy)) {
        (cx, cy)
    } else {
        lemma_extreme(tiles, cx, cy - 1)
    }
}

/// A board that met its invariant meets it again when a line on the grid
/// was laid out and the frontier and the bounding box were brought up to
/// date.
proof fn lemma_put_keeps_invariant(
    tiles: Map<(int, int), Piece>,
    frontier: Set<(int, int)>,
    bounds: Bounds,
    start: (int, int),
    dir: Direction,
    pieces: Seq<Piece>,
)
    requires
        pieces.len() >= 1,
        on_grid(start),
        on_grid(dir.step_n(start, pieces.len() - 1)),
        forall|p: (int, int)| #[trigger] tiles.contains_key(p) ==> on_grid(p) && bounds.contains(p),
        forall|p: (int, int)| #[trigger]
            frontier.contains(p) ==> !tiles.contains_key(p) && has_neighbour(tiles, p)
                && near_grid(p),
        forall|p: (int, int)| #[trigger] tiles.contains_key(p) ==> flanked(tiles, frontier, p),
    ensures
        ({
            let after = placed(tiles, start, dir, pieces);
            let box_after = bounds.stretch(start).stretch(dir.step_n(start, pieces.len() - 1));
            let frontier_now = frontier_after(frontier, after, start, dir, pieces.len() as int);
            &&& forall|p: (int, int)| #[trigger]
                after.contains_key(p) ==> on_grid(p) && box_after.contains(p)
            &&& forall|p: (int, int)| #[trigger]
                frontier_now.contains(p) ==> !after.contains_key(p) && has_neighbour(after, p)
                    && near_grid(p)
            &&& forall|p: (int, int)| #[trigger]
                after.contains_key(p) ==> flanked(after, frontier_now, p)
        }),
{
    lemma_put_keeps_flanks(tiles, frontier, start, dir, pieces);
    let n = pieces.len() as int;
    let after = placed(tiles, start, dir, pieces);
    let frontier_now = frontier_after(frontier, after, start, dir, n);
    let (d1, d2) = dir.spec_perpendiculars();
    assert forall|p: (int, int)| #[trigger] frontier_now.contains(p) implies !after.contains_key(
        p,
    ) && has_neighbour(after, p) && near_grid(p) by {
        if frontier.contains(p) && !on_line(start, dir, n, p) {
            assert(has_neighbour(tiles, p));
            assert(after.contains_key((p.0 + 1, p.1)) || after.contains_key((p.0 - 1, p.1))
                || after.contains_key((p.0, p.1 + 1)) || after.contains_key((p.0, p.1 - 1)));
        } else {
            assert(opened_by(start, dir, n, p));
            if p == dir.spec_opposite().step(start) {
                assert(on_line(start, dir, n, start));
                assert(after.contains_key(start));
            } else if n < 6 && p == dir.step_n(start, n) {
                let q = dir.step_n(start, n - 1);
                assert(on_line(start, dir, n, q));
                assert(after.contains_key(q));
            } else if on_line(start, dir, n, d1.step(p)) {
                assert(after.contains_key(d1.step(p)));
            } else {
                assert(after.contains_key(d2.step(p)));
            }
        }
    }
}

} // verus!
