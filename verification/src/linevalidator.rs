//! Incremental checking of one line of tiles.
//!
//! A line is legal when it holds at most six tiles that all share a colour
//! and differ pairwise in shape, or all share a shape and differ pairwise in
//! colour. A [`LineValidator`] is fed the tiles of a line one at a time and
//! says of each whether the line is still legal with it.

use crate::board::NonBlankIterator;
use crate::direction::fits;
use crate::piece::Piece;
use vstd::prelude::*;

verus! {

/// What the tiles of a line have in common.
pub enum Common {
    /// The line holds a single tile: nothing is settled yet.
    Undecided,
    /// All tiles have the colour of the first.
    Colour,
    /// All tiles have the shape of the first.
    Shape,
}

/// The state of a validator as a mathematical value.
pub struct Line {
    /// The tile the line began with.
    pub first: Piece,
    pub common: Common,
    /// Six flags. In a line of one colour, flag `i` says that the shape with
    /// index `i` is in the line; in a line of one shape, that the colour
    /// with index `i` is.
    pub seen: Seq<bool>,
    /// The number of tiles, or 6 for a line that was sealed.
    pub length: nat,
}

impl Line {
    /// The line that holds `p` alone.
    pub open spec fn start(p: Piece) -> Line {
        Line { first: p, common: Common::Undecided, seen: Seq::new(6, |i: int| false), length: 1 }
    }

    /// Whether the line can take `p` as its next tile.
    pub open spec fn accepts(self, p: Piece) -> bool {
        &&& self.length != 6
        &&& p != self.first
        &&& match self.common {
            Common::Undecided => p.colour == self.first.colour || p.shape == self.first.shape,
            Common::Colour => p.colour == self.first.colour && !self.seen[p.shape.spec_index() as int],
            Common::Shape => p.shape == self.first.shape && !self.seen[p.colour.spec_index() as int],
        }
    }

    /// The line with `p` as its next tile; meant for a `p` that the line
    /// accepts.
    pub open spec fn extend(self, p: Piece) -> Line {
        match self.common {
            Common::Undecided => if p.colour == self.first.colour {
                Line {
                    first: self.first,
                    common: Common::Colour,
                    seen: self.seen.update(self.first.shape.spec_index() as int, true).update(
                        p.shape.spec_index() as int,
                        true,
                    ),
                    length: self.length + 1,
                }
            } else {
                Line {
                    first: self.first,
                    common: Common::Shape,
                    seen: self.seen.update(self.first.colour.spec_index() as int, true).update(
                        p.colour.spec_index() as int,
                        true,
                    ),
                    length: self.length + 1,
                }
            },
            Common::Colour => Line {
                first: self.first,
                common: Common::Colour,
                seen: self.seen.update(p.shape.spec_index() as int, true),
                length: self.length + 1,
            },
            Common::Shape => Line {
                first: self.first,
                common: Common::Shape,
                seen: self.seen.update(p.colour.spec_index() as int, true),
                length: self.length + 1,
            },
        }
    }

    /// The line closed to further tiles: its length is set to 6.
    pub open spec fn seal(self) -> Line {
        Line { first: self.first, common: self.common, seen: self.seen, length: 6 }
    }

    /// Feeds the tiles of `s` to the line in order, up to the first that it
    /// does not accept. Gives the line reached and whether all were taken.
    pub open spec fn feed(self, s: Seq<Piece>) -> (Line, bool)
        decreases s.len(),
    {
        if s.len() == 0 {
            (self, true)
        } else if self.accepts(s[0]) {
            self.extend(s[0]).feed(s.drop_first())
        } else {
            (self, false)
        }
    }

    /// Feeding one sequence and then another is feeding the two as one,
    /// unless a tile of the first was refused.
    pub proof fn lemma_feed_concat(self, a: Seq<Piece>, b: Seq<Piece>)
        ensures
            self.feed(a + b) == if self.feed(a).1 {
                self.feed(a).0.feed(b)
            } else {
                self.feed(a)
            },
        decreases a.len(),
    {
        if a.len() == 0 {
            assert(a + b =~= b);
        } else {
            assert((a + b)[0] == a[0]);
            assert((a + b).drop_first() =~= a.drop_first() + b);
            if self.accepts(a[0]) {
                self.extend(a[0]).lemma_feed_concat(a.drop_first(), b);
            }
        }
    }

    /// What a line is worth: its length, and 6 more for a line of six.
    pub open spec fn score(self) -> nat {
        if self.length == 6 {
            12
        } else {
            self.length
        }
    }
}

/// Whether no tile stands twice in `s`.
pub open spec fn distinct(s: Seq<Piece>) -> bool {
    forall|i: int, j: int| 0 <= i < j < s.len() ==> s[i] != s[j]
}

/// Whether all tiles of `s` have one colour.
pub open spec fn same_colour(s: Seq<Piece>) -> bool {
    forall|i: int, j: int| 0 <= i < j < s.len() ==> s[i].colour == s[j].colour
}

/// Whether all tiles of `s` have one shape.
pub open spec fn same_shape(s: Seq<Piece>) -> bool {
    forall|i: int, j: int| 0 <= i < j < s.len() ==> s[i].shape == s[j].shape
}

/// The rule of the game: a line holds between one and six tiles, no tile
/// twice, and its tiles have all one colour or all one shape.
#[verifier::opaque]
pub open spec fn legal_line(s: Seq<Piece>) -> bool {
    &&& 1 <= s.len() <= 6
    &&& distinct(s)
    &&& same_colour(s) || same_shape(s)
}

/// Whether the line `l` is what a validator comes to that was fed the
/// tiles of `s`, none of them refused.
#[verifier::opaque]
pub open spec fn tracks(l: Line, s: Seq<Piece>) -> bool {
    &&& s.len() >= 1
    &&& l.first == s[0]
    &&& l.length == s.len()
    &&& l.seen.len() == 6
    &&& s.len() == 1 <==> l.common is Undecided
    &&& l.common is Undecided ==> forall|k: int| 0 <= k < 6 ==> !l.seen[k]
    &&& l.common is Colour ==> same_colour(s) && forall|k: int|
        0 <= k < 6 ==> (l.seen[k] <==> exists|i: int|
            0 <= i < s.len() && (#[trigger] s[i]).shape.spec_index() == k)
    &&& l.common is Shape ==> same_shape(s) && forall|k: int|
        0 <= k < 6 ==> (l.seen[k] <==> exists|i: int|
            0 <= i < s.len() && (#[trigger] s[i]).colour.spec_index() == k)
}

/// A validator that began with `t1` takes a different tile `t2` exactly
/// where the two share a colour or a shape, and never takes `t1` again.
pub proof fn lemma_first_extension(t1: Piece, t2: Piece)
    ensures
        t1 != t2 ==> (Line::start(t1).accepts(t2) <==> t1.compatible(t2)),
        !Line::start(t1).accepts(t1),
{
}

/// A line of length 6, full or sealed, takes no tile.
pub proof fn lemma_full_line_rejects(l: Line, p: Piece)
    ensures
        l.length == 6 ==> !l.accepts(p),
        !l.seal().accepts(p),
        l.length == 6 ==> l.feed(seq![p]) == (l, false),
{
    if l.length == 6 {
        assert(seq![p][0] == p);
    }
}

/// The beginning of a legal line is a legal line.
pub proof fn lemma_legal_prefix(s: Seq<Piece>, n: int)
    requires
        legal_line(s),
        1 <= n <= s.len(),
    ensures
        legal_line(s.take(n)),
{
    reveal(legal_line);
    let t = s.take(n);
    assert forall|i: int, j: int| 0 <= i < j < t.len() implies t[i] != t[j] by {
        assert(s[i] != s[j]);
    }
    if same_colour(s) {
        assert forall|i: int, j: int| 0 <= i < j < t.len() implies t[i].colour == t[j].colour by {
            assert(s[i].colour == s[j].colour);
        }
    } else {
        assert forall|i: int, j: int| 0 <= i < j < t.len() implies t[i].shape == t[j].shape by {
            assert(s[i].shape == s[j].shape);
        }
    }
}

/// One step of a validator that has taken the legal line `s`: it takes
/// the tile `c` exactly where `s` with `c` is a legal line, and has then
/// taken that line.
pub proof fn lemma_step(l: Line, s: Seq<Piece>, c: Piece)
    requires
        tracks(l, s),
        legal_line(s),
    ensures
        l.accepts(c) <==> legal_line(s.push(c)),
        l.accepts(c) ==> tracks(l.extend(c), s.push(c)),
{
    reveal(legal_line);
    reveal(tracks);
    let t = s.push(c);
    let n = s.len() as int;
    assert(t[n] == c);
    assert(forall|i: int| 0 <= i < n ==> t[i] == s[i]);
    if l.accepts(c) {
        // the line with `c` is legal
        assert(distinct(t)) by {
            assert forall|i: int, j: int| 0 <= i < j < t.len() implies t[i] != t[j] by {
                if j < n {
                    assert(s[i] != s[j]);
                } else {
                    lemma_not_among(l, s, c, i);
                }
            }
        }
        lemma_extend_tracks(l, s, c);
    }
    if legal_line(t) {
        assert(t[0] != t[n]);
        if n >= 2 {
            assert(t[0] != t[1]);
            assert(s[0] != s[1]);
        }
        match l.common {
            Common::Undecided => {
                assert(t[0].colour == t[1].colour || t[0].shape == t[1].shape);
            },
            Common::Colour => {
                if same_shape(t) {
                    assert(t[0].shape == t[1].shape);
                    assert(s[0].colour == s[1].colour);
                }
                assert(t[0].colour == t[n].colour);
                if l.seen[c.shape.spec_index() as int] {
                    let i = choose|i: int|
                        0 <= i < s.len() && (#[trigger] s[i]).shape.spec_index()
                            == c.shape.spec_index();
                    lemma_index_injective(s[i], c);
                    assert(t[i] != t[n]);
                    if i > 0 {
                        assert(s[0].colour == s[i].colour);
                    }
                }
            },
            Common::Shape => {
                if same_colour(t) {
                    assert(t[0].colour == t[1].colour);
                    assert(s[0].shape == s[1].shape);
                }
                assert(t[0].shape == t[n].shape);
                if l.seen[c.colour.spec_index() as int] {
                    let i = choose|i: int|
                        0 <= i < s.len() && (#[trigger] s[i]).colour.spec_index()
                            == c.colour.spec_index();
                    lemma_index_injective(s[i], c);
                    assert(t[i] != t[n]);
                    if i > 0 {
                        assert(s[0].shape == s[i].shape);
                    }
                }
            },
        }
    }
}

/// Colours and shapes with the same index are the same.
proof fn lemma_index_injective(a: Piece, b: Piece)
    ensures
        a.colour.spec_index() == b.colour.spec_index() ==> a.colour == b.colour,
        a.shape.spec_index() == b.shape.spec_index() ==> a.shape == b.shape,
        a.colour.spec_index() < 6,
        a.shape.spec_index() < 6,
{
}

/// A tile that the validator takes is none of the tiles it has taken.
proof fn lemma_not_among(l: Line, s: Seq<Piece>, c: Piece, i: int)
    requires
        tracks(l, s),
        legal_line(s),
        l.accepts(c),
        0 <= i < s.len(),
    ensures
        s[i] != c,
{
    reveal(legal_line);
    reveal(tracks);
    lemma_index_injective(s[i], c);
    match l.common {
        Common::Undecided => {},
        Common::Colour => {
            assert(s[i].shape.spec_index() == s[i].shape.spec_index());
        },
        Common::Shape => {
            assert(s[i].colour.spec_index() == s[i].colour.spec_index());
        },
    }
}

/// A validator that has taken `s` and takes `c` has taken `s` with `c`, and
/// that is a legal line.
proof fn lemma_extend_tracks(l: Line, s: Seq<Piece>, c: Piece)
    requires
        tracks(l, s),
        legal_line(s),
        l.accepts(c),
    ensures
        tracks(l.extend(c), s.push(c)),
        same_colour(s.push(c)) || same_shape(s.push(c)),
        s.len() < 6,
{
    reveal(legal_line);
    reveal(tracks);
    let t = s.push(c);
    let n = s.len() as int;
    let e = l.extend(c);
    lemma_index_injective(c, l.first);
    assert(t[n] == c);
    assert(forall|i: int| 0 <= i < n ==> t[i] == s[i]);
    if e.common is Colour {
        assert(c.colour == l.first.colour);
        assert forall|i: int, j: int| 0 <= i < j < t.len() implies t[i].colour
            == t[j].colour by {
            if i > 0 && l.common is Colour {
                assert(s[0].colour == s[i].colour);
            }
            if j < n && l.common is Colour {
                assert(s[0].colour == s[j].colour);
            }
        }
        assert forall|k: int| 0 <= k < 6 implies (e.seen[k] <==> exists|i: int|
            0 <= i < t.len() && (#[trigger] t[i]).shape.spec_index() == k) by {
            if e.seen[k] {
                if k == c.shape.spec_index() {
                    assert(t[n].shape.spec_index() == k);
                } else if l.common is Undecided {
                    assert(t[0].shape.spec_index() == k);
                } else {
                    let i = choose|i: int|
                        0 <= i < s.len() && (#[trigger] s[i]).shape.spec_index() == k;
                    assert(t[i].shape.spec_index() == k);
                }
            }
            if exists|i: int| 0 <= i < t.len() && (#[trigger] t[i]).shape.spec_index() == k {
                let i = choose|i: int|
                    0 <= i < t.len() && (#[trigger] t[i]).shape.spec_index() == k;
                if i < n && l.common is Colour {
                    assert(s[i].shape.spec_index() == k);
                }
            }
        }
    } else {
        assert(c.shape == l.first.shape);
        assert forall|i: int, j: int| 0 <= i < j < t.len() implies t[i].shape == t[j].shape by {
            if i > 0 && l.common is Shape {
                assert(s[0].shape == s[i].shape);
            }
            if j < n && l.common is Shape {
                assert(s[0].shape == s[j].shape);
            }
        }
        assert forall|k: int| 0 <= k < 6 implies (e.seen[k] <==> exists|i: int|
            0 <= i < t.len() && (#[trigger] t[i]).colour.spec_index() == k) by {
            if e.seen[k] {
                if k == c.colour.spec_index() {
                    assert(t[n].colour.spec_index() == k);
                } else if l.common is Undecided {
                    assert(t[0].colour.spec_index() == k);
                } else {
                    let i = choose|i: int|
                        0 <= i < s.len() && (#[trigger] s[i]).colour.spec_index() == k;
                    assert(t[i].colour.spec_index() == k);
                }
            }
            if exists|i: int| 0 <= i < t.len() && (#[trigger] t[i]).colour.spec_index() == k {
                let i = choose|i: int|
                    0 <= i < t.len() && (#[trigger] t[i]).colour.spec_index() == k;
                if i < n && l.common is Shape {
                    assert(s[i].colour.spec_index() == k);
                }
            }
        }
    }
}

/// A validator that has taken the legal line `pre` takes all of `rest`
/// exactly where `pre` with `rest` is a legal line, and has then taken that
/// line.
pub proof fn lemma_feed(l: Line, pre: Seq<Piece>, rest: Seq<Piece>)
    requires
        tracks(l, pre),
        legal_line(pre),
    ensures
        l.feed(rest).1 <==> legal_line(pre + rest),
        l.feed(rest).1 ==> tracks(l.feed(rest).0, pre + rest),
    decreases rest.len(),
{
    if rest.len() == 0 {
        assert(pre + rest =~= pre);
    } else {
        let c = rest[0];
        lemma_step(l, pre, c);
        assert((pre + rest).take(pre.len() as int + 1) =~= pre.push(c));
        if l.accepts(c) {
            lemma_feed(l.extend(c), pre.push(c), rest.drop_first());
            assert(pre.push(c) + rest.drop_first() =~= pre + rest);
        } else {
            if legal_line(pre + rest) {
                lemma_legal_prefix(pre + rest, pre.len() as int + 1);
            }
        }
    }
}

/// A validator that has just begun has taken its first tile, which is a
/// legal line by itself.
pub proof fn lemma_start_tracks(p: Piece)
    ensures
        tracks(Line::start(p), seq![p]),
        legal_line(seq![p]),
{
    reveal(legal_line);
    reveal(tracks);
}

/// A validator that has taken a line is as long as the line, and a legal
/// line holds six tiles at most, no tile twice, all of one colour or all of
/// one shape.
pub proof fn lemma_line_facts(l: Line, s: Seq<Piece>)
    ensures
        tracks(l, s) ==> l.length == s.len() && l.first == s[0] && s.len() >= 1,
        legal_line(s) <==> 1 <= s.len() <= 6 && distinct(s) && (same_colour(s) || same_shape(s)),
{
    reveal(legal_line);
    reveal(tracks);
}

/// A validator decides the rule of the game: begun with the first tile of
/// `s` and fed the others in order, it takes them all exactly where `s` is
/// a legal line, and its length is then the number of tiles.
pub proof fn lemma_validator_decides(s: Seq<Piece>)
    requires
        s.len() >= 1,
    ensures
        Line::start(s[0]).feed(s.skip(1)).1 <==> legal_line(s),
        legal_line(s) ==> Line::start(s[0]).feed(s.skip(1)).0.length == s.len(),
{
    let one = seq![s[0]];
    lemma_start_tracks(s[0]);
    assert(one + s.skip(1) =~= s);
    lemma_feed(Line::start(s[0]), one, s.skip(1));
    if legal_line(s) {
        lemma_line_facts(Line::start(s[0]).feed(s.skip(1)).0, s);
    }
}

/// Up to six tiles, no two the same, that have all one colour or all one
/// shape are taken one after the other, whatever their order, and the
/// validator is then as long as the sequence.
pub proof fn lemma_matching_tiles_are_taken(s: Seq<Piece>)
    requires
        1 <= s.len() <= 6,
        distinct(s),
        same_colour(s) || same_shape(s),
    ensures
        Line::start(s[0]).feed(s.skip(1)).1,
        Line::start(s[0]).feed(s.skip(1)).0.length == s.len(),
{
    lemma_line_facts(Line::start(s[0]), s);
    lemma_validator_decides(s);
}

#[derive(Copy, Clone)]
pub struct LineValidator {
    seen_already: [bool; 6],
    first_piece: Piece,
    is_line_of_colour: Option<bool>,
    pub length: usize,
}

impl View for LineValidator {
    type V = Line;

    closed spec fn view(&self) -> Line {
        Line {
            first: self.first_piece,
            common: match self.is_line_of_colour {
                None => Common::Undecided,
                Some(true) => Common::Colour,
                Some(false) => Common::Shape,
            },
            seen: self.seen_already@,
            length: self.length as nat,
        }
    }
}

impl LineValidator {
    /// A validator holds between one and six tiles.
    pub open spec fn wf(&self) -> bool {
        1 <= self@.length <= 6 && self@.seen.len() == 6
    }

    /// The number of tiles in the line, or 6 for a sealed line.
    pub fn len(&self) -> (n: usize)
        ensures
            n == self@.length,
    {
        self.length
    }

    pub fn new(first_piece: Piece) -> (lv: LineValidator)
        ensures
            lv@ == Line::start(first_piece),
            lv.wf(),
    {
        let lv = LineValidator {
            seen_already: [false; 6],
            first_piece,
            is_line_of_colour: None,
            length: 1,
        };
        assert(lv@.seen =~= Seq::new(6, |i: int| false));
        lv
    }

    /// The validator with `new_piece` as its next tile, or `None` where the
    /// line does not accept the tile. This validator stays as it is, so
    /// several tiles can be tried from one state.
    pub fn clone_extend(&self, new_piece: Piece) -> (r: Option<LineValidator>)
        requires
            self.wf(),
        ensures
            r is Some <==> self@.accepts(new_piece),
            r matches Some(lv2) ==> lv2@ == self@.extend(new_piece) && lv2.wf(),
    {
        let mut lv2 = *self;
        if lv2.add_piece(new_piece) {
            Some(lv2)
        } else {
            None
        }
    }

    /// Prevents any more extensions.
    pub fn seal(&mut self)
        ensures
            final(self)@ == old(self)@.seal(),
            final(self).wf(),
    {
        self.length = 6;
    }

    /// Feeds the validator the tiles that `iter` hands out, up to the first
    /// empty square or the first tile that the line does not accept. Says
    /// whether it took them all; the validator has taken the tiles before
    /// the first it refused.
    pub fn extend_from_iter(&mut self, iter: &mut NonBlankIterator<'_>) -> (ok: bool)
        requires
            old(self).wf(),
            old(iter).board_wf(),
            fits(old(iter).heading().step(old(iter).position())),
        ensures
            ok == old(self)@.feed(old(iter).remaining()).1,
            final(self)@ == old(self)@.feed(old(iter).remaining()).0,
            final(self).wf(),
            final(iter).heading() == old(iter).heading(),
            final(iter).tiles() == old(iter).tiles(),
            final(iter).position() == old(iter).heading().step_n(
                old(iter).position(),
                final(self)@.length - old(self)@.length + 1,
            ),
            final(iter).board_wf(),
            !ok ==> final(iter).tiles().contains_key(final(iter).position()),
    {
        let ghost line0 = self@;
        let ghost all = iter.remaining();
        let ghost from = iter.position();
        loop
            invariant
                self.wf(),
                iter.board_wf(),
                fits(iter.heading().step(iter.position())),
                iter.heading() == old(iter).heading(),
                iter.tiles() == old(iter).tiles(),
                line0 == old(self)@,
                all == old(iter).remaining(),
                from == old(iter).position(),
                line0.feed(all) == self@.feed(iter.remaining()),
                self@.length >= line0.length,
                iter.position() == iter.heading().step_n(from, self@.length - line0.length),
            decreases iter.remaining().len(),
        {
            let ghost rest = iter.remaining();
            match iter.next() {
                None => {
                    return true;
                },
                Some(new_piece) => {
                    proof {
                        assert(rest[0] == new_piece);
                        assert(rest.drop_first() =~= iter.remaining());
                    }
                    if !self.add_piece(new_piece) {
                        return false;
                    }
                },
            }
        }
    }

    /// Takes `new_piece` as the next tile where the line accepts it, and
    /// says whether it did. A validator that refuses a tile is unchanged.
    pub fn add_piece(&mut self, new_piece: Piece) -> (ok: bool)
        requires
            old(self).wf(),
        ensures
            ok == old(self)@.accepts(new_piece),
            ok ==> final(self)@ == old(self)@.extend(new_piece),
            !ok ==> *final(self) == *old(self),
            final(self).wf(),
    {
        if self.length == 6 || new_piece == self.first_piece {
            return false;
        }
        match self.is_line_of_colour {
            None => {
                if self.first_piece.colour == new_piece.colour {
                    self.is_line_of_colour = Some(true);
                    self.seen_already[self.first_piece.shape.index()] = true;
                    self.seen_already[new_piece.shape.index()] = true;
                } else if self.first_piece.shape == new_piece.shape {
                    self.is_line_of_colour = Some(false);
                    self.seen_already[self.first_piece.colour.index()] = true;
                    self.seen_already[new_piece.colour.index()] = true;
                } else {
                    return false;
                }
            },
            Some(loc) => {
                if loc {
                    if self.first_piece.colour != new_piece.colour
                        || self.seen_already[new_piece.shape.index()] {
                        return false;
                    }
                    self.seen_already[new_piece.shape.index()] = true;
                } else {
                    if self.first_piece.shape != new_piece.shape
                        || self.seen_already[new_piece.colour.index()] {
                        return false;
                    }
                    self.seen_already[new_piece.colour.index()] = true;
                }
            },
        }
        self.length = self.length + 1;
        true
    }
}

} // verus!
