//! The rule for a placement, stated over the tiles on the board, and the
//! proof that the board's tile-by-tile judgment decides it.
//!
//! A placement lays tiles out on consecutive squares. It makes one line
//! along its direction, with the tiles that were on the board before and
//! behind or ahead of it, and for each of its tiles one line across. The
//! placement is legal where all those lines are legal and the squares of
//! all tiles but the first are empty. (That the first square is empty is
//! for the caller to see to: start squares are always empty.)

use crate::board::{judge, lemma_cross_line, on_grid, run};
use crate::direction::Direction;
use crate::linevalidator::{
    legal_line, lemma_feed, lemma_full_line_rejects, lemma_legal_prefix, lemma_line_facts,
    lemma_start_tracks, lemma_step, tracks, Line,
};
use crate::partial::PartialView;
use crate::piece::Piece;
use crate::mv::MoveView;
use crate::search::{
    found, found_from, lemma_search_finds_best, lemma_search_finds_placement, lemma_shorter_picks,
    offered, picks_ok, reached, search_starts, Best,
};
use vstd::prelude::*;

verus! {

/// The tiles of the hand that `picks` names, in the order of the picks.
pub open spec fn picked(hand: Seq<Piece>, picks: Seq<int>) -> Seq<Piece> {
    Seq::new(picks.len(), |i: int| hand[picks[i]])
}

/// The tiles of the line along the direction, without those ahead of the
/// placement: the first tile, the tiles behind the start, and the other
/// tiles of the placement.
pub open spec fn line_so_far(
    tiles: Map<(int, int), Piece>,
    start: (int, int),
    dir: Direction,
    pieces: Seq<Piece>,
) -> Seq<Piece> {
    seq![pieces[0]] + run(tiles, start, dir.spec_opposite()) + pieces.skip(1)
}

/// The tiles on the board ahead of the placement's last square.
pub open spec fn line_ahead(
    tiles: Map<(int, int), Piece>,
    start: (int, int),
    dir: Direction,
    pieces: Seq<Piece>,
) -> Seq<Piece> {
    run(tiles, dir.step_n(start, pieces.len() - 1), dir)
}

/// The tiles of the line along the direction, in the order in which they
/// are checked: the line so far, and the tiles ahead.
pub open spec fn main_line(
    tiles: Map<(int, int), Piece>,
    start: (int, int),
    dir: Direction,
    pieces: Seq<Piece>,
) -> Seq<Piece> {
    line_so_far(tiles, start, dir, pieces) + line_ahead(tiles, start, dir, pieces)
}

/// The tiles of the line across the direction through the square of the
/// placement's tile `i`: that tile, and the tiles to both sides.
pub open spec fn cross_line_at(
    tiles: Map<(int, int), Piece>,
    start: (int, int),
    dir: Direction,
    pieces: Seq<Piece>,
    i: int,
) -> Seq<Piece> {
    seq![pieces[i]] + run(tiles, dir.step_n(start, i), dir.spec_perpendiculars().0) + run(
        tiles,
        dir.step_n(start, i),
        dir.spec_perpendiculars().1,
    )
}

/// The rule for a placement.
pub open spec fn legal_placement(
    tiles: Map<(int, int), Piece>,
    start: (int, int),
    dir: Direction,
    pieces: Seq<Piece>,
) -> bool {
    &&& pieces.len() >= 1
    &&& forall|i: int| 1 <= i < pieces.len() ==> !tiles.contains_key(#[trigger] dir.step_n(start, i))
    &&& legal_line(main_line(tiles, start, dir, pieces))
    &&& forall|i: int|
        0 <= i < pieces.len() ==> legal_line(#[trigger] cross_line_at(tiles, start, dir, pieces, i))
}

/// What a line of `n` tiles is worth: its length, and 6 more for six.
pub open spec fn line_points(n: nat) -> nat {
    if n == 6 {
        12
    } else {
        n
    }
}

/// What the lines across the direction through the first `k` tiles of a
/// placement are worth together. A line of one tile is worth nothing.
pub open spec fn cross_points(
    tiles: Map<(int, int), Piece>,
    start: (int, int),
    dir: Direction,
    pieces: Seq<Piece>,
    k: int,
) -> nat
    decreases k,
{
    if k <= 0 {
        0
    } else {
        let n = cross_line_at(tiles, start, dir, pieces, k - 1).len();
        cross_points(tiles, start, dir, pieces, k - 1) + if n > 1 {
            line_points(n)
        } else {
            0
        }
    }
}

/// What the line along the direction is worth: all its tiles count, those
/// behind the placement and those ahead of it too.
pub open spec fn main_points(
    tiles: Map<(int, int), Piece>,
    start: (int, int),
    dir: Direction,
    pieces: Seq<Piece>,
) -> nat {
    line_points(main_line(tiles, start, dir, pieces).len())
}

/// What the judgment of a placement has come to, tile by tile.
spec fn judged_as(
    tiles: Map<(int, int), Piece>,
    start: (int, int),
    dir: Direction,
    pieces: Seq<Piece>,
    j: PartialView,
) -> bool {
    &&& j.start == start
    &&& j.direction == dir
    &&& j.pieces == pieces
    &&& j.last == dir.step_n(start, pieces.len() - 1)
    &&& j.mainline_score == main_points(tiles, start, dir, pieces)
    &&& j.perp_scores == cross_points(tiles, start, dir, pieces, pieces.len() as int)
    &&& j.validator matches Some(l) && (if line_ahead(tiles, start, dir, pieces).len() > 0 {
        l.length == 6
    } else {
        tracks(l, line_so_far(tiles, start, dir, pieces))
    })
}

/// The lines across the first tiles of a placement do not depend on the
/// tiles after them.
proof fn lemma_cross_points_prefix(
    tiles: Map<(int, int), Piece>,
    start: (int, int),
    dir: Direction,
    pieces: Seq<Piece>,
    shorter: Seq<Piece>,
    k: int,
)
    requires
        0 <= k <= shorter.len() <= pieces.len(),
        forall|i: int| 0 <= i < shorter.len() ==> shorter[i] == pieces[i],
    ensures
        cross_points(tiles, start, dir, shorter, k) == cross_points(tiles, start, dir, pieces, k),
    decreases k,
{
    if k > 0 {
        lemma_cross_points_prefix(tiles, start, dir, pieces, shorter, k - 1);
        assert(cross_line_at(tiles, start, dir, shorter, k - 1) =~= cross_line_at(
            tiles,
            start,
            dir,
            pieces,
            k - 1,
        ));
    }
}

/// The judgment of the last tile of a placement, given that of the tiles
/// before it.
proof fn lemma_judge_offer(
    tiles: Map<(int, int), Piece>,
    start: (int, int),
    dir: Direction,
    pieces: Seq<Piece>,
    c: PartialView,
)
    requires
        pieces.len() >= 1,
        forall|q: (int, int)| #[trigger] tiles.contains_key(q) ==> on_grid(q),
        c.start == start,
        c.direction == dir,
        c.pieces == pieces,
        c.last == dir.step_n(start, pieces.len() - 1),
        c.perp_scores == cross_points(tiles, start, dir, pieces, pieces.len() - 1),
        // the line so far, where there is more than one tile, has been taken
        pieces.len() >= 2 ==> (c.validator matches Some(l) && tracks(
            l,
            line_so_far(tiles, start, dir, pieces),
        ) && legal_line(line_so_far(tiles, start, dir, pieces))),
        pieces.len() == 1 ==> c.validator is None,
    ensures
        judge(tiles, c) is Some <==> legal_line(main_line(tiles, start, dir, pieces))
            && legal_line(cross_line_at(tiles, start, dir, pieces, pieces.len() - 1)),
        judge(tiles, c) matches Some(j) ==> judged_as(tiles, start, dir, pieces, j),
{
    let k = pieces.len() as int;
    let so_far = line_so_far(tiles, start, dir, pieces);
    let ahead = line_ahead(tiles, start, dir, pieces);
    let behind = run(tiles, start, dir.spec_opposite());
    lemma_cross_line(tiles, c.last, dir, pieces.last());
    assert(cross_line_at(tiles, start, dir, pieces, k - 1) =~= seq![pieces.last()] + run(
        tiles,
        c.last,
        dir.spec_perpendiculars().0,
    ) + run(tiles, c.last, dir.spec_perpendiculars().1));
    let base = match c.validator {
        None => Line::start(pieces[0]).feed(behind),
        Some(line) => (line, true),
    };
    if k == 1 {
        let one = seq![pieces[0]];
        lemma_start_tracks(pieces[0]);
        lemma_feed(Line::start(pieces[0]), one, behind);
        assert(pieces.skip(1) =~= Seq::<Piece>::empty());
        assert(so_far =~= one + behind);
    }
    // now: base.1 <==> legal_line(so_far), and base.1 ==> tracks(base.0, so_far)
    if base.1 {
        lemma_feed(base.0, so_far, ahead);
        lemma_line_facts(base.0, so_far);
        if ahead.len() == 0 {
            assert(so_far + ahead =~= so_far);
        } else {
            // the line is as long as all its tiles when it is scored
            lemma_line_facts(base.0.feed(ahead).0, so_far + ahead);
        }
    } else {
        if legal_line(so_far + ahead) {
            assert((so_far + ahead).take(so_far.len() as int) =~= so_far);
            lemma_legal_prefix(so_far + ahead, so_far.len() as int);
        }
    }
}

/// How a placement and the placement without its last tile hang together.
proof fn lemma_one_tile_more(
    tiles: Map<(int, int), Piece>,
    start: (int, int),
    dir: Direction,
    shorter: Seq<Piece>,
    x: Piece,
)
    requires
        shorter.len() >= 1,
        forall|q: (int, int)| #[trigger] tiles.contains_key(q) ==> on_grid(q),
    ensures
        ({
            let pieces = shorter.push(x);
            &&& line_so_far(tiles, start, dir, shorter).push(x) == line_so_far(
                tiles,
                start,
                dir,
                pieces,
            )
            &&& line_ahead(tiles, start, dir, shorter).len() > 0 <==> tiles.contains_key(
                dir.step_n(start, shorter.len() as int),
            )
            &&& dir.step(dir.step_n(start, shorter.len() - 1)) == dir.step_n(
                start,
                shorter.len() as int,
            )
            &&& cross_points(tiles, start, dir, shorter, shorter.len() as int) == cross_points(
                tiles,
                start,
                dir,
                pieces,
                shorter.len() as int,
            )
            &&& forall|i: int|
                0 <= i < shorter.len() ==> #[trigger] cross_line_at(tiles, start, dir, shorter, i)
                    == cross_line_at(tiles, start, dir, pieces, i)
            &&& line_ahead(tiles, start, dir, shorter).len() == 0 ==> main_line(
                tiles,
                start,
                dir,
                shorter,
            ) == line_so_far(tiles, start, dir, shorter)
        }),
{
    let pieces = shorter.push(x);
    let k = pieces.len() as int;
    assert(pieces.skip(1) =~= shorter.skip(1).push(x));
    assert(line_so_far(tiles, start, dir, shorter).push(x) =~= line_so_far(
        tiles,
        start,
        dir,
        pieces,
    ));
    assert(dir.step(dir.step_n(start, k - 2)) == dir.step_n(start, k - 1));
    lemma_cross_points_prefix(tiles, start, dir, pieces, shorter, k - 1);
    assert forall|i: int| 0 <= i < shorter.len() implies #[trigger] cross_line_at(
        tiles,
        start,
        dir,
        shorter,
        i,
    ) == cross_line_at(tiles, start, dir, pieces, i) by {
        assert(cross_line_at(tiles, start, dir, shorter, i) =~= cross_line_at(
            tiles,
            start,
            dir,
            pieces,
            i,
        ));
    }
    if line_ahead(tiles, start, dir, shorter).len() == 0 {
        assert(main_line(tiles, start, dir, shorter) =~= line_so_far(tiles, start, dir, shorter));
    }
}

/// A legal placement is legal without its last tile, and that tile stands
/// on an empty square and fits the line so far.
proof fn lemma_legal_without_last(
    tiles: Map<(int, int), Piece>,
    start: (int, int),
    dir: Direction,
    shorter: Seq<Piece>,
    x: Piece,
)
    requires
        shorter.len() >= 1,
        forall|q: (int, int)| #[trigger] tiles.contains_key(q) ==> on_grid(q),
        legal_placement(tiles, start, dir, shorter.push(x)),
    ensures
        legal_placement(tiles, start, dir, shorter),
        line_ahead(tiles, start, dir, shorter).len() == 0,
        legal_line(line_so_far(tiles, start, dir, shorter.push(x))),
        legal_line(cross_line_at(tiles, start, dir, shorter.push(x), shorter.len() as int)),
{
    let pieces = shorter.push(x);
    let k = pieces.len() as int;
    lemma_one_tile_more(tiles, start, dir, shorter, x);
    let so_far0 = line_so_far(tiles, start, dir, shorter);
    let so_far = line_so_far(tiles, start, dir, pieces);
    let whole = main_line(tiles, start, dir, pieces);
    assert(!tiles.contains_key(dir.step_n(start, k - 1)));
    assert(whole.take(so_far0.len() as int) =~= so_far0);
    lemma_legal_prefix(whole, so_far0.len() as int);
    assert(whole.take(so_far.len() as int) =~= so_far);
    lemma_legal_prefix(whole, so_far.len() as int);
    assert forall|i: int| 1 <= i < shorter.len() implies !tiles.contains_key(
        #[trigger] dir.step_n(start, i),
    ) by {}
    assert forall|i: int| 0 <= i < shorter.len() implies legal_line(
        #[trigger] cross_line_at(tiles, start, dir, shorter, i),
    ) by {
        assert(legal_line(cross_line_at(tiles, start, dir, pieces, i)));
    }
    assert(legal_line(cross_line_at(tiles, start, dir, pieces, k - 1)));
}

/// A legal placement stays legal with a tile more that stands on an empty
/// square and makes legal lines.
proof fn lemma_legal_with_one_more(
    tiles: Map<(int, int), Piece>,
    start: (int, int),
    dir: Direction,
    shorter: Seq<Piece>,
    x: Piece,
)
    requires
        shorter.len() >= 1,
        forall|q: (int, int)| #[trigger] tiles.contains_key(q) ==> on_grid(q),
        legal_placement(tiles, start, dir, shorter),
        line_ahead(tiles, start, dir, shorter).len() == 0,
        legal_line(main_line(tiles, start, dir, shorter.push(x))),
        legal_line(cross_line_at(tiles, start, dir, shorter.push(x), shorter.len() as int)),
    ensures
        legal_placement(tiles, start, dir, shorter.push(x)),
{
    let pieces = shorter.push(x);
    let k = pieces.len() as int;
    lemma_one_tile_more(tiles, start, dir, shorter, x);
    assert forall|i: int| 1 <= i < pieces.len() implies !tiles.contains_key(
        #[trigger] dir.step_n(start, i),
    ) by {
        if i < k - 1 {
            assert(!tiles.contains_key(dir.step_n(start, i)));
        }
    }
    assert forall|i: int| 0 <= i < pieces.len() implies legal_line(
        #[trigger] cross_line_at(tiles, start, dir, pieces, i),
    ) by {
        if i < k - 1 {
            assert(legal_line(cross_line_at(tiles, start, dir, shorter, i)));
        }
    }
}

/// One tile more: what holds of the picks before the last holds of all.
proof fn lemma_reached_step(
    tiles: Map<(int, int), Piece>,
    start: (int, int),
    dir: Direction,
    hand: Seq<Piece>,
    picks: Seq<int>,
)
    requires
        forall|q: (int, int)| #[trigger] tiles.contains_key(q) ==> on_grid(q),
        picks_ok(picks, hand.len() as int),
        picks.len() >= 2,
        reached(tiles, start, dir, hand, picks.drop_last()) is Some <==> legal_placement(
            tiles,
            start,
            dir,
            picked(hand, picks.drop_last()),
        ),
        reached(tiles, start, dir, hand, picks.drop_last()) matches Some(j) ==> judged_as(
            tiles,
            start,
            dir,
            picked(hand, picks.drop_last()),
            j,
        ),
    ensures
        reached(tiles, start, dir, hand, picks) is Some <==> legal_placement(
            tiles,
            start,
            dir,
            picked(hand, picks),
        ),
        reached(tiles, start, dir, hand, picks) matches Some(j) ==> judged_as(
            tiles,
            start,
            dir,
            picked(hand, picks),
            j,
        ),
{
    let pieces = picked(hand, picks);
    let fewer = picks.drop_last();
    let shorter = picked(hand, fewer);
    let x = hand[picks.last()];
    assert(shorter.push(x) =~= pieces);
    lemma_one_tile_more(tiles, start, dir, shorter, x);
    let so_far0 = line_so_far(tiles, start, dir, shorter);
    let ahead0 = line_ahead(tiles, start, dir, shorter);
    let before = reached(tiles, start, dir, hand, fewer);
    if legal_placement(tiles, start, dir, pieces) {
        lemma_legal_without_last(tiles, start, dir, shorter, x);
    }
    if before is Some {
        let j0 = before.unwrap();
        let l0 = j0.validator.unwrap();
        if ahead0.len() == 0 {
            lemma_step(l0, so_far0, x);
            if l0.accepts(x) {
                let c = j0.child(x).unwrap();
                assert(offered(tiles, start, dir, hand, picks) == Some(c));
                lemma_judge_offer(tiles, start, dir, pieces, c);
                if judge(tiles, c) is Some {
                    lemma_legal_with_one_more(tiles, start, dir, shorter, x);
                }
            } else {
                assert(offered(tiles, start, dir, hand, picks) is None);
            }
        } else {
            // the shorter placement runs into tiles: its line is sealed
            lemma_full_line_rejects(l0, x);
            assert(offered(tiles, start, dir, hand, picks) is None);
        }
    } else {
        assert(offered(tiles, start, dir, hand, picks) is None);
    }
}

proof fn lemma_reached(
    tiles: Map<(int, int), Piece>,
    start: (int, int),
    dir: Direction,
    hand: Seq<Piece>,
    picks: Seq<int>,
)
    requires
        forall|q: (int, int)| #[trigger] tiles.contains_key(q) ==> on_grid(q),
        picks_ok(picks, hand.len() as int),
    ensures
        reached(tiles, start, dir, hand, picks) is Some <==> legal_placement(
            tiles,
            start,
            dir,
            picked(hand, picks),
        ),
        reached(tiles, start, dir, hand, picks) matches Some(j) ==> judged_as(
            tiles,
            start,
            dir,
            picked(hand, picks),
            j,
        ),
    decreases picks.len(),
{
    let pieces = picked(hand, picks);
    if picks.len() == 1 {
        let c = PartialView::single(start, dir, hand[picks[0]]);
        assert(c.pieces =~= pieces);
        lemma_judge_offer(tiles, start, dir, pieces, c);
    } else {
        let fewer = picks.drop_last();
        lemma_shorter_picks(picks, hand.len() as int);
        lemma_reached(tiles, start, dir, hand, fewer);
        lemma_reached_step(tiles, start, dir, hand, picks);
    }
}

/// The board's judgment, tile by tile, decides the rule: the picked tiles,
/// laid out from `start`, are accepted exactly where they make a legal
/// placement. The accepted placement holds the picked tiles in order, and
/// its scores are what its lines are worth.
pub proof fn lemma_reached_is_legal(
    tiles: Map<(int, int), Piece>,
    start: (int, int),
    dir: Direction,
    hand: Seq<Piece>,
    picks: Seq<int>,
)
    requires
        forall|q: (int, int)| #[trigger] tiles.contains_key(q) ==> on_grid(q),
        picks_ok(picks, hand.len() as int),
    ensures
        reached(tiles, start, dir, hand, picks) is Some <==> legal_placement(
            tiles,
            start,
            dir,
            picked(hand, picks),
        ),
        reached(tiles, start, dir, hand, picks) matches Some(j) ==> {
            &&& j.start == start
            &&& j.direction == dir
            &&& j.pieces == picked(hand, picks)
            &&& j.mainline_score == main_points(tiles, start, dir, picked(hand, picks))
            &&& j.perp_scores == cross_points(
                tiles,
                start,
                dir,
                picked(hand, picks),
                picks.len() as int,
            )
        },
{
    lemma_reached(tiles, start, dir, hand, picks);
}

/// What a placement is worth: its line along the direction and its lines
/// across.
pub open spec fn placement_points(
    tiles: Map<(int, int), Piece>,
    start: (int, int),
    dir: Direction,
    pieces: Seq<Piece>,
) -> nat {
    main_points(tiles, start, dir, pieces) + cross_points(
        tiles,
        start,
        dir,
        pieces,
        pieces.len() as int,
    )
}

/// Whether `best` is a legal placement of tiles of the hand from one of
/// the start squares, with what it is worth.
pub open spec fn is_legal_move(
    tiles: Map<(int, int), Piece>,
    hand: Seq<Piece>,
    starts: Seq<((int, int), Direction)>,
    best: Best,
) -> bool {
    exists|si: int, picks: Seq<int>|
        #![trigger starts[si], picked(hand, picks)]
        {
            &&& 0 <= si < starts.len()
            &&& picks_ok(picks, hand.len() as int)
            &&& legal_placement(tiles, starts[si].0, starts[si].1, picked(hand, picks))
            &&& best.mv == MoveView::Place {
                start: starts[si].0,
                direction: starts[si].1,
                pieces: picked(hand, picks),
                score: best.score,
            }
            &&& best.score == placement_points(
                tiles,
                starts[si].0,
                starts[si].1,
                picked(hand, picks),
            )
        }
}

/// The search finds a legal placement, with what it is worth, or nothing:
/// then the move is a swap and the score 0.
pub proof fn lemma_search_move_is_legal(
    tiles: Map<(int, int), Piece>,
    hand: Seq<Piece>,
    starts: Seq<((int, int), Direction)>,
)
    requires
        forall|q: (int, int)| #[trigger] tiles.contains_key(q) ==> on_grid(q),
    ensures
        search_starts(tiles, hand, starts, Best::none()) == Best::none() || is_legal_move(
            tiles,
            hand,
            starts,
            search_starts(tiles, hand, starts, Best::none()),
        ),
{
    let best = search_starts(tiles, hand, starts, Best::none());
    lemma_search_finds_placement(tiles, hand, starts);
    if best != Best::none() {
        assert(found(tiles, hand, starts, best));
        let si = choose|si: int|
            0 <= si < starts.len() && #[trigger] found_from(
                tiles,
                starts[si].0,
                starts[si].1,
                hand,
                best,
            );
        let (start, dir) = starts[si];
        let picks = choose|picks: Seq<int>|
            picks_ok(picks, hand.len() as int) && picks.len() <= 6 && (#[trigger] reached(
                tiles,
                start,
                dir,
                hand,
                picks,
            )) is Some && best == (Best {
                score: reached(tiles, start, dir, hand, picks).unwrap().total_score(),
                mv: reached(tiles, start, dir, hand, picks).unwrap().as_move(),
            });
        lemma_reached_is_legal(tiles, start, dir, hand, picks);
        assert(starts[si] == (start, dir));
        let pieces = picked(hand, picks);
        assert(legal_placement(tiles, starts[si].0, starts[si].1, pieces));
    }
}

/// No legal placement of tiles of the hand from one of the start squares
/// is worth more than what the search finds.
pub proof fn lemma_search_move_is_best(
    tiles: Map<(int, int), Piece>,
    hand: Seq<Piece>,
    starts: Seq<((int, int), Direction)>,
    si: int,
    picks: Seq<int>,
)
    requires
        forall|q: (int, int)| #[trigger] tiles.contains_key(q) ==> on_grid(q),
        0 <= si < starts.len(),
        picks_ok(picks, hand.len() as int),
        legal_placement(tiles, starts[si].0, starts[si].1, picked(hand, picks)),
    ensures
        search_starts(tiles, hand, starts, Best::none()).score >= placement_points(
            tiles,
            starts[si].0,
            starts[si].1,
            picked(hand, picks),
        ),
{
    let (start, dir) = starts[si];
    let pieces = picked(hand, picks);
    lemma_reached_is_legal(tiles, start, dir, hand, picks);
    // a legal line holds six tiles at most, and so does the placement
    let whole = main_line(tiles, start, dir, pieces);
    lemma_line_facts(Line::start(pieces[0]), whole);
    assert(whole.len() >= line_so_far(tiles, start, dir, pieces).len());
    assert(line_so_far(tiles, start, dir, pieces).len() >= 1 + pieces.skip(1).len());
    assert(picks.len() <= 6);
    lemma_search_finds_best(tiles, hand, starts, si, picks);
}

} // verus!
