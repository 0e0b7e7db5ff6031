//! The search for the best placement of tiles from a hand.
//!
//! The search goes through placements in order of length. Every tile of
//! the hand on a start square is a placement of length one. A placement
//! that the board accepts is scored and then tried with each tile of the
//! hand as one tile more; a placement that the board refuses is dropped
//! with all that would extend it. The first placement with the highest
//! score wins.

use crate::board::{judge, near_grid, Board};
use crate::direction::{pt, Direction, Square};
use crate::mv::{Move, MoveView};
use crate::partial::{Partial, PartialView};
use crate::piece::Piece;
use crate::player::Score;
use std::collections::VecDeque;
use vstd::prelude::*;

verus! {

/// The best move found so far and its score.
pub struct Best {
    pub score: nat,
    pub mv: MoveView,
}

impl Best {
    /// Nothing found: swapping tiles, for no points.
    pub open spec fn none() -> Best {
        Best { score: 0, mv: MoveView::Swap }
    }
}

/// The placements of one tile on `start`: one for each tile of the hand, in
/// the order of the hand.
pub open spec fn singles(start: (int, int), dir: Direction, hand: Seq<Piece>) -> Seq<PartialView> {
    Seq::new(hand.len(), |i: int| PartialView::single(start, dir, hand[i]))
}

/// The placements that extend `p` by one tile of the hand, in the order of
/// the hand.
pub open spec fn children(p: PartialView, hand: Seq<Piece>) -> Seq<PartialView>
    decreases hand.len(),
{
    if hand.len() == 0 {
        Seq::empty()
    } else {
        let before = children(p, hand.drop_last());
        match p.child(hand.last()) {
            Some(c) => before.push(c),
            None => before,
        }
    }
}

/// The placements one tile longer than those of `level`: the children of
/// each placement that the board accepts, in the order of `level`.
pub open spec fn next_level(
    tiles: Map<(int, int), Piece>,
    hand: Seq<Piece>,
    level: Seq<PartialView>,
) -> Seq<PartialView>
    decreases level.len(),
{
    if level.len() == 0 {
        Seq::empty()
    } else {
        let before = next_level(tiles, hand, level.drop_last());
        match judge(tiles, level.last()) {
            Some(j) => before + children(j, hand),
            None => before,
        }
    }
}

/// The best move after the placements of `level` were looked at in order:
/// an accepted placement takes the place of `best` only with a higher
/// score.
pub open spec fn best_of_level(
    tiles: Map<(int, int), Piece>,
    level: Seq<PartialView>,
    best: Best,
) -> Best
    decreases level.len(),
{
    if level.len() == 0 {
        best
    } else {
        let b = best_of_level(tiles, level.drop_last(), best);
        match judge(tiles, level.last()) {
            Some(j) => if j.total_score() > b.score {
                Best { score: j.total_score(), mv: j.as_move() }
            } else {
                b
            },
            None => b,
        }
    }
}

/// The best move after `level` and the `depth - 1` levels that follow it.
pub open spec fn search_levels(
    tiles: Map<(int, int), Piece>,
    hand: Seq<Piece>,
    level: Seq<PartialView>,
    best: Best,
    depth: nat,
) -> Best
    decreases depth,
{
    if depth == 0 {
        best
    } else {
        search_levels(
            tiles,
            hand,
            next_level(tiles, hand, level),
            best_of_level(tiles, level, best),
            (depth - 1) as nat,
        )
    }
}

/// The best move after the placements of up to six tiles from each of the
/// start squares were looked at, start by start.
pub open spec fn search_starts(
    tiles: Map<(int, int), Piece>,
    hand: Seq<Piece>,
    starts: Seq<((int, int), Direction)>,
    best: Best,
) -> Best
    decreases starts.len(),
{
    if starts.len() == 0 {
        best
    } else {
        let b = search_starts(tiles, hand, starts.drop_last(), best);
        search_levels(tiles, hand, singles(starts.last().0, starts.last().1, hand), b, 6)
    }
}

/// Whether `picks` names tiles of a hand of `n` tiles, one at least, each
/// by its place in the hand.
pub open spec fn picks_ok(picks: Seq<int>, n: int) -> bool {
    picks.len() >= 1 && forall|i: int| 0 <= i < picks.len() ==> 0 <= #[trigger] picks[i] < n
}

/// The placement of the picked tiles from `start`, as it is offered to the
/// board for its last tile: `None` where the board refuses a tile before
/// the last, or where the line would not take one.
pub open spec fn offered(
    tiles: Map<(int, int), Piece>,
    start: (int, int),
    dir: Direction,
    hand: Seq<Piece>,
    picks: Seq<int>,
) -> Option<PartialView>
    decreases picks.len(),
{
    if picks.len() <= 1 {
        Some(PartialView::single(start, dir, hand[picks[0]]))
    } else {
        match offered(tiles, start, dir, hand, picks.drop_last()) {
            None => None,
            Some(p) => match judge(tiles, p) {
                None => None,
                Some(j) => j.child(hand[picks.last()]),
            },
        }
    }
}

/// The placement of the picked tiles from `start` as the board judges it:
/// `None` where the board refuses it.
pub open spec fn reached(
    tiles: Map<(int, int), Piece>,
    start: (int, int),
    dir: Direction,
    hand: Seq<Piece>,
    picks: Seq<int>,
) -> Option<PartialView> {
    match offered(tiles, start, dir, hand, picks) {
        None => None,
        Some(p) => judge(tiles, p),
    }
}

/// Whether some `k` picks from the hand lead to the offer `p`.
pub open spec fn is_offered(
    tiles: Map<(int, int), Piece>,
    start: (int, int),
    dir: Direction,
    hand: Seq<Piece>,
    k: int,
    p: PartialView,
) -> bool {
    exists|picks: Seq<int>|
        picks_ok(picks, hand.len() as int) && picks.len() == k && #[trigger] offered(
            tiles,
            start,
            dir,
            hand,
            picks,
        ) == Some(p)
}

/// Whether `level` holds the offers of `k` tiles from `start`: all of them,
/// and nothing else.
pub open spec fn level_is(
    tiles: Map<(int, int), Piece>,
    start: (int, int),
    dir: Direction,
    hand: Seq<Piece>,
    level: Seq<PartialView>,
    k: int,
) -> bool {
    &&& forall|i: int|
        0 <= i < level.len() ==> is_offered(tiles, start, dir, hand, k, #[trigger] level[i])
    &&& forall|picks: Seq<int>|
        picks_ok(picks, hand.len() as int) && picks.len() == k && (#[trigger] offered(
            tiles,
            start,
            dir,
            hand,
            picks,
        )) is Some ==> level.contains(offered(tiles, start, dir, hand, picks).unwrap())
}

/// A child of `p` by a tile of the hand is among the children of `p`.
proof fn lemma_children_member(p: PartialView, hand: Seq<Piece>, h: int)
    requires
        0 <= h < hand.len(),
        p.child(hand[h]) is Some,
    ensures
        children(p, hand).contains(p.child(hand[h]).unwrap()),
    decreases hand.len(),
{
    let c = p.child(hand[h]).unwrap();
    let before = children(p, hand.drop_last());
    if h == hand.len() - 1 {
        assert(before.push(c)[before.len() as int] == c);
    } else {
        assert(hand.drop_last()[h] == hand[h]);
        lemma_children_member(p, hand.drop_last(), h);
        let i = choose|i: int| 0 <= i < before.len() && before[i] == c;
        match p.child(hand.last()) {
            Some(x) => {
                assert(before.push(x)[i] == c);
            },
            None => {},
        }
    }
}

/// Each of the children of `p` is its child by a tile of the hand.
proof fn lemma_children_origin(p: PartialView, hand: Seq<Piece>, i: int) -> (h: int)
    requires
        0 <= i < children(p, hand).len(),
    ensures
        0 <= h < hand.len(),
        p.child(hand[h]) == Some(children(p, hand)[i]),
    decreases hand.len(),
{
    let before = children(p, hand.drop_last());
    if i < before.len() {
        let h = lemma_children_origin(p, hand.drop_last(), i);
        assert(hand.drop_last()[h] == hand[h]);
        h
    } else {
        hand.len() - 1
    }
}

/// A child of an accepted placement of `level` is in the next level.
proof fn lemma_next_member(
    tiles: Map<(int, int), Piece>,
    hand: Seq<Piece>,
    level: Seq<PartialView>,
    i: int,
    c: PartialView,
)
    requires
        0 <= i < level.len(),
        judge(tiles, level[i]) is Some,
        children(judge(tiles, level[i]).unwrap(), hand).contains(c),
    ensures
        next_level(tiles, hand, level).contains(c),
    decreases level.len(),
{
    let before = next_level(tiles, hand, level.drop_last());
    if i == level.len() - 1 {
        let kids = children(judge(tiles, level[i]).unwrap(), hand);
        let m = choose|m: int| 0 <= m < kids.len() && kids[m] == c;
        assert((before + kids)[before.len() + m] == c);
    } else {
        assert(level.drop_last()[i] == level[i]);
        lemma_next_member(tiles, hand, level.drop_last(), i, c);
        let m = choose|m: int| 0 <= m < before.len() && before[m] == c;
        match judge(tiles, level.last()) {
            Some(j) => {
                assert((before + children(j, hand))[m] == c);
            },
            None => {},
        }
    }
}

/// Each placement of the next level is a child of an accepted placement
/// of `level`.
proof fn lemma_next_origin(
    tiles: Map<(int, int), Piece>,
    hand: Seq<Piece>,
    level: Seq<PartialView>,
    m: int,
) -> (i: int)
    requires
        0 <= m < next_level(tiles, hand, level).len(),
    ensures
        0 <= i < level.len(),
        judge(tiles, level[i]) is Some,
        children(judge(tiles, level[i]).unwrap(), hand).contains(
            next_level(tiles, hand, level)[m],
        ),
    decreases level.len(),
{
    let before = next_level(tiles, hand, level.drop_last());
    if m < before.len() {
        let i = lemma_next_origin(tiles, hand, level.drop_last(), m);
        assert(level.drop_last()[i] == level[i]);
        i
    } else {
        let kids = children(judge(tiles, level.last()).unwrap(), hand);
        assert(kids[m - before.len()] == next_level(tiles, hand, level)[m]);
        level.len() - 1
    }
}

/// The best move after a level scores no less than the best before it, and
/// no less than any placement of the level that the board accepts.
proof fn lemma_best_of_level_bounds(
    tiles: Map<(int, int), Piece>,
    level: Seq<PartialView>,
    best: Best,
    i: int,
)
    ensures
        best_of_level(tiles, level, best).score >= best.score,
        0 <= i < level.len() && judge(tiles, level[i]) is Some ==> best_of_level(
            tiles,
            level,
            best,
        ).score >= judge(tiles, level[i]).unwrap().total_score(),
    decreases level.len(),
{
    if level.len() > 0 {
        lemma_best_of_level_bounds(tiles, level.drop_last(), best, i);
        if 0 <= i < level.len() - 1 {
            assert(level.drop_last()[i] == level[i]);
        }
    }
}

/// A placement takes the place of the best move only with a higher score:
/// where no placement of the level scores more than the best move so far,
/// that move stays.
pub proof fn lemma_first_found_stays(
    tiles: Map<(int, int), Piece>,
    level: Seq<PartialView>,
    best: Best,
)
    requires
        forall|i: int|
            0 <= i < level.len() && judge(tiles, #[trigger] level[i]) is Some ==> judge(
                tiles,
                level[i],
            ).unwrap().total_score() <= best.score,
    ensures
        best_of_level(tiles, level, best) == best,
    decreases level.len(),
{
    if level.len() > 0 {
        let rest = level.drop_last();
        assert forall|i: int| 0 <= i < rest.len() && judge(tiles, #[trigger] rest[i]) is Some implies judge(
            tiles,
            rest[i],
        ).unwrap().total_score() <= best.score by {
            assert(rest[i] == level[i]);
        }
        lemma_first_found_stays(tiles, rest, best);
        assert(level.last() == level[level.len() - 1]);
    }
}

/// The best move after a level is the best before it, or a placement of
/// the level that the board accepts, with its score.
proof fn lemma_best_of_level_origin(
    tiles: Map<(int, int), Piece>,
    level: Seq<PartialView>,
    best: Best,
) -> (i: int)
    ensures
        best_of_level(tiles, level, best) == best || (0 <= i < level.len() && judge(
            tiles,
            level[i],
        ) is Some && best_of_level(tiles, level, best) == Best {
            score: judge(tiles, level[i]).unwrap().total_score(),
            mv: judge(tiles, level[i]).unwrap().as_move(),
        }),
    decreases level.len(),
{
    if level.len() == 0 {
        0
    } else {
        let b = best_of_level(tiles, level.drop_last(), best);
        match judge(tiles, level.last()) {
            Some(j) => if j.total_score() > b.score {
                level.len() - 1
            } else {
                let i = lemma_best_of_level_origin(tiles, level.drop_last(), best);
                if b != best {
                    assert(level.drop_last()[i] == level[i]);
                }
                i
            },
            None => {
                let i = lemma_best_of_level_origin(tiles, level.drop_last(), best);
                if b != best {
                    assert(level.drop_last()[i] == level[i]);
                }
                i
            },
        }
    }
}

/// The placements of one tile are the offers of one tile.
proof fn lemma_singles_level(
    tiles: Map<(int, int), Piece>,
    start: (int, int),
    dir: Direction,
    hand: Seq<Piece>,
)
    ensures
        level_is(tiles, start, dir, hand, singles(start, dir, hand), 1),
{
    let level = singles(start, dir, hand);
    assert forall|i: int| 0 <= i < level.len() implies is_offered(
        tiles,
        start,
        dir,
        hand,
        1,
        #[trigger] level[i],
    ) by {
        let picks = seq![i];
        assert(picks[0] == i);
        assert(picks_ok(picks, hand.len() as int));
        assert(offered(tiles, start, dir, hand, picks) == Some(level[i]));
    }
    assert forall|picks: Seq<int>|
        picks_ok(picks, hand.len() as int) && picks.len() == 1 && (#[trigger] offered(
            tiles,
            start,
            dir,
            hand,
            picks,
        )) is Some implies level.contains(offered(tiles, start, dir, hand, picks).unwrap()) by {
        assert(0 <= picks[0] < hand.len());
        assert(level[picks[0]] == offered(tiles, start, dir, hand, picks).unwrap());
    }
}

/// A placement of the level after the offers of `k` tiles is an offer of
/// `k + 1` tiles.
proof fn lemma_next_level_offers(
    tiles: Map<(int, int), Piece>,
    start: (int, int),
    dir: Direction,
    hand: Seq<Piece>,
    level: Seq<PartialView>,
    k: int,
    m: int,
)
    requires
        k >= 1,
        level_is(tiles, start, dir, hand, level, k),
        0 <= m < next_level(tiles, hand, level).len(),
    ensures
        is_offered(tiles, start, dir, hand, k + 1, next_level(tiles, hand, level)[m]),
{
    let next = next_level(tiles, hand, level);
    let i = lemma_next_origin(tiles, hand, level, m);
    let j = judge(tiles, level[i]).unwrap();
    let kids = children(j, hand);
    let n = choose|n: int| 0 <= n < kids.len() && kids[n] == next[m];
    let h = lemma_children_origin(j, hand, n);
    assert(is_offered(tiles, start, dir, hand, k, level[i]));
    let picks = choose|picks: Seq<int>|
        picks_ok(picks, hand.len() as int) && picks.len() == k && #[trigger] offered(
            tiles,
            start,
            dir,
            hand,
            picks,
        ) == Some(level[i]);
    let longer = picks.push(h);
    assert(longer.drop_last() =~= picks);
    assert(longer.last() == h);
    assert(picks_ok(longer, hand.len() as int));
    assert(offered(tiles, start, dir, hand, longer) == Some(next[m]));
}

/// An offer of `k + 1` tiles is in the level after the offers of `k`
/// tiles.
proof fn lemma_next_level_holds(
    tiles: Map<(int, int), Piece>,
    start: (int, int),
    dir: Direction,
    hand: Seq<Piece>,
    level: Seq<PartialView>,
    k: int,
    picks: Seq<int>,
)
    requires
        k >= 1,
        level_is(tiles, start, dir, hand, level, k),
        picks_ok(picks, hand.len() as int),
        picks.len() == k + 1,
        offered(tiles, start, dir, hand, picks) is Some,
    ensures
        next_level(tiles, hand, level).contains(offered(tiles, start, dir, hand, picks).unwrap()),
{
    let shorter = picks.drop_last();
    let h = picks.last();
    assert(0 <= picks[picks.len() - 1] < hand.len());
    lemma_shorter_picks(picks, hand.len() as int);
    let p = offered(tiles, start, dir, hand, shorter).unwrap();
    assert(offered(tiles, start, dir, hand, shorter) is Some);
    assert(level.contains(p));
    let i = choose|i: int| 0 <= i < level.len() && level[i] == p;
    let j = judge(tiles, p).unwrap();
    lemma_children_member(j, hand, h);
    lemma_next_member(tiles, hand, level, i, j.child(hand[h]).unwrap());
}

/// The level after the offers of `k` tiles holds the offers of `k + 1`
/// tiles.
proof fn lemma_next_level_is(
    tiles: Map<(int, int), Piece>,
    start: (int, int),
    dir: Direction,
    hand: Seq<Piece>,
    level: Seq<PartialView>,
    k: int,
)
    requires
        k >= 1,
        level_is(tiles, start, dir, hand, level, k),
    ensures
        level_is(tiles, start, dir, hand, next_level(tiles, hand, level), k + 1),
{
    let next = next_level(tiles, hand, level);
    assert forall|m: int| 0 <= m < next.len() implies is_offered(
        tiles,
        start,
        dir,
        hand,
        k + 1,
        #[trigger] next[m],
    ) by {
        lemma_next_level_offers(tiles, start, dir, hand, level, k, m);
    }
    assert forall|picks: Seq<int>|
        picks_ok(picks, hand.len() as int) && picks.len() == k + 1 && (#[trigger] offered(
            tiles,
            start,
            dir,
            hand,
            picks,
        )) is Some implies next.contains(offered(tiles, start, dir, hand, picks).unwrap()) by {
        lemma_next_level_holds(tiles, start, dir, hand, level, k, picks);
    }
}

/// The picks before the last are picks too.
pub proof fn lemma_shorter_picks(picks: Seq<int>, n: int)
    requires
        picks_ok(picks, n),
        picks.len() >= 2,
    ensures
        picks_ok(picks.drop_last(), n),
{
    let shorter = picks.drop_last();
    assert forall|i: int| 0 <= i < shorter.len() implies 0 <= #[trigger] shorter[i] < n by {
        assert(shorter[i] == picks[i]);
    }
}

/// The search through `depth` levels, begun with the offers of `k` tiles,
/// ends with a score no less than the score it began with and no less than
/// that of any accepted placement of `k` tiles or more and fewer than
/// `k + depth`.
proof fn lemma_levels_best(
    tiles: Map<(int, int), Piece>,
    start: (int, int),
    dir: Direction,
    hand: Seq<Piece>,
    level: Seq<PartialView>,
    best: Best,
    depth: nat,
    k: int,
    picks: Seq<int>,
)
    requires
        k >= 1,
        level_is(tiles, start, dir, hand, level, k),
    ensures
        search_levels(tiles, hand, level, best, depth).score >= best.score,
        picks_ok(picks, hand.len() as int) && k <= picks.len() < k + depth && reached(
            tiles,
            start,
            dir,
            hand,
            picks,
        ) is Some ==> search_levels(tiles, hand, level, best, depth).score >= reached(
            tiles,
            start,
            dir,
            hand,
            picks,
        ).unwrap().total_score(),
    decreases depth,
{
    if depth > 0 {
        let next = next_level(tiles, hand, level);
        let b = best_of_level(tiles, level, best);
        lemma_next_level_is(tiles, start, dir, hand, level, k);
        lemma_levels_best(tiles, start, dir, hand, next, b, (depth - 1) as nat, k + 1, picks);
        lemma_best_of_level_bounds(tiles, level, best, 0);
        if picks_ok(picks, hand.len() as int) && picks.len() == k && reached(
            tiles,
            start,
            dir,
            hand,
            picks,
        ) is Some {
            let p = offered(tiles, start, dir, hand, picks).unwrap();
            assert(offered(tiles, start, dir, hand, picks) is Some);
            assert(level.contains(p));
            let i = choose|i: int| 0 <= i < level.len() && level[i] == p;
            lemma_best_of_level_bounds(tiles, level, best, i);
        }
    }
}

/// Whether `best` is an accepted placement of at least `k` and at most six
/// tiles from `start`, with its score.
pub open spec fn found_from(
    tiles: Map<(int, int), Piece>,
    start: (int, int),
    dir: Direction,
    hand: Seq<Piece>,
    best: Best,
) -> bool {
    exists|picks: Seq<int>|
        picks_ok(picks, hand.len() as int) && picks.len() <= 6 && (#[trigger] reached(
            tiles,
            start,
            dir,
            hand,
            picks,
        )) is Some && best == (Best {
            score: reached(tiles, start, dir, hand, picks).unwrap().total_score(),
            mv: reached(tiles, start, dir, hand, picks).unwrap().as_move(),
        })
}

/// The search through `depth` levels ends with the best move it began
/// with, or with an accepted placement from `start` and its score.
proof fn lemma_levels_found(
    tiles: Map<(int, int), Piece>,
    start: (int, int),
    dir: Direction,
    hand: Seq<Piece>,
    level: Seq<PartialView>,
    best: Best,
    depth: nat,
    k: int,
)
    requires
        k >= 1,
        k + depth <= 7,
        level_is(tiles, start, dir, hand, level, k),
    ensures
        search_levels(tiles, hand, level, best, depth) == best || found_from(
            tiles,
            start,
            dir,
            hand,
            search_levels(tiles, hand, level, best, depth),
        ),
    decreases depth,
{
    if depth > 0 {
        let next = next_level(tiles, hand, level);
        let b = best_of_level(tiles, level, best);
        let r = search_levels(tiles, hand, level, best, depth);
        lemma_next_level_is(tiles, start, dir, hand, level, k);
        lemma_levels_found(tiles, start, dir, hand, next, b, (depth - 1) as nat, k + 1);
        if r == b && b != best {
            let i = lemma_best_of_level_origin(tiles, level, best);
            assert(is_offered(tiles, start, dir, hand, k, level[i]));
            let picks = choose|picks: Seq<int>|
                picks_ok(picks, hand.len() as int) && picks.len() == k && #[trigger] offered(
                    tiles,
                    start,
                    dir,
                    hand,
                    picks,
                ) == Some(level[i]);
            assert(reached(tiles, start, dir, hand, picks) == judge(tiles, level[i]));
        }
    }
}

/// Whether `best` is an accepted placement of up to six tiles of the hand
/// that begins on one of `starts`, with its score.
pub open spec fn found(
    tiles: Map<(int, int), Piece>,
    hand: Seq<Piece>,
    starts: Seq<((int, int), Direction)>,
    best: Best,
) -> bool {
    exists|si: int|
        0 <= si < starts.len() && #[trigger] found_from(
            tiles,
            starts[si].0,
            starts[si].1,
            hand,
            best,
        )
}

/// What the search finds is a placement that the board accepts: one that
/// begins on a start square, lays out up to six tiles of the hand, and has
/// the score that the board gives it. Where the search finds nothing, the
/// move is a swap and the score 0.
pub proof fn lemma_search_finds_placement(
    tiles: Map<(int, int), Piece>,
    hand: Seq<Piece>,
    starts: Seq<((int, int), Direction)>,
)
    ensures
        search_starts(tiles, hand, starts, Best::none()) == Best::none() || found(
            tiles,
            hand,
            starts,
            search_starts(tiles, hand, starts, Best::none()),
        ),
    decreases starts.len(),
{
    if starts.len() > 0 {
        let rest = starts.drop_last();
        let b = search_starts(tiles, hand, rest, Best::none());
        let r = search_starts(tiles, hand, starts, Best::none());
        let (start, dir) = starts.last();
        lemma_search_finds_placement(tiles, hand, rest);
        lemma_singles_level(tiles, start, dir, hand);
        lemma_levels_found(tiles, start, dir, hand, singles(start, dir, hand), b, 6, 1);
        if r == b {
            if b != Best::none() {
                let si = choose|si: int|
                    0 <= si < rest.len() && #[trigger] found_from(
                        tiles,
                        rest[si].0,
                        rest[si].1,
                        hand,
                        b,
                    );
                assert(rest[si] == starts[si]);
                assert(found_from(tiles, starts[si].0, starts[si].1, hand, r));
            }
        } else {
            let si = starts.len() - 1;
            assert(found_from(tiles, starts[si].0, starts[si].1, hand, r));
        }
    }
}

/// No placement that the board accepts scores more than what the search
/// finds: not one that begins on any of the start squares and lays out up
/// to six tiles of the hand.
pub proof fn lemma_search_finds_best(
    tiles: Map<(int, int), Piece>,
    hand: Seq<Piece>,
    starts: Seq<((int, int), Direction)>,
    si: int,
    picks: Seq<int>,
)
    requires
        0 <= si < starts.len(),
        picks_ok(picks, hand.len() as int),
        picks.len() <= 6,
        reached(tiles, starts[si].0, starts[si].1, hand, picks) is Some,
    ensures
        search_starts(tiles, hand, starts, Best::none()).score >= reached(
            tiles,
            starts[si].0,
            starts[si].1,
            hand,
            picks,
        ).unwrap().total_score(),
    decreases starts.len(),
{
    let rest = starts.drop_last();
    let b = search_starts(tiles, hand, rest, Best::none());
    let (start, dir) = starts.last();
    lemma_singles_level(tiles, start, dir, hand);
    lemma_levels_best(tiles, start, dir, hand, singles(start, dir, hand), b, 6, 1, picks);
    if si < starts.len() - 1 {
        assert(rest[si] == starts[si]);
        lemma_search_finds_best(tiles, hand, rest, si, picks);
    }
}

/// The start squares as mathematical values.
pub open spec fn start_points(starts: Seq<(Square, Direction)>) -> Seq<((int, int), Direction)> {
    Seq::new(starts.len(), |i: int| (pt(starts[i].0), starts[i].1))
}

/// The placements as mathematical values.
pub open spec fn views(level: Seq<Partial>) -> Seq<PartialView> {
    Seq::new(level.len(), |i: int| level[i]@)
}

/// What the search keeps true of a placement of `d + 1` tiles that waits to
/// be judged.
spec fn waiting(p: Partial, d: int) -> bool {
    &&& p.wf()
    &&& p.pieces@.len() == d + 1
    &&& near_grid(pt(p.start_square))
    &&& pt(p.last_square) == p.direction.step_n(pt(p.start_square), d)
    &&& p.perp_scores <= 12 * d
    &&& p.mainline_score <= 12
}

spec fn all_waiting(level: Seq<Partial>, d: int) -> bool {
    forall|i: int| 0 <= i < level.len() ==> waiting(#[trigger] level[i], d)
}

/// One placement for each tile of the hand.
fn seed(square: Square, direction: Direction, hand: &Vec<Piece>) -> (level: VecDeque<Partial>)
    requires
        near_grid(pt(square)),
    ensures
        views(level@) == singles(pt(square), direction, hand@),
        all_waiting(level@, 0),
{
    let mut level: VecDeque<Partial> = VecDeque::new();
    let mut i: usize = 0;
    while i < hand.len()
        invariant
            0 <= i <= hand@.len(),
            near_grid(pt(square)),
            level@.len() == i,
            forall|j: int|
                0 <= j < i ==> (#[trigger] level@[j])@ == PartialView::single(
                    pt(square),
                    direction,
                    hand@[j],
                ),
            all_waiting(level@, 0),
        decreases hand@.len() - i,
    {
        let p = Partial::new(square, &direction, hand[i]);
        level.push_back(p);
        i += 1;
    }
    assert(views(level@) =~= singles(pt(square), direction, hand@));
    level
}

/// Queues the placements that extend `partial` by one tile of the hand.
fn extend_all(partial: &Partial, hand: &Vec<Piece>, next: &mut VecDeque<Partial>, Ghost(d): Ghost<int>)
    requires
        0 <= d <= 6,
        partial.wf(),
        partial.pieces@.len() == d + 1,
        near_grid(pt(partial.start_square)),
        pt(partial.last_square) == partial.direction.step_n(pt(partial.start_square), d),
        partial.perp_scores <= 12 * (d + 1),
        partial.mainline_score <= 12,
        all_waiting(old(next)@, d + 1),
    ensures
        views(final(next)@) == views(old(next)@) + children(partial@, hand@),
        all_waiting(final(next)@, d + 1),
{
    let mut i: usize = 0;
    assert(hand@.take(0) =~= Seq::<Piece>::empty());
    assert(views(next@) + children(partial@, hand@.take(0)) =~= views(next@));
    while i < hand.len()
        invariant
            0 <= i <= hand@.len(),
            0 <= d <= 6,
            partial.wf(),
            partial.pieces@.len() == d + 1,
            near_grid(pt(partial.start_square)),
            pt(partial.last_square) == partial.direction.step_n(pt(partial.start_square), d),
            partial.perp_scores <= 12 * (d + 1),
            partial.mainline_score <= 12,
            views(next@) == views(old(next)@) + children(partial@, hand@.take(i as int)),
            all_waiting(next@, d + 1),
        decreases hand@.len() - i,
    {
        let ghost before = next@;
        proof {
            assert(hand@.take(i + 1).drop_last() =~= hand@.take(i as int));
            assert(hand@.take(i + 1).last() == hand@[i as int]);
        }
        match partial.try_extend(hand[i]) {
            None => {},
            Some(extended) => {
                next.push_back(extended);
                proof {
                    assert(views(next@) =~= views(before).push(extended@));
                    assert(views(next@) =~= views(old(next)@) + children(
                        partial@,
                        hand@.take(i + 1),
                    ));
                    assert forall|j: int| 0 <= j < next@.len() implies waiting(
                        #[trigger] next@[j],
                        d + 1,
                    ) by {
                        if j < before.len() {
                            assert(next@[j] == before[j]);
                        }
                    }
                }
            },
        }
        i += 1;
    }
    assert(hand@.take(hand@.len() as int) =~= hand@);
}

/// Judges the placements of one level in order, keeps the best of them and
/// hands back the placements of the next level.
fn search_level(
    board: &Board,
    hand: &Vec<Piece>,
    level: VecDeque<Partial>,
    best_score: &mut Score,
    best_move: &mut Move,
    Ghost(d): Ghost<int>,
) -> (next: VecDeque<Partial>)
    requires
        board.wf(),
        0 <= d <= 6,
        all_waiting(level@, d),
    ensures
        views(next@) == next_level(board@, hand@, views(level@)),
        all_waiting(next@, d + 1),
        (Best { score: *final(best_score) as nat, mv: final(best_move)@ }) == best_of_level(
            board@,
            views(level@),
            Best { score: *old(best_score) as nat, mv: old(best_move)@ },
        ),
{
    let ghost all = level@;
    let ghost best0 = Best { score: *best_score as nat, mv: best_move@ };
    let mut level = level;
    let mut next: VecDeque<Partial> = VecDeque::new();
    let ghost mut done: int = 0;
    proof {
        assert(views(all).take(0) =~= Seq::<PartialView>::empty());
        assert(views(next@) =~= Seq::<PartialView>::empty());
    }
    loop
        invariant
            board.wf(),
            0 <= d <= 6,
            all_waiting(all, d),
            0 <= done <= all.len(),
            level@ == all.skip(done),
            views(next@) == next_level(board@, hand@, views(all).take(done)),
            all_waiting(next@, d + 1),
            (Best { score: *best_score as nat, mv: best_move@ }) == best_of_level(
                board@,
                views(all).take(done),
                best0,
            ),
        ensures
            done == all.len(),
            views(next@) == next_level(board@, hand@, views(all).take(done)),
            all_waiting(next@, d + 1),
            (Best { score: *best_score as nat, mv: best_move@ }) == best_of_level(
                board@,
                views(all).take(done),
                best0,
            ),
        decreases all.len() - done,
    {
        match level.pop_front() {
            None => {
                break ;
            },
            Some(waiting_partial) => {
                let mut partial = waiting_partial;
                proof {
                    assert(partial == all[done]);
                    assert(waiting(all[done], d));
                    assert(level@ =~= all.skip(done + 1));
                    assert(views(all).take(done + 1).drop_last() =~= views(all).take(done));
                    assert(views(all).take(done + 1).last() == partial@);
                    assert(12 * d + 12 <= usize::MAX);
                }
                if board.allows(&mut partial) {
                    extend_all(&partial, hand, &mut next, Ghost(d));
                    if partial.total_score() > *best_score {
                        *best_score = partial.total_score();
                        *best_move = partial.save_as_move();
                    }
                }
                proof {
                    done = done + 1;
                }
            },
        }
    }
    assert(views(all).take(all.len() as int) =~= views(all));
    next
}

/// The best placement of tiles from `hand` that begins on one of `starts`,
/// with its score; swapping tiles, with the score 0, where the board
/// accepts no placement.
///
/// Of two placements with the same score, the one that is looked at first
/// wins: start squares go in the order given, shorter placements before
/// longer ones, and placements of one length in the order in which the
/// hand's tiles led to them.
pub fn best_move(board: &Board, hand: &Vec<Piece>, starts: &Vec<(Square, Direction)>) -> (r: (
    Score,
    Move,
))
    requires
        board.wf(),
        forall|i: int| 0 <= i < starts@.len() ==> near_grid(pt((#[trigger] starts@[i]).0)),
    ensures
        (Best { score: r.0 as nat, mv: r.1@ }) == search_starts(
            board@,
            hand@,
            start_points(starts@),
            Best::none(),
        ),
{
    let mut best_score: Score = 0;
    let mut best_move = Move::SwapPieces;
    let mut si: usize = 0;
    assert(start_points(starts@).take(0) =~= Seq::<((int, int), Direction)>::empty());
    while si < starts.len()
        invariant
            0 <= si <= starts@.len(),
            board.wf(),
            forall|i: int| 0 <= i < starts@.len() ==> near_grid(pt((#[trigger] starts@[i]).0)),
            (Best { score: best_score as nat, mv: best_move@ }) == search_starts(
                board@,
                hand@,
                start_points(starts@).take(si as int),
                Best::none(),
            ),
        decreases starts@.len() - si,
    {
        let (square, direction) = starts[si];
        assert(near_grid(pt(starts@[si as int].0)));
        let ghost before = Best { score: best_score as nat, mv: best_move@ };
        let ghost first = singles(pt(square), direction, hand@);
        let mut level = seed(square, direction, hand);
        let mut depth: usize = 0;
        while depth < 6
            invariant
                0 <= depth <= 6,
                board.wf(),
                all_waiting(level@, depth as int),
                search_levels(board@, hand@, first, before, 6) == search_levels(
                    board@,
                    hand@,
                    views(level@),
                    Best { score: best_score as nat, mv: best_move@ },
                    (6 - depth) as nat,
                ),
            decreases 6 - depth,
        {
            level = search_level(board, hand, level, &mut best_score, &mut best_move, Ghost(depth as int));
            depth += 1;
        }
        proof {
            let pts = start_points(starts@);
            assert(pts.take(si + 1).drop_last() =~= pts.take(si as int));
            assert(pts.take(si + 1).last() == (pt(square), direction));
        }
        si += 1;
    }
    assert(start_points(starts@).take(starts@.len() as int) =~= start_points(starts@));
    (best_score, best_move)
}

} // verus!
