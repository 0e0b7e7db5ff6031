//! A game in progress: the board, the players, the supply of tiles, and
//! whose turn it is.

use crate::board::{frontier_after, on_grid, placed, Board};
use crate::direction::{pt, Direction, Square};
use crate::mv::{Move, MoveView};
use crate::partial::clone_pieces;
use crate::piece::{make_bag, refilled, resupply_player_mutate, Bag, Piece};
use crate::player::{PlayerState, Score};
use crate::search::{best_move, search_starts, start_points, Best};
use vstd::multiset::Multiset;
use vstd::prelude::*;

verus! {

pub struct GameState {
    pub board: Board,
    pub players: Vec<PlayerState>,
    bag: Bag,
    pub turn: usize,
}

/// The points of all players together.
pub open spec fn sum_scores(players: Seq<PlayerState>) -> nat
    decreases players.len(),
{
    if players.len() == 0 {
        0
    } else {
        sum_scores(players.drop_last()) + players.last().score as nat
    }
}

/// The tiles that the players hold, taken together.
pub open spec fn held(players: Seq<PlayerState>) -> Multiset<Piece>
    decreases players.len(),
{
    if players.len() == 0 {
        Multiset::empty()
    } else {
        held(players.drop_last()).add(players.last().bag@.to_multiset())
    }
}

/// Where no player has more than `cap` points, all together have no more
/// than `cap` for each player.
pub proof fn lemma_sum_scores_at_most(players: Seq<PlayerState>, cap: nat)
    requires
        forall|i: int| 0 <= i < players.len() ==> (#[trigger] players[i]).score <= cap,
    ensures
        sum_scores(players) <= cap * players.len(),
    decreases players.len(),
{
    if players.len() > 0 {
        let rest = players.drop_last();
        assert forall|i: int| 0 <= i < rest.len() implies (#[trigger] rest[i]).score <= cap by {
            assert(rest[i] == players[i]);
        }
        lemma_sum_scores_at_most(rest, cap);
        assert(cap * players.len() == cap * rest.len() + cap) by (nonlinear_arith)
            requires
                players.len() == rest.len() + 1,
        ;
    }
}

/// The points of the first players are no more than the points of all.
proof fn lemma_sum_scores_grows(players: Seq<PlayerState>, i: int)
    requires
        0 <= i <= players.len(),
    ensures
        sum_scores(players.take(i)) <= sum_scores(players),
    decreases players.len(),
{
    if i == players.len() {
        assert(players.take(i) =~= players);
    } else {
        assert(players.drop_last().take(i) =~= players.take(i));
        lemma_sum_scores_grows(players.drop_last(), i);
    }
}

/// The tiles of `hand` that are not among `used`, in their order. A tile
/// that the hand holds twice goes both times.
pub open spec fn without(hand: Seq<Piece>, used: Seq<Piece>) -> Seq<Piece>
    decreases hand.len(),
{
    if hand.len() == 0 {
        hand
    } else if used.contains(hand.last()) {
        without(hand.drop_last(), used)
    } else {
        without(hand.drop_last(), used).push(hand.last())
    }
}

/// A sequence with one item more holds what it held and that item.
proof fn lemma_push_contains(s: Seq<Piece>, x: Piece, p: Piece)
    ensures
        s.push(x).contains(p) <==> s.contains(p) || p == x,
{
    if s.push(x).contains(p) {
        let i = choose|i: int| 0 <= i < s.push(x).len() && s.push(x)[i] == p;
        if i < s.len() {
            assert(s[i] == p);
        }
    }
    if s.contains(p) {
        let i = choose|i: int| 0 <= i < s.len() && s[i] == p;
        assert(s.push(x)[i] == p);
    }
    if p == x {
        assert(s.push(x)[s.len() as int] == p);
    }
}

/// What is left of a hand are the tiles of the hand that were not used.
pub proof fn lemma_without_holds(hand: Seq<Piece>, used: Seq<Piece>, p: Piece)
    ensures
        without(hand, used).len() <= hand.len(),
        without(hand, used).contains(p) <==> hand.contains(p) && !used.contains(p),
    decreases hand.len(),
{
    if hand.len() > 0 {
        let rest = hand.drop_last();
        let x = hand.last();
        lemma_without_holds(rest, used, p);
        assert(hand =~= rest.push(x));
        lemma_push_contains(rest, x, p);
        if !used.contains(x) {
            lemma_push_contains(without(rest, used), x, p);
        }
    }
}

fn holds(pieces: &Vec<Piece>, piece: Piece) -> (r: bool)
    ensures
        r == pieces@.contains(piece),
{
    let mut i: usize = 0;
    while i < pieces.len()
        invariant
            0 <= i <= pieces@.len(),
            forall|j: int| 0 <= j < i ==> pieces@[j] != piece,
        decreases pieces@.len() - i,
    {
        if pieces[i] == piece {
            return true;
        }
        i += 1;
    }
    false
}

fn keep_others(hand: &Vec<Piece>, used: &Vec<Piece>) -> (kept: Vec<Piece>)
    ensures
        kept@ == without(hand@, used@),
{
    let mut kept: Vec<Piece> = Vec::new();
    let mut i: usize = 0;
    assert(hand@.take(0) =~= Seq::<Piece>::empty());
    while i < hand.len()
        invariant
            0 <= i <= hand@.len(),
            kept@ == without(hand@.take(i as int), used@),
        decreases hand@.len() - i,
    {
        assert(hand@.take(i + 1).drop_last() =~= hand@.take(i as int));
        if !holds(used, hand[i]) {
            kept.push(hand[i]);
        }
        i += 1;
    }
    assert(hand@.take(hand@.len() as int) =~= hand@);
    kept
}

/// What the player to move does, given the best placement found: the
/// placement, or a swap where none was found; and nothing where none was
/// found and the supply is empty, which ends the game.
pub open spec fn chosen(best: Best, supply: nat) -> Option<MoveView> {
    if supply == 0 && best.score == 0 {
        None
    } else {
        Some(best.mv)
    }
}

/// A move that may be there, as a mathematical value.
pub open spec fn move_view(m: Option<Move>) -> Option<MoveView> {
    match m {
        None => None,
        Some(mv) => Some(mv@),
    }
}

/// A game as a mathematical value.
pub struct GameView {
    pub board: Board,
    pub players: Seq<PlayerState>,
    /// The tiles of the shared supply.
    pub supply: Seq<Piece>,
    /// The index of the player to move.
    pub turn: nat,
}

impl View for GameState {
    type V = GameView;

    closed spec fn view(&self) -> GameView {
        GameView {
            board: self.board,
            players: self.players@,
            supply: self.bag@,
            turn: self.turn as nat,
        }
    }
}

impl GameState {

    /// A new game: an empty board, a full supply, and each player in turn
    /// drawing six tiles from it as far as it goes.
    pub fn new(num_players: isize) -> (g: GameState)
        ensures
            g@.board.wf(),
            g@.board@ == Map::<(int, int), Piece>::empty(),
            g@.turn == 0,
            g@.players.len() == if num_players > 0 {
                num_players as int
            } else {
                0
            },
            forall|i: int|
                0 <= i < g@.players.len() ==> (#[trigger] g@.players[i]).score == 0
                    && g@.players[i].bag@.len() == if i < 18 {
                    6int
                } else {
                    0
                },
            g@.supply.len() == if g@.players.len() < 18 {
                108 - 6 * g@.players.len()
            } else {
                0
            },
            held(g@.players).add(g@.supply.to_multiset()) == make_bag_spec().to_multiset(),
    {
        let mut initial_bag = make_bag();
        assert(initial_bag@ =~= make_bag_spec());
        let mut players: Vec<PlayerState> = Vec::new();
        let mut i: isize = 0;
        assert(held(players@).add(initial_bag@.to_multiset()) =~= make_bag_spec().to_multiset());
        while i < num_players
            invariant
                0 <= i,
                i <= num_players || i == 0,
                players@.len() == i,
                forall|j: int|
                    0 <= j < players@.len() ==> (#[trigger] players@[j]).score == 0
                        && players@[j].bag@.len() == if j < 18 {
                        6int
                    } else {
                        0
                    },
                initial_bag@.len() == if i < 18 {
                    108 - 6 * i
                } else {
                    0
                },
                held(players@).add(initial_bag@.to_multiset()) == make_bag_spec().to_multiset(),
            decreases num_players - i,
        {
            let mut ps = PlayerState::new();
            let ghost supply_before = initial_bag@;
            let ghost players_before = players@;
            let ghost none = ps.bag@;
            resupply_player_mutate(&mut ps.bag, &mut initial_bag);
            players.push(ps);
            proof {
                assert(players@.drop_last() =~= players_before);
                none.to_multiset_ensures();
                vstd::multiset::lemma_multiset_empty_len(none.to_multiset());
                assert(ps.bag@.to_multiset().add(initial_bag@.to_multiset())
                    =~= supply_before.to_multiset());
                assert(held(players@).add(initial_bag@.to_multiset()) =~= held(
                    players_before,
                ).add(supply_before.to_multiset()));
            }
            i += 1;
        }
        GameState { board: Board::new(), players, bag: initial_bag, turn: 0 }
    }

    /// The points of all players together.
    pub fn total_score(&self) -> (r: Score)
        requires
            sum_scores(self@.players) <= usize::MAX,
        ensures
            r == sum_scores(self@.players),
    {
        let mut acc: Score = 0;
        let mut i: usize = 0;
        assert(self.players@.take(0) =~= Seq::<PlayerState>::empty());
        while i < self.players.len()
            invariant
                0 <= i <= self.players@.len(),
                sum_scores(self.players@) <= usize::MAX,
                acc == sum_scores(self.players@.take(i as int)),
            decreases self.players@.len() - i,
        {
            proof {
                assert(self.players@.take(i + 1).drop_last() =~= self.players@.take(i as int));
                lemma_sum_scores_grows(self.players@, i + 1);
            }
            acc = acc + self.players[i].score;
            i += 1;
        }
        assert(self.players@.take(self.players@.len() as int) =~= self.players@);
        acc
    }

    /// What the player to move does when the placements that begin on
    /// `starts` are searched: the best of them; a swap where the board
    /// accepts none; nothing where it accepts none and the supply is empty.
    pub fn generate_best_move_from(&self, starts: &Vec<(Square, Direction)>) -> (r: Option<Move>)
        requires
            self@.board.wf(),
            self@.turn < self@.players.len(),
            forall|i: int|
                0 <= i < starts@.len() ==> crate::board::near_grid(pt((#[trigger] starts@[i]).0)),
        ensures
            move_view(r) == chosen(
                search_starts(
                    self@.board@,
                    self@.players[self@.turn as int].bag@,
                    start_points(starts@),
                    Best::none(),
                ),
                self@.supply.len(),
            ),
    {
        let (best_score, best) = best_move(&self.board, &self.players[self.turn].bag, starts);
        if self.bag.len() == 0 && best_score == 0 {
            None
        } else {
            Some(best)
        }
    }

    /// What the player to move does: the best placement of tiles from the
    /// hand; a swap where the board accepts none; nothing where it accepts
    /// none and the supply is empty.
    ///
    /// The board lists its start squares in no particular order, and of two
    /// placements with the same score the one found first wins: so the
    /// result is that of `generate_best_move_from` for some list of the
    /// start squares.
    pub fn generate_best_move(&self) -> (r: Option<Move>)
        requires
            self@.board.wf(),
            self@.turn < self@.players.len(),
        ensures
            exists|starts: Seq<(Square, Direction)>|
                #![trigger self@.board.start_list(starts)]
                self@.board.start_list(starts) && move_view(r) == chosen(
                    search_starts(
                        self@.board@,
                        self@.players[self@.turn as int].bag@,
                        start_points(starts),
                        Best::none(),
                    ),
                    self@.supply.len(),
                ),
    {
        let starts = self.board.get_start_squares();
        let r = self.generate_best_move_from(&starts);
        assert(self.board.start_list(starts@));
        r
    }

    /// Carries out the move of the player to move, and passes the turn on.
    ///
    /// A placement goes on the board; the player loses every tile of the
    /// hand that is among the placed ones, draws from the shuffled supply,
    /// and wins the move's score. For a swap the hand goes back to the
    /// supply, and the player draws from the shuffled supply. Which tiles
    /// are drawn depends on the shuffle.
    pub fn apply_move(&mut self, chosen_move: &Move)
        requires
            old(self)@.board.wf(),
            old(self)@.turn < old(self)@.players.len(),
            *chosen_move matches Move::PlacePieces(sq, dir, pieces, score) ==> {
                &&& pieces@.len() >= 1
                &&& on_grid(pt(sq))
                &&& on_grid(dir.step_n(pt(sq), pieces@.len() - 1))
                &&& old(self)@.players[old(self)@.turn as int].score + score <= usize::MAX
            },
        ensures
            final(self)@.board.wf(),
            final(self)@.players.len() == old(self)@.players.len(),
            final(self)@.turn == ((old(self)@.turn + 1) as int) % (old(self)@.players.len() as int),
            forall|i: int|
                0 <= i < old(self)@.players.len() && i != old(self)@.turn
                    ==> final(self)@.players[i] == old(self)@.players[i],
            match *chosen_move {
                Move::PlacePieces(sq, dir, pieces, score) => {
                    let before = old(self)@.players[old(self)@.turn as int];
                    let after = final(self)@.players[old(self)@.turn as int];
                    &&& final(self)@.board@ == placed(old(self)@.board@, pt(sq), dir, pieces@)
                    &&& final(self)@.board.perimeter() == frontier_after(
                        old(self)@.board.perimeter(),
                        final(self)@.board@,
                        pt(sq),
                        dir,
                        pieces@.len() as int,
                    )
                    &&& final(self)@.board.bounds() == old(self)@.board.bounds().stretch(
                        pt(sq),
                    ).stretch(dir.step_n(pt(sq), pieces@.len() - 1))
                    &&& after.score == before.score + score
                    &&& refilled(
                        without(before.bag@, pieces@),
                        old(self)@.supply,
                        after.bag@,
                        final(self)@.supply,
                    )
                },
                Move::SwapPieces => {
                    let before = old(self)@.players[old(self)@.turn as int];
                    let after = final(self)@.players[old(self)@.turn as int];
                    &&& final(self)@.board == old(self)@.board
                    &&& after.score == before.score
                    &&& refilled(
                        Seq::empty(),
                        old(self)@.supply + before.bag@,
                        after.bag@,
                        final(self)@.supply,
                    )
                },
            },
    {
        let turn = self.turn;
        let count = self.players.len();
        assert(turn < count);
        let old_score = self.players[turn].score;
        match chosen_move {
            Move::PlacePieces(sq, dir, pieces_to_place, score) => {
                self.board.put(*sq, dir, pieces_to_place);
                let mut hand = keep_others(&self.players[turn].bag, pieces_to_place);
                resupply_player_mutate(&mut hand, &mut self.bag);
                self.players.set(turn, PlayerState { bag: hand, score: old_score + *score });
            },
            Move::SwapPieces => {
                let mut oldbag = clone_pieces(&self.players[turn].bag);
                self.bag.append(&mut oldbag);
                let mut hand: Vec<Piece> = Vec::new();
                resupply_player_mutate(&mut hand, &mut self.bag);
                self.players.set(turn, PlayerState { bag: hand, score: old_score });
            },
        }
        self.turn = (turn + 1) % count;
    }
}

/// The full supply as a mathematical value.
pub open spec fn make_bag_spec() -> Seq<Piece> {
    Seq::new(108, |i: int| crate::piece::bag_piece(i))
}

} // verus!
