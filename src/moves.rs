//! Manual moves and the generator of every successor board.

use vstd::prelude::*;
use crate::card::{Card, is_adjacent};
use crate::board::{
    Board, BoardView, NUM_PILES, board_wf, remaining, card_count, resolves_to,
    lemma_total_update, lemma_cascade_counts, board_cards, pile_cards, held_cards,
    lemma_pile_cards_update,
};

verus! {

/// Where a manual move takes a card from or puts it.
#[derive(Debug, Clone, Copy, PartialEq, Eq, Structural, Hash)]
pub enum MoveLocation {
    /// The holding slot.
    HoldingSlot,
    /// Tableau pile `pile`, at the depth the card had (or takes) there.
    Pile { pile: usize, depth: usize },
}

/// A manual move, with the number of cards that the cascade after it advanced.
#[derive(Debug, Clone, Copy, PartialEq, Eq, Structural, Hash)]
pub struct Move {
    pub from: MoveLocation,
    pub to: MoveLocation,
    pub card: Card,
    pub num_sucks: usize,
}

/// The top card of pile `p`.
pub open spec fn top(v: BoardView, p: usize) -> Card {
    v.tableau[p as int].last()
}

/// A card may land on pile `q` when it is empty or its top card is a neighbour.
pub open spec fn can_land(v: BoardView, q: usize, c: Card) -> bool {
    v.tableau[q as int].len() == 0 || is_adjacent(c, top(v, q))
}

/// Holding the top card of `p`: the slot is free and `p` has more than one card.
pub open spec fn hold_legal(v: BoardView, p: usize) -> bool {
    &&& p < NUM_PILES
    &&& v.held is None
    &&& v.tableau[p as int].len() > 1
}

/// Moving the top card of `p` onto `q`; a lone card is never moved to an empty pile.
pub open spec fn shift_legal(v: BoardView, p: usize, q: usize) -> bool {
    &&& p < NUM_PILES
    &&& q < NUM_PILES
    &&& p != q
    &&& v.tableau[p as int].len() > 0
    &&& !(v.tableau[p as int].len() == 1 && v.tableau[q as int].len() == 0)
    &&& can_land(v, q, top(v, p))
}

/// Putting the held card onto `q`.
pub open spec fn release_legal(v: BoardView, q: usize) -> bool {
    &&& q < NUM_PILES
    &&& v.held is Some
    &&& can_land(v, q, v.held.unwrap())
}

/// `m` is a legal manual move on `v`, with the depths and card it records
/// matching the board (its count of advanced cards is not looked at).
pub open spec fn move_is_legal(v: BoardView, m: Move) -> bool {
    match (m.from, m.to) {
        (MoveLocation::Pile { pile: p, depth: d }, MoveLocation::HoldingSlot) => {
            &&& hold_legal(v, p)
            &&& d == v.tableau[p as int].len() - 1
            &&& m.card == top(v, p)
        },
        (MoveLocation::Pile { pile: p, depth: d }, MoveLocation::Pile { pile: q, depth: e }) => {
            &&& shift_legal(v, p, q)
            &&& d == v.tableau[p as int].len() - 1
            &&& e == v.tableau[q as int].len()
            &&& m.card == top(v, p)
        },
        (MoveLocation::HoldingSlot, MoveLocation::Pile { pile: q, depth: e }) => {
            &&& release_legal(v, q)
            &&& e == v.tableau[q as int].len()
            &&& Some(m.card) == v.held
        },
        _ => false,
    }
}

/// The board right after the manual part of `m`, before any cascade.
pub open spec fn after_move(v: BoardView, m: Move) -> BoardView {
    match (m.from, m.to) {
        (MoveLocation::Pile { pile: p, .. }, MoveLocation::HoldingSlot) => BoardView {
            tableau: v.tableau.update(p as int, v.tableau[p as int].drop_last()),
            held: Some(m.card),
            ..v
        },
        (MoveLocation::Pile { pile: p, .. }, MoveLocation::Pile { pile: q, .. }) => {
            let t = v.tableau.update(p as int, v.tableau[p as int].drop_last());
            BoardView { tableau: t.update(q as int, t[q as int].push(m.card)), ..v }
        },
        (MoveLocation::HoldingSlot, MoveLocation::Pile { pile: q, .. }) => BoardView {
            tableau: v.tableau.update(q as int, v.tableau[q as int].push(m.card)),
            held: None,
            ..v
        },
        _ => v,
    }
}

/// `w` is what the generator makes of `v` by the manual move `m` and the
/// cascade after it, which advanced `m.num_sucks` cards.
#[verifier::opaque]
pub open spec fn is_successor(v: BoardView, w: BoardView, m: Move) -> bool {
    &&& move_is_legal(v, m)
    &&& exists|cards: Seq<Card>| resolves_to(after_move(v, m), w, cards) && cards.len() == m.num_sucks
}

/// A move out of a pile takes a card that is there.
pub open spec fn source_nonempty(v: BoardView, m: Move) -> bool {
    match m.from {
        MoveLocation::Pile { pile, .. } => v.tableau[pile as int].len() > 0,
        MoveLocation::HoldingSlot => true,
    }
}

/// A move between piles joins two different piles.
pub open spec fn distinct_piles(m: Move) -> bool {
    match (m.from, m.to) {
        (MoveLocation::Pile { pile: p, .. }, MoveLocation::Pile { pile: q, .. }) => p != q,
        _ => true,
    }
}

/// A legal move never takes from an empty pile, nor moves a card onto its own pile.
pub proof fn lemma_legal_move_shape(v: BoardView, m: Move)
    requires
        move_is_legal(v, m),
    ensures
        source_nonempty(v, m),
        distinct_piles(m),
{
}

/// Every entry is a well-formed successor of `v` with its move.
pub open spec fn all_successors(v: BoardView, r: Seq<(Board, Move)>) -> bool {
    forall|k: int| 0 <= k < r.len() ==> #[trigger] r[k].0.wf() && is_successor(v, r[k].0@, r[k].1)
}

/// Two moves with the same locations.
pub open spec fn same_action(a: Move, b: Move) -> bool {
    a.from == b.from && a.to == b.to
}

/// The order in which the generator produces moves: for each source pile,
/// holding first, then each destination pile; releases last.
pub open spec fn move_order(m: Move) -> int {
    match (m.from, m.to) {
        (MoveLocation::Pile { pile: p, .. }, MoveLocation::HoldingSlot) => p * 12,
        (MoveLocation::Pile { pile: p, .. }, MoveLocation::Pile { pile: q, .. }) => p * 12 + 1 + q,
        (MoveLocation::HoldingSlot, MoveLocation::Pile { pile: q, .. }) => 12 * 12 + q,
        _ => 0,
    }
}

/// A manual move keeps the number of cards in play and on the board.
pub proof fn lemma_move_counts(v: BoardView, m: Move)
    requires
        board_wf(v),
        move_is_legal(v, m),
    ensures
        board_wf(after_move(v, m)),
        remaining(after_move(v, m)) == remaining(v),
        card_count(after_move(v, m)) == card_count(v),
{
    match (m.from, m.to) {
        (MoveLocation::Pile { pile: p, .. }, MoveLocation::HoldingSlot) => {
            lemma_total_update(v.tableau, p as int, v.tableau[p as int].drop_last());
        },
        (MoveLocation::Pile { pile: p, .. }, MoveLocation::Pile { pile: q, .. }) => {
            let t = v.tableau.update(p as int, v.tableau[p as int].drop_last());
            lemma_total_update(v.tableau, p as int, v.tableau[p as int].drop_last());
            lemma_total_update(t, q as int, t[q as int].push(m.card));
        },
        (MoveLocation::HoldingSlot, MoveLocation::Pile { pile: q, .. }) => {
            lemma_total_update(v.tableau, q as int, v.tableau[q as int].push(m.card));
        },
        _ => {},
    }
}

/// A manual move keeps every card on the board.
pub proof fn lemma_move_cards(v: BoardView, m: Move)
    requires
        board_wf(v),
        move_is_legal(v, m),
    ensures
        board_cards(after_move(v, m)) =~= board_cards(v),
{
    broadcast use vstd::multiset::group_multiset_axioms;
    broadcast use vstd::seq_lib::group_to_multiset_ensures;

    let w = after_move(v, m);
    let c = m.card;
    match (m.from, m.to) {
        (MoveLocation::Pile { pile: p, .. }, MoveLocation::HoldingSlot) => {
            let t = v.tableau[p as int];
            lemma_pile_cards_update(v.tableau, p as int, t.drop_last());
            assert(t =~= t.drop_last().push(c));
            assert(t.to_multiset() =~= t.drop_last().to_multiset().insert(c));
            assert forall|x: Card| pile_cards(w.tableau).insert(c).count(x) == pile_cards(v.tableau).count(x) by {
                let lhs = pile_cards(w.tableau).add(t.to_multiset());
                let rhs = pile_cards(v.tableau).add(t.drop_last().to_multiset());
                assert(lhs.count(x) == rhs.count(x));
            }
            assert(held_cards(w.held) =~= held_cards(v.held).insert(c));
        },
        (MoveLocation::Pile { pile: p, .. }, MoveLocation::Pile { pile: q, .. }) => {
            let t = v.tableau[p as int];
            let mid = v.tableau.update(p as int, t.drop_last());
            lemma_pile_cards_update(v.tableau, p as int, t.drop_last());
            lemma_pile_cards_update(mid, q as int, mid[q as int].push(c));
            assert(t =~= t.drop_last().push(c));
            assert(t.to_multiset() =~= t.drop_last().to_multiset().insert(c));
            assert(mid[q as int].push(c).to_multiset() =~= mid[q as int].to_multiset().insert(c));
            assert forall|x: Card| pile_cards(w.tableau).count(x) == pile_cards(v.tableau).count(x) by {
                let l1 = pile_cards(mid).add(t.to_multiset());
                let r1 = pile_cards(v.tableau).add(t.drop_last().to_multiset());
                assert(l1.count(x) == r1.count(x));
                let l2 = pile_cards(w.tableau).add(mid[q as int].to_multiset());
                let r2 = pile_cards(mid).add(mid[q as int].push(c).to_multiset());
                assert(l2.count(x) == r2.count(x));
            }
            assert(pile_cards(w.tableau) =~= pile_cards(v.tableau));
        },
        (MoveLocation::HoldingSlot, MoveLocation::Pile { pile: q, .. }) => {
            let t = v.tableau[q as int];
            lemma_pile_cards_update(v.tableau, q as int, t.push(c));
            assert(t.push(c).to_multiset() =~= t.to_multiset().insert(c));
            assert forall|x: Card| pile_cards(w.tableau).count(x) == pile_cards(v.tableau).insert(c).count(x) by {
                let lhs = pile_cards(w.tableau).add(t.to_multiset());
                let rhs = pile_cards(v.tableau).add(t.push(c).to_multiset());
                assert(lhs.count(x) == rhs.count(x));
            }
            assert(held_cards(v.held) =~= held_cards(w.held).insert(c));
        },
        _ => {},
    }
}

/// A generated successor keeps the board's shape and every card on it.
pub proof fn lemma_successor_counts(v: BoardView, w: BoardView, m: Move)
    requires
        board_wf(v),
        is_successor(v, w, m),
    ensures
        board_wf(w),
        card_count(w) == card_count(v),
        board_cards(w) == board_cards(v),
{
    reveal(is_successor);
    let cards = choose|cards: Seq<Card>| resolves_to(after_move(v, m), w, cards) && cards.len() == m.num_sucks;
    lemma_move_counts(v, m);
    lemma_move_cards(v, m);
    lemma_cascade_counts(after_move(v, m), w, cards);
}

/// Conservation: along any line of play (the deal, its initial cascade, then
/// generated successors), the cards on the board never change, and so
/// neither does their number.
pub proof fn lemma_conservation(
    deal: BoardView,
    dealt: Seq<Card>,
    boards: Seq<BoardView>,
    moves: Seq<Move>,
)
    requires
        board_wf(deal),
        boards.len() == moves.len() + 1,
        resolves_to(deal, boards[0], dealt),
        forall|i: int| 0 <= i < moves.len() ==> is_successor(#[trigger] boards[i], boards[i + 1], moves[i]),
    ensures
        forall|i: int| 0 <= i < boards.len() ==> #[trigger] board_cards(boards[i]) == board_cards(deal),
        forall|i: int| 0 <= i < boards.len() ==> #[trigger] card_count(boards[i]) == card_count(deal),
{
    lemma_cascade_counts(deal, boards[0], dealt);
    assert forall|i: int| 0 <= i < boards.len() implies #[trigger] board_cards(boards[i]) == board_cards(deal) by {
        lemma_line_counts(boards, moves, i);
    }
    assert forall|i: int| 0 <= i < boards.len() implies #[trigger] card_count(boards[i]) == card_count(deal) by {
        lemma_line_counts(boards, moves, i);
    }
}

/// The board at step `i` of a line of generated successors keeps the shape
/// and cards of the first.
pub proof fn lemma_line_counts(boards: Seq<BoardView>, moves: Seq<Move>, i: int)
    requires
        board_wf(boards[0]),
        boards.len() == moves.len() + 1,
        forall|j: int| 0 <= j < moves.len() ==> is_successor(#[trigger] boards[j], boards[j + 1], moves[j]),
        0 <= i < boards.len(),
    ensures
        board_wf(boards[i]),
        card_count(boards[i]) == card_count(boards[0]),
        board_cards(boards[i]) == board_cards(boards[0]),
    decreases i,
{
    if i > 0 {
        lemma_line_counts(boards, moves, i - 1);
        assert(is_successor(boards[i - 1], boards[i], moves[i - 1]));
        lemma_successor_counts(boards[i - 1], boards[i], moves[i - 1]);
    }
}

impl Board {
    /// Plays the manual part of a legal move on a fresh copy of this board.
    fn play_manual(&self, m: Move) -> (r: Board)
        requires
            self.wf(),
            move_is_legal(self@, m),
        ensures
            r.wf(),
            r@ == after_move(self@, m),
    {
        proof {
            lemma_move_counts(self@, m);
        }
        let mut b = self.duplicate();
        match m.from {
            MoveLocation::Pile { pile, .. } => {
                b.tableau[pile].pop();
            },
            MoveLocation::HoldingSlot => {
                b.held_card = None;
            },
        }
        match m.to {
            MoveLocation::Pile { pile, .. } => {
                b.tableau[pile].push(m.card);
            },
            MoveLocation::HoldingSlot => {
                b.held_card = Some(m.card);
            },
        }
        assert(b@.tableau =~~= after_move(self@, m).tableau);
        b
    }

    /// Plays a legal manual move and the cascade after it, recording how
    /// many cards advanced.
    pub fn play(&self, m: Move) -> (r: (Board, Move))
        requires
            self.wf(),
            move_is_legal(self@, m),
        ensures
            r.0.wf(),
            is_successor(self@, r.0@, r.1),
            same_action(r.1, m),
            r.1.card == m.card,
            card_count(r.0@) == card_count(self@),
    {
        reveal(is_successor);
        proof {
            lemma_move_counts(self@, m);
        }
        let mut b = self.play_manual(m);
        let sucked = b.suck_readies_into_receptacles();
        let played = Move { from: m.from, to: m.to, card: m.card, num_sucks: sucked.len() };
        assert(resolves_to(after_move(self@, played), b@, sucked@));
        (b, played)
    }

    /// Every board reachable by one manual move and the cascade after it:
    /// for each non-empty pile, holding its top card, then moving it onto each
    /// other pile; then releasing the held card onto each pile.
    pub fn next_boards(&self) -> (r: Vec<(Board, Move)>)
        requires
            self.wf(),
        ensures
            forall|k: int| 0 <= k < r@.len() ==> #[trigger] r@[k].0.wf() && is_successor(self@, r@[k].0@, r@[k].1),
            forall|m: Move| #[trigger] move_is_legal(self@, m) ==> exists|k: int| 0 <= k < r@.len() && #[trigger] same_action(r@[k].1, m),
            forall|k1: int, k2: int| 0 <= k1 < k2 < r@.len() ==> move_order(#[trigger] r@[k1].1) < move_order(#[trigger] r@[k2].1),
            forall|k: int| 0 <= k < r@.len() ==> source_nonempty(self@, #[trigger] r@[k].1) && distinct_piles(r@[k].1),
            forall|k: int| 0 <= k < r@.len() ==> board_cards(#[trigger] r@[k].0@) == board_cards(self@),
    {
        let mut r: Vec<(Board, Move)> = Vec::new();
        let mut p: usize = 0;
        while p < NUM_PILES
            invariant
                p <= NUM_PILES,
                self.wf(),
                all_successors(self@, r@),
                forall|m: Move| #[trigger] move_is_legal(self@, m) && move_order(m) < p * 12 ==> exists|k: int| 0 <= k < r@.len() && #[trigger] same_action(r@[k].1, m),
                forall|k1: int, k2: int| 0 <= k1 < k2 < r@.len() ==> move_order(#[trigger] r@[k1].1) < move_order(#[trigger] r@[k2].1),
                forall|k: int| 0 <= k < r@.len() ==> move_order(#[trigger] r@[k].1) < p * 12,
            decreases NUM_PILES - p,
        {
            self.moves_from_pile(p, &mut r);
            p += 1;
        }
        let mut q: usize = 0;
        if let Some(card) = self.held_card {
            while q < NUM_PILES
                invariant
                    q <= NUM_PILES,
                    self.wf(),
                    self@.held == Some(card),
                    all_successors(self@, r@),
                    forall|m: Move| #[trigger] move_is_legal(self@, m) && move_order(m) < 144 + q ==> exists|k: int| 0 <= k < r@.len() && #[trigger] same_action(r@[k].1, m),
                    forall|k1: int, k2: int| 0 <= k1 < k2 < r@.len() ==> move_order(#[trigger] r@[k1].1) < move_order(#[trigger] r@[k2].1),
                    forall|k: int| 0 <= k < r@.len() ==> move_order(#[trigger] r@[k].1) < 144 + q,
                decreases NUM_PILES - q,
            {
                let dst = &self.tableau[q];
                if dst.len() == 0 || dst[dst.len() - 1].is_next_or_prev(card) {
                    let m = Move {
                        from: MoveLocation::HoldingSlot,
                        to: MoveLocation::Pile { pile: q, depth: dst.len() },
                        card,
                        num_sucks: 0,
                    };
                    let ghost before = r@;
                    r.push(self.play(m));
                    proof {
                        assert forall|k: int| 0 <= k < r@.len() implies #[trigger] r@[k].0.wf() && is_successor(self@, r@[k].0@, r@[k].1) by {
                            if k < before.len() {
                                assert(r@[k] == before[k]);
                            }
                        }
                        assert forall|mm: Move| #[trigger] move_is_legal(self@, mm) && move_order(mm) < 144 + q + 1 implies exists|k: int| 0 <= k < r@.len() && #[trigger] same_action(r@[k].1, mm) by {
                            if move_order(mm) < 144 + q {
                                let k = choose|k: int| 0 <= k < before.len() && #[trigger] same_action(before[k].1, mm);
                                assert(r@[k] == before[k]);
                            } else {
                                assert(same_action(r@[before.len() as int].1, mm));
                            }
                        }
                    }
                }
                q += 1;
            }
        }
        assert forall|k: int| 0 <= k < r@.len() implies source_nonempty(self@, #[trigger] r@[k].1)
            && distinct_piles(r@[k].1) by {
            assert(r@[k].0.wf());
            reveal(is_successor);
            lemma_legal_move_shape(self@, r@[k].1);
        }
        assert forall|k: int| 0 <= k < r@.len() implies board_cards(#[trigger] r@[k].0@) == board_cards(self@) by {
            assert(r@[k].0.wf());
            lemma_successor_counts(self@, r@[k].0@, r@[k].1);
        }
        r
    }

    /// Adds the moves whose source is pile `p`: holding its top card, then
    /// moving it onto each other pile where it may land.
    fn moves_from_pile(&self, p: usize, r: &mut Vec<(Board, Move)>)
        requires
            p < NUM_PILES,
            self.wf(),
            all_successors(self@, old(r)@),
            forall|m: Move| #[trigger] move_is_legal(self@, m) && move_order(m) < p * 12 ==> exists|k: int| 0 <= k < old(r)@.len() && #[trigger] same_action(old(r)@[k].1, m),
            forall|k1: int, k2: int| 0 <= k1 < k2 < old(r)@.len() ==> move_order(#[trigger] old(r)@[k1].1) < move_order(#[trigger] old(r)@[k2].1),
            forall|k: int| 0 <= k < old(r)@.len() ==> move_order(#[trigger] old(r)@[k].1) < p * 12,
        ensures
            all_successors(self@, final(r)@),
            forall|m: Move| #[trigger] move_is_legal(self@, m) && move_order(m) < p * 12 + 12 ==> exists|k: int| 0 <= k < final(r)@.len() && #[trigger] same_action(final(r)@[k].1, m),
            forall|k1: int, k2: int| 0 <= k1 < k2 < final(r)@.len() ==> move_order(#[trigger] final(r)@[k1].1) < move_order(#[trigger] final(r)@[k2].1),
            forall|k: int| 0 <= k < final(r)@.len() ==> move_order(#[trigger] final(r)@[k].1) < p * 12 + 12,
    {
        let src = &self.tableau[p];
        if src.len() == 0 {
            return;
        }
        let card = src[src.len() - 1];
        let depth = src.len() - 1;
        if self.held_card.is_none() && src.len() > 1 {
            let m = Move {
                from: MoveLocation::Pile { pile: p, depth },
                to: MoveLocation::HoldingSlot,
                card,
                num_sucks: 0,
            };
            let ghost before = r@;
            r.push(self.play(m));
            proof {
                assert forall|k: int| 0 <= k < r@.len() implies #[trigger] r@[k].0.wf() && is_successor(self@, r@[k].0@, r@[k].1) by {
                    if k < before.len() {
                        assert(r@[k] == before[k]);
                    }
                }
                assert forall|mm: Move| #[trigger] move_is_legal(self@, mm) && move_order(mm) < p * 12 + 1 implies exists|k: int| 0 <= k < r@.len() && #[trigger] same_action(r@[k].1, mm) by {
                    if move_order(mm) < p * 12 {
                        let k = choose|k: int| 0 <= k < before.len() && #[trigger] same_action(before[k].1, mm);
                        assert(r@[k] == before[k]);
                    } else {
                        assert(same_action(r@[before.len() as int].1, mm));
                    }
                }
            }
        }
        let mut q: usize = 0;
        while q < NUM_PILES
            invariant
                q <= NUM_PILES,
                p < NUM_PILES,
                self.wf(),
                self@.tableau[p as int].len() > 0,
                card == top(self@, p),
                depth == self@.tableau[p as int].len() - 1,
                all_successors(self@, r@),
                forall|m: Move| #[trigger] move_is_legal(self@, m) && move_order(m) < p * 12 + 1 + q ==> exists|k: int| 0 <= k < r@.len() && #[trigger] same_action(r@[k].1, m),
                forall|k1: int, k2: int| 0 <= k1 < k2 < r@.len() ==> move_order(#[trigger] r@[k1].1) < move_order(#[trigger] r@[k2].1),
                forall|k: int| 0 <= k < r@.len() ==> move_order(#[trigger] r@[k].1) < p * 12 + 1 + q,
            decreases NUM_PILES - q,
        {
            let dst = &self.tableau[q];
            if q != p && !(self.tableau[p].len() == 1 && dst.len() == 0) && (dst.len() == 0
                || dst[dst.len() - 1].is_next_or_prev(card)) {
                let m = Move {
                    from: MoveLocation::Pile { pile: p, depth },
                    to: MoveLocation::Pile { pile: q, depth: dst.len() },
                    card,
                    num_sucks: 0,
                };
                let ghost before = r@;
                r.push(self.play(m));
                proof {
                    assert forall|k: int| 0 <= k < r@.len() implies #[trigger] r@[k].0.wf() && is_successor(self@, r@[k].0@, r@[k].1) by {
                        if k < before.len() {
                            assert(r@[k] == before[k]);
                        }
                    }
                    assert forall|mm: Move| #[trigger] move_is_legal(self@, mm) && move_order(mm) < p * 12 + 1 + q + 1 implies exists|k: int| 0 <= k < r@.len() && #[trigger] same_action(r@[k].1, mm) by {
                        if move_order(mm) < p * 12 + 1 + q {
                            let k = choose|k: int| 0 <= k < before.len() && #[trigger] same_action(before[k].1, mm);
                            assert(r@[k] == before[k]);
                        } else {
                            assert(same_action(r@[before.len() as int].1, mm));
                        }
                    }
                }
            }
            q += 1;
        }
        assert forall|k: int| 0 <= k < r@.len() implies #[trigger] r@[k].0.wf() && is_successor(self@, r@[k].0@, r@[k].1) by {
            assert(r@[k].0.wf());
        }
    }
}

} // verus!
