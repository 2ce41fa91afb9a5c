//! The cascade's fixpoint does not depend on the order in which ready cards
//! are advanced, as long as no two ready cards compete.

use vstd::prelude::*;
use crate::card::{Card, is_adjacent};
use crate::board::{
    BoardView, Source, Foundation, board_wf, remaining, ready, exposed, destination, advance,
    first_suit_from, suit_accepts, ascending_accepts, descending_accepts,
    settled, cascades_to, resolves_to, is_cascade, moved_cards, lemma_advance_counts, lemma_first_suit_in_range,
    lemma_total_nonneg, lemma_cascade_from_settled, lemma_cascades_to_refl,
};

verus! {

/// Two different sources offer ready cards that are equal or neighbours in
/// rank: advancing one may take the other's place or change where it goes.
pub open spec fn contested(v: BoardView) -> bool {
    exists|s1: Source, s2: Source|
        {
            &&& s1 != s2
            &&& #[trigger] ready(v, s1)
            &&& #[trigger] ready(v, s2)
            &&& (exposed(v, s1) == exposed(v, s2) || is_adjacent(
                exposed(v, s1).unwrap(),
                exposed(v, s2).unwrap(),
            ))
        }
}

/// No board that a cascade from `v` passes through is contested.
pub open spec fn uncontested_from(v: BoardView) -> bool {
    forall|u: BoardView, cards: Seq<Card>| #[trigger] cascades_to(v, u, cards) ==> !contested(u)
}

/// Two cards that a foundation both takes are the same card.
pub proof fn lemma_accepts_unique(f: Seq<Card>, c1: Card, c2: Card)
    ensures
        suit_accepts(f, c1) && suit_accepts(f, c2) ==> c1 == c2,
        ascending_accepts(f, c1) && ascending_accepts(f, c2) ==> c1 == c2,
        descending_accepts(f, c1) && descending_accepts(f, c2) ==> c1 == c2,
{
}


/// Foundations that take `c` alike give it the same first suit foundation.
pub proof fn lemma_first_suit_same(suits: Seq<Seq<Card>>, other: Seq<Seq<Card>>, c: Card, j: int)
    requires
        suits.len() == other.len(),
        forall|k: int| 0 <= k < suits.len() ==> suit_accepts(#[trigger] suits[k], c) == suit_accepts(other[k], c),
    ensures
        first_suit_from(suits, c, j) == first_suit_from(other, c, j),
    decreases suits.len() - j,
{
    if 0 <= j < suits.len() {
        lemma_first_suit_same(suits, other, c, j + 1);
    }
}

/// Advancing one card leaves where a different, non-neighbouring card goes
/// unchanged, and the two never go to the same foundation.
pub proof fn lemma_destination_kept(v: BoardView, s1: Source, c2: Card)
    requires
        board_wf(v),
        ready(v, s1),
        exposed(v, s1).unwrap() != c2,
        !is_adjacent(exposed(v, s1).unwrap(), c2),
    ensures
        destination(advance(v, s1), c2) == destination(v, c2),
        destination(v, c2) != destination(v, exposed(v, s1).unwrap()),
{
    let c1 = exposed(v, s1).unwrap();
    let f1 = destination(v, c1).unwrap();
    let w = advance(v, s1);
    lemma_first_suit_in_range(v.suits, c1, 0);
    lemma_first_suit_in_range(v.suits, c2, 0);
    match f1 {
        Foundation::Suit(j1) => {
            assert forall|k: int| 0 <= k < v.suits.len() implies suit_accepts(#[trigger] w.suits[k], c2) == suit_accepts(v.suits[k], c2) by {
                if k == j1 {
                    lemma_accepts_unique(v.suits[k], c1, c2);
                }
            }
            lemma_first_suit_same(w.suits, v.suits, c2, 0);
            lemma_accepts_unique(v.suits[j1 as int], c1, c2);
        },
        Foundation::Ascending => {
            assert(w.suits == v.suits);
            lemma_accepts_unique(v.ascending, c1, c2);
        },
        Foundation::Descending => {
            assert(w.suits == v.suits);
            lemma_accepts_unique(v.descending, c1, c2);
        },
    }
}

/// Two uncontested ready cards can be advanced in either order, with the same result.
pub proof fn lemma_advances_commute(v: BoardView, s1: Source, s2: Source)
    requires
        board_wf(v),
        s1 != s2,
        ready(v, s1),
        ready(v, s2),
        !contested(v),
    ensures
        ready(advance(v, s1), s2),
        ready(advance(v, s2), s1),
        advance(advance(v, s1), s2) == advance(advance(v, s2), s1),
{
    let c1 = exposed(v, s1).unwrap();
    let c2 = exposed(v, s2).unwrap();
    assert(!(exposed(v, s1) == exposed(v, s2) || is_adjacent(c1, c2)));
    assert(!is_adjacent(c2, c1));
    let w1 = advance(v, s1);
    let w2 = advance(v, s2);
    assert(exposed(w1, s2) == exposed(v, s2));
    assert(exposed(w2, s1) == exposed(v, s1));
    lemma_destination_kept(v, s1, c2);
    lemma_destination_kept(v, s2, c1);
    let d1 = destination(v, c1).unwrap();
    let d2 = destination(v, c2).unwrap();
    lemma_first_suit_in_range(v.suits, c1, 0);
    lemma_first_suit_in_range(v.suits, c2, 0);
    let l = advance(w1, s2);
    let r = advance(w2, s1);
    assert(l.tableau =~= r.tableau);
    assert(l.suits =~= r.suits);
    assert(l.ascending =~= r.ascending);
    assert(l.descending =~= r.descending);
}

/// A non-empty cascade begins with one advance of a ready card.
pub proof fn lemma_first_step(v: BoardView, w: BoardView, cards: Seq<Card>) -> (s: Source)
    requires
        cascades_to(v, w, cards),
        cards.len() > 0,
    ensures
        ready(v, s),
        cards[0] == exposed(v, s).unwrap(),
        cascades_to(advance(v, s), w, cards.drop_first()),
{
    reveal(cascades_to);
    let (boards, srcs) = choose|boards: Seq<BoardView>, srcs: Seq<Source>|
        {
            &&& is_cascade(boards, srcs)
            &&& boards[0] == v
            &&& boards.last() == w
            &&& moved_cards(boards, srcs) == cards
        };
    let s = srcs[0];
    assert(ready(boards[0], srcs[0]));
    let b2 = boards.drop_first();
    let s2 = srcs.drop_first();
    assert forall|i: int| 0 <= i < s2.len() implies {
        &&& ready(#[trigger] b2[i], s2[i])
        &&& b2[i + 1] == advance(b2[i], s2[i])
    } by {
        assert(ready(boards[i + 1], srcs[i + 1]));
    }
    assert(is_cascade(b2, s2));
    assert(moved_cards(b2, s2) =~= cards.drop_first());
    assert(moved_cards(boards, srcs)[0] == cards[0]);
    s
}

/// A cascade after one advance is a cascade from the board before it.
pub proof fn lemma_prepend(v: BoardView, s: Source, u: BoardView, cards: Seq<Card>)
    requires
        ready(v, s),
        cascades_to(advance(v, s), u, cards),
    ensures
        cascades_to(v, u, seq![exposed(v, s).unwrap()] + cards),
{
    reveal(cascades_to);
    let (boards, srcs) = choose|boards: Seq<BoardView>, srcs: Seq<Source>|
        {
            &&& is_cascade(boards, srcs)
            &&& boards[0] == advance(v, s)
            &&& boards.last() == u
            &&& moved_cards(boards, srcs) == cards
        };
    let b2 = seq![v] + boards;
    let s2 = seq![s] + srcs;
    assert forall|i: int| 0 <= i < s2.len() implies {
        &&& ready(#[trigger] b2[i], s2[i])
        &&& b2[i + 1] == advance(b2[i], s2[i])
    } by {
        if i > 0 {
            assert(b2[i] == boards[i - 1]);
            assert(ready(boards[i - 1], srcs[i - 1]));
        }
    }
    assert(is_cascade(b2, s2));
    assert(moved_cards(b2, s2) =~= seq![exposed(v, s).unwrap()] + cards);
    assert(b2.last() == boards.last());
}

/// Every board cascades to some fixpoint.
pub proof fn lemma_fixpoint_exists(v: BoardView) -> (r: (BoardView, Seq<Card>))
    requires
        board_wf(v),
    ensures
        resolves_to(v, r.0, r.1),
    decreases remaining(v),
{
    if settled(v) {
        lemma_cascades_to_refl(v);
        (v, Seq::empty())
    } else {
        let s = choose|s: Source| ready(v, s);
        lemma_advance_counts(v, s);
        lemma_total_nonneg(advance(v, s).tableau);
        let (f, k) = lemma_fixpoint_exists(advance(v, s));
        lemma_prepend(v, s, f, k);
        (f, seq![exposed(v, s).unwrap()] + k)
    }
}

/// Cascades after one advance are cascades from the board before it, so an
/// uncontested start stays uncontested.
pub proof fn lemma_uncontested_step(v: BoardView, s: Source)
    requires
        ready(v, s),
        uncontested_from(v),
    ensures
        uncontested_from(advance(v, s)),
{
    assert forall|u: BoardView, cards: Seq<Card>| #[trigger] cascades_to(advance(v, s), u, cards) implies !contested(u) by {
        lemma_prepend(v, s, u, cards);
    }
}

/// Confluence: when no board along the way has two competing ready cards,
/// every order of advancing ready cards reaches the same fixpoint, whatever
/// order the piles are scanned in.
pub proof fn lemma_cascade_confluent(
    v: BoardView,
    w1: BoardView,
    cards1: Seq<Card>,
    w2: BoardView,
    cards2: Seq<Card>,
)
    requires
        board_wf(v),
        uncontested_from(v),
        resolves_to(v, w1, cards1),
        resolves_to(v, w2, cards2),
    ensures
        w1 == w2,
    decreases remaining(v),
{
    if cards1.len() == 0 || cards2.len() == 0 {
        reveal(cascades_to);
        if cards1.len() == 0 {
            lemma_settled_if_empty(v, w1, cards1);
            lemma_cascade_from_settled(v, w2, cards2);
        } else {
            lemma_settled_if_empty(v, w2, cards2);
            lemma_cascade_from_settled(v, w1, cards1);
        }
    } else {
        let s1 = lemma_first_step(v, w1, cards1);
        let s2 = lemma_first_step(v, w2, cards2);
        let b1 = advance(v, s1);
        let b2 = advance(v, s2);
        lemma_advance_counts(v, s1);
        lemma_advance_counts(v, s2);
        lemma_total_nonneg(b1.tableau);
        lemma_total_nonneg(b2.tableau);
        lemma_uncontested_step(v, s1);
        lemma_uncontested_step(v, s2);
        if s1 == s2 {
            lemma_cascade_confluent(b1, w1, cards1.drop_first(), w2, cards2.drop_first());
        } else {
            lemma_cascades_to_refl(v);
            assert(!contested(v));
            lemma_advances_commute(v, s1, s2);
            let c = advance(b1, s2);
            lemma_advance_counts(b1, s2);
            let (f, k) = lemma_fixpoint_exists(c);
            lemma_prepend(b1, s2, f, k);
            lemma_prepend(b2, s1, f, k);
            lemma_cascade_confluent(b1, w1, cards1.drop_first(), f, seq![exposed(b1, s2).unwrap()] + k);
            lemma_cascade_confluent(b2, w2, cards2.drop_first(), f, seq![exposed(b2, s1).unwrap()] + k);
        }
    }
}

/// A cascade that moves nothing ends where it starts.
pub proof fn lemma_settled_if_empty(v: BoardView, w: BoardView, cards: Seq<Card>)
    requires
        cascades_to(v, w, cards),
        cards.len() == 0,
    ensures
        w == v,
{
    reveal(cascades_to);
    let (boards, srcs) = choose|boards: Seq<BoardView>, srcs: Seq<Source>|
        {
            &&& is_cascade(boards, srcs)
            &&& boards[0] == v
            &&& boards.last() == w
            &&& moved_cards(boards, srcs) == cards
        };
    assert(moved_cards(boards, srcs).len() == srcs.len());
}
} // verus!
