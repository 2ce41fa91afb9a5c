//! Ranks, suits and cards, with the adjacency predicates that every rule of
//! the game is written in.

use vstd::prelude::*;

verus! {

/// The four suits of the minor arcana.
#[derive(Debug, Clone, Copy, PartialEq, Eq, Structural, Hash)]
pub enum Suit {
    Sword,
    Wand,
    Cup,
    Star,
}

/// A minor rank: 1 is the ace, 11 to 13 are jack, queen and king.
#[derive(Debug, Clone, Copy, PartialEq, Eq, Structural, Hash)]
pub struct MinorValue(pub u8);

/// A major (trump) rank, from 0 to 21.
#[derive(Debug, Clone, Copy, PartialEq, Eq, Structural, Hash)]
pub struct MajorValue(pub u8);

/// The lowest major rank, which opens the ascending trump foundation.
pub const FIRST_MAJOR: u8 = 0;

/// The highest major rank, which opens the descending trump foundation.
pub const LAST_MAJOR: u8 = 21;

/// The highest minor rank (the king).
pub const KING: u8 = 13;

/// A card: a trump with a rank only, or a suited card.
#[derive(Debug, Clone, Copy, PartialEq, Eq, Structural, Hash)]
pub enum Card {
    Major(MajorValue),
    Minor { suit: Suit, value: MinorValue },
}

/// The rank of a card within its domain.
pub open spec fn rank(c: Card) -> int {
    match c {
        Card::Major(v) => v.0 as int,
        Card::Minor { value, .. } => value.0 as int,
    }
}

/// Both trumps, or both suited cards of one suit.
pub open spec fn same_domain(a: Card, b: Card) -> bool {
    match (a, b) {
        (Card::Major(_), Card::Major(_)) => true,
        (Card::Minor { suit: s, .. }, Card::Minor { suit: t, .. }) => s == t,
        _ => false,
    }
}

/// `a` comes right after `b` in their common domain.
pub open spec fn is_successor_of(a: Card, b: Card) -> bool {
    same_domain(a, b) && rank(a) == rank(b) + 1
}

/// `a` comes right before `b` in their common domain.
pub open spec fn is_predecessor_of(a: Card, b: Card) -> bool {
    same_domain(a, b) && rank(a) + 1 == rank(b)
}

/// The two cards are neighbours in rank within one domain.
pub open spec fn is_adjacent(a: Card, b: Card) -> bool {
    is_successor_of(a, b) || is_predecessor_of(a, b)
}

/// A rank that the deck holds: 0 to 21 for a trump, 1 to 13 for a suited card.
pub open spec fn card_wf(c: Card) -> bool {
    match c {
        Card::Major(v) => v.0 <= LAST_MAJOR,
        Card::Minor { value, .. } => 1 <= value.0 <= KING,
    }
}

/// For cards of one domain, `a` follows `b` exactly when `b` precedes `a`.
pub proof fn lemma_adjacency_symmetric(a: Card, b: Card)
    requires
        same_domain(a, b),
    ensures
        is_successor_of(a, b) <==> is_predecessor_of(b, a),
        is_adjacent(a, b) <==> is_adjacent(b, a),
{
}

impl Card {
    /// Whether `next_card` comes right after this card.
    pub fn is_next_card(self, next_card: Card) -> (r: bool)
        ensures
            r == is_successor_of(next_card, self),
    {
        match (self, next_card) {
            (Card::Major(this_value), Card::Major(next_value)) => {
                this_value.0 as u16 + 1 == next_value.0 as u16
            },
            (
                Card::Minor { suit, value: this_value },
                Card::Minor { suit: next_suit, value: next_value },
            ) => suit == next_suit && this_value.0 as u16 + 1 == next_value.0 as u16,
            _ => false,
        }
    }

    /// Whether `prev_card` comes right before this card.
    pub fn is_prev_card(self, prev_card: Card) -> (r: bool)
        ensures
            r == is_predecessor_of(prev_card, self),
    {
        match (self, prev_card) {
            (Card::Major(this_value), Card::Major(prev_value)) => {
                this_value.0 as u16 == prev_value.0 as u16 + 1
            },
            (
                Card::Minor { suit, value: this_value },
                Card::Minor { suit: prev_suit, value: prev_value },
            ) => suit == prev_suit && this_value.0 as u16 == prev_value.0 as u16 + 1,
            _ => false,
        }
    }

    /// Whether `other` is a neighbour in rank of this card.
    pub fn is_next_or_prev(self, other: Card) -> (r: bool)
        ensures
            r == is_adjacent(other, self),
    {
        self.is_next_card(other) || self.is_prev_card(other)
    }
}

} // verus!
