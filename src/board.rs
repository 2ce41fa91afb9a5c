//! The game position and the automatic cascade of exposed cards into the
//! foundations.

use vstd::prelude::*;
use vstd::multiset::Multiset;
use crate::confluence::{uncontested_from, lemma_cascade_confluent};
use crate::card::{
    Card, MajorValue, MinorValue, Suit, is_successor_of, is_predecessor_of, FIRST_MAJOR, LAST_MAJOR,
};

verus! {

/// Number of tableau piles.
pub const NUM_PILES: usize = 11;

/// Number of suit foundations, one per suit.
pub const NUM_SUITS: usize = 4;

/// A game position. The history of how it was reached is kept elsewhere, so
/// two boards are the same state exactly when these fields agree.
#[derive(Debug, Clone, Hash)]
pub struct Board {
    /// The working piles; the last card of each is its exposed card.
    pub tableau: Vec<Vec<Card>>,
    /// Trumps built upward from rank 0.
    pub trump_ascending: Vec<Card>,
    /// Trumps built downward from rank 21.
    pub trump_descending: Vec<Card>,
    /// One foundation per suit, each built upward.
    pub suit_foundations: Vec<Vec<Card>>,
    /// The holding slot.
    pub held_card: Option<Card>,
}

/// The mathematical content of a board.
pub struct BoardView {
    pub tableau: Seq<Seq<Card>>,
    pub ascending: Seq<Card>,
    pub descending: Seq<Card>,
    pub suits: Seq<Seq<Card>>,
    pub held: Option<Card>,
}

impl View for Board {
    type V = BoardView;

    open spec fn view(&self) -> BoardView {
        BoardView {
            tableau: self.tableau@.map_values(|p: Vec<Card>| p@),
            ascending: self.trump_ascending@,
            descending: self.trump_descending@,
            suits: self.suit_foundations@.map_values(|p: Vec<Card>| p@),
            held: self.held_card,
        }
    }
}

/// Where a card can be taken from by the cascade.
#[derive(Debug, Clone, Copy, PartialEq, Eq, Structural)]
pub enum Source {
    Pile(usize),
    Held,
}

/// A foundation that a card can advance into.
#[derive(Debug, Clone, Copy, PartialEq, Eq, Structural)]
pub enum Foundation {
    Suit(usize),
    Ascending,
    Descending,
}

/// Total number of cards in a sequence of piles.
pub open spec fn total(piles: Seq<Seq<Card>>) -> int
    decreases piles.len(),
{
    if piles.len() == 0 {
        0
    } else {
        total(piles.drop_last()) + piles.last().len()
    }
}

/// Cards still in play: the tableau and the holding slot.
pub open spec fn remaining(v: BoardView) -> int {
    total(v.tableau) + if v.held is Some { 1int } else { 0int }
}

/// Every card on the board, wherever it lies.
pub open spec fn card_count(v: BoardView) -> int {
    remaining(v) + v.ascending.len() + v.descending.len() + total(v.suits)
}

/// The shape every board keeps: eleven piles, four suit foundations, and a
/// count of cards in play that a machine word holds.
pub open spec fn board_wf(v: BoardView) -> bool {
    &&& v.tableau.len() == NUM_PILES
    &&& v.suits.len() == NUM_SUITS
    &&& remaining(v) <= usize::MAX
}

/// Every tableau pile is empty. The holding slot is not looked at: a board
/// whose only card left in play is held counts as solved.
pub open spec fn is_terminal(v: BoardView) -> bool {
    forall|i: int| 0 <= i < v.tableau.len() ==> #[trigger] v.tableau[i].len() == 0
}

/// When a board counts as solved.
#[derive(Debug, Clone, Copy, PartialEq, Eq, Structural)]
pub enum TerminalPolicy {
    /// Every tableau pile is empty; a held card may remain.
    TableauEmpty,
    /// Every tableau pile is empty and nothing is held.
    TableauAndSlotEmpty,
}

/// Whether `v` is solved under `policy`.
pub open spec fn is_terminal_under(v: BoardView, policy: TerminalPolicy) -> bool {
    match policy {
        TerminalPolicy::TableauEmpty => is_terminal(v),
        TerminalPolicy::TableauAndSlotEmpty => is_terminal(v) && v.held is None,
    }
}

/// The ace of a suit, which each suit foundation starts with.
pub open spec fn ace(s: Suit) -> Card {
    Card::Minor { suit: s, value: MinorValue(1) }
}

/// The board dealt from `piles`: they fill the tableau in order (the rest
/// stay empty), the trump foundations are empty, each suit foundation holds
/// its ace and nothing is held.
pub open spec fn dealt_board(piles: Seq<Seq<Card>>) -> BoardView {
    BoardView {
        tableau: Seq::new(
            NUM_PILES as nat,
            |i: int|
                if i < piles.len() {
                    piles[i]
                } else {
                    Seq::empty()
                },
        ),
        ascending: Seq::empty(),
        descending: Seq::empty(),
        suits: seq![
            seq![ace(Suit::Sword)],
            seq![ace(Suit::Wand)],
            seq![ace(Suit::Cup)],
            seq![ace(Suit::Star)],
        ],
        held: None,
    }
}

/// The card a source offers, if any.
pub open spec fn exposed(v: BoardView, s: Source) -> Option<Card> {
    match s {
        Source::Pile(i) => {
            if i < v.tableau.len() && v.tableau[i as int].len() > 0 {
                Some(v.tableau[i as int].last())
            } else {
                None
            }
        },
        Source::Held => v.held,
    }
}

/// A suit foundation takes the card right above its top card.
pub open spec fn suit_accepts(f: Seq<Card>, c: Card) -> bool {
    f.len() > 0 && is_successor_of(c, f.last())
}

/// The ascending trump foundation takes rank 0 when empty, then each next trump.
pub open spec fn ascending_accepts(f: Seq<Card>, c: Card) -> bool {
    if f.len() == 0 {
        c == Card::Major(MajorValue(FIRST_MAJOR))
    } else {
        is_successor_of(c, f.last())
    }
}

/// The descending trump foundation takes rank 21 when empty, then each previous trump.
pub open spec fn descending_accepts(f: Seq<Card>, c: Card) -> bool {
    if f.len() == 0 {
        c == Card::Major(MajorValue(LAST_MAJOR))
    } else {
        is_predecessor_of(c, f.last())
    }
}

/// The first suit foundation at index `j` or later that takes `c`.
pub open spec fn first_suit_from(suits: Seq<Seq<Card>>, c: Card, j: int) -> Option<usize>
    decreases suits.len() - j,
{
    if j < 0 || j >= suits.len() {
        None
    } else if suit_accepts(suits[j], c) {
        Some(j as usize)
    } else {
        first_suit_from(suits, c, j + 1)
    }
}

/// Where `c` advances to, in the fixed priority: suit foundations, then the
/// ascending trumps, then the descending trumps.
pub open spec fn destination(v: BoardView, c: Card) -> Option<Foundation> {
    match first_suit_from(v.suits, c, 0) {
        Some(j) => Some(Foundation::Suit(j)),
        None => {
            if ascending_accepts(v.ascending, c) {
                Some(Foundation::Ascending)
            } else if descending_accepts(v.descending, c) {
                Some(Foundation::Descending)
            } else {
                None
            }
        },
    }
}

/// The source offers a card that some foundation takes.
pub open spec fn ready(v: BoardView, s: Source) -> bool {
    &&& exposed(v, s) is Some
    &&& destination(v, exposed(v, s).unwrap()) is Some
}

/// No card can advance: the cascade is at its fixpoint.
pub open spec fn settled(v: BoardView) -> bool {
    forall|s: Source| !#[trigger] ready(v, s)
}

/// The board with the card of `s` taken away.
pub open spec fn remove_from(v: BoardView, s: Source) -> BoardView {
    match s {
        Source::Pile(i) => BoardView {
            tableau: v.tableau.update(i as int, v.tableau[i as int].drop_last()),
            ..v
        },
        Source::Held => BoardView { held: None, ..v },
    }
}

/// The board with `c` put on foundation `f`.
pub open spec fn add_to(v: BoardView, f: Foundation, c: Card) -> BoardView {
    match f {
        Foundation::Suit(j) => BoardView {
            suits: v.suits.update(j as int, v.suits[j as int].push(c)),
            ..v
        },
        Foundation::Ascending => BoardView { ascending: v.ascending.push(c), ..v },
        Foundation::Descending => BoardView { descending: v.descending.push(c), ..v },
    }
}

/// One automatic advance of the card that `s` offers.
pub open spec fn advance(v: BoardView, s: Source) -> BoardView {
    let c = exposed(v, s).unwrap();
    add_to(remove_from(v, s), destination(v, c).unwrap(), c)
}

/// `boards` is a run of automatic advances, the i-th taken from `srcs[i]`.
pub open spec fn is_cascade(boards: Seq<BoardView>, srcs: Seq<Source>) -> bool {
    &&& boards.len() == srcs.len() + 1
    &&& forall|i: int|
        0 <= i < srcs.len() ==> {
            &&& ready(#[trigger] boards[i], srcs[i])
            &&& boards[i + 1] == advance(boards[i], srcs[i])
        }
}

/// The cards that a run of advances moved, in order.
pub open spec fn moved_cards(boards: Seq<BoardView>, srcs: Seq<Source>) -> Seq<Card> {
    Seq::new(srcs.len(), |i: int| exposed(boards[i], srcs[i]).unwrap())
}

/// `w` follows from `v` by automatic advances that move `cards`.
#[verifier::opaque]
pub open spec fn cascades_to(v: BoardView, w: BoardView, cards: Seq<Card>) -> bool {
    exists|boards: Seq<BoardView>, srcs: Seq<Source>|
        {
            &&& is_cascade(boards, srcs)
            &&& boards[0] == v
            &&& boards.last() == w
            &&& moved_cards(boards, srcs) == cards
        }
}

/// `w` is the fixpoint that the cascade resolver reaches from `v`, moving `cards`.
pub open spec fn resolves_to(v: BoardView, w: BoardView, cards: Seq<Card>) -> bool {
    cascades_to(v, w, cards) && settled(w)
}

/// A total of lengths is never negative.
pub proof fn lemma_total_nonneg(piles: Seq<Seq<Card>>)
    ensures
        total(piles) >= 0,
    decreases piles.len(),
{
    if piles.len() > 0 {
        lemma_total_nonneg(piles.drop_last());
    }
}

/// Replacing one pile changes the total by the difference in length.
pub proof fn lemma_total_update(piles: Seq<Seq<Card>>, i: int, p: Seq<Card>)
    requires
        0 <= i < piles.len(),
    ensures
        total(piles.update(i, p)) == total(piles) - piles[i].len() + p.len(),
    decreases piles.len(),
{
    let q = piles.update(i, p);
    if i == piles.len() - 1 {
        assert(q.drop_last() =~= piles.drop_last());
    } else {
        assert(q.drop_last() =~= piles.drop_last().update(i, p));
        lemma_total_update(piles.drop_last(), i, p);
    }
}

/// One advance takes one card out of play and keeps every card on the board.
pub proof fn lemma_advance_counts(v: BoardView, s: Source)
    requires
        board_wf(v),
        ready(v, s),
    ensures
        remaining(advance(v, s)) == remaining(v) - 1,
        card_count(advance(v, s)) == card_count(v),
        board_wf(advance(v, s)),
{
    let c = exposed(v, s).unwrap();
    let r = remove_from(v, s);
    if let Source::Pile(i) = s {
        lemma_total_update(v.tableau, i as int, v.tableau[i as int].drop_last());
    }
    match destination(v, c).unwrap() {
        Foundation::Suit(j) => {
            lemma_first_suit_in_range(v.suits, c, 0);
            lemma_total_update(r.suits, j as int, r.suits[j as int].push(c));
        },
        _ => {},
    }
}

/// Every card in a sequence of piles, with multiplicity.
pub open spec fn pile_cards(piles: Seq<Seq<Card>>) -> Multiset<Card>
    decreases piles.len(),
{
    if piles.len() == 0 {
        Multiset::empty()
    } else {
        pile_cards(piles.drop_last()).add(piles.last().to_multiset())
    }
}

/// The held card, if any, as a multiset.
pub open spec fn held_cards(held: Option<Card>) -> Multiset<Card> {
    match held {
        Some(c) => Multiset::singleton(c),
        None => Multiset::empty(),
    }
}

/// Every card on the board, wherever it lies, with multiplicity.
pub open spec fn board_cards(v: BoardView) -> Multiset<Card> {
    pile_cards(v.tableau).add(v.ascending.to_multiset()).add(v.descending.to_multiset()).add(
        pile_cards(v.suits),
    ).add(held_cards(v.held))
}

/// Replacing one pile swaps its cards for the new pile's.
pub proof fn lemma_pile_cards_update(piles: Seq<Seq<Card>>, i: int, p: Seq<Card>)
    requires
        0 <= i < piles.len(),
    ensures
        pile_cards(piles.update(i, p)).add(piles[i].to_multiset()) =~= pile_cards(piles).add(
            p.to_multiset(),
        ),
    decreases piles.len(),
{
    broadcast use vstd::multiset::group_multiset_axioms;

    let q = piles.update(i, p);
    if i == piles.len() - 1 {
        assert(q.drop_last() =~= piles.drop_last());
        assert(q.last() == p);
    } else {
        assert(q.drop_last() =~= piles.drop_last().update(i, p));
        assert(q.last() == piles.last());
        lemma_pile_cards_update(piles.drop_last(), i, p);
        let a = pile_cards(q.drop_last()).add(piles[i].to_multiset());
        let b = pile_cards(piles.drop_last()).add(p.to_multiset());
        assert forall|x: Card| a.count(x) == b.count(x) by {
            assert(a =~= b);
        }
    }
    assert(pile_cards(q) == pile_cards(q.drop_last()).add(q.last().to_multiset()));
    assert(pile_cards(piles) == pile_cards(piles.drop_last()).add(piles.last().to_multiset()));
    let l = pile_cards(q).add(piles[i].to_multiset());
    let r = pile_cards(piles).add(p.to_multiset());
    assert forall|x: Card| l.count(x) == r.count(x) by {
        if i < piles.len() - 1 {
            let a = pile_cards(q.drop_last()).add(piles[i].to_multiset());
            let b = pile_cards(piles.drop_last()).add(p.to_multiset());
            assert(a.count(x) == b.count(x));
        }
    }
}

/// One advance moves a card and keeps every card on the board.
pub proof fn lemma_advance_cards(v: BoardView, s: Source)
    requires
        board_wf(v),
        ready(v, s),
    ensures
        board_cards(advance(v, s)) =~= board_cards(v),
{
    broadcast use vstd::multiset::group_multiset_axioms;
    broadcast use vstd::seq_lib::group_to_multiset_ensures;

    let c = exposed(v, s).unwrap();
    let r = remove_from(v, s);
    let w = advance(v, s);
    match s {
        Source::Pile(i) => {
            let t = v.tableau[i as int];
            lemma_pile_cards_update(v.tableau, i as int, t.drop_last());
            assert(t =~= t.drop_last().push(c));
            assert(t.to_multiset() =~= t.drop_last().to_multiset().insert(c));
            let lhs = pile_cards(r.tableau).add(t.to_multiset());
            let rhs = pile_cards(v.tableau).add(t.drop_last().to_multiset());
            assert forall|x: Card| pile_cards(r.tableau).insert(c).count(x) == pile_cards(v.tableau).count(x) by {
                assert(lhs.count(x) == rhs.count(x));
            }
            assert(pile_cards(r.tableau).insert(c) =~= pile_cards(v.tableau));
        },
        Source::Held => {
            assert(held_cards(r.held).insert(c) =~= held_cards(v.held));
        },
    }
    match destination(v, c).unwrap() {
        Foundation::Suit(j) => {
            lemma_first_suit_in_range(v.suits, c, 0);
            let f = r.suits[j as int];
            lemma_pile_cards_update(r.suits, j as int, f.push(c));
            assert(f.push(c).to_multiset() =~= f.to_multiset().insert(c));
            let lhs = pile_cards(w.suits).add(f.to_multiset());
            let rhs = pile_cards(r.suits).add(f.push(c).to_multiset());
            assert forall|x: Card| pile_cards(w.suits).count(x) == pile_cards(r.suits).insert(c).count(x) by {
                assert(lhs.count(x) == rhs.count(x));
            }
            assert(pile_cards(w.suits) =~= pile_cards(r.suits).insert(c));
        },
        Foundation::Ascending => {
            assert(w.ascending.to_multiset() =~= r.ascending.to_multiset().insert(c));
        },
        Foundation::Descending => {
            assert(w.descending.to_multiset() =~= r.descending.to_multiset().insert(c));
        },
    }
}

/// The suit foundation that `first_suit_from` names exists and takes the card.
pub proof fn lemma_first_suit_in_range(suits: Seq<Seq<Card>>, c: Card, j: int)
    requires
        0 <= j,
        suits.len() <= usize::MAX,
    ensures
        first_suit_from(suits, c, j) matches Some(k) ==> j <= k < suits.len() && suit_accepts(
            suits[k as int],
            c,
        ),
    decreases suits.len() - j,
{
    if j < suits.len() && !suit_accepts(suits[j], c) {
        lemma_first_suit_in_range(suits, c, j + 1);
    }
}

/// A run of advances grows by one more advance.
pub proof fn lemma_cascade_extend(boards: Seq<BoardView>, srcs: Seq<Source>, s: Source)
    requires
        is_cascade(boards, srcs),
        ready(boards.last(), s),
    ensures
        is_cascade(boards.push(advance(boards.last(), s)), srcs.push(s)),
        moved_cards(boards.push(advance(boards.last(), s)), srcs.push(s)) == moved_cards(
            boards,
            srcs,
        ).push(exposed(boards.last(), s).unwrap()),
{
    let b2 = boards.push(advance(boards.last(), s));
    let s2 = srcs.push(s);
    assert forall|i: int| 0 <= i < s2.len() implies {
        &&& ready(#[trigger] b2[i], s2[i])
        &&& b2[i + 1] == advance(b2[i], s2[i])
    } by {
        if i < srcs.len() {
            assert(b2[i] == boards[i]);
        }
    }
    assert(moved_cards(b2, s2) =~= moved_cards(boards, srcs).push(exposed(boards.last(), s).unwrap()));
}

/// The total of a prefix is the total of a shorter prefix plus the next pile.
pub proof fn lemma_total_prefix(t: Seq<Seq<Card>>, n: int)
    requires
        0 < n <= t.len(),
    ensures
        total(t.subrange(0, n)) == total(t.subrange(0, n - 1)) + t[n - 1].len(),
        total(t) == total(t.subrange(0, n)) + total(t.subrange(n, t.len() as int)),
    decreases t.len(),
{
    assert(t.subrange(0, n).drop_last() =~= t.subrange(0, n - 1));
    lemma_total_split(t, n);
}

/// Splitting the piles splits their total.
pub proof fn lemma_total_split(t: Seq<Seq<Card>>, n: int)
    requires
        0 <= n <= t.len(),
    ensures
        total(t) == total(t.subrange(0, n)) + total(t.subrange(n, t.len() as int)),
    decreases t.len(),
{
    if n == t.len() {
        assert(t.subrange(0, n) =~= t);
        assert(t.subrange(n, t.len() as int) =~= Seq::<Seq<Card>>::empty());
    } else {
        lemma_total_split(t.drop_last(), n);
        assert(t.drop_last().subrange(0, n) =~= t.subrange(0, n));
        assert(t.subrange(n, t.len() as int).drop_last() =~= t.drop_last().subrange(n, t.len() - 1));
    }
}

/// Whether two piles hold the same cards in the same order.
pub fn pile_equal(a: &Vec<Card>, b: &Vec<Card>) -> (r: bool)
    ensures
        r == (a@ == b@),
{
    if a.len() != b.len() {
        return false;
    }
    let mut i: usize = 0;
    while i < a.len()
        invariant
            i <= a@.len(),
            a@.len() == b@.len(),
            a@.subrange(0, i as int) == b@.subrange(0, i as int),
        decreases a@.len() - i,
    {
        if a[i] != b[i] {
            assert(a@[i as int] != b@[i as int]);
            return false;
        }
        i += 1;
        assert(a@.subrange(0, i as int) =~= b@.subrange(0, i as int)) by {
            assert(a@.subrange(0, i as int - 1) == b@.subrange(0, i as int - 1));
            assert forall|k: int| 0 <= k < i implies a@[k] == b@[k] by {
                if k < i - 1 {
                    assert(a@.subrange(0, i as int - 1)[k] == b@.subrange(0, i as int - 1)[k]);
                }
            }
        }
    }
    assert(a@ =~= a@.subrange(0, i as int));
    assert(b@ =~= b@.subrange(0, i as int));
    true
}

/// Whether two sequences of piles are equal pile by pile.
pub fn piles_equal(a: &Vec<Vec<Card>>, b: &Vec<Vec<Card>>) -> (r: bool)
    ensures
        r == (a@.map_values(|p: Vec<Card>| p@) == b@.map_values(|p: Vec<Card>| p@)),
{
    if a.len() != b.len() {
        proof {
            assert(a@.map_values(|p: Vec<Card>| p@).len() != b@.map_values(|p: Vec<Card>| p@).len());
        }
        return false;
    }
    let mut i: usize = 0;
    while i < a.len()
        invariant
            i <= a@.len(),
            a@.len() == b@.len(),
            forall|k: int| 0 <= k < i ==> #[trigger] a@[k]@ == b@[k]@,
        decreases a@.len() - i,
    {
        if !pile_equal(&a[i], &b[i]) {
            proof {
                assert(a@.map_values(|p: Vec<Card>| p@)[i as int] != b@.map_values(|p: Vec<Card>| p@)[i as int]);
            }
            return false;
        }
        i += 1;
    }
    assert(a@.map_values(|p: Vec<Card>| p@) =~= b@.map_values(|p: Vec<Card>| p@));
    true
}

/// A fresh copy of one pile.
pub fn copy_pile(p: &Vec<Card>) -> (r: Vec<Card>)
    ensures
        r@ == p@,
{
    let mut r: Vec<Card> = Vec::new();
    let mut i: usize = 0;
    while i < p.len()
        invariant
            i <= p@.len(),
            r@ == p@.subrange(0, i as int),
        decreases p@.len() - i,
    {
        r.push(p[i]);
        i += 1;
        assert(r@ =~= p@.subrange(0, i as int));
    }
    assert(r@ =~= p@);
    r
}

/// A fresh copy of a sequence of piles.
pub fn copy_piles(ps: &Vec<Vec<Card>>) -> (r: Vec<Vec<Card>>)
    ensures
        r@.map_values(|p: Vec<Card>| p@) == ps@.map_values(|p: Vec<Card>| p@),
{
    let mut r: Vec<Vec<Card>> = Vec::new();
    let mut i: usize = 0;
    while i < ps.len()
        invariant
            i <= ps@.len(),
            r@.len() == i,
            forall|k: int| 0 <= k < i ==> #[trigger] r@[k]@ == ps@[k]@,
        decreases ps@.len() - i,
    {
        r.push(copy_pile(&ps[i]));
        i += 1;
    }
    assert(r@.map_values(|p: Vec<Card>| p@) =~= ps@.map_values(|p: Vec<Card>| p@));
    r
}

/// The sum of the pile lengths, when a machine word holds it.
fn checked_total(piles: &Vec<Vec<Card>>) -> (r: Option<usize>)
    ensures
        r is Some <==> total(piles@.map_values(|p: Vec<Card>| p@)) <= usize::MAX,
        r matches Some(n) ==> n == total(piles@.map_values(|p: Vec<Card>| p@)),
{
    let ghost t = piles@.map_values(|p: Vec<Card>| p@);
    let mut sum: usize = 0;
    let mut i: usize = 0;
    while i < piles.len()
        invariant
            i <= piles@.len(),
            t == piles@.map_values(|p: Vec<Card>| p@),
            sum == total(t.subrange(0, i as int)),
        decreases piles@.len() - i,
    {
        proof {
            lemma_total_prefix(t, i as int + 1);
            lemma_total_nonneg(t.subrange(i as int + 1, t.len() as int));
        }
        let n = piles[i].len();
        if n > usize::MAX - sum {
            return None;
        }
        sum = sum + n;
        i += 1;
    }
    assert(t.subrange(0, i as int) =~= t);
    Some(sum)
}

impl Board {
    /// The board dealt from up to eleven piles (see `dealt_board`); `None`
    /// when there are more piles, or more cards than a machine word counts.
    pub fn from_piles(piles: &Vec<Vec<Card>>) -> (r: Option<Board>)
        ensures
            r is Some <==> piles@.len() <= NUM_PILES && remaining(
                dealt_board(piles@.map_values(|p: Vec<Card>| p@)),
            ) <= usize::MAX,
            r matches Some(b) ==> b.wf() && b@ == dealt_board(piles@.map_values(|p: Vec<Card>| p@)),
    {
        if piles.len() > NUM_PILES {
            return None;
        }
        let mut tableau: Vec<Vec<Card>> = Vec::new();
        let mut i: usize = 0;
        while i < NUM_PILES
            invariant
                i <= NUM_PILES,
                piles@.len() <= NUM_PILES,
                tableau@.len() == i,
                forall|k: int| 0 <= k < i ==> #[trigger] tableau@[k]@ == dealt_board(piles@.map_values(|p: Vec<Card>| p@)).tableau[k],
            decreases NUM_PILES - i,
        {
            if i < piles.len() {
                tableau.push(copy_pile(&piles[i]));
            } else {
                tableau.push(Vec::new());
            }
            i += 1;
        }
        let suit_foundations = vec![
            vec![Card::Minor { suit: Suit::Sword, value: MinorValue(1) }],
            vec![Card::Minor { suit: Suit::Wand, value: MinorValue(1) }],
            vec![Card::Minor { suit: Suit::Cup, value: MinorValue(1) }],
            vec![Card::Minor { suit: Suit::Star, value: MinorValue(1) }],
        ];
        let b = Board {
            tableau,
            trump_ascending: Vec::new(),
            trump_descending: Vec::new(),
            suit_foundations,
            held_card: None,
        };
        let ghost d = dealt_board(piles@.map_values(|p: Vec<Card>| p@));
        assert(b@.tableau =~~= d.tableau);
        assert(b@.suits =~~= d.suits);
        assert(b@ == d);
        match checked_total(&b.tableau) {
            Some(_) => Some(b),
            None => None,
        }
    }

    /// The board keeps its shape.
    pub open spec fn wf(&self) -> bool {
        board_wf(self@)
    }

    /// A fresh board with the same content.
    pub fn duplicate(&self) -> (r: Board)
        ensures
            r@ == self@,
    {
        Board {
            tableau: copy_piles(&self.tableau),
            trump_ascending: copy_pile(&self.trump_ascending),
            trump_descending: copy_pile(&self.trump_descending),
            suit_foundations: copy_piles(&self.suit_foundations),
            held_card: self.held_card,
        }
    }

    /// Whether every tableau pile is empty (the goal of the search).
    pub fn is_done(&self) -> (r: bool)
        ensures
            r == is_terminal(self@),
    {
        let mut i: usize = 0;
        while i < self.tableau.len()
            invariant
                i <= self.tableau@.len(),
                forall|j: int| 0 <= j < i ==> #[trigger] self@.tableau[j].len() == 0,
            decreases self.tableau@.len() - i,
        {
            if self.tableau[i].len() > 0 {
                assert(self@.tableau[i as int].len() > 0);
                return false;
            }
            i += 1;
        }
        true
    }

    /// Whether the board is solved under `policy`.
    pub fn is_done_under(&self, policy: TerminalPolicy) -> (r: bool)
        ensures
            r == is_terminal_under(self@, policy),
    {
        match policy {
            TerminalPolicy::TableauEmpty => self.is_done(),
            TerminalPolicy::TableauAndSlotEmpty => self.is_done() && self.held_card.is_none(),
        }
    }

    /// The search's estimate of the distance to the goal: the cards still in
    /// the tableau, plus one for a held card.
    pub fn num_cards_remaining(&self) -> (r: usize)
        requires
            self.wf(),
        ensures
            r == remaining(self@),
    {
        let mut sum: usize = 0;
        let mut i: usize = 0;
        while i < self.tableau.len()
            invariant
                i <= self.tableau@.len(),
                self.wf(),
                sum == total(self@.tableau.subrange(0, i as int)),
            decreases self.tableau@.len() - i,
        {
            proof {
                let t = self@.tableau;
                assert(t.subrange(0, i as int + 1).drop_last() =~= t.subrange(0, i as int));
                lemma_total_prefix(t, i as int + 1);
                lemma_total_nonneg(t.subrange(i as int + 1, t.len() as int));
            }
            sum = sum + self.tableau[i].len();
            i += 1;
        }
        assert(self@.tableau.subrange(0, i as int) =~= self@.tableau);
        if self.held_card.is_some() {
            sum + 1
        } else {
            sum
        }
    }

    /// Whether two boards hold the same position.
    pub fn same_position(&self, other: &Board) -> (r: bool)
        ensures
            r == (self@ == other@),
    {
        let r = piles_equal(&self.tableau, &other.tableau) && pile_equal(
            &self.trump_ascending,
            &other.trump_ascending,
        ) && pile_equal(&self.trump_descending, &other.trump_descending) && piles_equal(
            &self.suit_foundations,
            &other.suit_foundations,
        ) && self.held_card == other.held_card;
        proof {
            if !r && self@ == other@ {
                assert(self@.tableau == other@.tableau);
                assert(self@.suits == other@.suits);
            }
        }
        r
    }

    /// The foundation that `c` would advance into, by the fixed priority.
    pub fn destination_of(&self, c: Card) -> (r: Option<Foundation>)
        requires
            self.wf(),
        ensures
            r == destination(self@, c),
    {
        let mut j: usize = 0;
        while j < self.suit_foundations.len()
            invariant
                j <= self.suit_foundations@.len(),
                self.wf(),
                first_suit_from(self@.suits, c, 0) == first_suit_from(self@.suits, c, j as int),
            decreases self.suit_foundations@.len() - j,
        {
            let f = &self.suit_foundations[j];
            if f.len() > 0 && f[f.len() - 1].is_next_card(c) {
                return Some(Foundation::Suit(j));
            }
            j += 1;
        }
        let asc = &self.trump_ascending;
        let takes_ascending = if asc.len() == 0 {
            c == Card::Major(MajorValue(FIRST_MAJOR))
        } else {
            asc[asc.len() - 1].is_next_card(c)
        };
        if takes_ascending {
            return Some(Foundation::Ascending);
        }
        let desc = &self.trump_descending;
        let takes_descending = if desc.len() == 0 {
            c == Card::Major(MajorValue(LAST_MAJOR))
        } else {
            desc[desc.len() - 1].is_prev_card(c)
        };
        if takes_descending {
            Some(Foundation::Descending)
        } else {
            None
        }
    }

    /// Moves the card of `s` onto foundation `f`, which is where it advances to.
    fn advance_source(&mut self, s: Source, f: Foundation) -> (c: Card)
        requires
            old(self).wf(),
            ready(old(self)@, s),
            destination(old(self)@, exposed(old(self)@, s).unwrap()) == Some(f),
        ensures
            final(self)@ == advance(old(self)@, s),
            c == exposed(old(self)@, s).unwrap(),
            final(self).wf(),
            remaining(final(self)@) == remaining(old(self)@) - 1,
    {
        proof {
            lemma_advance_counts(self@, s);
            lemma_first_suit_in_range(self@.suits, exposed(self@, s).unwrap(), 0);
        }
        let c = match s {
            Source::Pile(i) => self.tableau[i].pop().unwrap(),
            Source::Held => {
                let c = self.held_card.unwrap();
                self.held_card = None;
                c
            },
        };
        match f {
            Foundation::Suit(j) => self.suit_foundations[j].push(c),
            Foundation::Ascending => self.trump_ascending.push(c),
            Foundation::Descending => self.trump_descending.push(c),
        }
        assert(self@.tableau =~~= advance(old(self)@, s).tableau);
        assert(self@.suits =~~= advance(old(self)@, s).suits);
        c
    }

    /// Advances the card of `s` onto `f` and records it as the next card of a
    /// cascade that started at `start`.
    fn advance_recorded(
        &mut self,
        s: Source,
        f: Foundation,
        sucked: &mut Vec<Card>,
        Ghost(start): Ghost<BoardView>,
    )
        requires
            old(self).wf(),
            ready(old(self)@, s),
            destination(old(self)@, exposed(old(self)@, s).unwrap()) == Some(f),
            cascades_to(start, old(self)@, old(sucked)@),
            remaining(old(self)@) == remaining(start) - old(sucked)@.len(),
            card_count(old(self)@) == card_count(start),
        ensures
            final(self).wf(),
            final(self)@ == advance(old(self)@, s),
            cascades_to(start, final(self)@, final(sucked)@),
            remaining(final(self)@) == remaining(start) - final(sucked)@.len(),
            card_count(final(self)@) == card_count(start),
            final(sucked)@ == old(sucked)@.push(exposed(old(self)@, s).unwrap()),
    {
        proof {
            lemma_cascades_to_extend(start, self@, sucked@, s);
            lemma_advance_counts(self@, s);
        }
        let c = self.advance_source(s, f);
        sucked.push(c);
    }

    /// One pass over the tableau: advances each exposed card that a foundation
    /// takes. Returns whether anything moved.
    fn scan_tableau(&mut self, sucked: &mut Vec<Card>, Ghost(start): Ghost<BoardView>) -> (changed:
        bool)
        requires
            old(self).wf(),
            cascades_to(start, old(self)@, old(sucked)@),
            remaining(old(self)@) == remaining(start) - old(sucked)@.len(),
            card_count(old(self)@) == card_count(start),
        ensures
            final(self).wf(),
            cascades_to(start, final(self)@, final(sucked)@),
            remaining(final(self)@) == remaining(start) - final(sucked)@.len(),
            card_count(final(self)@) == card_count(start),
            changed ==> remaining(final(self)@) < remaining(old(self)@),
            !changed ==> final(self)@ == old(self)@,
            !changed ==> forall|j: usize| j < NUM_PILES ==> !#[trigger] ready(final(self)@, Source::Pile(j)),
    {
        let ghost pass_start = self@;
        let mut changed = false;
        let mut i: usize = 0;
        while i < NUM_PILES
            invariant
                i <= NUM_PILES,
                self.wf(),
                cascades_to(start, self@, sucked@),
                remaining(self@) == remaining(start) - sucked@.len(),
                card_count(self@) == card_count(start),
                changed ==> remaining(self@) < remaining(pass_start),
                !changed ==> self@ == pass_start,
                !changed ==> forall|j: usize| j < i ==> !#[trigger] ready(self@, Source::Pile(j)),
                remaining(self@) <= remaining(pass_start),
            decreases NUM_PILES - i,
        {
            let pile = &self.tableau[i];
            if pile.len() > 0 {
                let c = pile[pile.len() - 1];
                if let Some(f) = self.destination_of(c) {
                    self.advance_recorded(Source::Pile(i), f, sucked, Ghost(start));
                    changed = true;
                }
            }
            i += 1;
        }
        changed
    }

    /// Runs the cascade resolver: scans every exposed card and the held card,
    /// advances each that a foundation takes, and repeats whole passes until a
    /// pass changes nothing. Returns the advanced cards in order. When no two
    /// ready cards ever compete, the fixpoint it reaches is the only one.
    pub fn suck_readies_into_receptacles(&mut self) -> (sucked: Vec<Card>)
        requires
            old(self).wf(),
        ensures
            final(self).wf(),
            resolves_to(old(self)@, final(self)@, sucked@),
            remaining(final(self)@) == remaining(old(self)@) - sucked@.len(),
            card_count(final(self)@) == card_count(old(self)@),
            board_cards(final(self)@) == board_cards(old(self)@),
            settled(old(self)@) ==> final(self)@ == old(self)@ && sucked@.len() == 0,
            uncontested_from(old(self)@) ==> forall|w: BoardView, cards: Seq<Card>|
                #[trigger] resolves_to(old(self)@, w, cards) ==> w == final(self)@,
    {
        let ghost start = self@;
        let mut sucked: Vec<Card> = Vec::new();
        proof {
            lemma_cascades_to_refl(start);
        }
        let mut changed = true;
        while changed
            invariant
                self.wf(),
                cascades_to(start, self@, sucked@),
                remaining(self@) == remaining(start) - sucked@.len(),
                card_count(self@) == card_count(start),
                !changed ==> settled(self@),
            decreases remaining(self@) + if changed { 1int } else { 0int },
        {
            let ghost pass_start = self@;
            changed = self.scan_tableau(&mut sucked, Ghost(start));
            let held = self.held_card;
            if let Some(c) = held {
                if let Some(f) = self.destination_of(c) {
                    self.advance_recorded(Source::Held, f, &mut sucked, Ghost(start));
                    changed = true;
                }
            }
            proof {
                lemma_total_nonneg(self@.tableau);
            }
            proof {
                if !changed {
                    assert forall|s: Source| !#[trigger] ready(self@, s) by {
                        if let Source::Pile(j) = s {
                            if j < NUM_PILES {
                                assert(!ready(self@, Source::Pile(j)));
                            }
                        }
                    }
                }
            }
        }
        proof {
            if settled(start) {
                lemma_cascade_from_settled(start, self@, sucked@);
            }
            lemma_cascade_counts(start, self@, sucked@);
            if uncontested_from(start) {
                assert forall|w: BoardView, cards: Seq<Card>| #[trigger] resolves_to(start, w, cards) implies w == self@ by {
                    lemma_cascade_confluent(start, w, cards, self@, sucked@);
                }
            }
        }
        sucked
    }
}

/// The empty run: every board cascades to itself moving nothing.
pub proof fn lemma_cascades_to_refl(v: BoardView)
    ensures
        cascades_to(v, v, Seq::empty()),
{
    reveal(cascades_to);
    let boards = seq![v];
    let srcs = Seq::<Source>::empty();
    assert(moved_cards(boards, srcs) =~= Seq::empty());
    assert(is_cascade(boards, srcs));
}

/// A cascade can be continued by one more advance.
pub proof fn lemma_cascades_to_extend(v: BoardView, w: BoardView, cards: Seq<Card>, s: Source)
    requires
        cascades_to(v, w, cards),
        ready(w, s),
    ensures
        cascades_to(v, advance(w, s), cards.push(exposed(w, s).unwrap())),
{
    reveal(cascades_to);
    let (boards, srcs) = choose|boards: Seq<BoardView>, srcs: Seq<Source>|
        {
            &&& is_cascade(boards, srcs)
            &&& boards[0] == v
            &&& boards.last() == w
            &&& moved_cards(boards, srcs) == cards
        };
    lemma_cascade_extend(boards, srcs, s);
    let b2 = boards.push(advance(w, s));
    assert(b2[0] == v);
}

/// Running the cascade resolver a second time changes nothing: from the
/// fixpoint it reached, every cascade is the empty one.
pub proof fn lemma_cascade_idempotent(
    v: BoardView,
    w: BoardView,
    cards: Seq<Card>,
    u: BoardView,
    again: Seq<Card>,
)
    requires
        resolves_to(v, w, cards),
        cascades_to(w, u, again),
    ensures
        u == w,
        again.len() == 0,
        resolves_to(w, u, again),
{
    lemma_cascade_from_settled(w, u, again);
}

/// A cascade keeps the board's shape and every card on it.
pub proof fn lemma_cascade_counts(v: BoardView, w: BoardView, cards: Seq<Card>)
    requires
        board_wf(v),
        cascades_to(v, w, cards),
    ensures
        board_wf(w),
        card_count(w) == card_count(v),
        remaining(w) == remaining(v) - cards.len(),
        board_cards(w) == board_cards(v),
{
    reveal(cascades_to);
    let (boards, srcs) = choose|boards: Seq<BoardView>, srcs: Seq<Source>|
        {
            &&& is_cascade(boards, srcs)
            &&& boards[0] == v
            &&& boards.last() == w
            &&& moved_cards(boards, srcs) == cards
        };
    lemma_run_counts(boards, srcs, srcs.len() as int);
}

/// Along a run of advances, the board at step `i` keeps the shape and cards of
/// the first and has `i` fewer cards in play.
pub proof fn lemma_run_counts(boards: Seq<BoardView>, srcs: Seq<Source>, i: int)
    requires
        is_cascade(boards, srcs),
        board_wf(boards[0]),
        0 <= i <= srcs.len(),
    ensures
        board_wf(boards[i]),
        card_count(boards[i]) == card_count(boards[0]),
        remaining(boards[i]) == remaining(boards[0]) - i,
        board_cards(boards[i]) == board_cards(boards[0]),
    decreases i,
{
    if i > 0 {
        lemma_run_counts(boards, srcs, i - 1);
        assert(ready(boards[i - 1], srcs[i - 1]));
        lemma_advance_counts(boards[i - 1], srcs[i - 1]);
        lemma_advance_cards(boards[i - 1], srcs[i - 1]);
    }
}

/// From a settled board the only cascade is the empty one.
pub proof fn lemma_cascade_from_settled(v: BoardView, w: BoardView, cards: Seq<Card>)
    requires
        settled(v),
        cascades_to(v, w, cards),
    ensures
        w == v,
        cards.len() == 0,
{
    reveal(cascades_to);
    let (boards, srcs) = choose|boards: Seq<BoardView>, srcs: Seq<Source>|
        {
            &&& is_cascade(boards, srcs)
            &&& boards[0] == v
            &&& boards.last() == w
            &&& moved_cards(boards, srcs) == cards
        };
    if srcs.len() > 0 {
        assert(ready(boards[0], srcs[0]));
        assert(!ready(v, srcs[0]));
    }
}

} // verus!
