//! Reading a deal: card tokens `VALUE_SUIT` and the layout of piles, one
//! comma-separated line per pile, blank lines skipped.

use vstd::prelude::*;
use crate::card::{Card, MajorValue, MinorValue, Suit, LAST_MAJOR};
use vstd::string::StringSliceAdditionalSpecFns;
use crate::board::{Board, dealt_board, remaining, NUM_PILES};

verus! {

/// Why a deal could not be read.
#[derive(Debug, Clone, PartialEq, Eq)]
pub enum ParseError {
    /// A token that is not a card; it is given as it stood.
    UnknownCard { token: Vec<u8> },
    /// More than eleven non-blank lines.
    TooManyPiles,
    /// More cards in play than a machine word counts.
    TooManyCards,
}

/// Index of the first `b` in `s`, or its length when there is none.
pub open spec fn first_index(s: Seq<u8>, b: u8) -> int
    decreases s.len(),
{
    if s.len() == 0 {
        0
    } else if s[0] == b {
        0
    } else {
        1 + first_index(s.drop_first(), b)
    }
}

/// The pieces of `s` between occurrences of `b` (one piece when there is none).
pub open spec fn split_on(s: Seq<u8>, b: u8) -> Seq<Seq<u8>>
    decreases s.len(),
{
    let k = first_index(s, b);
    if k < 0 || k >= s.len() {
        seq![s]
    } else {
        seq![s.subrange(0, k)] + split_on(s.subrange(k + 1, s.len() as int), b)
    }
}

/// ASCII whitespace: space, tab, line feed, vertical tab, form feed, return.
pub open spec fn is_space(b: u8) -> bool {
    b == 32 || (9 <= b && b <= 13)
}

/// `s` without its leading whitespace.
pub open spec fn trim_start(s: Seq<u8>) -> Seq<u8>
    decreases s.len(),
{
    if s.len() > 0 && is_space(s[0]) {
        trim_start(s.drop_first())
    } else {
        s
    }
}

/// `s` without its trailing whitespace.
pub open spec fn trim_end(s: Seq<u8>) -> Seq<u8>
    decreases s.len(),
{
    if s.len() > 0 && is_space(s.last()) {
        trim_end(s.drop_last())
    } else {
        s
    }
}

/// `s` without whitespace at either end.
pub open spec fn trim(s: Seq<u8>) -> Seq<u8> {
    trim_end(trim_start(s))
}

/// The value of a string of decimal digits, if it is one.
pub open spec fn decimal(s: Seq<u8>) -> Option<nat>
    decreases s.len(),
{
    if s.len() == 0 {
        None
    } else if !(48 <= s.last() && s.last() <= 57) {
        None
    } else if s.len() == 1 {
        Some((s.last() - 48) as nat)
    } else {
        match decimal(s.drop_last()) {
            Some(v) => Some(v * 10 + (s.last() - 48) as nat),
            None => None,
        }
    }
}

/// The suit that a three-letter code names.
pub open spec fn suit_of_code(s: Seq<u8>) -> Option<Suit> {
    if s == seq![83u8, 87u8, 79u8] {
        Some(Suit::Sword)
    } else if s == seq![87u8, 65u8, 78u8] {
        Some(Suit::Wand)
    } else if s == seq![67u8, 85u8, 80u8] {
        Some(Suit::Cup)
    } else if s == seq![83u8, 84u8, 65u8] {
        Some(Suit::Star)
    } else {
        None
    }
}

/// The code of the trumps, `MAJ`.
pub open spec fn major_code() -> Seq<u8> {
    seq![77u8, 65u8, 74u8]
}

/// A minor rank: `A`, `2` to `10`, `J`, `Q` or `K`.
pub open spec fn minor_of_text(s: Seq<u8>) -> Option<u8> {
    if s == seq![65u8] {
        Some(1)
    } else if s.len() == 1 && 50 <= s[0] <= 57 {
        Some((s[0] - 48) as u8)
    } else if s == seq![49u8, 48u8] {
        Some(10)
    } else if s == seq![74u8] {
        Some(11)
    } else if s == seq![81u8] {
        Some(12)
    } else if s == seq![75u8] {
        Some(13)
    } else {
        None
    }
}

/// A major rank: decimal digits worth 0 to 21.
pub open spec fn major_of_text(s: Seq<u8>) -> Option<u8> {
    match decimal(s) {
        Some(v) => if v <= LAST_MAJOR {
            Some(v as u8)
        } else {
            None
        },
        None => None,
    }
}

/// The card a token `VALUE_SUIT` names: the value is what stands before the
/// first underscore, the suit code what stands after it.
pub open spec fn card_of_token(t: Seq<u8>) -> Option<Card> {
    let k = first_index(t, 95u8);
    if k >= t.len() {
        None
    } else {
        let value = t.subrange(0, k);
        let code = t.subrange(k + 1, t.len() as int);
        if code == major_code() {
            match major_of_text(value) {
                Some(v) => Some(Card::Major(MajorValue(v))),
                None => None,
            }
        } else {
            match (suit_of_code(code), minor_of_text(value)) {
                (Some(suit), Some(v)) => Some(Card::Minor { suit, value: MinorValue(v) }),
                _ => None,
            }
        }
    }
}

/// Whether `s[lo..hi]` equals the given bytes.
fn range_is(s: &[u8], lo: usize, hi: usize, want: &[u8]) -> (r: bool)
    requires
        lo <= hi <= s@.len(),
    ensures
        r == (s@.subrange(lo as int, hi as int) == want@),
{
    if hi - lo != want.len() {
        return false;
    }
    let mut i: usize = 0;
    while i < want.len()
        invariant
            i <= want@.len(),
            hi - lo == want@.len(),
            lo <= hi <= s@.len(),
            forall|j: int| 0 <= j < i ==> s@[lo + j] == want@[j],
        decreases want@.len() - i,
    {
        if s[lo + i] != want[i] {
            assert(s@.subrange(lo as int, hi as int)[i as int] != want@[i as int]);
            return false;
        }
        i += 1;
    }
    assert(s@.subrange(lo as int, hi as int) =~= want@);
    true
}

/// The first index in `from..to` holding `b`, or `to`.
fn find_byte(s: &[u8], from: usize, to: usize, b: u8) -> (k: usize)
    requires
        from <= to <= s@.len(),
    ensures
        from <= k <= to,
        k - from == first_index(s@.subrange(from as int, to as int), b),
{
    let mut k = from;
    while k < to && s[k] != b
        invariant
            from <= k <= to <= s@.len(),
            forall|j: int| from <= j < k ==> s@[j] != b,
        decreases to - k,
    {
        k += 1;
    }
    proof {
        lemma_first_index(s@.subrange(from as int, to as int), b, k - from);
    }
    k
}

/// `first_index` is the position of the first `b`, or the length.
pub proof fn lemma_first_index(s: Seq<u8>, b: u8, k: int)
    requires
        0 <= k <= s.len(),
        forall|j: int| 0 <= j < k ==> s[j] != b,
        k == s.len() || s[k] == b,
    ensures
        first_index(s, b) == k,
    decreases k,
{
    if k > 0 {
        lemma_first_index(s.drop_first(), b, k - 1);
    }
}


/// The tokens of a line: the pieces between commas, where a last empty
/// piece (after a final comma) is no token.
pub open spec fn tokens_of(line: Seq<u8>) -> Seq<Seq<u8>> {
    let parts = split_on(line, 44u8);
    if parts.len() > 0 && parts.last().len() == 0 {
        parts.drop_last()
    } else {
        parts
    }
}

/// The cards the tokens name, or the first token that names none.
pub open spec fn cards_of(ts: Seq<Seq<u8>>) -> Result<Seq<Card>, Seq<u8>>
    decreases ts.len(),
{
    if ts.len() == 0 {
        Ok(Seq::empty())
    } else {
        match cards_of(ts.drop_last()) {
            Err(t) => Err(t),
            Ok(cs) => match card_of_token(ts.last()) {
                Some(c) => Ok(cs.push(c)),
                None => Err(ts.last()),
            },
        }
    }
}

/// The piles that the lines describe: each non-blank line (once trimmed) is
/// the next pile, its cards from bottom to exposed top. Fails with the first
/// bad token (`Some`), or with `None` at a twelfth pile.
pub open spec fn piles_of(lines: Seq<Seq<u8>>) -> Result<Seq<Seq<Card>>, Option<Seq<u8>>>
    decreases lines.len(),
{
    if lines.len() == 0 {
        Ok(Seq::empty())
    } else {
        match piles_of(lines.drop_last()) {
            Err(e) => Err(e),
            Ok(ps) => {
                let l = trim(lines.last());
                if l.len() == 0 {
                    Ok(ps)
                } else if ps.len() >= NUM_PILES {
                    Err(None)
                } else {
                    match cards_of(tokens_of(l)) {
                        Ok(cs) => Ok(ps.push(cs)),
                        Err(t) => Err(Some(t)),
                    }
                }
            },
        }
    }
}

/// The piles of a whole deal, its lines separated by line feeds.
pub open spec fn layout_of(text: Seq<u8>) -> Result<Seq<Seq<Card>>, Option<Seq<u8>>> {
    piles_of(split_on(text, 10u8))
}

/// The deal reads as piles whose dealt board is `v`.
pub open spec fn layout_gives(text: Seq<u8>, v: crate::board::BoardView) -> bool {
    match layout_of(text) {
        Ok(piles) => v == dealt_board(piles),
        Err(_) => false,
    }
}

/// The deal reads as piles with more cards than a machine word counts.
pub open spec fn layout_overflows(text: Seq<u8>) -> bool {
    match layout_of(text) {
        Ok(piles) => remaining(dealt_board(piles)) > usize::MAX,
        Err(_) => false,
    }
}

/// A failed prefix of tokens fails the whole line the same way.
pub proof fn lemma_cards_of_err(ts: Seq<Seq<u8>>, more: Seq<Seq<u8>>)
    requires
        cards_of(ts) is Err,
    ensures
        cards_of(ts + more) == cards_of(ts),
    decreases more.len(),
{
    if more.len() > 0 {
        lemma_cards_of_err(ts, more.drop_last());
        assert((ts + more).drop_last() =~= ts + more.drop_last());
    } else {
        assert(ts + more =~= ts);
    }
}

/// A failed prefix of lines fails the whole deal the same way.
pub proof fn lemma_piles_of_err(ls: Seq<Seq<u8>>, more: Seq<Seq<u8>>)
    requires
        piles_of(ls) is Err,
    ensures
        piles_of(ls + more) == piles_of(ls),
    decreases more.len(),
{
    if more.len() > 0 {
        lemma_piles_of_err(ls, more.drop_last());
        assert((ls + more).drop_last() =~= ls + more.drop_last());
    } else {
        assert(ls + more =~= ls);
    }
}

/// The first piece of a split, and the split of what follows it.
pub proof fn lemma_split_step(s: Seq<u8>, b: u8, lo: int, k: int, hi: int)
    requires
        0 <= lo <= k <= hi <= s.len(),
        k - lo == first_index(s.subrange(lo, hi), b),
    ensures
        k < hi ==> split_on(s.subrange(lo, hi), b) == seq![s.subrange(lo, k)] + split_on(
            s.subrange(k + 1, hi),
            b,
        ),
        k == hi ==> split_on(s.subrange(lo, hi), b) == seq![s.subrange(lo, hi)],
{
    let t = s.subrange(lo, hi);
    if k < hi {
        assert(t.subrange(0, k - lo) =~= s.subrange(lo, k));
        assert(t.subrange(k - lo + 1, t.len() as int) =~= s.subrange(k + 1, hi));
    }
}

/// A copy of `s[lo..hi]`.
fn bytes_of(s: &[u8], lo: usize, hi: usize) -> (r: Vec<u8>)
    requires
        lo <= hi <= s@.len(),
    ensures
        r@ == s@.subrange(lo as int, hi as int),
{
    let mut r: Vec<u8> = Vec::new();
    let mut i = lo;
    while i < hi
        invariant
            lo <= i <= hi <= s@.len(),
            r@ == s@.subrange(lo as int, i as int),
        decreases hi - i,
    {
        r.push(s[i]);
        i += 1;
        assert(r@ =~= s@.subrange(lo as int, i as int));
    }
    r
}

/// The suit that the code `s[lo..hi]` names.
fn suit_in(s: &[u8], lo: usize, hi: usize) -> (r: Option<Suit>)
    requires
        lo <= hi <= s@.len(),
    ensures
        r == suit_of_code(s@.subrange(lo as int, hi as int)),
{
    if range_is(s, lo, hi, vec![83u8, 87u8, 79u8].as_slice()) {
        Some(Suit::Sword)
    } else if range_is(s, lo, hi, vec![87u8, 65u8, 78u8].as_slice()) {
        Some(Suit::Wand)
    } else if range_is(s, lo, hi, vec![67u8, 85u8, 80u8].as_slice()) {
        Some(Suit::Cup)
    } else if range_is(s, lo, hi, vec![83u8, 84u8, 65u8].as_slice()) {
        Some(Suit::Star)
    } else {
        None
    }
}

/// The minor rank that `s[lo..hi]` names.
fn minor_in(s: &[u8], lo: usize, hi: usize) -> (r: Option<u8>)
    requires
        lo <= hi <= s@.len(),
    ensures
        r == minor_of_text(s@.subrange(lo as int, hi as int)),
{
    let ghost t = s@.subrange(lo as int, hi as int);
    if hi - lo == 1 {
        let b = s[lo];
        assert(t =~= seq![b]);
        if b == 65 {
            Some(1)
        } else if 50 <= b && b <= 57 {
            Some(b - 48)
        } else if b == 74 {
            Some(11)
        } else if b == 81 {
            Some(12)
        } else if b == 75 {
            Some(13)
        } else {
            assert(t != seq![49u8, 48u8]);
            None
        }
    } else if hi - lo == 2 && s[lo] == 49 && s[lo + 1] == 48 {
        assert(t =~= seq![49u8, 48u8]);
        Some(10)
    } else {
        proof {
            if hi - lo == 2 {
                assert(t[0] == s@[lo as int] && t[1] == s@[lo + 1]);
            }
            assert(t.len() != 1);
            assert(t != seq![65u8]);
            assert(t != seq![74u8]);
            assert(t != seq![81u8]);
            assert(t != seq![75u8]);
            assert(t != seq![49u8, 48u8]);
        }
        None
    }
}

/// A longer string of digits is worth at least as much as its prefix.
pub proof fn lemma_decimal_grows(s: Seq<u8>, i: int, j: int)
    requires
        1 <= i <= j <= s.len(),
        decimal(s.subrange(0, i)) is Some,
        decimal(s.subrange(0, j)) is Some,
    ensures
        decimal(s.subrange(0, i)).unwrap() <= decimal(s.subrange(0, j)).unwrap(),
    decreases j - i,
{
    if i < j {
        assert(s.subrange(0, j).drop_last() =~= s.subrange(0, j - 1));
        lemma_decimal_grows(s, i, j - 1);
    }
}

/// The major rank that `s[lo..hi]` names.
fn major_in(s: &[u8], lo: usize, hi: usize) -> (r: Option<u8>)
    requires
        lo <= hi <= s@.len(),
    ensures
        r == major_of_text(s@.subrange(lo as int, hi as int)),
{
    let ghost t = s@.subrange(lo as int, hi as int);
    if lo == hi {
        return None;
    }
    let mut value: u8 = 0;
    let mut i = lo;
    while i < hi
        invariant
            lo <= i <= hi <= s@.len(),
            t == s@.subrange(lo as int, hi as int),
            value <= LAST_MAJOR,
            i > lo ==> decimal(t.subrange(0, i - lo)) == Some(value as nat),
            i == lo ==> value == 0,
        decreases hi - i,
    {
        let b = s[i];
        proof {
            assert(t.subrange(0, i - lo + 1).drop_last() =~= t.subrange(0, i - lo));
            assert(t.subrange(0, i - lo + 1).last() == b);
        }
        if b < 48 || b > 57 {
            proof {
                assert(decimal(t.subrange(0, i - lo + 1)) is None);
                lemma_decimal_none_extends(t, i - lo + 1, t.len() as int);
                assert(t.subrange(0, t.len() as int) =~= t);
            }
            return None;
        }
        let next = value as u16 * 10 + (b - 48) as u16;
        if next > LAST_MAJOR as u16 {
            proof {
                assert(decimal(t.subrange(0, i - lo + 1)) == Some(next as nat));
                assert(t.subrange(0, t.len() as int) =~= t);
                if decimal(t) is Some {
                    lemma_decimal_grows(t, i - lo + 1, t.len() as int);
                }
            }
            return None;
        }
        value = next as u8;
        i += 1;
    }
    assert(t.subrange(0, hi - lo) =~= t);
    Some(value)
}

/// A prefix that is not all digits spoils every longer prefix.
pub proof fn lemma_decimal_none_extends(s: Seq<u8>, i: int, j: int)
    requires
        1 <= i <= j <= s.len(),
        decimal(s.subrange(0, i)) is None,
    ensures
        decimal(s.subrange(0, j)) is None,
    decreases j - i,
{
    if i < j {
        lemma_decimal_none_extends(s, i, j - 1);
        assert(s.subrange(0, j).drop_last() =~= s.subrange(0, j - 1));
    }
    if j == s.len() {
        assert(s.subrange(0, j) =~= s);
    }
}

/// The card that the token `s[lo..hi]` names.
fn card_in(s: &[u8], lo: usize, hi: usize) -> (r: Option<Card>)
    requires
        lo <= hi <= s@.len(),
    ensures
        r == card_of_token(s@.subrange(lo as int, hi as int)),
{
    let ghost t = s@.subrange(lo as int, hi as int);
    let k = find_byte(s, lo, hi, 95u8);
    if k == hi {
        return None;
    }
    assert(t.subrange(0, k - lo) =~= s@.subrange(lo as int, k as int));
    assert(t.subrange(k - lo + 1, t.len() as int) =~= s@.subrange(k + 1, hi as int));
    if range_is(s, k + 1, hi, vec![77u8, 65u8, 74u8].as_slice()) {
        match major_in(s, lo, k) {
            Some(v) => Some(Card::Major(MajorValue(v))),
            None => None,
        }
    } else {
        match (suit_in(s, k + 1, hi), minor_in(s, lo, k)) {
            (Some(suit), Some(v)) => Some(Card::Minor { suit, value: MinorValue(v) }),
            _ => None,
        }
    }
}

impl Suit {
    /// The suit that a code names: `SWO`, `WAN`, `CUP` or `STA`.
    pub fn parse(s: &[u8]) -> (r: Option<Suit>)
        ensures
            r == suit_of_code(s@),
    {
        assert(s@.subrange(0, s@.len() as int) =~= s@);
        suit_in(s, 0, s.len())
    }
}

impl MinorValue {
    /// The minor rank that `A`, `2` to `10`, `J`, `Q` or `K` names.
    pub fn parse(s: &[u8]) -> (r: Option<MinorValue>)
        ensures
            r == (match minor_of_text(s@) {
                Some(v) => Some(MinorValue(v)),
                None => None,
            }),
    {
        assert(s@.subrange(0, s@.len() as int) =~= s@);
        match minor_in(s, 0, s.len()) {
            Some(v) => Some(MinorValue(v)),
            None => None,
        }
    }
}

impl MajorValue {
    /// The major rank that a decimal number from 0 to 21 names.
    pub fn parse(s: &[u8]) -> (r: Option<MajorValue>)
        ensures
            r == (match major_of_text(s@) {
                Some(v) => Some(MajorValue(v)),
                None => None,
            }),
    {
        assert(s@.subrange(0, s@.len() as int) =~= s@);
        match major_in(s, 0, s.len()) {
            Some(v) => Some(MajorValue(v)),
            None => None,
        }
    }
}

impl Card {
    /// The card that a token `VALUE_SUIT` names; an error naming the token
    /// when it names none.
    pub fn parse(token: &[u8]) -> (r: Result<Card, ParseError>)
        ensures
            r matches Ok(c) ==> card_of_token(token@) == Some(c),
            r matches Err(e) ==> card_of_token(token@) is None && e == (ParseError::UnknownCard {
                token: e->token,
            }) && e->token@ == token@,
    {
        assert(token@.subrange(0, token@.len() as int) =~= token@);
        match card_in(token, 0, token.len()) {
            Some(c) => Ok(c),
            None => Err(ParseError::UnknownCard { token: bytes_of(token, 0, token.len()) }),
        }
    }
}

/// Whether a byte is ASCII whitespace.
fn space_byte(b: u8) -> (r: bool)
    ensures
        r == is_space(b),
{
    b == 32 || (9 <= b && b <= 13)
}

/// The bounds of `s[lo..hi]` without whitespace at either end.
fn trim_range(s: &[u8], lo: usize, hi: usize) -> (r: (usize, usize))
    requires
        lo <= hi <= s@.len(),
    ensures
        lo <= r.0 <= r.1 <= hi,
        trim(s@.subrange(lo as int, hi as int)) == s@.subrange(r.0 as int, r.1 as int),
{
    let mut a = lo;
    while a < hi && space_byte(s[a])
        invariant
            lo <= a <= hi <= s@.len(),
            trim_start(s@.subrange(lo as int, hi as int)) == trim_start(s@.subrange(a as int, hi as int)),
        decreases hi - a,
    {
        assert(s@.subrange(a as int, hi as int).drop_first() =~= s@.subrange(a + 1, hi as int));
        a += 1;
    }
    let mut b = hi;
    while b > a && space_byte(s[b - 1])
        invariant
            lo <= a <= b <= hi <= s@.len(),
            trim_start(s@.subrange(lo as int, hi as int)) == s@.subrange(a as int, hi as int),
            trim_end(s@.subrange(a as int, hi as int)) == trim_end(s@.subrange(a as int, b as int)),
        decreases b - a,
    {
        assert(s@.subrange(a as int, b as int).drop_last() =~= s@.subrange(a as int, b - 1));
        b -= 1;
    }
    (a, b)
}

/// The cards of the line `s[lo..hi]`, or an error naming its first bad token.
fn parse_line(s: &[u8], lo: usize, hi: usize) -> (r: Result<Vec<Card>, ParseError>)
    requires
        lo <= hi <= s@.len(),
    ensures
        r matches Ok(cs) ==> cards_of(tokens_of(s@.subrange(lo as int, hi as int))) == Ok::<Seq<Card>, Seq<u8>>(cs@),
        r matches Err(e) ==> e is UnknownCard && cards_of(tokens_of(s@.subrange(lo as int, hi as int))) == Err::<Seq<Card>, Seq<u8>>(e->token@),
{
    let ghost line = s@.subrange(lo as int, hi as int);
    let ghost mut done: Seq<Seq<u8>> = Seq::empty();
    let mut cards: Vec<Card> = Vec::new();
    let mut start = lo;
    assert(line.subrange(0, line.len() as int) =~= line);
    loop
        invariant
            lo <= start <= hi <= s@.len(),
            line == s@.subrange(lo as int, hi as int),
            split_on(line, 44u8) == done + split_on(s@.subrange(start as int, hi as int), 44u8),
            cards_of(done) == Ok::<Seq<Card>, Seq<u8>>(cards@),
        decreases hi - start,
    {
        let k = find_byte(s, start, hi, 44u8);
        proof {
            lemma_split_step(s@, 44u8, start as int, k as int, hi as int);
        }
        let ghost piece = s@.subrange(start as int, k as int);
        if k == hi && start == hi {
            proof {
                assert(split_on(line, 44u8) == done.push(piece));
                assert(piece.len() == 0);
                assert(split_on(line, 44u8).drop_last() =~= done);
            }
            return Ok(cards);
        }
        proof {
            assert(done.push(piece).drop_last() =~= done);
        }
        match card_in(s, start, k) {
            Some(c) => {
                cards.push(c);
            },
            None => {
                proof {
                    let rest = split_on(s@.subrange(start as int, hi as int), 44u8);
                    assert(done + rest =~= done.push(piece) + rest.drop_first());
                    let toks = tokens_of(line);
                    if k < hi {
                        let tail = split_on(s@.subrange(k + 1, hi as int), 44u8);
                        assert(split_on(line, 44u8) =~= done.push(piece) + tail);
                        if tail.last().len() == 0 {
                            assert(toks =~= done.push(piece) + tail.drop_last());
                        } else {
                            assert(toks =~= done.push(piece) + tail);
                        }
                        lemma_cards_of_err(done.push(piece), toks.subrange(done.len() as int + 1, toks.len() as int));
                        assert(toks =~= done.push(piece) + toks.subrange(done.len() as int + 1, toks.len() as int));
                    } else {
                        assert(split_on(line, 44u8) =~= done.push(piece));
                        assert(toks =~= done.push(piece));
                    }
                }
                return Err(ParseError::UnknownCard { token: bytes_of(s, start, k) });
            },
        }
        proof {
            done = done.push(piece);
        }
        if k == hi {
            proof {
                assert(split_on(line, 44u8) =~= done);
                assert(tokens_of(line) == done);
            }
            return Ok(cards);
        }
        start = k + 1;
    }
}

impl Board {
    /// Reads a deal: each non-blank line, trimmed, is the next tableau pile,
    /// a comma-separated list of card tokens from the bottom card to the
    /// exposed one. Fails on the first token that is not a card, at a
    /// twelfth pile, or when the cards cannot be counted in a machine word.
    pub fn parse(text: &str) -> (r: Result<Board, ParseError>)
        ensures
            r matches Ok(b) ==> b.wf() && layout_gives(text.spec_bytes(), b@),
            r matches Err(e) ==> match e {
                ParseError::UnknownCard { token } => layout_of(text.spec_bytes()) == Err::<
                    Seq<Seq<Card>>,
                    Option<Seq<u8>>,
                >(Some(token@)),
                ParseError::TooManyPiles => layout_of(text.spec_bytes()) == Err::<
                    Seq<Seq<Card>>,
                    Option<Seq<u8>>,
                >(None),
                ParseError::TooManyCards => layout_overflows(text.spec_bytes()),
            },
    {
        let s = text.as_bytes();
        let ghost lines = split_on(s@, 10u8);
        let ghost mut done: Seq<Seq<u8>> = Seq::empty();
        let mut piles: Vec<Vec<Card>> = Vec::new();
        let mut start: usize = 0;
        assert(s@.subrange(0, s@.len() as int) =~= s@);
        assert(piles@.map_values(|p: Vec<Card>| p@) =~= Seq::<Seq<Card>>::empty());
        loop
            invariant_except_break
                lines == done + split_on(s@.subrange(start as int, s@.len() as int), 10u8),
            invariant
                start <= s@.len(),
                s@ == text.spec_bytes(),
                piles@.len() <= NUM_PILES,
                lines == split_on(s@, 10u8),
                piles_of(done) == Ok::<Seq<Seq<Card>>, Option<Seq<u8>>>(piles@.map_values(|p: Vec<Card>| p@)),
            ensures
                lines == done,
            decreases s@.len() - start,
        {
            let k = find_byte(s, start, s.len(), 10u8);
            proof {
                lemma_split_step(s@, 10u8, start as int, k as int, s@.len() as int);
            }
            let ghost line = s@.subrange(start as int, k as int);
            let ghost rest = if k < s@.len() { split_on(s@.subrange(k + 1, s@.len() as int), 10u8) } else { Seq::empty() };
            assert(lines =~= done.push(line) + rest);
            assert(done.push(line).drop_last() =~= done);
            let (a, b) = trim_range(s, start, k);
            assert(done.push(line).last() == line);
            if a < b {
                if piles.len() >= NUM_PILES {
                    proof {
                        assert(piles_of(done.push(line)) == Err::<Seq<Seq<Card>>, Option<Seq<u8>>>(None));
                        lemma_piles_of_err(done.push(line), rest);
                    }
                    return Err(ParseError::TooManyPiles);
                }
                match parse_line(s, a, b) {
                    Ok(cards) => {
                        let ghost before = piles@;
                        piles.push(cards);
                        assert(piles@.map_values(|p: Vec<Card>| p@) =~= before.map_values(|p: Vec<Card>| p@).push(cards@));
                    },
                    Err(e) => {
                        proof {
                            assert(piles_of(done.push(line)) == Err::<Seq<Seq<Card>>, Option<Seq<u8>>>(Some(e->token@)));
                            lemma_piles_of_err(done.push(line), rest);
                        }
                        return Err(e);
                    },
                }
            }
            proof {
                done = done.push(line);
            }
            if k == s.len() {
                assert(lines =~= done);
                break;
            }
            start = k + 1;
        }
        match Board::from_piles(&piles) {
            Some(b) => Ok(b),
            None => Err(ParseError::TooManyCards),
        }
    }
}
} // verus!
