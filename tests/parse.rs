use solsolver::board::Board;
use solsolver::card::{Card, MajorValue, MinorValue, Suit};
use solsolver::moves::MoveLocation;
use solsolver::parse::ParseError;

fn minor(suit: Suit, value: u8) -> Card {
    Card::Minor { suit, value: MinorValue(value) }
}

#[test]
fn card_tokens_parse() {
    assert_eq!(Card::parse(b"A_SWO"), Ok(minor(Suit::Sword, 1)));
    assert_eq!(Card::parse(b"10_WAN"), Ok(minor(Suit::Wand, 10)));
    assert_eq!(Card::parse(b"J_CUP"), Ok(minor(Suit::Cup, 11)));
    assert_eq!(Card::parse(b"Q_STA"), Ok(minor(Suit::Star, 12)));
    assert_eq!(Card::parse(b"K_SWO"), Ok(minor(Suit::Sword, 13)));
    assert_eq!(Card::parse(b"7_STA"), Ok(minor(Suit::Star, 7)));
    assert_eq!(Card::parse(b"0_MAJ"), Ok(Card::Major(MajorValue(0))));
    assert_eq!(Card::parse(b"21_MAJ"), Ok(Card::Major(MajorValue(21))));
    assert_eq!(Card::parse(b"07_MAJ"), Ok(Card::Major(MajorValue(7))));
}

#[test]
fn bad_card_tokens_are_named() {
    for bad in [&b"22_MAJ"[..], b"1_SWO", b"11_CUP", b"K_XYZ", b"KSWO", b"_SWO", b"A_", b"x_MAJ", b"", b"999_MAJ"] {
        assert_eq!(Card::parse(bad), Err(ParseError::UnknownCard { token: bad.to_vec() }));
    }
}

#[test]
fn rank_and_suit_parsers() {
    assert_eq!(Suit::parse(b"WAN"), Some(Suit::Wand));
    assert_eq!(Suit::parse(b"MAJ"), None);
    assert_eq!(MinorValue::parse(b"A"), Some(MinorValue(1)));
    assert_eq!(MinorValue::parse(b"10"), Some(MinorValue(10)));
    assert_eq!(MinorValue::parse(b"1"), None);
    assert_eq!(MajorValue::parse(b"13"), Some(MajorValue(13)));
    assert_eq!(MajorValue::parse(b"22"), None);
    assert_eq!(MajorValue::parse(b""), None);
}

#[test]
fn deal_fills_piles_in_order() {
    let text = "3_SWO,2_SWO\n\n  5_WAN,0_MAJ  \r\nK_CUP,\n";
    let b = Board::parse(text).unwrap();
    assert_eq!(b.tableau.len(), 11);
    assert_eq!(b.tableau[0], vec![minor(Suit::Sword, 3), minor(Suit::Sword, 2)]);
    assert_eq!(b.tableau[1], vec![minor(Suit::Wand, 5), Card::Major(MajorValue(0))]);
    assert_eq!(b.tableau[2], vec![minor(Suit::Cup, 13)]);
    assert!(b.tableau[3..].iter().all(|p| p.is_empty()));
    assert_eq!(b.suit_foundations[0], vec![minor(Suit::Sword, 1)]);
    assert_eq!(b.suit_foundations[3], vec![minor(Suit::Star, 1)]);
    assert!(b.trump_ascending.is_empty() && b.trump_descending.is_empty());
    assert_eq!(b.held_card, None);
}

#[test]
fn deal_errors() {
    assert_eq!(
        Board::parse("1_SWO\n2_SWO,4_NOPE,Q_XX\n").unwrap_err(),
        ParseError::UnknownCard { token: b"1_SWO".to_vec() }
    );
    assert_eq!(
        Board::parse("2_SWO\n3_SWO,4_NOPE,Q_XX\n").unwrap_err(),
        ParseError::UnknownCard { token: b"4_NOPE".to_vec() }
    );
    assert_eq!(
        Board::parse("2_SWO,,3_SWO").unwrap_err(),
        ParseError::UnknownCard { token: vec![] }
    );
    let twelve = "2_SWO\n".repeat(12);
    assert_eq!(Board::parse(&twelve).unwrap_err(), ParseError::TooManyPiles);
    let eleven = "2_SWO\n\n".repeat(11);
    assert!(Board::parse(&eleven).is_ok());
    assert!(Board::parse("").unwrap().is_done());
}

#[test]
fn parsed_deal_solves() {
    let mut b = Board::parse("2_SWO,5_WAN\n").unwrap();
    b.suck_readies_into_receptacles();
    let path = solsolver::search::solve(&b, 10).unwrap();
    assert_eq!(path.len(), 2);
}

#[test]
fn holding_the_five_solves_the_parsed_deal() {
    let mut b = Board::parse("2_SWO,5_WAN").unwrap();
    assert!(b.suck_readies_into_receptacles().is_empty());
    let next = b.next_boards();
    let hold = next
        .iter()
        .find(|(_, m)| m.from == MoveLocation::Pile { pile: 0, depth: 1 } && m.to == MoveLocation::HoldingSlot)
        .expect("holding the five is generated");
    assert_eq!(hold.1.card, minor(Suit::Wand, 5));
    assert_eq!(hold.1.num_sucks, 1);
    assert!(hold.0.is_done());
    assert_eq!(hold.0.held_card, Some(minor(Suit::Wand, 5)));
    let shift = next
        .iter()
        .find(|(_, m)| m.from == MoveLocation::Pile { pile: 0, depth: 1 } && m.to == MoveLocation::Pile { pile: 1, depth: 0 })
        .expect("moving the five to the empty pile is generated");
    assert!(!shift.0.is_done());
    assert_eq!(shift.0.tableau[1], vec![minor(Suit::Wand, 5)]);
}
