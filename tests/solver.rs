use solsolver::board::{Board, TerminalPolicy};
use solsolver::card::{Card, MajorValue, MinorValue, Suit};
use solsolver::moves::{Move, MoveLocation};
use solsolver::search::{extend_history, is_stagnant, path_moves, select_shortest, solve, solve_under, SearchNode};

fn minor(suit: Suit, value: u8) -> Card {
    Card::Minor { suit, value: MinorValue(value) }
}

fn major(value: u8) -> Card {
    Card::Major(MajorValue(value))
}

fn swords(value: u8) -> Card {
    minor(Suit::Sword, value)
}

fn deal(piles: Vec<Vec<Card>>) -> Board {
    Board::from_piles(&piles).expect("a deal of at most eleven piles")
}

fn card_total(b: &Board) -> usize {
    b.tableau.iter().map(|p| p.len()).sum::<usize>()
        + b.trump_ascending.len()
        + b.trump_descending.len()
        + b.suit_foundations.iter().map(|p| p.len()).sum::<usize>()
        + if b.held_card.is_some() { 1 } else { 0 }
}

#[test]
fn pure_cascade_clears_the_deal() {
    let mut b = deal(vec![vec![swords(3), swords(2)]]);
    let sucked = b.suck_readies_into_receptacles();
    assert_eq!(sucked, vec![swords(2), swords(3)]);
    assert!(b.is_done());
    assert_eq!(b.suit_foundations[0], vec![swords(1), swords(2), swords(3)]);
    let path = solve(&b, 5).expect("already solved");
    assert_eq!(path.len(), 1);
    assert!(path_moves(&path).is_empty());
}

#[test]
fn cascade_crosses_piles_in_one_call() {
    let mut b = deal(vec![vec![swords(3)], vec![swords(2)]]);
    let sucked = b.suck_readies_into_receptacles();
    assert_eq!(sucked, vec![swords(2), swords(3)]);
    assert!(b.is_done());
    assert_eq!(b.num_cards_remaining(), 0);
}

#[test]
fn one_manual_move_solves() {
    let wands5 = minor(Suit::Wand, 5);
    let mut b = deal(vec![vec![swords(2), wands5]]);
    let sucked = b.suck_readies_into_receptacles();
    assert!(sucked.is_empty());
    assert!(!b.is_done());
    let next = b.next_boards();
    let shift = next
        .iter()
        .find(|(_, m)| {
            m.from == MoveLocation::Pile { pile: 0, depth: 1 }
                && m.to == MoveLocation::Pile { pile: 1, depth: 0 }
        })
        .expect("moving the five onto the empty pile is generated");
    assert_eq!(shift.1.card, wands5);
    assert_eq!(shift.1.num_sucks, 1);
    // the five stays behind on pile 1, so this branch is not yet solved
    assert!(!shift.0.is_done());
    assert_eq!(shift.0.tableau[1], vec![wands5]);
    for window in [5, 10, 15, 0] {
        let path = solve(&b, window).expect("solvable in one move");
        assert_eq!(path.len(), 2);
        assert!(path[1].board.is_done());
        let moves = path_moves(&path);
        assert_eq!(moves.len(), 1);
        assert_eq!(moves[0].card, wands5);
        assert_eq!(moves[0].num_sucks, 1);
        assert_eq!(moves[0].to, MoveLocation::HoldingSlot);
        assert_eq!(path[1].board.held_card, Some(wands5));
    }
}

#[test]
fn terminal_ignores_the_holding_slot() {
    let mut b = deal(vec![]);
    b.held_card = Some(minor(Suit::Cup, 7));
    assert!(b.is_done());
    assert_eq!(b.num_cards_remaining(), 1);
}

#[test]
fn cascade_is_idempotent() {
    let mut b = deal(vec![
        vec![swords(4), swords(2)],
        vec![major(1), major(0)],
        vec![swords(3), major(21)],
    ]);
    let first = b.suck_readies_into_receptacles();
    assert_eq!(first.len(), 6);
    let snapshot = b.duplicate();
    let second = b.suck_readies_into_receptacles();
    assert!(second.is_empty());
    assert!(b.same_position(&snapshot));
}

#[test]
fn cascade_result_does_not_depend_on_pile_order() {
    let piles = vec![vec![swords(3)], vec![swords(2)], vec![major(0)], vec![major(1)]];
    let mut reversed = piles.clone();
    reversed.reverse();
    let mut a = deal(piles);
    let mut b = deal(reversed);
    a.suck_readies_into_receptacles();
    b.suck_readies_into_receptacles();
    assert_eq!(a.suit_foundations, b.suit_foundations);
    assert_eq!(a.trump_ascending, b.trump_ascending);
    assert_eq!(a.trump_descending, b.trump_descending);
    assert!(a.is_done() && b.is_done());
}

#[test]
fn adjacency_is_symmetric() {
    let cards = [swords(2), swords(3), minor(Suit::Cup, 3), major(0), major(1), major(21)];
    for a in cards {
        for b in cards {
            assert_eq!(a.is_next_card(b), b.is_prev_card(a));
            assert_eq!(a.is_next_or_prev(b), b.is_next_or_prev(a));
        }
    }
    assert!(swords(2).is_next_card(swords(3)));
    assert!(!swords(2).is_next_card(minor(Suit::Cup, 3)));
    assert!(major(1).is_prev_card(major(0)));
    assert!(!major(0).is_next_card(swords(1)));
}

#[test]
fn generated_moves_are_legal() {
    let b = deal(vec![
        vec![swords(5), minor(Suit::Star, 9)],
        vec![swords(8)],
        vec![],
        vec![minor(Suit::Star, 10), major(7)],
        vec![major(6)],
    ]);
    let next = b.next_boards();
    assert!(!next.is_empty());
    for (after, m) in &next {
        if let MoveLocation::Pile { pile, depth } = m.from {
            assert!(!b.tableau[pile].is_empty());
            assert_eq!(depth, b.tableau[pile].len() - 1);
            assert_eq!(m.card, *b.tableau[pile].last().unwrap());
            if let MoveLocation::Pile { pile: dst, .. } = m.to {
                assert_ne!(pile, dst);
            }
        }
        assert_eq!(card_total(after), card_total(&b));
    }
    // a lone card never moves to an empty pile, and a card is never held from a singleton
    assert!(!next.iter().any(|(_, m)| m.from == MoveLocation::Pile { pile: 1, depth: 0 }
        && m.to == MoveLocation::Pile { pile: 2, depth: 0 }));
    assert!(!next.iter().any(|(_, m)| m.from == MoveLocation::Pile { pile: 1, depth: 0 }
        && m.to == MoveLocation::HoldingSlot));
    // the seven of trumps may land on the six
    assert!(next.iter().any(|(_, m)| m.from == MoveLocation::Pile { pile: 3, depth: 1 }
        && m.to == MoveLocation::Pile { pile: 4, depth: 1 }));
}

#[test]
fn release_moves_need_a_held_card() {
    let mut b = deal(vec![vec![swords(9), swords(6)], vec![swords(7)]]);
    b.held_card = Some(major(12));
    let next = b.next_boards();
    assert!(next.iter().all(|(_, m)| m.to != MoveLocation::HoldingSlot));
    let releases: Vec<&Move> = next
        .iter()
        .map(|(_, m)| m)
        .filter(|m| m.from == MoveLocation::HoldingSlot)
        .collect();
    // only the nine empty piles take the twelve of trumps
    assert_eq!(releases.len(), 9);
}

#[test]
fn conservation_along_a_solution() {
    let mut b = deal(vec![
        vec![swords(2), minor(Suit::Wand, 3)],
        vec![minor(Suit::Wand, 2), swords(3)],
        vec![major(1), major(0)],
    ]);
    let initial = card_total(&b);
    b.suck_readies_into_receptacles();
    assert_eq!(card_total(&b), initial);
    let path = solve(&b, 0).expect("solvable");
    for node in &path {
        assert_eq!(card_total(&node.board), initial);
    }
    assert!(path.last().unwrap().board.is_done());
}

#[test]
fn stagnation_prunes_a_quiet_window() {
    let quiet = Move {
        from: MoveLocation::Pile { pile: 0, depth: 1 },
        to: MoveLocation::Pile { pile: 1, depth: 0 },
        card: swords(5),
        num_sucks: 0,
    };
    let busy = Move { num_sucks: 2, ..quiet };
    let history = vec![quiet; 5];
    assert!(is_stagnant(&history, 5));
    assert!(!is_stagnant(&history, 0));
    assert!(!is_stagnant(&history, 6));
    let mut mixed = history.clone();
    mixed[4] = busy;
    assert!(!is_stagnant(&mixed, 5));
    assert!(is_stagnant(&mixed, 4));
    let mut b = deal(vec![vec![swords(9), swords(8)], vec![swords(7)]]);
    b.suck_readies_into_receptacles();
    let node = SearchNode { board: b, history, last_move: Some(quiet) };
    assert!(node.successors(5).is_empty());
    assert!(!node.successors(0).is_empty());
}

#[test]
fn race_picks_the_shortest_success() {
    let results: Vec<Option<Vec<u32>>> =
        vec![Some(vec![1, 2, 3, 4, 5]), None, Some(vec![7, 8, 9]), Some(vec![4, 5, 6])];
    assert_eq!(select_shortest(results), Some(vec![7, 8, 9]));
    let none: Vec<Option<Vec<u32>>> = vec![None, None];
    assert_eq!(select_shortest(none), None);
    assert_eq!(select_shortest::<u32>(vec![]), None);
}

#[test]
fn too_many_piles_are_refused() {
    let piles: Vec<Vec<Card>> = (0..12).map(|_| vec![swords(5)]).collect();
    assert!(Board::from_piles(&piles).is_none());
    let eleven: Vec<Vec<Card>> = (0..11).map(|_| vec![swords(5)]).collect();
    let b = Board::from_piles(&eleven).unwrap();
    assert_eq!(b.tableau.len(), 11);
    assert_eq!(b.suit_foundations.len(), 4);
    assert!(b.trump_ascending.is_empty() && b.held_card.is_none());
}

#[test]
fn meeting_trumps_make_the_scan_order_matter() {
    // With the ascending trumps at 9 and the descending trumps at 12, the ten
    // and the eleven compete: whichever is scanned first decides where the
    // eleven ends up.
    let mut b = deal(vec![vec![major(10)], vec![major(11)]]);
    b.trump_ascending = (0..=9).map(major).collect();
    b.trump_descending = (12..=21).rev().map(major).collect();
    let mut swapped = deal(vec![vec![major(11)], vec![major(10)]]);
    swapped.trump_ascending = b.trump_ascending.clone();
    swapped.trump_descending = b.trump_descending.clone();
    assert_eq!(b.suck_readies_into_receptacles(), vec![major(10), major(11)]);
    assert_eq!(swapped.suck_readies_into_receptacles(), vec![major(11), major(10)]);
    assert_eq!(b.trump_ascending.len(), 12);
    assert_eq!(swapped.trump_ascending.len(), 11);
    assert_eq!(swapped.trump_descending.len(), 11);
    assert!(b.is_done() && swapped.is_done());
}

#[test]
fn held_cards_advance_like_exposed_ones() {
    let mut b = deal(vec![vec![swords(2)]]);
    b.held_card = Some(swords(3));
    let sucked = b.suck_readies_into_receptacles();
    assert_eq!(sucked, vec![swords(2), swords(3)]);
    assert_eq!(b.held_card, None);
    let mut t = deal(vec![]);
    t.held_card = Some(major(0));
    assert_eq!(t.suck_readies_into_receptacles(), vec![major(0)]);
    assert_eq!(t.trump_ascending, vec![major(0)]);
    let mut d = deal(vec![vec![major(20)]]);
    d.held_card = Some(major(21));
    assert_eq!(d.suck_readies_into_receptacles(), vec![major(21), major(20)]);
    assert_eq!(d.trump_descending, vec![major(21), major(20)]);
}

#[test]
fn stricter_goal_needs_an_empty_slot() {
    let mut b = deal(vec![vec![swords(2), minor(Suit::Wand, 5)]]);
    b.suck_readies_into_receptacles();
    let mut held = deal(vec![]);
    held.held_card = Some(minor(Suit::Wand, 5));
    assert!(held.is_done_under(TerminalPolicy::TableauEmpty));
    assert!(!held.is_done_under(TerminalPolicy::TableauAndSlotEmpty));
    // the five of wands can never reach its foundation, so the stricter goal is out of reach
    assert!(solve_under(&b, 0, TerminalPolicy::TableauAndSlotEmpty).is_none());
    assert!(solve_under(&b, 0, TerminalPolicy::TableauEmpty).is_some());
}

#[test]
fn history_keeps_the_latest_window() {
    let m = |n: usize| Move {
        from: MoveLocation::HoldingSlot,
        to: MoveLocation::Pile { pile: 0, depth: n },
        card: swords(4),
        num_sucks: n,
    };
    let history = vec![m(1), m(2), m(3)];
    assert_eq!(extend_history(&history, m(0), 3), vec![m(0), m(1), m(2)]);
    assert_eq!(extend_history(&history, m(0), 10), vec![m(0), m(1), m(2), m(3)]);
    assert!(extend_history(&history, m(0), 0).is_empty());
}

#[test]
fn heuristic_counts_cards_in_play() {
    let mut b = deal(vec![vec![swords(9), swords(8)], vec![major(5)], vec![]]);
    assert_eq!(b.num_cards_remaining(), 3);
    b.held_card = Some(major(6));
    assert_eq!(b.num_cards_remaining(), 4);
}
