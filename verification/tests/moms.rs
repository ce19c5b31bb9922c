use solitaire_core::cards::{Card, Rank, Suit};
use solitaire_core::games::moms::{cell_id, MomsSolitaire, COLS, ROWS};
use solitaire_core::games::GameRules;
use solitaire_core::piles::PileSet;
use solitaire_core::session::{GameSession, Move};

fn cell(piles: &PileSet, x: u8, y: u8) -> Card {
    *piles.get(cell_id(x, y)).top().expect("cell occupied")
}

fn board(rules: &MomsSolitaire) -> PileSet {
    PileSet::from_metas(&rules.pile_metas())
}

#[test]
fn deal_distributes_one_card_per_cell() {
    let s = GameSession::new(MomsSolitaire::new(), 7);
    for y in 0..ROWS {
        for x in 0..COLS {
            assert_eq!(s.piles.get(cell_id(x, y)).len(), 1);
            assert!(cell(&s.piles, x, y).face_up);
        }
    }
    let mut seen = std::collections::HashSet::new();
    for y in 0..ROWS {
        for x in 0..COLS {
            let c = cell(&s.piles, x, y);
            assert!(seen.insert((c.suit, c.rank)));
        }
    }
    assert_eq!(seen.len(), 52);
}

#[test]
fn swap_into_gap_must_match_left_neighbour() {
    let rules = MomsSolitaire::new();
    let mut piles = board(&rules);
    piles.get_mut(cell_id(3, 0)).cards.push(Card::new(Suit::Hearts, Rank::Five).face_up());
    piles.get_mut(cell_id(4, 0)).cards.push(Card::new(Suit::Spades, Rank::Ace).face_up());
    piles.get_mut(cell_id(10, 0)).cards.push(Card::new(Suit::Hearts, Rank::Four).face_up());
    piles.get_mut(cell_id(11, 0)).cards.push(Card::new(Suit::Clubs, Rank::Four).face_up());
    let from_4h = cell_id(10, 0);
    let from_4c = cell_id(11, 0);
    let to_gap = cell_id(4, 0);
    assert!(rules.legal_move(&piles, &Move::swap(from_4h, to_gap)));
    assert!(!rules.legal_move(&piles, &Move::swap(from_4c, to_gap)));
}

#[test]
fn col_zero_only_accepts_kings() {
    let rules = MomsSolitaire::new();
    let mut piles = board(&rules);
    piles.get_mut(cell_id(0, 0)).cards.push(Card::new(Suit::Diamonds, Rank::Ace).face_up());
    piles.get_mut(cell_id(5, 0)).cards.push(Card::new(Suit::Hearts, Rank::King).face_up());
    piles.get_mut(cell_id(6, 0)).cards.push(Card::new(Suit::Hearts, Rank::Queen).face_up());
    let to_col_zero_gap = cell_id(0, 0);
    assert!(rules.legal_move(&piles, &Move::swap(cell_id(5, 0), to_col_zero_gap)));
    assert!(!rules.legal_move(&piles, &Move::swap(cell_id(6, 0), to_col_zero_gap)));
}

#[test]
fn ace_is_never_legal_as_a_source() {
    let rules = MomsSolitaire::new();
    let mut piles = board(&rules);
    piles.get_mut(cell_id(0, 0)).cards.push(Card::new(Suit::Diamonds, Rank::Ace).face_up());
    piles.get_mut(cell_id(1, 0)).cards.push(Card::new(Suit::Spades, Rank::Ace).face_up());
    assert!(!rules.legal_move(&piles, &Move::swap(cell_id(0, 0), cell_id(1, 0))));
}

#[test]
fn cell_id_counts_rows_of_thirteen_past_the_grid() {
    assert_eq!(cell_id(0, 0), 0);
    assert_eq!(cell_id(12, 3), 51);
    assert_eq!(cell_id(3, 10), 133);
    assert_eq!(cell_id(0, 19), 247);
}
