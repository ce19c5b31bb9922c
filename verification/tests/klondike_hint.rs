use solitaire_core::cards::{Card, Rank, Suit};
use solitaire_core::games::hint::Hint;
use solitaire_core::games::klondike::{Klondike, FOUND_FIRST, FOUND_LAST, STOCK, TABLEAU_FIRST};
use solitaire_core::games::klondike_hint::best_klondike_hint;
use solitaire_core::games::GameRules;
use solitaire_core::piles::PileSet;

fn empty_klondike() -> (Klondike, PileSet) {
    let rules = Klondike::new();
    let piles = PileSet::from_metas(&rules.pile_metas());
    (rules, piles)
}

#[test]
fn hint_prefers_foundation_over_tableau_build() {
    let (rules, mut piles) = empty_klondike();
    piles.get_mut(TABLEAU_FIRST).cards.push(Card::new(Suit::Hearts, Rank::Ace).face_up());
    piles.get_mut(TABLEAU_FIRST + 1).cards.push(Card::new(Suit::Clubs, Rank::Ten).face_up());
    piles.get_mut(TABLEAU_FIRST + 2).cards.push(Card::new(Suit::Hearts, Rank::Jack).face_up());
    let h = best_klondike_hint(&rules, &piles).expect("hint exists");
    match h {
        Hint::Move { from, to, take, .. } => {
            assert_eq!(from, TABLEAU_FIRST);
            assert!((FOUND_FIRST..=FOUND_LAST).contains(&to));
            assert_eq!(take, 1);
        }
        Hint::StockDeal { .. } => panic!("expected foundation move, got stock"),
    }
}

#[test]
fn hint_prefers_exposing_move_over_plain_build() {
    let (rules, mut piles) = empty_klondike();
    piles.get_mut(TABLEAU_FIRST).cards.push(Card::new(Suit::Diamonds, Rank::Two));
    piles.get_mut(TABLEAU_FIRST).cards.push(Card::new(Suit::Clubs, Rank::Ten).face_up());
    piles.get_mut(TABLEAU_FIRST + 1).cards.push(Card::new(Suit::Hearts, Rank::Jack).face_up());
    piles.get_mut(TABLEAU_FIRST + 2).cards.push(Card::new(Suit::Diamonds, Rank::Jack).face_up());
    piles.get_mut(TABLEAU_FIRST + 3).cards.push(Card::new(Suit::Spades, Rank::Nine).face_up());
    let h = best_klondike_hint(&rules, &piles).expect("hint exists");
    match h {
        Hint::Move { from, .. } => assert_eq!(from, TABLEAU_FIRST),
        Hint::StockDeal { .. } => panic!("expected tableau move"),
    }
}

#[test]
fn hint_falls_back_to_stock_when_no_moves() {
    let (rules, mut piles) = empty_klondike();
    piles.get_mut(STOCK).cards.push(Card::new(Suit::Spades, Rank::Two));
    let h = best_klondike_hint(&rules, &piles).expect("hint exists");
    match h {
        Hint::StockDeal { stock } => assert_eq!(stock, STOCK),
        Hint::Move { .. } => panic!("expected stock fallback"),
    }
}

#[test]
fn hint_returns_none_on_dead_board() {
    let (rules, piles) = empty_klondike();
    assert!(best_klondike_hint(&rules, &piles).is_none());
}

#[test]
fn hint_offers_a_lone_king_shift_when_nothing_else_moves() {
    let (rules, mut piles) = empty_klondike();
    piles.get_mut(TABLEAU_FIRST).cards.push(Card::new(Suit::Spades, Rank::King).face_up());
    let h = best_klondike_hint(&rules, &piles).expect("a legal move is left");
    assert_eq!(h, Hint::Move { from: TABLEAU_FIRST, start_idx: 0, take: 1, to: TABLEAU_FIRST + 1 });
}

#[test]
fn hint_prefers_the_stock_to_a_lone_king_shift() {
    let (rules, mut piles) = empty_klondike();
    piles.get_mut(TABLEAU_FIRST + 3).cards.push(Card::new(Suit::Hearts, Rank::King).face_up());
    piles.get_mut(STOCK).cards.push(Card::new(Suit::Spades, Rank::Two));
    assert_eq!(best_klondike_hint(&rules, &piles), Some(Hint::StockDeal { stock: STOCK }));
}

#[test]
fn hint_gives_nothing_when_every_column_is_full() {
    let (rules, mut piles) = empty_klondike();
    for i in 0..7u8 {
        piles.get_mut(TABLEAU_FIRST + i).cards.push(Card::new(Suit::Spades, Rank::King).face_up());
    }
    assert!(best_klondike_hint(&rules, &piles).is_none());
}
