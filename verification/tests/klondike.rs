use solitaire_core::cards::{Card, Rank, Suit};
use solitaire_core::games::klondike::{Klondike, FOUND_FIRST, STOCK, TABLEAU_FIRST, TABLEAU_LAST, WASTE};
use solitaire_core::games::GameRules;
use solitaire_core::piles::PileSet;
use solitaire_core::session::{apply_move, GameSession, Move};

fn board(rules: &Klondike) -> PileSet {
    PileSet::from_metas(&rules.pile_metas())
}

#[test]
fn deal_distributes_28_cards_to_tableau_and_24_to_stock() {
    let s = GameSession::new(Klondike::new(), 7);
    let total_tableau: usize = (TABLEAU_FIRST..=TABLEAU_LAST).map(|id| s.piles.get(id).len()).sum();
    assert_eq!(total_tableau, 28);
    assert_eq!(s.piles.get(STOCK).len(), 24);
    assert_eq!(s.piles.get(WASTE).len(), 0);
    for id in TABLEAU_FIRST..=TABLEAU_LAST {
        let p = s.piles.get(id);
        assert!(p.top().unwrap().face_up);
    }
}

#[test]
fn ace_to_empty_foundation_is_legal() {
    let rules = Klondike::new();
    let mut piles = board(&rules);
    piles.get_mut(TABLEAU_FIRST).cards.push(Card::new(Suit::Hearts, Rank::Ace).face_up());
    let m = Move::simple(TABLEAU_FIRST, 1, FOUND_FIRST);
    assert!(rules.legal_move(&piles, &m));
}

#[test]
fn two_to_empty_foundation_is_illegal() {
    let rules = Klondike::new();
    let mut piles = board(&rules);
    piles.get_mut(TABLEAU_FIRST).cards.push(Card::new(Suit::Hearts, Rank::Two).face_up());
    let m = Move::simple(TABLEAU_FIRST, 1, FOUND_FIRST);
    assert!(!rules.legal_move(&piles, &m));
}

#[test]
fn alternating_descending_run_to_tableau_is_legal() {
    let rules = Klondike::new();
    let mut piles = board(&rules);
    piles.get_mut(TABLEAU_FIRST).cards.push(Card::new(Suit::Clubs, Rank::Ten).face_up());
    piles.get_mut(TABLEAU_FIRST + 1).cards.push(Card::new(Suit::Hearts, Rank::Jack).face_up());
    let m = Move::simple(TABLEAU_FIRST, 1, TABLEAU_FIRST + 1);
    assert!(rules.legal_move(&piles, &m));
}

#[test]
fn same_color_to_tableau_is_illegal() {
    let rules = Klondike::new();
    let mut piles = board(&rules);
    piles.get_mut(TABLEAU_FIRST).cards.push(Card::new(Suit::Spades, Rank::Ten).face_up());
    piles.get_mut(TABLEAU_FIRST + 1).cards.push(Card::new(Suit::Clubs, Rank::Jack).face_up());
    let m = Move::simple(TABLEAU_FIRST, 1, TABLEAU_FIRST + 1);
    assert!(!rules.legal_move(&piles, &m));
}

#[test]
fn king_to_empty_tableau_is_legal() {
    let rules = Klondike::new();
    let mut piles = board(&rules);
    piles.get_mut(WASTE).cards.push(Card::new(Suit::Spades, Rank::King).face_up());
    let m = Move::simple(WASTE, 1, TABLEAU_FIRST);
    assert!(rules.legal_move(&piles, &m));
}

#[test]
fn klondike_tests_single_click_top_card_prefers_foundation() {
    let rules = Klondike::new();
    let mut piles = board(&rules);
    piles.get_mut(TABLEAU_FIRST).cards.push(Card::new(Suit::Hearts, Rank::Ace).face_up());
    piles.get_mut(TABLEAU_FIRST + 1).cards.push(Card::new(Suit::Spades, Rank::Two).face_up());
    let m = rules.single_click_move(&piles, TABLEAU_FIRST, 0).expect("ace can move to foundation");
    assert_eq!(m.from, TABLEAU_FIRST);
    assert_eq!(m.to, FOUND_FIRST);
    assert_eq!(m.take, 1);
}

#[test]
fn single_click_run_moves_to_leftmost_legal_tableau() {
    let rules = Klondike::new();
    let mut piles = board(&rules);
    let src = TABLEAU_FIRST + 4;
    piles.get_mut(src).cards.push(Card::new(Suit::Clubs, Rank::Ten).face_up());
    piles.get_mut(src).cards.push(Card::new(Suit::Hearts, Rank::Nine).face_up());
    let left_dst = TABLEAU_FIRST + 1;
    let right_dst = TABLEAU_FIRST + 3;
    for dst in [left_dst, right_dst] {
        piles.get_mut(dst).cards.push(Card::new(Suit::Diamonds, Rank::Jack).face_up());
    }
    let m = rules.single_click_move(&piles, src, 0).expect("10-9 run can move onto either jack");
    assert_eq!(m.from, src);
    assert_eq!(m.to, left_dst);
    assert_eq!(m.take, 2);
}

#[test]
fn stock_click_when_nonempty_dispenses_one_to_waste() {
    let rules = Klondike::new();
    let mut piles = board(&rules);
    piles.get_mut(STOCK).cards.push(Card::new(Suit::Spades, Rank::Ace));
    let moves = rules.on_pile_click(&piles, STOCK);
    assert_eq!(moves.len(), 1);
    let m = moves[0];
    assert!(rules.legal_move(&piles, &m));
    apply_move(&mut piles, &m);
    assert_eq!(piles.get(WASTE).len(), 1);
    assert!(piles.get(WASTE).top().unwrap().face_up);
}

#[test]
fn stock_click_when_empty_recycles_waste() {
    let rules = Klondike::new();
    let mut piles = board(&rules);
    for r in [Rank::Two, Rank::Three, Rank::Four] {
        piles.get_mut(WASTE).cards.push(Card::new(Suit::Spades, r).face_up());
    }
    let moves = rules.on_pile_click(&piles, STOCK);
    let m = moves[0];
    assert!(rules.legal_move(&piles, &m));
    apply_move(&mut piles, &m);
    assert_eq!(piles.get(STOCK).len(), 3);
    assert_eq!(piles.get(WASTE).len(), 0);
    assert!(piles.get(STOCK).cards.iter().all(|c| !c.face_up));
}
