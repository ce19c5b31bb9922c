use solitaire_core::cards::{Card, Rank, Suit};
use solitaire_core::games::freecell::{FreeCell, CASCADE_FIRST, CASCADE_LAST, CELL_FIRST, CELL_LAST, FOUND_FIRST};
use solitaire_core::games::GameRules;
use solitaire_core::piles::PileSet;
use solitaire_core::session::{GameSession, Move};

fn board(rules: &FreeCell) -> PileSet {
    PileSet::from_metas(&rules.pile_metas())
}

#[test]
fn deal_distributes_52_cards_across_8_cascades() {
    let s = GameSession::new(FreeCell::new(), 1);
    let total: usize = (CASCADE_FIRST..=CASCADE_LAST).map(|id| s.piles.get(id).len()).sum();
    assert_eq!(total, 52);
    for id in CASCADE_FIRST..=CASCADE_FIRST + 3 {
        assert_eq!(s.piles.get(id).len(), 7);
    }
    for id in CASCADE_FIRST + 4..=CASCADE_LAST {
        assert_eq!(s.piles.get(id).len(), 6);
    }
    for id in CASCADE_FIRST..=CASCADE_LAST {
        assert!(s.piles.get(id).cards.iter().all(|c| c.face_up));
    }
}

#[test]
fn cell_accepts_single_card() {
    let rules = FreeCell::new();
    let mut piles = board(&rules);
    piles.get_mut(CASCADE_FIRST).cards.push(Card::new(Suit::Hearts, Rank::Two).face_up());
    let m = Move::simple(CASCADE_FIRST, 1, CELL_FIRST);
    assert!(rules.legal_move(&piles, &m));
}

#[test]
fn cell_rejects_when_full() {
    let rules = FreeCell::new();
    let mut piles = board(&rules);
    piles.get_mut(CELL_FIRST).cards.push(Card::new(Suit::Hearts, Rank::King).face_up());
    piles.get_mut(CASCADE_FIRST).cards.push(Card::new(Suit::Hearts, Rank::Two).face_up());
    let m = Move::simple(CASCADE_FIRST, 1, CELL_FIRST);
    assert!(!rules.legal_move(&piles, &m));
}

#[test]
fn freecell_tests_single_click_top_card_prefers_foundation() {
    let rules = FreeCell::new();
    let mut piles = board(&rules);
    piles.get_mut(CASCADE_FIRST).cards.push(Card::new(Suit::Hearts, Rank::Ace).face_up());
    piles.get_mut(CASCADE_FIRST + 1).cards.push(Card::new(Suit::Spades, Rank::Two).face_up());
    let m = rules.single_click_move(&piles, CASCADE_FIRST, 0).expect("ace can move to foundation");
    assert_eq!(m.from, CASCADE_FIRST);
    assert_eq!(m.to, FOUND_FIRST);
    assert_eq!(m.take, 1);
}

#[test]
fn single_click_run_moves_to_leftmost_legal_cascade() {
    let rules = FreeCell::new();
    let mut piles = board(&rules);
    let src = CASCADE_FIRST + 4;
    for id in CASCADE_FIRST..=CASCADE_LAST {
        if id == src {
            continue;
        }
        piles.get_mut(id).cards.push(Card::new(Suit::Spades, Rank::Two).face_up());
    }
    piles.get_mut(src).cards.push(Card::new(Suit::Clubs, Rank::Ten).face_up());
    piles.get_mut(src).cards.push(Card::new(Suit::Hearts, Rank::Nine).face_up());
    let left_dst = CASCADE_FIRST + 1;
    let right_dst = CASCADE_FIRST + 3;
    for dst in [left_dst, right_dst] {
        piles.get_mut(dst).cards.clear();
        piles.get_mut(dst).cards.push(Card::new(Suit::Diamonds, Rank::Jack).face_up());
    }
    let m = rules.single_click_move(&piles, src, 0).expect("10-9 run can move onto either jack");
    assert_eq!(m.from, src);
    assert_eq!(m.to, left_dst);
    assert_eq!(m.take, 2);
}

#[test]
fn multi_card_move_limited_by_empty_cells() {
    let rules = FreeCell::new();
    let mut piles = board(&rules);
    for id in CELL_FIRST..=CELL_LAST {
        piles.get_mut(id).cards.push(Card::new(Suit::Hearts, Rank::King).face_up());
    }
    let src = CASCADE_FIRST;
    piles.get_mut(src).cards.push(Card::new(Suit::Spades, Rank::Queen).face_up());
    piles.get_mut(src).cards.push(Card::new(Suit::Hearts, Rank::Jack).face_up());
    piles.get_mut(src).cards.push(Card::new(Suit::Spades, Rank::Ten).face_up());
    for id in (CASCADE_FIRST + 1)..=CASCADE_LAST {
        piles.get_mut(id).cards.push(Card::new(Suit::Spades, Rank::Two).face_up());
    }
    let dst = CASCADE_FIRST + 1;
    piles.get_mut(dst).cards.clear();
    piles.get_mut(dst).cards.push(Card::new(Suit::Hearts, Rank::King).face_up());
    for id in (CASCADE_FIRST + 2)..=CASCADE_LAST {
        assert!(!piles.get(id).is_empty());
    }
    let m = Move::simple(src, 3, dst);
    assert!(!rules.legal_move(&piles, &m));
}
