use solitaire_core::cards::{Card, Rank, Suit};
use solitaire_core::piles::{PileKind, PileLayout, PileMeta, PileSet};
use solitaire_core::session::{apply_move, revert_move, Move};

fn two_pile_set() -> PileSet {
    PileSet::from_metas(&[
        PileMeta { kind: PileKind::Tableau, layout: PileLayout::FannedDown, render_ace_as_gap: false },
        PileMeta { kind: PileKind::Foundation, layout: PileLayout::Stacked, render_ace_as_gap: false },
    ])
}

#[test]
fn apply_then_revert_round_trips() {
    let mut piles = two_pile_set();
    piles.get_mut(0).cards.push(Card::new(Suit::Hearts, Rank::Ace).face_up());
    piles.get_mut(0).cards.push(Card::new(Suit::Hearts, Rank::Two).face_up());
    let before = piles.clone();
    let m = Move::simple(0, 1, 1);
    apply_move(&mut piles, &m);
    assert_eq!(piles.get(0).len(), 1);
    assert_eq!(piles.get(1).len(), 1);
    assert_eq!(piles.get(1).top().unwrap().rank, Rank::Two);
    revert_move(&mut piles, &m);
    assert_eq!(piles.get(0).cards, before.get(0).cards);
    assert_eq!(piles.get(1).cards, before.get(1).cards);
}

#[test]
fn flip_source_after_reveals_facedown() {
    let mut piles = two_pile_set();
    piles.get_mut(0).cards.push(Card::new(Suit::Hearts, Rank::Ace));
    piles.get_mut(0).cards.push(Card::new(Suit::Hearts, Rank::Two).face_up());
    let m = Move::simple(0, 1, 1).with_flip_source();
    apply_move(&mut piles, &m);
    assert_eq!(piles.get(0).len(), 1);
    assert!(piles.get(0).top().unwrap().face_up);
    revert_move(&mut piles, &m);
    assert_eq!(piles.get(0).len(), 2);
    assert!(!piles.get(0).cards[0].face_up);
}

#[test]
fn flip_moved_toggles_face_state() {
    let mut piles = two_pile_set();
    piles.get_mut(0).cards.push(Card::new(Suit::Hearts, Rank::Ace));
    let m = Move::simple(0, 1, 1).with_flip_moved();
    apply_move(&mut piles, &m);
    assert!(piles.get(1).top().unwrap().face_up);
    revert_move(&mut piles, &m);
    assert!(!piles.get(0).top().unwrap().face_up);
}
