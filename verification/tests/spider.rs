use solitaire_core::cards::{Card, Rank, Suit};
use solitaire_core::games::spider::{Spider, CASCADE_FIRST, CASCADE_LAST, FOUND_FIRST, N_CASCADES, STOCK};
use solitaire_core::games::GameRules;
use solitaire_core::piles::{PileLayout, PileSet};
use solitaire_core::session::{GameSession, Move};

fn board(rules: &Spider) -> PileSet {
    PileSet::from_metas(&rules.pile_metas())
}

const KING_TO_TWO: [Rank; 12] = [
    Rank::King,
    Rank::Queen,
    Rank::Jack,
    Rank::Ten,
    Rank::Nine,
    Rank::Eight,
    Rank::Seven,
    Rank::Six,
    Rank::Five,
    Rank::Four,
    Rank::Three,
    Rank::Two,
];

#[test]
fn deal_distributes_104_cards_correctly() {
    let s = GameSession::new(Spider::four_suit(), 1);
    let cascade_total: usize = (CASCADE_FIRST..=CASCADE_LAST).map(|id| s.piles.get(id).len()).sum();
    assert_eq!(cascade_total, 54);
    assert_eq!(s.piles.get(STOCK).len(), 50);
    for id in CASCADE_FIRST..=CASCADE_FIRST + 3 {
        assert_eq!(s.piles.get(id).len(), 6);
    }
    for id in CASCADE_FIRST + 4..=CASCADE_LAST {
        assert_eq!(s.piles.get(id).len(), 5);
    }
    for id in CASCADE_FIRST..=CASCADE_LAST {
        assert!(s.piles.get(id).top().unwrap().face_up);
    }
}

#[test]
fn cascades_use_uniform_fanned_spacing() {
    let rules = Spider::four_suit();
    let metas = rules.pile_metas();
    for cid in CASCADE_FIRST..=CASCADE_LAST {
        assert_eq!(metas[cid as usize].layout, PileLayout::FannedDown);
    }
}

#[test]
fn descending_any_suit_legal_single_card_to_cascade() {
    let rules = Spider::four_suit();
    let mut piles = board(&rules);
    piles.get_mut(CASCADE_FIRST).cards.push(Card::new(Suit::Hearts, Rank::Six).face_up());
    piles.get_mut(CASCADE_FIRST + 1).cards.push(Card::new(Suit::Spades, Rank::Seven).face_up());
    let m = Move::simple(CASCADE_FIRST, 1, CASCADE_FIRST + 1);
    assert!(rules.legal_move(&piles, &m));
}

#[test]
fn multi_card_move_requires_suited_tail() {
    let rules = Spider::four_suit();
    let mut piles = board(&rules);
    let src = CASCADE_FIRST;
    piles.get_mut(src).cards.push(Card::new(Suit::Spades, Rank::Seven).face_up());
    piles.get_mut(src).cards.push(Card::new(Suit::Hearts, Rank::Six).face_up());
    let dst = CASCADE_FIRST + 1;
    piles.get_mut(dst).cards.push(Card::new(Suit::Clubs, Rank::Eight).face_up());
    let m = Move::simple(src, 2, dst);
    assert!(!rules.legal_move(&piles, &m));
}

#[test]
fn single_click_move_picks_leftmost_legal_destination() {
    let rules = Spider::four_suit();
    let mut piles = board(&rules);
    for cid in CASCADE_FIRST..=CASCADE_LAST {
        piles.get_mut(cid).cards.push(Card::new(Suit::Clubs, Rank::King).face_up());
    }
    let src = CASCADE_FIRST + 5;
    piles.get_mut(src).cards.clear();
    piles.get_mut(src).cards.push(Card::new(Suit::Spades, Rank::Six).face_up());
    let left_dst = CASCADE_FIRST + 2;
    let right_dst = CASCADE_FIRST + 4;
    for dst in [left_dst, right_dst] {
        piles.get_mut(dst).cards.clear();
        piles.get_mut(dst).cards.push(Card::new(Suit::Hearts, Rank::Seven).face_up());
    }
    let m = rules.single_click_move(&piles, src, 0).expect("six can move onto two sevens");
    assert_eq!(m.from, src);
    assert_eq!(m.to, left_dst);
    assert_eq!(m.take, 1);
}

#[test]
fn single_click_move_prefers_longest_destination_run() {
    let rules = Spider::one_suit();
    let mut piles = board(&rules);
    for cid in CASCADE_FIRST..=CASCADE_LAST {
        piles.get_mut(cid).cards.push(Card::new(Suit::Spades, Rank::King).face_up());
    }
    let src = CASCADE_FIRST + 8;
    piles.get_mut(src).cards.clear();
    piles.get_mut(src).cards.push(Card::new(Suit::Spades, Rank::Six).face_up());
    let left_short_dst = CASCADE_FIRST + 1;
    piles.get_mut(left_short_dst).cards.clear();
    piles.get_mut(left_short_dst).cards.push(Card::new(Suit::Spades, Rank::Seven).face_up());
    let right_long_dst = CASCADE_FIRST + 5;
    piles.get_mut(right_long_dst).cards.clear();
    for r in [Rank::Nine, Rank::Eight, Rank::Seven] {
        piles.get_mut(right_long_dst).cards.push(Card::new(Suit::Spades, r).face_up());
    }
    let m = rules.single_click_move(&piles, src, 0).expect("six can move onto either seven");
    assert_eq!(m.from, src);
    assert_eq!(m.to, right_long_dst);
    assert_eq!(m.take, 1);
}

#[test]
fn complete_run_auto_collapses_to_foundation() {
    let rules = Spider::four_suit();
    let mut piles = board(&rules);
    let cid = CASCADE_FIRST;
    for r in KING_TO_TWO {
        piles.get_mut(cid).cards.push(Card::new(Suit::Spades, r).face_up());
    }
    piles.get_mut(cid).cards.push(Card::new(Suit::Spades, Rank::Ace).face_up());
    let m = rules.after_move(&piles).expect("complete run detected");
    assert_eq!(m.from, cid);
    assert_eq!(m.to, FOUND_FIRST);
    assert_eq!(m.take, 13);
}

#[test]
fn suited_multi_card_move_to_empty_cascade_is_legal() {
    let rules = Spider::four_suit();
    let mut piles = board(&rules);
    let src = CASCADE_FIRST;
    for r in [Rank::Eight, Rank::Seven, Rank::Six] {
        piles.get_mut(src).cards.push(Card::new(Suit::Spades, r).face_up());
    }
    let dst = CASCADE_FIRST + 1;
    assert!(piles.get(dst).is_empty());
    let m = Move::simple(src, 3, dst);
    assert!(rules.legal_move(&piles, &m));
}

#[test]
fn suited_multi_card_move_onto_higher_card_is_legal() {
    let rules = Spider::four_suit();
    let mut piles = board(&rules);
    let src = CASCADE_FIRST;
    for r in [Rank::Eight, Rank::Seven, Rank::Six] {
        piles.get_mut(src).cards.push(Card::new(Suit::Spades, r).face_up());
    }
    let dst = CASCADE_FIRST + 1;
    piles.get_mut(dst).cards.push(Card::new(Suit::Hearts, Rank::Nine).face_up());
    let m = Move::simple(src, 3, dst);
    assert!(rules.legal_move(&piles, &m));
}

#[test]
fn one_suit_long_descending_tail_relocates_legally() {
    let rules = Spider::one_suit();
    let mut piles = board(&rules);
    let src = CASCADE_FIRST;
    for r in [Rank::Six, Rank::Five, Rank::Four, Rank::Three, Rank::Two, Rank::Ace] {
        piles.get_mut(src).cards.push(Card::new(Suit::Spades, r).face_up());
    }
    let dst = CASCADE_FIRST + 1;
    for r in [Rank::Eight, Rank::Seven, Rank::Six] {
        piles.get_mut(dst).cards.push(Card::new(Suit::Spades, r).face_up());
    }
    let m = Move::simple(src, 5, dst);
    assert!(rules.legal_move(&piles, &m));
}

#[test]
fn stock_dispense_undoes_in_one_step() {
    let mut s = GameSession::new(Spider::four_suit(), 1);
    let stock_before = s.piles.get(STOCK).len();
    let cascade_lens_before: Vec<usize> = (CASCADE_FIRST..=CASCADE_LAST).map(|id| s.piles.get(id).len()).collect();
    let moves = s.rules.on_pile_click(&s.piles, STOCK);
    assert_eq!(moves.len(), N_CASCADES, "stock dispenses one per cascade");
    assert!(s.try_apply_batch(moves), "dispense applies");
    assert_eq!(s.piles.get(STOCK).len(), stock_before - N_CASCADES);
    for (i, id) in (CASCADE_FIRST..=CASCADE_LAST).enumerate() {
        assert_eq!(s.piles.get(id).len(), cascade_lens_before[i] + 1);
    }
    assert!(s.try_undo());
    assert_eq!(s.piles.get(STOCK).len(), stock_before);
    for (i, id) in (CASCADE_FIRST..=CASCADE_LAST).enumerate() {
        assert_eq!(s.piles.get(id).len(), cascade_lens_before[i]);
    }
}

#[test]
fn foundation_collapse_flips_newly_exposed_facedown() {
    let mut s = GameSession::new(Spider::four_suit(), 1);
    s.piles = PileSet::from_metas(&Spider::four_suit().pile_metas());
    let cid = CASCADE_FIRST;
    s.piles.get_mut(cid).cards.push(Card::new(Suit::Hearts, Rank::Five));
    for r in KING_TO_TWO {
        s.piles.get_mut(cid).cards.push(Card::new(Suit::Spades, r).face_up());
    }
    let src = CASCADE_FIRST + 1;
    s.piles.get_mut(src).cards.push(Card::new(Suit::Spades, Rank::Ace).face_up());
    let m = Move::simple(src, 1, cid);
    assert!(s.try_apply(m));
    assert_eq!(s.piles.get(cid).len(), 1);
    let top = s.piles.get(cid).top().unwrap();
    assert_eq!(top.rank, Rank::Five);
    assert_eq!(top.suit, Suit::Hearts);
    assert!(top.face_up, "Spider auto-collapse must flip the newly exposed card");
}

#[test]
fn complete_run_collapse_chain_after_user_move() {
    let mut s = GameSession::new(Spider::four_suit(), 1);
    s.piles = PileSet::from_metas(&Spider::four_suit().pile_metas());
    let cid = CASCADE_FIRST;
    for r in KING_TO_TWO {
        s.piles.get_mut(cid).cards.push(Card::new(Suit::Spades, r).face_up());
    }
    let src = CASCADE_FIRST + 1;
    s.piles.get_mut(src).cards.push(Card::new(Suit::Spades, Rank::Ace).face_up());
    let m = Move::simple(src, 1, cid);
    assert!(s.try_apply(m), "user A->2 move accepted");
    assert!(s.piles.get(cid).is_empty(), "K-A run collapsed off cascade");
    assert_eq!(s.piles.get(FOUND_FIRST).len(), 13);
}

#[test]
fn stock_click_deals_even_with_empty_cascade() {
    let rules = Spider::four_suit();
    let mut piles = board(&rules);
    for _ in 0..50 {
        piles.get_mut(STOCK).cards.push(Card::new(Suit::Spades, Rank::Two));
    }
    for cid in CASCADE_FIRST + 1..=CASCADE_LAST {
        piles.get_mut(cid).cards.push(Card::new(Suit::Spades, Rank::Two).face_up());
    }
    let moves = rules.on_pile_click(&piles, STOCK);
    assert_eq!(moves.len(), N_CASCADES, "deal still fires");
    assert_eq!(moves[0].to, CASCADE_FIRST);
}

#[test]
fn stock_click_still_blocked_when_stock_too_short() {
    let rules = Spider::four_suit();
    let mut piles = board(&rules);
    for _ in 0..(N_CASCADES - 1) {
        piles.get_mut(STOCK).cards.push(Card::new(Suit::Spades, Rank::Two));
    }
    for cid in CASCADE_FIRST..=CASCADE_LAST {
        piles.get_mut(cid).cards.push(Card::new(Suit::Spades, Rank::Two).face_up());
    }
    assert!(rules.on_pile_click(&piles, STOCK).is_empty());
}
