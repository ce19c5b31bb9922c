use solitaire_core::cards::Suit;
use solitaire_core::games::spider::{CASCADE_FIRST, CASCADE_LAST, FOUND_FIRST, FOUND_LAST, STOCK};
use solitaire_core::games::spider_reverse_gen::{generate_winnable_deal, target_cascade_size, TARGET_STOCK};

#[test]
fn generated_deal_has_correct_card_count() {
    let piles = generate_winnable_deal(1, 4, Suit::Spades);
    let mut total = 0;
    for pid in 0..=CASCADE_LAST {
        total += piles.get(pid).cards.len();
    }
    assert_eq!(total, 104, "expected 104 cards total, got {total}");
}

#[test]
fn generated_deal_has_correct_stock_size() {
    let piles = generate_winnable_deal(2, 4, Suit::Spades);
    assert_eq!(piles.get(STOCK).cards.len(), TARGET_STOCK);
}

#[test]
fn generated_deal_has_empty_foundations() {
    let piles = generate_winnable_deal(3, 4, Suit::Spades);
    for fid in FOUND_FIRST..=FOUND_LAST {
        assert!(piles.get(fid).cards.is_empty(), "foundation {fid} should be empty");
    }
}

#[test]
fn generated_deal_cascade_shapes_match_spider() {
    let piles = generate_winnable_deal(4, 4, Suit::Spades);
    for (i, cid) in (CASCADE_FIRST..=CASCADE_LAST).enumerate() {
        assert_eq!(piles.get(cid).cards.len(), target_cascade_size(i), "cascade {i} (pile {cid}) wrong length");
    }
}

#[test]
fn generated_deal_top_cards_face_up_rest_face_down() {
    let piles = generate_winnable_deal(5, 4, Suit::Spades);
    for cid in CASCADE_FIRST..=CASCADE_LAST {
        let pile = piles.get(cid);
        let n = pile.cards.len();
        if n == 0 {
            continue;
        }
        for i in 0..n - 1 {
            assert!(!pile.cards[i].face_up, "cascade {cid} card {i} should be face-down");
        }
        assert!(pile.cards[n - 1].face_up, "cascade {cid} top should be face-up");
    }
}

#[test]
fn generated_deal_stock_is_all_face_down() {
    let piles = generate_winnable_deal(6, 4, Suit::Spades);
    for c in &piles.get(STOCK).cards {
        assert!(!c.face_up, "stock card should be face-down");
    }
}

#[test]
fn generator_is_deterministic_by_seed() {
    let a = generate_winnable_deal(42, 4, Suit::Spades);
    let b = generate_winnable_deal(42, 4, Suit::Spades);
    for pid in 0..=CASCADE_LAST {
        let pa = &a.get(pid).cards;
        let pb = &b.get(pid).cards;
        assert_eq!(pa.len(), pb.len(), "pile {pid} length differs");
        for (i, (x, y)) in pa.iter().zip(pb.iter()).enumerate() {
            assert_eq!(x.suit, y.suit, "pile {pid} card {i} suit differs");
            assert_eq!(x.rank, y.rank, "pile {pid} card {i} rank differs");
            assert_eq!(x.face_up, y.face_up, "pile {pid} card {i} face_up differs");
        }
    }
}

#[test]
fn generator_produces_different_deals_for_different_seeds() {
    let a = generate_winnable_deal(1, 4, Suit::Spades);
    let b = generate_winnable_deal(2, 4, Suit::Spades);
    let pa = &a.get(CASCADE_FIRST).cards;
    let pb = &b.get(CASCADE_FIRST).cards;
    let same = pa.len() == pb.len() && pa.iter().zip(pb.iter()).all(|(x, y)| x.suit == y.suit && x.rank == y.rank);
    assert!(!same, "different seeds shouldn't produce identical first cascade");
}
