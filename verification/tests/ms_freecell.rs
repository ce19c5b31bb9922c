use solitaire_core::cards::{Rank, Suit};
use solitaire_core::games::ms_freecell::deal_columns;

#[test]
fn game_one_matches_canonical_top_row() {
    let cols = deal_columns(1);
    let top: Vec<(Rank, Suit)> = cols.iter().map(|c| (c[0].rank, c[0].suit)).collect();
    assert_eq!(
        top,
        vec![
            (Rank::Jack, Suit::Diamonds),
            (Rank::Two, Suit::Diamonds),
            (Rank::Nine, Suit::Hearts),
            (Rank::Jack, Suit::Clubs),
            (Rank::Five, Suit::Diamonds),
            (Rank::Seven, Suit::Hearts),
            (Rank::Seven, Suit::Clubs),
            (Rank::Five, Suit::Hearts),
        ]
    );
}

#[test]
fn column_lengths_are_canonical() {
    let cols = deal_columns(1);
    for (c, column) in cols.iter().enumerate().take(4) {
        assert_eq!(column.len(), 7, "column {c} should have 7 cards");
    }
    for (c, column) in cols.iter().enumerate().skip(4) {
        assert_eq!(column.len(), 6, "column {c} should have 6 cards");
    }
}

#[test]
fn deal_uses_all_52_cards_exactly_once() {
    let cols = deal_columns(617);
    let mut seen = std::collections::HashSet::new();
    for col in cols.iter() {
        for c in col {
            assert!(seen.insert((c.suit, c.rank)), "duplicate card {c:?}");
        }
    }
    assert_eq!(seen.len(), 52);
}

#[test]
fn different_games_give_different_layouts() {
    let a = deal_columns(1);
    let b = deal_columns(2);
    assert_ne!(a, b);
}
