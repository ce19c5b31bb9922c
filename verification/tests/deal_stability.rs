//! The (seed -> deal) mapping of every variant, frozen: each board is
//! hashed card by card (pile id, length, then every card's suit, rank,
//! face and deck id) and compared with a fixed value.

use std::collections::hash_map::DefaultHasher;
use std::hash::{Hash, Hasher};

use solitaire_core::cards::{Card, Suit};
use solitaire_core::games::freecell::FreeCell;
use solitaire_core::games::klondike::Klondike;
use solitaire_core::games::spider::Spider;
use solitaire_core::piles::PileSet;
use solitaire_core::session::GameSession;

/// A card hashed field by field as the engine's card type hashes it: the
/// suit's variant index as an `isize`, the rank's value (1 for Ace to 13
/// for King) as a `u8`, then the face flag and the deck id.
struct CardKey {
    suit: isize,
    rank: u8,
    face_up: bool,
    deck_id: u8,
}

impl Hash for CardKey {
    fn hash<H: Hasher>(&self, h: &mut H) {
        self.suit.hash(h);
        self.rank.hash(h);
        self.face_up.hash(h);
        self.deck_id.hash(h);
    }
}

fn key(c: &Card) -> CardKey {
    let suit: isize = match c.suit {
        Suit::Spades => 0,
        Suit::Hearts => 1,
        Suit::Diamonds => 2,
        Suit::Clubs => 3,
    };
    CardKey { suit, rank: c.rank.as_u8(), face_up: c.face_up, deck_id: c.deck_id }
}

fn deal_hash(piles: &PileSet) -> u64 {
    let mut h = DefaultHasher::new();
    for pile in piles.as_slice() {
        pile.id.hash(&mut h);
        pile.cards.len().hash(&mut h);
        let keys: Vec<CardKey> = pile.cards.iter().map(key).collect();
        keys.hash(&mut h);
    }
    h.finish()
}

#[test]
fn klondike_seed_42_deal_is_stable() {
    let s = GameSession::new(Klondike::with_draw_count(1), 42);
    assert_eq!(deal_hash(&s.piles), 9_163_243_335_169_517_362, "Klondike seed=42 deal hash drifted");
}

#[test]
fn freecell_random_seed_99_deal_is_stable() {
    let s = GameSession::new(FreeCell::new(), 99);
    assert_eq!(deal_hash(&s.piles), 1_276_558_292_901_738_601, "FreeCell seed=99 random-mode deal hash drifted");
}

#[test]
fn freecell_ms_game_1_deal_is_stable() {
    let s = GameSession::new(FreeCell::with_ms_game_number(1), 1);
    assert_eq!(deal_hash(&s.piles), 4_384_499_236_828_697_820, "Microsoft FreeCell Game #1 deal hash drifted");
}

#[test]
fn freecell_ms_game_617_deal_is_stable() {
    let s = GameSession::new(FreeCell::with_ms_game_number(617), 617);
    assert_eq!(deal_hash(&s.piles), 3_109_503_398_623_144_311, "Microsoft FreeCell Game #617 deal hash drifted");
}

#[test]
fn spider_four_suit_seed_7_deal_is_stable() {
    let s = GameSession::new(Spider::four_suit(), 7);
    assert_eq!(deal_hash(&s.piles), 14_465_209_736_344_745_356, "Spider 4-suit seed=7 deal hash drifted");
}
