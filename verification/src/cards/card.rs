//! `Card`: suit, rank, face-up flag and deck id.

use vstd::prelude::*;

use super::rank::Rank;
use super::suit::Suit;

verus! {

#[derive(Clone, Copy, Debug, PartialEq, Eq, Hash, Structural)]
pub struct Card {
    pub suit: Suit,
    pub rank: Rank,
    pub face_up: bool,
    /// Which deck the card came from: `0` for single-deck games,
    /// `0..N` for Spider variants built from several decks.
    pub deck_id: u8,
}

/// `c` with its face-up flag set to `up`.
pub open spec fn with_face(c: Card, up: bool) -> Card {
    Card { face_up: up, ..c }
}

impl Card {
    pub fn new(suit: Suit, rank: Rank) -> (c: Card)
        ensures
            c == (Card { suit, rank, face_up: false, deck_id: 0 }),
    {
        Card { suit, rank, face_up: false, deck_id: 0 }
    }

    pub fn face_up(self) -> (c: Card)
        ensures
            c == with_face(self, true),
    {
        Card { face_up: true, ..self }
    }

    pub fn flip(&mut self)
        ensures
            *final(self) == with_face(*old(self), !old(self).face_up),
    {
        self.face_up = !self.face_up;
    }
}

/// Exec equality on cards.
pub fn card_eq(a: &Card, b: &Card) -> (r: bool)
    ensures
        r == (*a == *b),
{
    *a == *b
}

} // verus!
