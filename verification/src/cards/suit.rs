//! Suit and card colour.

use vstd::prelude::*;

verus! {

#[derive(Clone, Copy, Debug, PartialEq, Eq, Hash, Structural)]
pub enum Suit {
    Spades,
    Hearts,
    Diamonds,
    Clubs,
}

#[derive(Clone, Copy, Debug, PartialEq, Eq, Hash, Structural)]
pub enum CardColor {
    Red,
    Black,
}

/// Hearts and Diamonds are red; Spades and Clubs are black.
pub open spec fn color_of(s: Suit) -> CardColor {
    match s {
        Suit::Hearts | Suit::Diamonds => CardColor::Red,
        Suit::Spades | Suit::Clubs => CardColor::Black,
    }
}

/// The suits in deck order: Spades, Hearts, Diamonds, Clubs.
pub open spec fn suit_at(i: int) -> Suit {
    if i == 0 {
        Suit::Spades
    } else if i == 1 {
        Suit::Hearts
    } else if i == 2 {
        Suit::Diamonds
    } else {
        Suit::Clubs
    }
}

/// Position of a suit in deck order (inverse of `suit_at`).
pub open spec fn suit_index(s: Suit) -> int {
    match s {
        Suit::Spades => 0,
        Suit::Hearts => 1,
        Suit::Diamonds => 2,
        Suit::Clubs => 3,
    }
}

/// Unicode code point of the suit's pip glyph.
pub open spec fn glyph_of(s: Suit) -> char {
    match s {
        Suit::Spades => '\u{2660}',
        Suit::Hearts => '\u{2665}',
        Suit::Diamonds => '\u{2666}',
        Suit::Clubs => '\u{2663}',
    }
}

impl Suit {
    pub fn color(self) -> (c: CardColor)
        ensures
            c == color_of(self),
    {
        match self {
            Suit::Hearts | Suit::Diamonds => CardColor::Red,
            Suit::Spades | Suit::Clubs => CardColor::Black,
        }
    }

    /// Unicode glyph for the suit pip.
    pub fn glyph(self) -> (g: char)
        ensures
            g == glyph_of(self),
    {
        match self {
            Suit::Spades => '\u{2660}',
            Suit::Hearts => '\u{2665}',
            Suit::Diamonds => '\u{2666}',
            Suit::Clubs => '\u{2663}',
        }
    }

    /// Suit at position `i` of the deck order Spades, Hearts, Diamonds, Clubs.
    pub fn from_index(i: usize) -> (s: Suit)
        requires
            i < 4,
        ensures
            s == suit_at(i as int),
            suit_index(s) == i,
    {
        if i == 0 {
            Suit::Spades
        } else if i == 1 {
            Suit::Hearts
        } else if i == 2 {
            Suit::Diamonds
        } else {
            Suit::Clubs
        }
    }
}

/// Exec equality on suits.
pub fn suit_eq(a: Suit, b: Suit) -> (r: bool)
    ensures
        r == (a == b),
{
    a == b
}

/// Exec equality on colours.
pub fn color_eq(a: CardColor, b: CardColor) -> (r: bool)
    ensures
        r == (a == b),
{
    a == b
}

} // verus!
