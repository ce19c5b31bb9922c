//! Cards, suits, ranks and deck construction.

pub mod card;
pub mod deck;
pub mod rank;
pub mod suit;

pub use card::Card;
pub use deck::{shuffled_seeded, spider_deck, standard_deck};
pub use rank::Rank;
pub use suit::{CardColor, Suit};
