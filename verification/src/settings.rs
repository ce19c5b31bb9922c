//! The Options-menu choices that persist across launches. Storing and
//! reading them is the application's business; the library owns the
//! record and its defaults.

use vstd::prelude::*;

use crate::cards::suit::Suit;

verus! {

/// Key under which the settings are stored, versioned so that a format
/// change shows up as a parse failure.
pub const STORAGE_KEY: &'static str = "solitaire:settings:v1";

#[derive(Clone, Copy, Debug, PartialEq, Eq, Structural)]
pub struct UserSettings {
    pub klondike_draw_count: u8,
    pub spider_suit_count: u8,
    pub spider_one_suit: Suit,
}

impl Default for UserSettings {
    /// One-card draw, one-suit Spider in Spades.
    fn default() -> (s: UserSettings)
        ensures
            s == (UserSettings { klondike_draw_count: 1, spider_suit_count: 1, spider_one_suit: Suit::Spades }),
    {
        UserSettings { klondike_draw_count: 1, spider_suit_count: 1, spider_one_suit: Suit::Spades }
    }
}

} // verus!
