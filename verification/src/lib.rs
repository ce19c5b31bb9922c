//! Game logic for four solitaire variants (Klondike, FreeCell, Spider and
//! Mom's Solitaire): cards, piles, moves with undo, the rules of each
//! variant, deal generators, hint rankers and solvers.

pub mod branding;
pub mod cards;
pub mod clock;
pub mod rng;
pub mod piles;
pub mod render;
pub mod session;
pub mod settings;
pub mod games;
