//! Piles: a stack of cards with a kind and a layout style, and the set of
//! piles that makes up one game board. Screen geometry (origins, card size,
//! fan offsets) is the embedding program's concern; a pile carries only an
//! integer `column_order` standing for its left-to-right screen position.

pub mod pile;
pub mod set;

pub use pile::{HitResult, Pile, PileKind, PileLayout, PileMeta};
pub use set::PileSet;

use vstd::prelude::*;

verus! {

/// Index of a pile within a `PileSet`.
pub type PileId = u8;

} // verus!
