//! Pixel work on card sprites that needs no rasterizer: where each card
//! sits in the deck artwork, and the passes that finish a rasterized
//! sprite.

pub mod svg_deck;
