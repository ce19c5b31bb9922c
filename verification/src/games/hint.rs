//! The hint a variant offers for its Hint button.

use vstd::prelude::*;

verus! {

#[derive(Clone, Copy, Debug, PartialEq, Eq, Structural)]
pub enum Hint {
    /// Pick up `take` cards starting at `start_idx` of pile `from` and drop
    /// them on pile `to`.
    Move { from: u8, start_idx: usize, take: u8, to: u8 },
    /// Click the named stock pile to advance (deal a row, or draw).
    StockDeal { stock: u8 },
}

} // verus!
