//! Classic: Microsoft-style Klondike with 3-card draw.

use vstd::prelude::*;

use super::klondike::Klondike;

verus! {

pub fn rules() -> (k: Klondike)
    ensures
        k.draw_count == 3,
{
    Klondike::classic()
}

} // verus!
