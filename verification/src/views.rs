//! Screen views over game data.

use vstd::prelude::*;

verus! {

/// The container-inventory view; it carries no state of its own.
pub struct InventoryView {
}

impl InventoryView {
    pub fn new() -> (r: InventoryView) {
        InventoryView {  }
    }
}

} // verus!
