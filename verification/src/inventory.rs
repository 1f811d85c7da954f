//! Inventory bookkeeping types.

use vstd::prelude::*;

verus! {

/// Where an item can sit: on the cursor, in a container, or equipped.
#[derive(PartialEq, Eq, Structural, Debug, Hash, Clone, Copy)]
pub enum Slot {
    OnCursor,
    Bag,
    Stash,
    Head,
    Body,
    LHand,
    RHand,
    Amulet,
    LRing,
    RRing,
}

/// Describes where one owned item sits.
pub struct Entry {
    pub item_id: u64,
    pub slot: Slot,
    pub location_x: i32,
    pub location_y: i32,
}

} // verus!
