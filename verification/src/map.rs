//! Map object bookkeeping types.

use vstd::prelude::*;

verus! {

/// What happens to a map object when its movement ends.
#[derive(PartialEq, Eq, Structural)]
pub enum MoveEndAction {
    Nothing,
    RemoveFromMap,
    PickItemsUp,
}

/// What a map object's update step requests.
#[derive(PartialEq, Eq, Structural)]
pub enum UpdateAction {
    Nothing,
    RemoveFromMap,
    EmitDriveParticles,
}

/// The coarse kind of a map object.
#[derive(PartialEq, Eq, Structural, Clone, Copy)]
pub enum MobType {
    MapObject,
    Player,
    Creature,
    PlayerProjectile,
    CreatureProjectile,
}

} // verus!
