//! Sound effect identifiers.

use vstd::prelude::*;

verus! {

/// The sound effects the game can play.
#[derive(PartialEq, Eq, Structural, Debug, Clone, Copy)]
pub enum Sound {
    Click,
    FireballLaunch,
    FireballHit,
}

} // verus!
