//! Map-object animations.

use vstd::prelude::*;

verus! {

/// The animation of objects that do not move at all.
pub struct NoAnimation {
}

} // verus!
