//! User-interface building blocks that carry no window-system state.

use vstd::prelude::*;

verus! {

/// A mouse button.
#[derive(PartialEq, Eq, Structural, Clone, Debug)]
pub enum MouseButton {
    Left,
    Right,
}

/// Whether a button went down or came up.
#[derive(PartialEq, Eq, Structural, Debug, Clone)]
pub enum ButtonState {
    Press,
    Release,
}

/// Which modifier keys are held.
pub struct KeyboardState {
    pub shift_pressed: bool,
    pub ctrl_pressed: bool,
}

/// An axis-aligned rectangle of screen space.
#[derive(Debug, Clone)]
pub struct UiArea {
    pub x: i32,
    pub y: i32,
    pub w: i32,
    pub h: i32,
}

impl UiArea {
    pub fn new(x: i32, y: i32, w: i32, h: i32) -> (r: UiArea)
        ensures
            r.x == x && r.y == y && r.w == w && r.h == h,
    {
        UiArea { x, y, w, h }
    }

    /// Whether the point lies inside the rectangle.
    pub fn contains(&self, x: i32, y: i32) -> (r: bool)
        requires
            i32::MIN <= self.x + self.w <= i32::MAX,
            i32::MIN <= self.y + self.h <= i32::MAX,
        ensures
            r == (self.x <= x && self.y <= y && x < self.x + self.w && y < self.y + self.h),
    {
        x >= self.x && y >= self.y && x < self.x + self.w && y < self.y + self.h
    }
}

} // verus!
