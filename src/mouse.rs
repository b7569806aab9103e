//! Button state of the pointer that drags the left wall.
use vstd::prelude::*;

verus! {

/// Whether the left button is pressed now, and whether it was pressed at
/// the previous tick.
pub struct Mouse {
    pub pressed: bool,
    hold: bool,
}

impl Mouse {
    /// The button state now.
    pub closed spec fn down(&self) -> bool {
        self.pressed
    }

    /// The button state seen at the previous tick.
    pub closed spec fn held(&self) -> bool {
        self.hold
    }

    /// A released button that was not pressed before.
    pub fn new() -> (m: Mouse)
        ensures
            !m.down(),
            !m.held(),
    {
        Mouse { pressed: false, hold: false }
    }

    /// Ends a tick: the current state becomes the previous one.
    pub fn update_hold(&mut self)
        ensures
            final(self).down() == old(self).down(),
            final(self).held() == old(self).down(),
    {
        self.hold = self.pressed;
    }

    /// The button is pressed and was already pressed at the previous tick.
    pub fn is_holding(&self) -> (r: bool)
        ensures
            r == (self.down() && self.held()),
    {
        self.pressed && self.hold
    }

    /// The button went down during this tick.
    pub fn is_down(&self) -> (r: bool)
        ensures
            r == (self.down() && !self.held()),
    {
        self.pressed && !self.hold
    }
}

} // verus!
