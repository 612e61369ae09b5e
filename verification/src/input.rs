//! Per-player input.
//!
//! Input is the only thing that enters the simulation from outside, which is
//! what makes lockstep multiplayer possible: the same input stream replayed
//! against the same seed always produces the same world.
use vstd::prelude::*;

pub mod button;

verus! {

/// One frame of input for one player.
#[derive(Clone, Copy, PartialEq, Eq, Debug, Default, Structural)]
pub struct Input {
    /// Buttons held this frame.
    pub buttons: u16,
    /// Buttons held on the previous frame, used for edge detection.
    pub prev: u16,
}

/// The -1, 0 or 1 that a pair of opposing buttons gives.
pub open spec fn axis(neg: bool, pos: bool) -> int {
    if neg && !pos {
        -1
    } else if pos && !neg {
        1
    } else {
        0
    }
}

impl Input {
    pub open spec fn held_spec(self, b: u16) -> bool {
        self.buttons & b != 0
    }

    /// Builds an input frame for a fresh press state.
    pub fn new(buttons: u16) -> (r: Input)
        ensures
            r == (Input { buttons, prev: 0 }),
    {
        Input { buttons, prev: 0 }
    }

    /// Advances to a new button state, keeping the previous one for edges.
    pub fn advance(&mut self, buttons: u16)
        ensures
            final(self).prev == old(self).buttons,
            final(self).buttons == buttons,
    {
        self.prev = self.buttons;
        self.buttons = buttons;
    }

    /// True while the button is held.
    pub fn held(&self, b: u16) -> (r: bool)
        ensures
            r == self.held_spec(b),
    {
        self.buttons & b != 0
    }

    /// True only on the frame the button goes down.
    pub fn pressed(&self, b: u16) -> (r: bool)
        ensures
            r == (self.buttons & b != 0 && self.prev & b == 0),
    {
        self.buttons & b != 0 && self.prev & b == 0
    }

    /// True only on the frame the button comes up.
    pub fn released(&self, b: u16) -> (r: bool)
        ensures
            r == (self.buttons & b == 0 && self.prev & b != 0),
    {
        self.buttons & b == 0 && self.prev & b != 0
    }

    /// Horizontal axis as -1, 0 or 1.
    pub fn axis_x(&self) -> (r: i32)
        ensures
            r == axis(self.held_spec(button::LEFT), self.held_spec(button::RIGHT)),
    {
        let l = self.held(button::LEFT);
        let rt = self.held(button::RIGHT);
        if l && !rt {
            -1
        } else if rt && !l {
            1
        } else {
            0
        }
    }

    /// Vertical axis as -1, 0 or 1.
    pub fn axis_y(&self) -> (r: i32)
        ensures
            r == axis(self.held_spec(button::UP), self.held_spec(button::DOWN)),
    {
        let u = self.held(button::UP);
        let d = self.held(button::DOWN);
        if u && !d {
            -1
        } else if d && !u {
            1
        } else {
            0
        }
    }
}

/// A button pressed on one frame and still held on the next is no longer
/// "pressed": a press is an edge, seen once.
pub proof fn lemma_press_is_an_edge(i: Input, b: u16, next: u16)
    requires
        i.buttons & b != 0,
        next & b != 0,
    ensures
        !((Input { buttons: next, prev: i.buttons }).buttons & b != 0 && (Input {
            buttons: next,
            prev: i.buttons,
        }).prev & b == 0),
{
}

} // verus!
