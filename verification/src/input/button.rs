//! Button bits. Matches the Game Boy layout plus a pause bit.
use vstd::prelude::*;

verus! {

pub const UP: u16 = 1;
pub const DOWN: u16 = 2;
pub const LEFT: u16 = 4;
pub const RIGHT: u16 = 8;
/// Sword / confirm, the "A" button.
pub const A: u16 = 16;
/// Secondary item, the "B" button.
pub const B: u16 = 32;
pub const START: u16 = 64;
pub const SELECT: u16 = 128;

pub const DPAD: u16 = 15;

} // verus!
