//! What a player is currently doing.
use vstd::prelude::*;

verus! {

pub const NORMAL: u8 = 0;

pub const ATTACK: u8 = 1;

pub const HURT: u8 = 2;

pub const LIFT: u8 = 3;

pub const THROW: u8 = 4;

pub const JUMP: u8 = 5;

pub const SWIM: u8 = 6;

pub const FALL: u8 = 7;

pub const DEAD: u8 = 8;

pub const WARP: u8 = 9;

} // verus!
