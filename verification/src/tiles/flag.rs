//! Terrain behaviour bits.
use vstd::prelude::*;

verus! {

/// Blocks walking entities.
pub const SOLID: u16 = 1;
/// Deep water: swimmable, drowns anyone without flippers.
pub const WATER: u16 = 2;
/// A hole to fall into.
pub const PIT: u16 = 4;
/// Can be cut down with a sword.
pub const CUTTABLE: u16 = 8;
/// Can be picked up with the power bracelet.
pub const LIFTABLE: u16 = 16;
/// Destroyed by a bomb blast.
pub const BOMBABLE: u16 = 32;
/// Can be pushed one square.
pub const PUSHABLE: u16 = 64;
/// Changes level when stepped on.
pub const TRANSITION: u16 = 128;
/// Hurts on contact.
pub const HARMFUL: u16 = 256;
/// Blocks flying and thrown things as well as walkers.
pub const TALL: u16 = 512;
/// Slows movement (shallow water, tall grass).
pub const SLOW: u16 = 1024;
/// A one-way drop; walkable but you hop down it.
pub const LEDGE: u16 = 2048;
/// Needs a small key.
pub const LOCKED: u16 = 4096;
/// Projectiles pass over it even though walkers cannot pass.
pub const LOW: u16 = 8192;

} // verus!
