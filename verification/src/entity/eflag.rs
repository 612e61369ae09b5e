//! Per-entity behaviour bits.
use vstd::prelude::*;

verus! {

/// Takes damage from player weapons.
pub const VULNERABLE: u32 = 1;
/// Hurts players on contact.
pub const TOUCH_HURTS: u32 = 2;
/// Ignores terrain collision.
pub const GHOST: u32 = 4;
/// Flies: passes over pits and water, blocked only by tall terrain.
pub const FLYING: u32 = 8;
/// Pushed around by other bodies.
pub const SOLID_BODY: u32 = 16;
/// Removed when its room is far from every player.
pub const DESPAWN_FAR: u32 = 32;
/// Dies when it hits terrain.
pub const DIE_ON_WALL: u32 = 64;
/// Belongs to a player, so it should not hurt players.
pub const PLAYER_OWNED: u32 = 128;
/// Drawn behind everything else (shadows, floor effects).
pub const FLOOR_LAYER: u32 = 256;
/// Currently airborne; `z` is above zero.
pub const AIRBORNE: u32 = 512;
/// A boss: bigger, immune to knockback, drives its own room state.
pub const BOSS: u32 = 1024;
/// Under the control of a human player rather than the AI.
pub const POSSESSED: u32 = 2048;

} // verus!
