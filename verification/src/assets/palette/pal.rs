//! Indices into the built-in palette table. Art refers to palettes by name so
//! that an imported tileset can recolour everything at once.
use vstd::prelude::*;

verus! {

pub const GRASS: u8 = 0;
pub const EARTH: u8 = 1;
pub const WATER: u8 = 2;
pub const STONE: u8 = 3;
pub const DUNGEON: u8 = 4;
pub const HERO: u8 = 5;
pub const ENEMY_RED: u8 = 6;
pub const ENEMY_BLUE: u8 = 7;
pub const ENEMY_GREEN: u8 = 8;
pub const BONE: u8 = 9;
pub const GOLD: u8 = 10;
pub const HEART: u8 = 11;
pub const HUD: u8 = 12;
pub const SHADE: u8 = 13;
pub const FIRE: u8 = 14;
pub const BOSS: u8 = 15;
pub const COUNT: usize = 16;

} // verus!
