//! Tile ids. These are persisted in save data and sent over the wire, so the
//! numeric values must not be reordered.
use vstd::prelude::*;
use super::Tile;

verus! {

pub const VOID: Tile = 0;
pub const GRASS: Tile = 1;
pub const GRASS_TALL: Tile = 2;
pub const FLOWERS: Tile = 3;
pub const SAND: Tile = 4;
pub const PATH: Tile = 5;
pub const FLOOR: Tile = 6;
pub const CARPET: Tile = 7;
pub const BRIDGE: Tile = 8;

pub const WATER: Tile = 16;
pub const WATER_SHALLOW: Tile = 17;
pub const LAVA: Tile = 18;
pub const PIT: Tile = 19;

pub const BUSH: Tile = 32;
pub const ROCK: Tile = 33;
pub const TREE: Tile = 34;
pub const WALL: Tile = 35;
pub const CLIFF: Tile = 36;
pub const WALL_DUNGEON: Tile = 37;
pub const WALL_CRACKED: Tile = 38;
pub const BLOCK: Tile = 39;
pub const STATUE: Tile = 40;
pub const POT: Tile = 41;
pub const SIGN: Tile = 42;

pub const DOOR_OPEN: Tile = 48;
pub const DOOR_SHUT: Tile = 49;
pub const DOOR_LOCKED: Tile = 50;
pub const DOOR_BOSS: Tile = 51;
pub const STAIRS_DOWN: Tile = 52;
pub const STAIRS_UP: Tile = 53;
pub const WARP: Tile = 54;

pub const LEDGE_DOWN: Tile = 64;
pub const LEDGE_UP: Tile = 65;
pub const LEDGE_LEFT: Tile = 66;
pub const LEDGE_RIGHT: Tile = 67;

/// One past the highest id, i.e. the size of the tile tables.
pub const COUNT: usize = 128;

} // verus!
