//! Logical terrain tiles.
//!
//! The map stores *meaning* ("this is a bush"), never appearance. How a bush
//! looks is decided by the asset pack, so swapping in tiles ripped from a ROM
//! changes the look of a world without changing how it plays.
use vstd::prelude::*;
use crate::geom::Dir;

pub mod flag;
pub mod tile;

verus! {

/// A logical tile id as stored in [`crate::level::Map`].
pub type Tile = u8;

/// Behaviour bits of a tile id below [`tile::COUNT`].
pub open spec fn flag_table(t: int) -> u16 {
    if t == tile::VOID {
        513 /* SOLID | TALL */
    } else if t == tile::GRASS_TALL {
        1032 /* CUTTABLE | SLOW */
    } else if t == tile::WATER {
        2 /* WATER */
    } else if t == tile::WATER_SHALLOW {
        1024 /* SLOW */
    } else if t == tile::LAVA {
        258 /* HARMFUL | WATER */
    } else if t == tile::PIT {
        4 /* PIT */
    } else if t == tile::BUSH {
        8217 /* SOLID | CUTTABLE | LIFTABLE | LOW */
    } else if t == tile::ROCK {
        8209 /* SOLID | LIFTABLE | LOW */
    } else if t == tile::TREE || t == tile::WALL || t == tile::CLIFF || t == tile::WALL_DUNGEON
        || t == tile::DOOR_SHUT {
        513 /* SOLID | TALL */
    } else if t == tile::WALL_CRACKED {
        545 /* SOLID | TALL | BOMBABLE */
    } else if t == tile::BLOCK {
        8257 /* SOLID | PUSHABLE | LOW */
    } else if t == tile::STATUE {
        8193 /* SOLID | LOW */
    } else if t == tile::POT || t == tile::SIGN {
        8209 /* SOLID | LIFTABLE | LOW */
    } else if t == tile::DOOR_LOCKED || t == tile::DOOR_BOSS {
        4609 /* SOLID | TALL | LOCKED */
    } else if t == tile::STAIRS_DOWN || t == tile::STAIRS_UP || t == tile::WARP {
        128 /* TRANSITION */
    } else if t == tile::LEDGE_DOWN || t == tile::LEDGE_UP || t == tile::LEDGE_LEFT || t
        == tile::LEDGE_RIGHT {
        2048 /* LEDGE */
    } else {
        0
    }
}

/// Behaviour bits for any tile id: ids wrap round the table.
pub open spec fn flags_spec(t: u8) -> u16 {
    flag_table(t as int % 128)
}

/// Looks one id up in the table.
fn table_entry(t: u8) -> (r: u16)
    requires
        t < 128,
    ensures
        r == flag_table(t as int),
{
    assert({
        &&& flag::SOLID | flag::TALL == 513u16
        &&& flag::CUTTABLE | flag::SLOW == 1032u16
        &&& flag::HARMFUL | flag::WATER == 258u16
        &&& flag::SOLID | flag::CUTTABLE | flag::LIFTABLE | flag::LOW == 8217u16
        &&& flag::SOLID | flag::LIFTABLE | flag::LOW == 8209u16
        &&& flag::SOLID | flag::TALL | flag::BOMBABLE == 545u16
        &&& flag::SOLID | flag::PUSHABLE | flag::LOW == 8257u16
        &&& flag::SOLID | flag::LOW == 8193u16
        &&& flag::SOLID | flag::TALL | flag::LOCKED == 4609u16
    }) by (bit_vector);
    if t == tile::VOID {
        flag::SOLID | flag::TALL
    } else if t == tile::GRASS_TALL {
        flag::CUTTABLE | flag::SLOW
    } else if t == tile::WATER {
        flag::WATER
    } else if t == tile::WATER_SHALLOW {
        flag::SLOW
    } else if t == tile::LAVA {
        flag::HARMFUL | flag::WATER
    } else if t == tile::PIT {
        flag::PIT
    } else if t == tile::BUSH {
        flag::SOLID | flag::CUTTABLE | flag::LIFTABLE | flag::LOW
    } else if t == tile::ROCK {
        flag::SOLID | flag::LIFTABLE | flag::LOW
    } else if t == tile::TREE || t == tile::WALL || t == tile::CLIFF || t == tile::WALL_DUNGEON
        || t == tile::DOOR_SHUT {
        flag::SOLID | flag::TALL
    } else if t == tile::WALL_CRACKED {
        flag::SOLID | flag::TALL | flag::BOMBABLE
    } else if t == tile::BLOCK {
        flag::SOLID | flag::PUSHABLE | flag::LOW
    } else if t == tile::STATUE {
        flag::SOLID | flag::LOW
    } else if t == tile::POT || t == tile::SIGN {
        flag::SOLID | flag::LIFTABLE | flag::LOW
    } else if t == tile::DOOR_LOCKED || t == tile::DOOR_BOSS {
        flag::SOLID | flag::TALL | flag::LOCKED
    } else if t == tile::STAIRS_DOWN || t == tile::STAIRS_UP || t == tile::WARP {
        flag::TRANSITION
    } else if t == tile::LEDGE_DOWN || t == tile::LEDGE_UP || t == tile::LEDGE_LEFT || t
        == tile::LEDGE_RIGHT {
        flag::LEDGE
    } else {
        0
    }
}

/// The whole behaviour table, one entry per tile id.
pub fn build_flags() -> (f: Vec<u16>)
    ensures
        f.len() == tile::COUNT,
        forall|i: int| 0 <= i < 128 ==> f[i] == flag_table(i),
{
    let mut f: Vec<u16> = Vec::new();
    let mut i: u8 = 0;
    while i < 128
        invariant
            i <= 128,
            f.len() == i,
            forall|k: int| 0 <= k < i ==> f[k] == flag_table(k),
        decreases 128 - i,
    {
        f.push(table_entry(i));
        i += 1;
    }
    f
}

/// Behaviour bits for a tile id.
pub fn flags(t: Tile) -> (r: u16)
    ensures
        r == flags_spec(t),
{
    let i: u8 = t & 127;
    assert(i == t % 128) by (bit_vector)
        requires
            i == t & 127,
    ;
    table_entry(i)
}

/// True when the tile has every bit in `mask`.
pub fn has(t: Tile, mask: u16) -> (r: bool)
    ensures
        r == (flags_spec(t) & mask == mask),
{
    flags(t) & mask == mask
}

/// True when the tile has any bit in `mask`.
pub fn any(t: Tile, mask: u16) -> (r: bool)
    ensures
        r == (flags_spec(t) & mask != 0),
{
    flags(t) & mask != 0
}

/// True when a walking entity is blocked by this tile.
pub open spec fn blocks_walk_spec(t: Tile) -> bool {
    flags_spec(t) & flag::SOLID != 0
}

/// True when a flying or thrown entity is blocked by this tile.
pub open spec fn blocks_flight_spec(t: Tile) -> bool {
    flags_spec(t) & flag::TALL != 0
}

/// True when a walking entity is blocked by this tile.
pub fn blocks_walk(t: Tile) -> (r: bool)
    ensures
        r == blocks_walk_spec(t),
{
    any(t, flag::SOLID)
}

/// True when a flying or thrown entity is blocked by this tile.
pub fn blocks_flight(t: Tile) -> (r: bool)
    ensures
        r == blocks_flight_spec(t),
{
    any(t, flag::TALL)
}

/// What a tile turns into once it is cut, lifted or blown up.
pub open spec fn destroyed_spec(t: Tile) -> Tile {
    if t == tile::BUSH || t == tile::GRASS_TALL || t == tile::POT || t == tile::SIGN {
        tile::GRASS
    } else if t == tile::ROCK {
        tile::PATH
    } else if t == tile::WALL_CRACKED {
        tile::FLOOR
    } else {
        t
    }
}

/// What a tile turns into once it is cut, lifted or blown up.
pub fn destroyed(t: Tile) -> (r: Tile)
    ensures
        r == destroyed_spec(t),
{
    if t == tile::BUSH || t == tile::GRASS_TALL || t == tile::POT || t == tile::SIGN {
        tile::GRASS
    } else if t == tile::ROCK {
        tile::PATH
    } else if t == tile::WALL_CRACKED {
        tile::FLOOR
    } else {
        t
    }
}

/// The direction a ledge drops towards, if it is one.
pub fn ledge_dir(t: Tile) -> (r: Option<Dir>)
    ensures
        t == tile::LEDGE_DOWN ==> r == Some(Dir::Down),
        t == tile::LEDGE_UP ==> r == Some(Dir::Up),
        t == tile::LEDGE_LEFT ==> r == Some(Dir::Left),
        t == tile::LEDGE_RIGHT ==> r == Some(Dir::Right),
        !(tile::LEDGE_DOWN <= t <= tile::LEDGE_RIGHT) ==> r.is_none(),
{
    if t == tile::LEDGE_DOWN {
        Some(Dir::Down)
    } else if t == tile::LEDGE_UP {
        Some(Dir::Up)
    } else if t == tile::LEDGE_LEFT {
        Some(Dir::Left)
    } else if t == tile::LEDGE_RIGHT {
        Some(Dir::Right)
    } else {
        None
    }
}

/// Destroying a tile is final: what is left cannot be destroyed further.
pub proof fn lemma_destroyed_is_stable(t: Tile)
    ensures
        destroyed_spec(destroyed_spec(t)) == destroyed_spec(t),
{
}

/// Every tile below [`tile::COUNT`] that can be cut, lifted or bombed leaves
/// something walkable once destroyed.
pub proof fn lemma_destroyed_is_walkable(t: Tile)
    requires
        t < 128,
        flags_spec(t) & 56u16 != 0,
    ensures
        !blocks_walk_spec(destroyed_spec(t)),
{
    assert(flag::CUTTABLE | flag::LIFTABLE | flag::BOMBABLE == 56u16) by (bit_vector);
    assert(t as int % 128 == t as int);
    let f = flag_table(t as int);
    assert(f == 1032 || f == 8217 || f == 8209 || f == 545) by {
        assert({
            &&& (513u16 & 56u16) == 0u16
            &&& (2u16 & 56u16) == 0u16
            &&& (1024u16 & 56u16) == 0u16
            &&& (258u16 & 56u16) == 0u16
            &&& (4u16 & 56u16) == 0u16
            &&& (8257u16 & 56u16) == 0u16
            &&& (8193u16 & 56u16) == 0u16
            &&& (4609u16 & 56u16) == 0u16
            &&& (128u16 & 56u16) == 0u16
            &&& (2048u16 & 56u16) == 0u16
            &&& (0u16 & 56u16) == 0u16
        }) by (bit_vector);
    }
    let d = destroyed_spec(t);
    assert(d == tile::GRASS || d == tile::PATH || d == tile::FLOOR);
    assert(flags_spec(d) == 0);
    assert((0u16 & 1u16) == 0u16) by (bit_vector);
}

} // verus!
