//! Overworld generation.
//!
//! The land itself comes from noise, so coastlines and forests look like they
//! grew rather than being laid out on a grid. Getting around is provided
//! separately: a room graph decides which screens connect, and paths are then
//! carved along those connections, bridging water and cutting through trees.
use vstd::prelude::*;
use crate::entity::Kind;
use crate::geom::{Dir, V2, dir_step};
use crate::level::{Level, LevelKind, Room, RoomKind, Spawn, TileMap, ROOM_H, ROOM_W, TILE_PX, free_spot};
use crate::rng::Rng;
use crate::tiles::{self, flag, tile, Tile};
use crate::gen::graph::{carve, RoomGraph};
use crate::gen::noise;
use crate::gen::dungeon::{fits_graph, paint, spawns_free, exit_bits, MAX_ROOMS};

verus! {

/// Where a staircase leads out of the overworld.
#[derive(Clone, Copy, Debug)]
pub struct Entrance {
    /// Tile coordinates of the staircase.
    pub tx: i32,
    pub ty: i32,
    /// Which room it sits in.
    pub room: (i32, i32),
}

/// A generated overworld and the staircases waiting to be hooked up.
pub struct Overworld {
    pub level: Level,
    pub graph: RoomGraph,
    pub dungeon_entrances: Vec<Entrance>,
}

/// Mixed into the seed so the overworld and the dungeons draw different
/// numbers from the same world seed.
pub const OVERWORLD_TAG: u64 = 0xa1b2_c3d4_e5f6_0717;

/// Centre tile of a room.
pub fn room_center_tile(room: (i32, i32)) -> (r: (i32, i32))
    requires
        -0x100_0000 <= room.0 <= 0x100_0000,
        -0x100_0000 <= room.1 <= 0x100_0000,
    ensures
        r.0 == room.0 * 10 + 5,
        r.1 == room.1 * 8 + 4,
{
    (room.0 * ROOM_W + ROOM_W / 2, room.1 * ROOM_H + ROOM_H / 2)
}

/// The terrain for an elevation, a moisture and a detail sample (each
/// `0..1024`, elevation lowered near the edge): sea, shore and mountain by
/// elevation; woods, meadow, dry ground or grassland by moisture, broken up
/// by the detail sample.
pub open spec fn terrain_for(elev: int, moist: int, detail: int) -> Tile {
    if elev < 250 {
        tile::WATER
    } else if elev < 305 {
        tile::WATER_SHALLOW
    } else if elev < 345 {
        tile::SAND
    } else if elev > 820 {
        tile::CLIFF
    } else if elev > 770 {
        tile::ROCK
    } else if moist > 660 {
        if detail > 280 { tile::TREE } else { tile::GRASS_TALL }
    } else if moist > 520 {
        if detail > 600 { tile::GRASS_TALL } else if detail < 60 { tile::BUSH } else { tile::GRASS }
    } else if moist < 300 {
        if detail > 520 { tile::SAND } else if detail < 70 { tile::ROCK } else { tile::GRASS }
    } else if 820 <= detail < 870 {
        tile::FLOWERS
    } else if detail > 960 {
        tile::BUSH
    } else if detail < 40 {
        tile::ROCK
    } else {
        tile::GRASS
    }
}

/// See [`terrain_for`].
fn terrain(elev: i32, moist: i32, detail: i32) -> (t: Tile)
    ensures
        t == terrain_for(elev as int, moist as int, detail as int),
{
    if elev < 250 {
        tile::WATER
    } else if elev < 305 {
        tile::WATER_SHALLOW
    } else if elev < 345 {
        tile::SAND
    } else if elev > 820 {
        tile::CLIFF
    } else if elev > 770 {
        tile::ROCK
    } else if moist > 660 {
        if detail > 280 { tile::TREE } else { tile::GRASS_TALL }
    } else if moist > 520 {
        if detail > 600 { tile::GRASS_TALL } else if detail < 60 { tile::BUSH } else { tile::GRASS }
    } else if moist < 300 {
        if detail > 520 { tile::SAND } else if detail < 70 { tile::ROCK } else { tile::GRASS }
    } else if 820 <= detail && detail < 870 {
        tile::FLOWERS
    } else if detail > 960 {
        tile::BUSH
    } else if detail < 40 {
        tile::ROCK
    } else {
        tile::GRASS
    }
}

/// A level small enough for the generator's arithmetic.
pub open spec fn small_level(level: Level) -> bool {
    &&& level.wf()
    &&& level.map.rw() <= MAX_ROOMS
    &&& level.map.rh() <= MAX_ROOMS
}

/// The terrain at `(tx, ty)` of a `w` by `h` map painted from `seed`: the
/// elevation noise lowered within three tiles of the edge, then
/// [`terrain_for`].
pub open spec fn terrain_at(seed: u64, w: int, h: int, tx: int, ty: int) -> Tile {
    let elev0 = noise::fractal_spec(seed ^ 0x11, tx as i32, ty as i32, 22);
    let moist = noise::fractal_spec(seed ^ 0x22, tx as i32, ty as i32, 15);
    let detail = noise::value_spec(seed ^ 0x33, tx as i32, ty as i32, 3);
    let ex = if tx < w - 1 - tx { tx } else { w - 1 - tx };
    let ey = if ty < h - 1 - ty { ty } else { h - 1 - ty };
    let edge = if ex < ey { ex } else { ey };
    let elev = if edge < 3 { elev0 - (3 - edge) * 260 } else { elev0 };
    terrain_for(elev, moist, detail)
}

/// Paints terrain from elevation and moisture noise, with the map ringed by
/// water so the world has an edge.
pub fn paint_terrain(level: &mut Level, seed: u64)
    requires
        small_level(*old(level)),
    ensures
        small_level(*final(level)),
        *final(level) == (Level { map: final(level).map, ..*old(level) }),
        final(level).map.rw() == old(level).map.rw(),
        final(level).map.rh() == old(level).map.rh(),
        forall|tx: int, ty: int|
            old(level).map.in_bounds_spec(tx, ty) ==> #[trigger] final(level).map.tile_at(tx, ty) == terrain_at(
                seed,
                old(level).map.tw(),
                old(level).map.th(),
                tx,
                ty,
            ),
{
    let w = level.map.w();
    let h = level.map.h();
    let mut ty: i32 = 0;
    while ty < h
        invariant
            small_level(*level),
            *level == (Level { map: level.map, ..*old(level) }),
            level.map.rw() == old(level).map.rw(),
            level.map.rh() == old(level).map.rh(),
            w == level.map.tw(),
            h == level.map.th(),
            w <= MAX_ROOMS * 10,
            h <= MAX_ROOMS * 8,
            0 <= ty <= h,
            w == old(level).map.tw() && h == old(level).map.th(),
            forall|x: int, y: int|
                #[trigger] level.map.tile_at(x, y) == if old(level).map.in_bounds_spec(x, y) && y < ty {
                    terrain_at(seed, w as int, h as int, x, y)
                } else {
                    old(level).map.tile_at(x, y)
                },
        decreases h - ty,
    {
        let mut tx: i32 = 0;
        while tx < w
            invariant
                small_level(*level),
                *level == (Level { map: level.map, ..*old(level) }),
                level.map.rw() == old(level).map.rw(),
                level.map.rh() == old(level).map.rh(),
                w == level.map.tw(),
                h == level.map.th(),
                w <= MAX_ROOMS * 10,
                h <= MAX_ROOMS * 8,
                0 <= ty < h,
                0 <= tx <= w,
                w == old(level).map.tw() && h == old(level).map.th(),
                forall|x: int, y: int|
                    #[trigger] level.map.tile_at(x, y) == if old(level).map.in_bounds_spec(x, y) && (y < ty || (y == ty
                        && x < tx)) {
                        terrain_at(seed, w as int, h as int, x, y)
                    } else {
                        old(level).map.tile_at(x, y)
                    },
            decreases w - tx,
        {
            let elev0 = noise::fractal(seed ^ 0x11, tx, ty, 22);
            let moist = noise::fractal(seed ^ 0x22, tx, ty, 15);
            let detail = noise::value(seed ^ 0x33, tx, ty, 3);
            // The map is ringed by water so the world has an edge.
            let ex = if tx < w - 1 - tx { tx } else { w - 1 - tx };
            let ey = if ty < h - 1 - ty { ty } else { h - 1 - ty };
            let edge = if ex < ey { ex } else { ey };
            let elev = if edge < 3 { elev0 - (3 - edge) * 260 } else { elev0 };
            let t = terrain(elev, moist, detail);
            paint(level, tx, ty, t);
            tx = tx + 1;
        }
        ty = ty + 1;
    }
}

/// Lays one tile of path, bridging water rather than draining it: deep water
/// and lava become a bridge, shallows become sand, anything else path.
pub fn path_tile(level: &mut Level, tx: i32, ty: i32)
    requires
        small_level(*old(level)),
    ensures
        small_level(*final(level)),
        *final(level) == (Level { map: final(level).map, ..*old(level) }),
        final(level).map.rw() == old(level).map.rw(),
        final(level).map.rh() == old(level).map.rh(),
        !old(level).map.in_bounds_spec(tx as int, ty as int) ==> *final(level) == *old(level),
        old(level).map.in_bounds_spec(tx as int, ty as int) ==> {
            let cur = old(level).map.tile_at(tx as int, ty as int);
            let next = if cur == tile::WATER || cur == tile::LAVA {
                tile::BRIDGE
            } else if cur == tile::WATER_SHALLOW {
                tile::SAND
            } else {
                tile::PATH
            };
            old(level).map.painted(final(level).map, next, |x: int, y: int| x == tx && y == ty)
        },
{
    if !level.map.in_bounds(tx, ty) {
        return;
    }
    let cur = level.map.get(tx, ty);
    let next = if cur == tile::WATER || cur == tile::LAVA {
        tile::BRIDGE
    } else if cur == tile::WATER_SHALLOW {
        tile::SAND
    } else {
        tile::PATH
    };
    paint(level, tx, ty, next);
}

/// What [`path_tile`] lays on a tile: a bridge over deep water or lava,
/// sand over shallows, path over anything else.
pub open spec fn path_next(t: Tile) -> Tile {
    if t == tile::WATER || t == tile::LAVA {
        tile::BRIDGE
    } else if t == tile::WATER_SHALLOW {
        tile::SAND
    } else {
        tile::PATH
    }
}

/// True when `t` is what one or more layers of path leave on `o`: path,
/// except that deep water or lava may still be a bridge and shallows still
/// sand.
pub open spec fn pathed(o: Tile, t: Tile) -> bool {
    if o == tile::WATER || o == tile::LAVA {
        t == tile::BRIDGE || t == tile::PATH
    } else if o == tile::WATER_SHALLOW {
        t == tile::SAND || t == tile::PATH
    } else {
        t == tile::PATH
    }
}

/// The point of step `k` of a line from `a` to `b`: along x first, then
/// along y.
pub open spec fn line_point(a: (i32, i32), b: (i32, i32), k: int) -> (int, int) {
    let h = crate::geom::abs(b.0 - a.0);
    if k <= h {
        (if b.0 >= a.0 { a.0 + k } else { a.0 - k }, a.1 as int)
    } else {
        (b.0 as int, if b.1 >= a.1 { a.1 + (k - h) } else { a.1 - (k - h) })
    }
}

/// How many steps a line from `a` to `b` takes.
pub open spec fn line_steps(a: (i32, i32), b: (i32, i32)) -> int {
    crate::geom::abs(b.0 - a.0) + crate::geom::abs(b.1 - a.1) + 1
}

/// True when step `k`'s two-by-two stamp covers `(x, y)`.
pub open spec fn stamp_covers(a: (i32, i32), b: (i32, i32), k: int, x: int, y: int) -> bool {
    let p = line_point(a, b, k);
    p.0 <= x <= p.0 + 1 && p.1 <= y <= p.1 + 1
}

/// True when one of the first `s` steps covers `(x, y)`.
pub open spec fn covered_upto(a: (i32, i32), b: (i32, i32), s: int, x: int, y: int) -> bool {
    exists|k: int| 0 <= k < s && #[trigger] stamp_covers(a, b, k, x, y)
}

/// Lays path on the two-by-two square at `(x, y)`.
fn stamp(level: &mut Level, x: i32, y: i32)
    requires
        small_level(*old(level)),
        -0x10_0000 <= x <= 0x10_0000,
        -0x10_0000 <= y <= 0x10_0000,
    ensures
        small_level(*final(level)),
        *final(level) == (Level { map: final(level).map, ..*old(level) }),
        final(level).map.rw() == old(level).map.rw(),
        final(level).map.rh() == old(level).map.rh(),
        forall|tx: int, ty: int|
            #[trigger] final(level).map.tile_at(tx, ty) == if old(level).map.in_bounds_spec(tx, ty) && x <= tx <= x + 1
                && y <= ty <= y + 1 {
                path_next(old(level).map.tile_at(tx, ty))
            } else {
                old(level).map.tile_at(tx, ty)
            },
{
    let ghost m0 = level.map;
    path_tile(level, x, y);
    path_tile(level, x + 1, y);
    path_tile(level, x, y + 1);
    path_tile(level, x + 1, y + 1);
    proof {
        assert forall|tx: int, ty: int| #[trigger] level.map.tile_at(tx, ty) == if m0.in_bounds_spec(tx, ty) && x <= tx
            <= x + 1 && y <= ty <= y + 1 {
            path_next(m0.tile_at(tx, ty))
        } else {
            m0.tile_at(tx, ty)
        } by {
            assert(m0.in_bounds_spec(tx, ty) == level.map.in_bounds_spec(tx, ty));
        }
    }
}

/// Carves a path two tiles wide from `a` to `b`, first along x and then
/// along y, one tile at a time: every tile a step's two-by-two square
/// covers is [`pathed`], and every other tile is as it was.
pub fn carve_line(level: &mut Level, a: (i32, i32), b: (i32, i32))
    requires
        small_level(*old(level)),
        -0x10_0000 <= a.0 <= 0x10_0000,
        -0x10_0000 <= a.1 <= 0x10_0000,
        -0x10_0000 <= b.0 <= 0x10_0000,
        -0x10_0000 <= b.1 <= 0x10_0000,
    ensures
        small_level(*final(level)),
        *final(level) == (Level { map: final(level).map, ..*old(level) }),
        final(level).map.rw() == old(level).map.rw(),
        final(level).map.rh() == old(level).map.rh(),
        forall|x: int, y: int|
            if old(level).map.in_bounds_spec(x, y) && covered_upto(a, b, line_steps(a, b), x, y) {
                pathed(old(level).map.tile_at(x, y), #[trigger] final(level).map.tile_at(x, y))
            } else {
                final(level).map.tile_at(x, y) == old(level).map.tile_at(x, y)
            },
{
    let mut x = a.0;
    let mut y = a.1;
    let ghost mut s: int = 0;
    loop
        invariant_except_break
            0 <= s < line_steps(a, b),
            (x as int, y as int) == line_point(a, b, s),
            forall|tx: int, ty: int|
                if old(level).map.in_bounds_spec(tx, ty) && covered_upto(a, b, s, tx, ty) {
                    pathed(old(level).map.tile_at(tx, ty), #[trigger] level.map.tile_at(tx, ty))
                } else {
                    level.map.tile_at(tx, ty) == old(level).map.tile_at(tx, ty)
                },
        invariant
            small_level(*level),
            *level == (Level { map: level.map, ..*old(level) }),
            level.map.rw() == old(level).map.rw(),
            level.map.rh() == old(level).map.rh(),
            -0x10_0000 <= x <= 0x10_0000,
            -0x10_0000 <= y <= 0x10_0000,
            -0x10_0000 <= a.0 <= 0x10_0000,
            -0x10_0000 <= a.1 <= 0x10_0000,
            -0x10_0000 <= b.0 <= 0x10_0000,
            -0x10_0000 <= b.1 <= 0x10_0000,
            a.0 <= x <= b.0 || b.0 <= x <= a.0,
            x != b.0 ==> y == a.1,
            y != a.1 ==> (a.1 <= y <= b.1 || b.1 <= y <= a.1),
            y == a.1 || (a.1 <= y <= b.1 || b.1 <= y <= a.1),
        ensures
            small_level(*level),
            *level == (Level { map: level.map, ..*old(level) }),
            level.map.rw() == old(level).map.rw(),
            level.map.rh() == old(level).map.rh(),
            forall|tx: int, ty: int|
                if old(level).map.in_bounds_spec(tx, ty) && covered_upto(a, b, line_steps(a, b), tx, ty) {
                    pathed(old(level).map.tile_at(tx, ty), #[trigger] level.map.tile_at(tx, ty))
                } else {
                    level.map.tile_at(tx, ty) == old(level).map.tile_at(tx, ty)
                },
        decreases crate::geom::abs(b.0 - x) + crate::geom::abs(b.1 - y),
    {
        let ghost m0 = level.map;
        stamp(level, x, y);
        proof {
            assert forall|tx: int, ty: int|
                if old(level).map.in_bounds_spec(tx, ty) && covered_upto(a, b, s + 1, tx, ty) {
                    pathed(old(level).map.tile_at(tx, ty), #[trigger] level.map.tile_at(tx, ty))
                } else {
                    level.map.tile_at(tx, ty) == old(level).map.tile_at(tx, ty)
                } by {
                assert(m0.in_bounds_spec(tx, ty) == old(level).map.in_bounds_spec(tx, ty));
                if stamp_covers(a, b, s, tx, ty) {
                    assert(covered_upto(a, b, s + 1, tx, ty));
                } else if covered_upto(a, b, s + 1, tx, ty) {
                    let k = choose|k: int| 0 <= k < s + 1 && #[trigger] stamp_covers(a, b, k, tx, ty);
                    assert(covered_upto(a, b, s, tx, ty));
                } else {
                    assert(!covered_upto(a, b, s, tx, ty)) by {
                        if covered_upto(a, b, s, tx, ty) {
                            let k = choose|k: int| 0 <= k < s && #[trigger] stamp_covers(a, b, k, tx, ty);
                            assert(covered_upto(a, b, s + 1, tx, ty));
                        }
                    }
                }
            }
        }
        if x == b.0 && y == b.1 {
            proof {
                assert(s + 1 == line_steps(a, b));
            }
            break;
        }
        if x != b.0 {
            x = if b.0 > x { x + 1 } else { x - 1 };
        } else if y != b.1 {
            y = if b.1 > y { y + 1 } else { y - 1 };
        } else {
            break;
        }
        proof {
            s = s + 1;
        }
    }
}

/// Carves an L-shaped path two tiles wide between two points, turning at
/// the first one's row (horizontal first) or column.
pub fn carve_corridor(level: &mut Level, from: (i32, i32), to: (i32, i32), horizontal_first: bool)
    requires
        small_level(*old(level)),
        -0x10_0000 <= from.0 <= 0x10_0000,
        -0x10_0000 <= from.1 <= 0x10_0000,
        -0x10_0000 <= to.0 <= 0x10_0000,
        -0x10_0000 <= to.1 <= 0x10_0000,
    ensures
        small_level(*final(level)),
        *final(level) == (Level { map: final(level).map, ..*old(level) }),
        final(level).map.rw() == old(level).map.rw(),
        final(level).map.rh() == old(level).map.rh(),
        ({
            let corner: (i32, i32) = if horizontal_first { (to.0, from.1) } else { (from.0, to.1) };
            forall|x: int, y: int|
                if old(level).map.in_bounds_spec(x, y) && (covered_upto(from, corner, line_steps(from, corner), x, y)
                    || covered_upto(corner, to, line_steps(corner, to), x, y)) {
                    pathed(old(level).map.tile_at(x, y), #[trigger] final(level).map.tile_at(x, y))
                } else {
                    final(level).map.tile_at(x, y) == old(level).map.tile_at(x, y)
                }
        }),
        keeps_open(old(level).map, final(level).map),
{
    let corner = if horizontal_first { (to.0, from.1) } else { (from.0, to.1) };
    let ghost m0 = level.map;
    carve_line(level, from, corner);
    let ghost m1 = level.map;
    carve_line(level, corner, to);
    proof {
        assert forall|x: int, y: int|
            if old(level).map.in_bounds_spec(x, y) && (covered_upto(from, corner, line_steps(from, corner), x, y)
                || covered_upto(corner, to, line_steps(corner, to), x, y)) {
                pathed(old(level).map.tile_at(x, y), #[trigger] level.map.tile_at(x, y))
            } else {
                level.map.tile_at(x, y) == old(level).map.tile_at(x, y)
            } by {
            assert(m1.in_bounds_spec(x, y) == m0.in_bounds_spec(x, y));
            let t1 = m1.tile_at(x, y);
            let t2 = level.map.tile_at(x, y);
        }
        lemma_open_ground();
        assert forall|x: int, y: int| open_ground(old(level).map.tile_at(x, y)) implies open_ground(
            #[trigger] level.map.tile_at(x, y),
        ) by {
            let t0 = old(level).map.tile_at(x, y);
            let t2 = level.map.tile_at(x, y);
            if old(level).map.in_bounds_spec(x, y) && (covered_upto(from, corner, line_steps(from, corner), x, y)
                || covered_upto(corner, to, line_steps(corner, to), x, y)) {
                assert(pathed(t0, t2));
            }
        }
    }
}

/// Every staircase down of the first map is still one in the second, which
/// has the same size.
pub open spec fn stairs_kept(m0: TileMap, m1: TileMap) -> bool {
    &&& m1.rw() == m0.rw()
    &&& m1.rh() == m0.rh()
    &&& forall|x: int, y: int| #[trigger] m0.tile_at(x, y) == tile::STAIRS_DOWN ==> m1.tile_at(x, y) == tile::STAIRS_DOWN
}

/// The tile at `(x, y)` once the box from `(x0, y0)` to `(x1, y1)`
/// (inclusive) of `m` is cleared: grass where a solid, wet, pit or harmful
/// tile stood, anything else as it was.
pub open spec fn cleared(m: TileMap, x0: int, y0: int, x1: int, y1: int, x: int, y: int) -> Tile {
    let t = m.tile_at(x, y);
    if m.in_bounds_spec(x, y) && x0 <= x <= x1 && y0 <= y <= y1 && tiles::flags_spec(t) & (flag::SOLID | flag::WATER
        | flag::PIT | flag::HARMFUL) != 0 {
        tile::GRASS
    } else {
        t
    }
}

/// Flattens a square of terrain to plain walkable ground: within `radius`
/// of `center` each way, anything solid, wet, a pit or harmful becomes grass.
pub fn clear_area(level: &mut Level, center: (i32, i32), radius: i32)
    requires
        small_level(*old(level)),
        -0x10_0000 <= center.0 <= 0x10_0000,
        -0x10_0000 <= center.1 <= 0x10_0000,
        0 <= radius <= 16,
    ensures
        small_level(*final(level)),
        *final(level) == (Level { map: final(level).map, ..*old(level) }),
        final(level).map.rw() == old(level).map.rw(),
        final(level).map.rh() == old(level).map.rh(),
        stairs_kept(old(level).map, final(level).map),
        forall|x: int, y: int|
            #[trigger] final(level).map.tile_at(x, y) == cleared(old(level).map, center.0 - radius, center.1 - radius, center.0 + radius, center.1 + radius, x, y),
        keeps_open(old(level).map, final(level).map),
        forall|x: int, y: int|
            final(level).map.in_bounds_spec(x, y) && center.0 - radius <= x <= center.0 + radius && center.1 - radius
                <= y <= center.1 + radius ==> open_ground(#[trigger] final(level).map.tile_at(x, y)),
{
    let mut ty = center.1 - radius;
    while ty <= center.1 + radius
        invariant
            small_level(*level),
            *level == (Level { map: level.map, ..*old(level) }),
            level.map.rw() == old(level).map.rw(),
            level.map.rh() == old(level).map.rh(),
            center.1 - radius <= ty <= center.1 + radius + 1,
            stairs_kept(old(level).map, level.map),
            -0x10_0000 <= center.0 <= 0x10_0000,
            -0x10_0000 <= center.1 <= 0x10_0000,
            0 <= radius <= 16,
            forall|x: int, y: int|
                #[trigger] level.map.tile_at(x, y) == cleared(old(level).map, center.0 - radius, center.1 - radius, center.0 + radius, ty - 1, x, y),
        decreases center.1 + radius + 1 - ty,
    {
        let mut tx = center.0 - radius;
        while tx <= center.0 + radius
            invariant
                small_level(*level),
                *level == (Level { map: level.map, ..*old(level) }),
                level.map.rw() == old(level).map.rw(),
                level.map.rh() == old(level).map.rh(),
                center.0 - radius <= tx <= center.0 + radius + 1,
                stairs_kept(old(level).map, level.map),
                -0x10_0000 <= center.0 <= 0x10_0000,
                -0x10_0000 <= center.1 <= 0x10_0000,
                0 <= radius <= 16,
                center.1 - radius <= ty <= center.1 + radius,
                forall|x: int, y: int|
                    #[trigger] level.map.tile_at(x, y) == if y == ty && center.0 - radius <= x < tx {
                        cleared(old(level).map, center.0 - radius, ty as int, center.0 + radius, ty as int, x, y)
                    } else {
                        cleared(old(level).map, center.0 - radius, center.1 - radius, center.0 + radius, ty - 1, x, y)
                    },
            decreases center.0 + radius + 1 - tx,
        {
            if level.map.in_bounds(tx, ty) {
                let cur = level.map.get(tx, ty);
                if tiles::any(cur, flag::SOLID | flag::WATER | flag::PIT | flag::HARMFUL) {
                    proof {
                        if cur == tile::STAIRS_DOWN {
                            assert(tiles::flags_spec(cur) == 128);
                            assert(128u16 & (1u16 | 2u16 | 4u16 | 256u16) == 0) by (bit_vector);
                        }
                    }
                    let ghost mid = level.map;
                    paint(level, tx, ty, tile::GRASS);
                    proof {
                        assert forall|x: int, y: int| #[trigger] old(level).map.tile_at(x, y) == tile::STAIRS_DOWN
                            implies level.map.tile_at(x, y) == tile::STAIRS_DOWN by {
                            assert(mid.tile_at(x, y) == tile::STAIRS_DOWN);
                        }
                    }
                }
            }
            tx = tx + 1;
        }
        ty = ty + 1;
    }
    proof {
        lemma_open_ground();
        assert forall|x: int, y: int| open_ground(old(level).map.tile_at(x, y)) implies open_ground(
            #[trigger] level.map.tile_at(x, y),
        ) by {
            assert(level.map.tile_at(x, y) == cleared(old(level).map, center.0 - radius, center.1 - radius, center.0 + radius, center.1 + radius, x, y));
        }
        assert forall|x: int, y: int|
            level.map.in_bounds_spec(x, y) && center.0 - radius <= x <= center.0 + radius && center.1 - radius
                <= y <= center.1 + radius implies open_ground(#[trigger] level.map.tile_at(x, y)) by {
            assert(level.map.tile_at(x, y) == cleared(old(level).map, center.0 - radius, center.1 - radius, center.0 + radius, center.1 + radius, x, y));
            assert(old(level).map.in_bounds_spec(x, y));
        }
    }
}

/// A tile that nothing stops a walker on: not solid, wet, a pit or harmful.
pub open spec fn open_ground(t: Tile) -> bool {
    tiles::flags_spec(t) & (flag::SOLID | flag::WATER | flag::PIT | flag::HARMFUL) == 0
}

/// Every in-bounds tile within two of the centre of room `(rx, ry)` is open
/// ground.
pub open spec fn heart_open(m: TileMap, rx: int, ry: int) -> bool {
    forall|x: int, y: int|
        m.in_bounds_spec(x, y) && rx * 10 + 3 <= x <= rx * 10 + 7 && ry * 8 + 2 <= y <= ry * 8 + 6 ==> open_ground(
            #[trigger] m.tile_at(x, y),
        )
}

/// Open ground in `m0` is open ground in `m1`, on a map of the same size.
pub open spec fn keeps_open(m0: TileMap, m1: TileMap) -> bool {
    &&& m1.rw() == m0.rw() && m1.rh() == m0.rh()
    &&& forall|x: int, y: int| open_ground(m0.tile_at(x, y)) ==> open_ground(#[trigger] m1.tile_at(x, y))
}

proof fn lemma_open_ground()
    ensures
        open_ground(tile::GRASS),
        open_ground(tile::PATH),
        open_ground(tile::BRIDGE),
        open_ground(tile::SAND),
{
    assert(0u16 & (flag::SOLID | flag::WATER | flag::PIT | flag::HARMFUL) == 0) by (bit_vector);
}

proof fn lemma_heart_kept(m0: TileMap, m1: TileMap, gw: int, gh: int)
    requires
        keeps_open(m0, m1),
    ensures
        forall|rx: int, ry: int| heart_open(m0, rx, ry) ==> #[trigger] heart_open(m1, rx, ry),
{
    assert forall|rx: int, ry: int| heart_open(m0, rx, ry) implies #[trigger] heart_open(m1, rx, ry) by {
        assert forall|x: int, y: int|
            m1.in_bounds_spec(x, y) && rx * 10 + 3 <= x <= rx * 10 + 7 && ry * 8 + 2 <= y <= ry * 8 + 6 implies open_ground(
            #[trigger] m1.tile_at(x, y),
        ) by {
            assert(open_ground(m0.tile_at(x, y)));
        }
    }
}


/// Cuts walkable paths along every connection in the room graph, widening
/// the middle of each room, each corridor bending where a noise sample says.
pub fn carve_paths(level: &mut Level, graph: &RoomGraph, seed: u64)
    requires
        fits_graph(*old(level), *graph),
    ensures
        fits_graph(*final(level), *graph),
        *final(level) == (Level { map: final(level).map, ..*old(level) }),
        forall|rx: int, ry: int|
            0 <= rx < graph.gw() && 0 <= ry < graph.gh() ==> #[trigger] heart_open(final(level).map, rx, ry),
{
    proof {
        lemma_open_ground();
    }
    let gh = graph.height();
    let gw = graph.width();
    let mut ry: i32 = 0;
    while ry < gh
        invariant
            fits_graph(*level, *graph),
            *level == (Level { map: level.map, ..*old(level) }),
            gh == graph.gh(),
            gw == graph.gw(),
            0 <= ry <= gh,
            forall|rx2: int, ry2: int|
                0 <= rx2 < gw && 0 <= ry2 < ry ==> #[trigger] heart_open(level.map, rx2, ry2),
        decreases gh - ry,
    {
        let mut rx: i32 = 0;
        while rx < gw
            invariant
                fits_graph(*level, *graph),
                *level == (Level { map: level.map, ..*old(level) }),
                gh == graph.gh(),
                gw == graph.gw(),
                0 <= ry < gh,
                0 <= rx <= gw,
                forall|rx2: int, ry2: int|
                    0 <= rx2 < gw && 0 <= ry2 < ry || 0 <= rx2 < rx && ry2 == ry ==> #[trigger] heart_open(
                        level.map,
                        rx2,
                        ry2,
                    ),
            decreases gw - rx,
        {
            let from = room_center_tile((rx, ry));
            // Widen the middle of each room so there is somewhere to stand.
            let ghost m0 = level.map;
            clear_area(level, from, 2);
            proof {
                lemma_heart_kept(m0, level.map, gw as int, gh as int);
                assert(heart_open(level.map, rx as int, ry as int));
            }
            let exits = graph.exits(rx, ry);
            let mut k: usize = 0;
            while k < exits.len()
                invariant
                    fits_graph(*level, *graph),
                    *level == (Level { map: level.map, ..*old(level) }),
                    0 <= rx < MAX_ROOMS,
                    0 <= ry < MAX_ROOMS,
                    from.0 == rx * 10 + 5,
                    from.1 == ry * 8 + 4,
                    k <= exits@.len(),
                    gh == graph.gh(),
                    gw == graph.gw(),
                    rx < gw,
                    ry < gh,
                    forall|rx2: int, ry2: int|
                        0 <= rx2 < gw && 0 <= ry2 < ry || 0 <= rx2 <= rx && ry2 == ry ==> #[trigger] heart_open(
                            level.map,
                            rx2,
                            ry2,
                        ),
                decreases exits@.len() - k,
            {
                let dir = exits[k];
                // Only carve each connection once.
                if dir == Dir::Down || dir == Dir::Right {
                    let (dx, dy) = dir.step();
                    let to = room_center_tile((rx + dx, ry + dy));
                    // Bend the corridor at a point that varies per connection,
                    // so paths do not all meet in straight lines.
                    let bend = noise::value(seed ^ 0x44, rx * 7 + dx, ry * 7 + dy, 2) % 2 == 0;
                    let ghost m1 = level.map;
                    carve_corridor(level, from, to, bend);
                    proof {
                        lemma_heart_kept(m1, level.map, gw as int, gh as int);
                    }
                }
                k = k + 1;
            }
            rx = rx + 1;
        }
        ry = ry + 1;
    }
}


/// A room that may hold a staircase down: reachable, and not the start.
pub open spec fn entrance_candidate(g: RoomGraph, start: (i32, i32), x: int, y: int) -> bool {
    !(x == start.0 && y == start.1) && g.depth_spec(x, y) >= 1
}

/// The candidate rooms among the first `n` in row-major order, in that
/// order.
pub open spec fn candidates_upto(g: RoomGraph, start: (i32, i32), n: int) -> Seq<(i32, i32)>
    decreases n,
{
    if n <= 0 {
        Seq::empty()
    } else {
        let prev = candidates_upto(g, start, n - 1);
        let x = (n - 1) % g.gw();
        let y = (n - 1) / g.gw();
        if entrance_candidate(g, start, x, y) {
            prev.push((x as i32, y as i32))
        } else {
            prev
        }
    }
}

/// Every room that could hold a staircase, in row-major order.
pub open spec fn entrance_candidates(g: RoomGraph, start: (i32, i32)) -> Seq<(i32, i32)> {
    candidates_upto(g, start, g.gw() * g.gh())
}

/// The candidates listed are candidate rooms of the grid.
pub proof fn lemma_candidates_upto(g: RoomGraph, start: (i32, i32), n: int)
    requires
        g.wf(),
        0 <= n <= g.gw() * g.gh(),
    ensures
        candidates_upto(g, start, n).len() <= n,
        forall|k: int| 0 <= k < candidates_upto(g, start, n).len() ==> {
            let c = #[trigger] candidates_upto(g, start, n)[k];
            g.in_grid(c.0 as int, c.1 as int) && entrance_candidate(g, start, c.0 as int, c.1 as int)
        },
    decreases n,
{
    if n > 0 {
        lemma_candidates_upto(g, start, n - 1);
        let x = (n - 1) % g.gw();
        let y = (n - 1) / g.gw();
        assert(0 <= x < g.gw());
        assert(0 <= y < g.gh()) by {
            vstd::arithmetic::div_mod::lemma_div_pos_is_pos(n - 1, g.gw());
            vstd::arithmetic::div_mod::lemma_div_is_ordered(n - 1, g.gw() * g.gh(), g.gw());
            vstd::arithmetic::mul::lemma_mul_is_commutative(g.gw(), g.gh());
            vstd::arithmetic::div_mod::lemma_div_multiples_vanish(g.gh(), g.gw());
            if y == g.gh() {
                vstd::arithmetic::div_mod::lemma_fundamental_div_mod(n - 1, g.gw());
                assert(g.gw() * y <= n - 1);
                assert(g.gw() * g.gh() <= n - 1);
            }
        }
        g.lemma_cell(x, y);
        assert((x as i32) as int == x && (y as i32) as int == y);
    }
}

/// Lists the rooms that could hold a staircase, in row-major order.
pub fn collect_candidates(graph: &RoomGraph, start: (i32, i32)) -> (c: Vec<(i32, i32)>)
    requires
        graph.wf(),
    ensures
        c@ == entrance_candidates(*graph, start),
{
    let gw = graph.width();
    let gh = graph.height();
    proof {
        assert(gw * gh <= 0x100_0000);
    }
    let mut c: Vec<(i32, i32)> = Vec::new();
    let mut y: i32 = 0;
    while y < gh
        invariant
            graph.wf(),
            gw == graph.gw(),
            gh == graph.gh(),
            0 <= y <= gh,
            c@ == candidates_upto(*graph, start, y * gw),
        decreases gh - y,
    {
        let mut x: i32 = 0;
        while x < gw
            invariant
                graph.wf(),
                gw == graph.gw(),
                gh == graph.gh(),
                0 <= y < gh,
                0 <= x <= gw,
                c@ == candidates_upto(*graph, start, y * gw + x),
            decreases gw - x,
        {
            proof {
                vstd::arithmetic::div_mod::lemma_fundamental_div_mod_converse(y * gw + x, gw as int, y as int, x as int);
                assert(y * gw == gw * y) by (nonlinear_arith);
            }
            let d = graph.depth_at(x, y);
            if !(x == start.0 && y == start.1) && d >= 1 {
                c.push((x, y));
            }
            x = x + 1;
        }
        proof {
            assert(y * gw + gw == (y + 1) * gw) by (nonlinear_arith);
        }
        y = y + 1;
    }
    proof {
        assert(gh * gw == gw * gh) by (nonlinear_arith);
    }
    c
}

/// Orders rooms deepest first, keeping row-major order among rooms of equal
/// depth (an insertion sort, moving each room past shallower ones only).
pub fn sort_deepest_first(graph: &RoomGraph, rooms: &mut Vec<(i32, i32)>)
    requires
        graph.wf(),
    ensures
        final(rooms)@.to_multiset() == old(rooms)@.to_multiset(),
        final(rooms)@.len() == old(rooms)@.len(),
        forall|a: int, b: int|
            0 <= a < b < final(rooms)@.len() ==> graph.depth_spec(
                (#[trigger] final(rooms)@[a]).0 as int,
                final(rooms)@[a].1 as int,
            ) >= graph.depth_spec((#[trigger] final(rooms)@[b]).0 as int, final(rooms)@[b].1 as int),
{
    let n = rooms.len();
    if n < 2 {
        return;
    }
    let ghost orig = rooms@;
    let mut i: usize = 1;
    while i < n
        invariant
            graph.wf(),
            n == rooms@.len(),
            1 <= i <= n,
            rooms@.to_multiset() == orig.to_multiset(),
            forall|a: int, b: int|
                0 <= a < b < i ==> graph.depth_spec((#[trigger] rooms@[a]).0 as int, rooms@[a].1 as int)
                    >= graph.depth_spec((#[trigger] rooms@[b]).0 as int, rooms@[b].1 as int),
        decreases n - i,
    {
        let mut j: usize = i;
        while j > 0 && graph.depth_at(rooms[j - 1].0, rooms[j - 1].1) < graph.depth_at(rooms[j].0, rooms[j].1)
            invariant
                graph.wf(),
                n == rooms@.len(),
                1 <= i < n,
                j <= i,
                rooms@.to_multiset() == orig.to_multiset(),
                forall|a: int, b: int|
                    0 <= a < b < j ==> graph.depth_spec((#[trigger] rooms@[a]).0 as int, rooms@[a].1 as int)
                        >= graph.depth_spec((#[trigger] rooms@[b]).0 as int, rooms@[b].1 as int),
                forall|a: int, b: int|
                    j < a < b <= i ==> graph.depth_spec((#[trigger] rooms@[a]).0 as int, rooms@[a].1 as int)
                        >= graph.depth_spec((#[trigger] rooms@[b]).0 as int, rooms@[b].1 as int),
                forall|a: int, b: int|
                    0 <= a < j && j < b <= i ==> graph.depth_spec((#[trigger] rooms@[a]).0 as int, rooms@[a].1 as int)
                        >= graph.depth_spec((#[trigger] rooms@[b]).0 as int, rooms@[b].1 as int),
                forall|b: int|
                    j < b <= i ==> graph.depth_spec(rooms@[j as int].0 as int, rooms@[j as int].1 as int)
                        > graph.depth_spec((#[trigger] rooms@[b]).0 as int, rooms@[b].1 as int),
            decreases j,
        {
            let ghost before = rooms@;
            let lower = rooms[j - 1];
            let upper = rooms[j];
            rooms.set(j - 1, upper);
            rooms.set(j, lower);
            proof {
                assert(rooms@ =~= crate::rng::swap(before, j - 1, j as int));
                crate::rng::lemma_swap_multiset(before, j - 1, j as int);
            }
            j = j - 1;
        }
        i = i + 1;
    }
}

/// An element of one sequence is an element of any with the same multiset.
pub proof fn lemma_same_multiset_contains<T>(a: Seq<T>, b: Seq<T>, x: T)
    requires
        a.to_multiset() == b.to_multiset(),
        a.contains(x),
    ensures
        b.contains(x),
{
    a.to_multiset_ensures();
    b.to_multiset_ensures();
    assert(a.to_multiset().count(x) > 0);
    assert(b.to_multiset().count(x) > 0);
}

/// A staircase placed for a candidate room, standing on the map.
pub open spec fn entrance_ok(g: RoomGraph, start: (i32, i32), m: TileMap, e: Entrance) -> bool {
    &&& g.in_grid(e.room.0 as int, e.room.1 as int)
    &&& entrance_candidate(g, start, e.room.0 as int, e.room.1 as int)
    &&& m.in_bounds_spec(e.tx as int, e.ty as int)
    &&& m.tile_at(e.tx as int, e.ty as int) == tile::STAIRS_DOWN
}

/// Digs up to `count` staircases down: the candidate rooms are ordered
/// deepest first, the first `3 * count` of them shuffled, and the first
/// `count` of those each get a staircase on the nearest free tile within
/// four of a spot two tiles above the centre (shifted up to two sideways at
/// random; the centre itself if none is free), with the ground around it
/// cleared.
pub fn place_dungeon_entrances(
    level: &mut Level,
    graph: &RoomGraph,
    rng: &mut Rng,
    count: usize,
    start: (i32, i32),
) -> (r: Vec<Entrance>)
    requires
        fits_graph(*old(level), *graph),
        count <= usize::MAX / 3,
    ensures
        fits_graph(*final(level), *graph),
        *final(level) == (Level { map: final(level).map, ..*old(level) }),
        stairs_kept(old(level).map, final(level).map),
        r@.len() == if count < entrance_candidates(*graph, start).len() {
            count as int
        } else {
            entrance_candidates(*graph, start).len() as int
        },
        forall|k: int| 0 <= k < r@.len() ==> entrance_ok(*graph, start, final(level).map, #[trigger] r@[k]),
{
    let mut cands = collect_candidates(graph, start);
    proof {
        assert(graph.gw() * graph.gh() <= 0x100_0000);
        lemma_candidates_upto(*graph, start, graph.gw() * graph.gh());
    }
    let ghost listed = cands@;
    sort_deepest_first(graph, &mut cands);
    // Prefer rooms far from the start, then take a random spread of them.
    let want = count * 3;
    let small = if count < cands.len() { count } else { cands.len() };
    let cut = if cands.len() < want { cands.len() } else { want };
    let pool_n = if cut > small { cut } else { small };
    let mut pool: Vec<(i32, i32)> = Vec::new();
    let mut k: usize = 0;
    while k < pool_n
        invariant
            pool_n <= cands@.len(),
            k <= pool_n,
            pool@ == cands@.take(k as int),
        decreases pool_n - k,
    {
        pool.push(cands[k]);
        proof {
            assert(cands@.take(k + 1) =~= cands@.take(k as int).push(cands@[k as int]));
        }
        k = k + 1;
    }
    let ghost drawn = pool@;
    rng.shuffle(pool.as_mut_slice());
    proof {
        assert forall|j: int| 0 <= j < pool@.len() implies entrance_candidate(
            *graph,
            start,
            (#[trigger] pool@[j]).0 as int,
            pool@[j].1 as int,
        ) && graph.in_grid(pool@[j].0 as int, pool@[j].1 as int) by {
            assert(pool@.contains(pool@[j]));
            lemma_same_multiset_contains(pool@, drawn, pool@[j]);
            let a = choose|a: int| 0 <= a < drawn.len() && drawn[a] == pool@[j];
            assert(cands@.contains(drawn[a]));
            lemma_same_multiset_contains(cands@, listed, drawn[a]);
        }
    }
    let take = if count < pool.len() { count } else { pool.len() };
    let mut out: Vec<Entrance> = Vec::new();
    let mut n: usize = 0;
    while n < take
        invariant
            fits_graph(*level, *graph),
            *level == (Level { map: level.map, ..*old(level) }),
            stairs_kept(old(level).map, level.map),
            take <= pool@.len(),
            n <= take,
            out@.len() == n,
            forall|j: int| 0 <= j < pool@.len() ==> entrance_candidate(
                *graph,
                start,
                (#[trigger] pool@[j]).0 as int,
                pool@[j].1 as int,
            ) && graph.in_grid(pool@[j].0 as int, pool@[j].1 as int),
            forall|j: int| 0 <= j < out@.len() ==> entrance_ok(*graph, start, level.map, #[trigger] out@[j]),
        decreases take - n,
    {
        let room = pool[n];
        assert(graph.in_grid(room.0 as int, room.1 as int));
        let c = room_center_tile(room);
        let dx = rng.range(-2, 2);
        let sx = c.0 + dx;
        let sy = c.1 - 2;
        let spot = match level.find_free_near(sx, sy, 4) {
            Some(p) => p,
            None => c,
        };
        proof {
            level.map.lemma_dims();
        }
        let ghost m0 = level.map;
        // Stand the staircase clear of the path so it is visible.
        clear_area(level, spot, 1);
        let ghost m1 = level.map;
        paint(level, spot.0, spot.1, tile::STAIRS_DOWN);
        proof {
            assert forall|x: int, y: int| #[trigger] old(level).map.tile_at(x, y) == tile::STAIRS_DOWN
                implies level.map.tile_at(x, y) == tile::STAIRS_DOWN by {
                assert(m0.tile_at(x, y) == tile::STAIRS_DOWN);
                assert(m1.tile_at(x, y) == tile::STAIRS_DOWN);
            }
            assert forall|j: int| 0 <= j < out@.len() implies entrance_ok(*graph, start, level.map, #[trigger] out@[j]) by {
                assert(m0.tile_at(out@[j].tx as int, out@[j].ty as int) == tile::STAIRS_DOWN);
                assert(m1.tile_at(out@[j].tx as int, out@[j].ty as int) == tile::STAIRS_DOWN);
            }
        }
        out.push(Entrance { tx: spot.0, ty: spot.1, room });
        n = n + 1;
    }
    proof {
        assert(cands@.len() == listed.len());
    }
    out
}

/// The second map differs from the first only where grass became a bush,
/// a rock or flowers.
pub open spec fn grass_only(m0: TileMap, m1: TileMap) -> bool {
    &&& m1.rw() == m0.rw()
    &&& m1.rh() == m0.rh()
    &&& forall|x: int, y: int|
        #[trigger] m1.tile_at(x, y) == m0.tile_at(x, y) || (m0.tile_at(x, y) == tile::GRASS && (m1.tile_at(x, y)
            == tile::BUSH || m1.tile_at(x, y) == tile::ROCK || m1.tile_at(x, y) == tile::FLOWERS))
}

/// Scatters the small stuff over grass away from the map's edge: bushes
/// beside paths (detail noise above 620, one in two) or in thickets (above
/// 880, one in three), rocks (below 110, one in three) and flowers (400 to
/// 429, one in four), trying each in that order.
pub fn decorate(level: &mut Level, rng: &mut Rng, seed: u64)
    requires
        small_level(*old(level)),
    ensures
        small_level(*final(level)),
        *final(level) == (Level { map: final(level).map, ..*old(level) }),
        grass_only(old(level).map, final(level).map),
{
    let w = level.map.w();
    let h = level.map.h();
    let mut ty: i32 = 1;
    while ty < h - 1
        invariant
            small_level(*level),
            *level == (Level { map: level.map, ..*old(level) }),
            grass_only(old(level).map, level.map),
            w == level.map.tw(),
            h == level.map.th(),
            w <= MAX_ROOMS * 10,
            h <= MAX_ROOMS * 8,
            1 <= ty <= h,
        decreases h - ty,
    {
        let mut tx: i32 = 1;
        while tx < w - 1
            invariant
                small_level(*level),
                *level == (Level { map: level.map, ..*old(level) }),
                grass_only(old(level).map, level.map),
                w == level.map.tw(),
                h == level.map.th(),
                w <= MAX_ROOMS * 10,
                h <= MAX_ROOMS * 8,
                1 <= ty < h - 1,
                1 <= tx <= w,
            decreases w - tx,
        {
            if level.map.get(tx, ty) == tile::GRASS {
                let n = noise::value(seed ^ 0x55, tx, ty, 2);
                // Bushes like to grow beside paths, which is also where a
                // hero wants something to cut.
                let beside_path = level.map.get(tx + 1, ty) == tile::PATH || level.map.get(tx - 1, ty) == tile::PATH
                    || level.map.get(tx, ty + 1) == tile::PATH || level.map.get(tx, ty - 1) == tile::PATH;
                let ghost m0 = level.map;
                let choice: u8 = if beside_path && n > 620 && rng.chance(1, 2) {
                    tile::BUSH
                } else if n > 880 && rng.chance(1, 3) {
                    tile::BUSH
                } else if n < 110 && rng.chance(1, 3) {
                    tile::ROCK
                } else if 400 <= n && n < 430 && rng.chance(1, 4) {
                    tile::FLOWERS
                } else {
                    tile::GRASS
                };
                if choice != tile::GRASS {
                    paint(level, tx, ty, choice);
                    proof {
                        assert forall|x: int, y: int| #[trigger] level.map.tile_at(x, y) == old(level).map.tile_at(x, y)
                            || (old(level).map.tile_at(x, y) == tile::GRASS && (level.map.tile_at(x, y) == tile::BUSH
                            || level.map.tile_at(x, y) == tile::ROCK || level.map.tile_at(x, y) == tile::FLOWERS)) by {
                            assert(m0.tile_at(x, y) == old(level).map.tile_at(x, y) || (old(level).map.tile_at(x, y)
                                == tile::GRASS && (m0.tile_at(x, y) == tile::BUSH || m0.tile_at(x, y) == tile::ROCK
                                || m0.tile_at(x, y) == tile::FLOWERS)));
                        }
                    }
                }
            }
            tx = tx + 1;
        }
        ty = ty + 1;
    }
}

/// Turning grass into something else keeps every staircase.
pub proof fn lemma_grass_only_keeps_stairs(m0: TileMap, m1: TileMap)
    requires
        grass_only(m0, m1),
    ensures
        stairs_kept(m0, m1),
{
    assert forall|x: int, y: int| #[trigger] m0.tile_at(x, y) == tile::STAIRS_DOWN implies m1.tile_at(x, y)
        == tile::STAIRS_DOWN by {
        assert(m1.tile_at(x, y) == m0.tile_at(x, y) || m0.tile_at(x, y) == tile::GRASS);
    }
}

/// The overworld monster for a roll in `0..100` raised by four per room of
/// depth: the further from home, the tougher.
pub open spec fn overworld_monster(roll: int) -> Kind {
    if roll <= 40 {
        Kind::Octorok
    } else if roll <= 60 {
        Kind::Keese
    } else if roll <= 78 {
        Kind::Zol
    } else if roll <= 95 {
        Kind::Moblin
    } else if roll <= 115 {
        Kind::Tektite
    } else {
        Kind::Stalfos
    }
}

/// Rolls a monster for a room at `depth`: a draw below 100 plus four per
/// room of depth, through [`overworld_monster`].
pub fn pick_monster(rng: &mut Rng, depth: i32) -> (k: Kind)
    requires
        0 <= depth,
    ensures
        k == overworld_monster(crate::rng::scale_below(crate::rng::draw32(old(rng).st()), 100) + depth * 4),
        final(rng).st() == crate::rng::advance(old(rng).st()),
{
    let roll: i64 = rng.below(100) as i64 + depth as i64 * 4;
    if roll <= 40 {
        Kind::Octorok
    } else if roll <= 60 {
        Kind::Keese
    } else if roll <= 78 {
        Kind::Zol
    } else if roll <= 95 {
        Kind::Moblin
    } else if roll <= 115 {
        Kind::Tektite
    } else {
        Kind::Stalfos
    }
}

/// The spawns from `from` on are monsters or chests.
pub open spec fn spawns_tame(level: Level, from: int) -> bool {
    forall|k: int| from <= k < level.spawns@.len() ==> {
        let kind = (#[trigger] level.spawns@[k]).kind;
        kind != crate::entity::kind_code(Kind::Boss) && kind != crate::entity::kind_code(Kind::Player)
    }
}

/// Fills every room but the start with monsters, from one up to one more
/// per three rooms of depth (four at most), each on the nearest free tile
/// within three of a random spot inside the room walls (left out when there
/// is none), and now and then (one in eight) a chest of rupees.
pub fn populate(level: &mut Level, graph: &RoomGraph, rng: &mut Rng, start: (i32, i32))
    requires
        fits_graph(*old(level), *graph),
    ensures
        fits_graph(*final(level), *graph),
        *final(level) == (Level { spawns: final(level).spawns, ..*old(level) }),
        final(level).spawns@.len() >= old(level).spawns@.len(),
        final(level).spawns@.take(old(level).spawns@.len() as int) == old(level).spawns@,
        spawns_free(*final(level), old(level).spawns@.len() as int),
        spawns_tame(*final(level), old(level).spawns@.len() as int),
{
    let ghost n0 = old(level).spawns@.len() as int;
    let gh = graph.height();
    let gw = graph.width();
    let mut ry: i32 = 0;
    while ry < gh
        invariant
            gh == graph.gh(),
            gw == graph.gw(),
            fits_graph(*level, *graph),
            *level == (Level { spawns: level.spawns, ..*old(level) }),
            n0 == old(level).spawns@.len(),
            level.spawns@.len() >= n0,
            level.spawns@.take(n0) == old(level).spawns@,
            spawns_free(*level, n0),
            spawns_tame(*level, n0),
            0 <= ry <= gh,
        decreases gh - ry,
    {
        let mut rx: i32 = 0;
        while rx < gw
            invariant
                gh == graph.gh(),
                gw == graph.gw(),
                fits_graph(*level, *graph),
                *level == (Level { spawns: level.spawns, ..*old(level) }),
                n0 == old(level).spawns@.len(),
                level.spawns@.len() >= n0,
                level.spawns@.take(n0) == old(level).spawns@,
                spawns_free(*level, n0),
                spawns_tame(*level, n0),
                0 <= ry < gh,
                0 <= rx <= gw,
            decreases gw - rx,
        {
            if !(rx == start.0 && ry == start.1) {
                match level.room_index(rx, ry) {
                    Some(room_index) => {
                        proof {
                            graph.lemma_cell(rx as int, ry as int);
                            assert(room_index < 0x1_0000) by (nonlinear_arith)
                                requires
                                    room_index == ry * gw + rx,
                                    0 <= rx < gw <= MAX_ROOMS,
                                    0 <= ry < gh <= MAX_ROOMS,
                            ;
                        }
                        let d0 = graph.depth_at(rx, ry);
                        let depth = if d0 > 0 { d0 } else { 0 };
                        let c1 = 1 + depth / 3;
                        let count = if c1 < 4 { c1 } else { 4 };
                        let times = rng.range(1, count);
                        let mut n: i32 = 0;
                        while n < times
                            invariant
                                fits_graph(*level, *graph),
                                *level == (Level { spawns: level.spawns, ..*old(level) }),
                                n0 == old(level).spawns@.len(),
                                level.spawns@.len() >= n0,
                                level.spawns@.take(n0) == old(level).spawns@,
                                spawns_free(*level, n0),
                                spawns_tame(*level, n0),
                                0 <= rx < MAX_ROOMS,
                                0 <= ry < MAX_ROOMS,
                                0 <= depth,
                                room_index < 0x1_0000,
                            decreases times - n,
                        {
                            let tx0 = rx * ROOM_W + rng.range(1, ROOM_W - 2);
                            let ty0 = ry * ROOM_H + rng.range(1, ROOM_H - 2);
                            match level.find_free_near(tx0, ty0, 3) {
                                Some((tx, ty)) => {
                                    let kind = pick_monster(rng, depth);
                                    let ghost before = level.spawns@;
                                    level.spawns.push(
                                        Spawn { room: room_index as u16, kind: kind.to_u8(), tx, ty, param: 0 },
                                    );
                                    proof {
                                        assert(level.spawns@.take(n0) =~= before.take(n0));
                                    }
                                },
                                None => {},
                            }
                            n = n + 1;
                        }
                        // The occasional chest of rupees, tucked away from
                        // the middle.
                        if rng.chance(1, 8) {
                            let tx0 = rx * ROOM_W + rng.range(1, ROOM_W - 2);
                            let ty0 = ry * ROOM_H + rng.range(1, ROOM_H - 2);
                            match level.find_free_near(tx0, ty0, 3) {
                                Some((tx, ty)) => {
                                    let ghost before = level.spawns@;
                                    level.spawns.push(
                                        Spawn { room: room_index as u16, kind: Kind::Chest.to_u8(), tx, ty, param: 0 },
                                    );
                                    proof {
                                        assert(level.spawns@.take(n0) =~= before.take(n0));
                                    }
                                },
                                None => {},
                            }
                        }
                    },
                    None => {},
                }
            }
            rx = rx + 1;
        }
        ry = ry + 1;
    }
}

/// Generates an overworld of `rooms_w` by `rooms_h` screens: noise-painted
/// terrain ringed by sea, a carved room graph from the middle screen with a
/// quarter as many extra links as rooms, paths cut along it, the start
/// cleared, then staircases, decorations, monsters and the room records.
pub fn generate(seed: u64, rooms_w: i32, rooms_h: i32, dungeons: usize) -> (ow: Overworld)
    requires
        1 <= rooms_w <= MAX_ROOMS,
        1 <= rooms_h <= MAX_ROOMS,
        dungeons <= usize::MAX / 3,
    ensures
        fits_graph(ow.level, ow.graph),
        crate::world::playable(ow.level),
        ow.level.kind == LevelKind::Overworld,
        ow.graph.gw() == rooms_w && ow.graph.gh() == rooms_h,
        ow.graph.start_room() == ((rooms_w / 2) as i32, (rooms_h / 2) as i32),
        ow.level.entrance == (V2 {
            x: (((rooms_w / 2 * 10 + 5) * 16 + 8) * 256) as i32,
            y: (((rooms_h / 2 * 8 + 4) * 16 + 8) * 256) as i32,
        }),
        ow.level.links@.len() == 0,
        ow.dungeon_entrances@.len() == if dungeons < entrance_candidates(ow.graph, ((rooms_w / 2) as i32, (rooms_h / 2) as i32)).len() {
            dungeons as int
        } else {
            entrance_candidates(ow.graph, ((rooms_w / 2) as i32, (rooms_h / 2) as i32)).len() as int
        },
        forall|k: int|
            0 <= k < ow.dungeon_entrances@.len() ==> entrance_ok(
                ow.graph,
                ((rooms_w / 2) as i32, (rooms_h / 2) as i32),
                ow.level.map,
                #[trigger] ow.dungeon_entrances@[k],
            ),
        spawns_free(ow.level, 0),
        spawns_tame(ow.level, 0),
        forall|x: int, y: int| ow.graph.in_grid(x, y) ==> #[trigger] ow.graph.depth_spec(x, y) >= 0,
{
    let mut rng = Rng::new(seed ^ OVERWORLD_TAG);
    proof {
        assert(rooms_w * 10 * rooms_h * 8 <= MAX_ROOMS * 10 * MAX_ROOMS * 8) by (nonlinear_arith)
            requires
                1 <= rooms_w <= MAX_ROOMS,
                1 <= rooms_h <= MAX_ROOMS,
        ;
        assert(rooms_w * rooms_h <= MAX_ROOMS * MAX_ROOMS) by (nonlinear_arith)
            requires
                1 <= rooms_w <= MAX_ROOMS,
                1 <= rooms_h <= MAX_ROOMS,
        ;
        assert(rooms_w * rooms_h >= 1) by (nonlinear_arith)
            requires
                1 <= rooms_w,
                1 <= rooms_h,
        ;
    }
    let mut level = Level::new(LevelKind::Overworld, rooms_w, rooms_h, tile::GRASS);
    paint_terrain(&mut level, seed);
    // The hero starts in the middle, which keeps the first walk in any
    // direction interesting.
    let start = ((rooms_w / 2) as i32, (rooms_h / 2) as i32);
    let graph = carve(&mut rng, rooms_w, rooms_h, start, (rooms_w * rooms_h / 4) as u32);
    carve_paths(&mut level, &graph, seed);
    // Flatten the starting screen so nobody wakes up inside a lake.
    let centre = room_center_tile(start);
    clear_area(&mut level, centre, 3);
    level.entrance = V2::from_px(centre.0 * TILE_PX + TILE_PX / 2, centre.1 * TILE_PX + TILE_PX / 2);
    let dungeon_entrances = place_dungeon_entrances(&mut level, &graph, &mut rng, dungeons, start);
    let ghost placed = level.map;
    decorate(&mut level, &mut rng, seed);
    proof {
        lemma_grass_only_keeps_stairs(placed, level.map);
        assert forall|k: int| 0 <= k < dungeon_entrances@.len() implies entrance_ok(
            graph,
            start,
            level.map,
            #[trigger] dungeon_entrances@[k],
        ) by {
            assert(placed.tile_at(dungeon_entrances@[k].tx as int, dungeon_entrances@[k].ty as int) == tile::STAIRS_DOWN);
        }
    }
    populate(&mut level, &graph, &mut rng, start);
    let mut ry: i32 = 0;
    while ry < rooms_h
        invariant
            fits_graph(level, graph),
            level.kind == LevelKind::Overworld,
            level.links@.len() == 0,
            level.entrance.x == ((centre.0 * 16 + 8) * 256) && level.entrance.y == ((centre.1 * 16 + 8) * 256),
            centre.0 == rooms_w / 2 * 10 + 5 && centre.1 == rooms_h / 2 * 8 + 4,
            graph.gw() == rooms_w && graph.gh() == rooms_h,
            0 <= ry <= rooms_h,
            forall|k: int|
                0 <= k < dungeon_entrances@.len() ==> entrance_ok(graph, start, level.map, #[trigger] dungeon_entrances@[k]),
            spawns_free(level, 0),
            spawns_tame(level, 0),
        decreases rooms_h - ry,
    {
        let mut rx: i32 = 0;
        while rx < rooms_w
            invariant
                fits_graph(level, graph),
                level.kind == LevelKind::Overworld,
                level.links@.len() == 0,
                level.entrance.x == ((centre.0 * 16 + 8) * 256) && level.entrance.y == ((centre.1 * 16 + 8) * 256),
                centre.0 == rooms_w / 2 * 10 + 5 && centre.1 == rooms_h / 2 * 8 + 4,
                graph.gw() == rooms_w && graph.gh() == rooms_h,
                0 <= ry < rooms_h,
                0 <= rx <= rooms_w,
                forall|k: int|
                    0 <= k < dungeon_entrances@.len() ==> entrance_ok(graph, start, level.map, #[trigger] dungeon_entrances@[k]),
                spawns_free(level, 0),
                spawns_tame(level, 0),
            decreases rooms_w - rx,
        {
            let kind = if rx == start.0 && ry == start.1 { RoomKind::Start } else { RoomKind::Normal };
            let bits = exit_bits(&graph, rx, ry);
            match level.room_index(rx, ry) {
                Some(i) => {
                    level.rooms.set(i, Room { kind, region: 0, visited: false, cleared: false, exits: bits });
                },
                None => {},
            }
            rx = rx + 1;
        }
        ry = ry + 1;
    }
    Overworld { level, graph, dungeon_entrances }
}

/// Every tile reachable on foot from a starting tile: walkable, without
/// water or harm, moving one tile at a time in the four directions (nothing
/// when the start itself is not such a tile).
pub fn reachable(level: &Level, from: (i32, i32)) -> (seen: Vec<bool>)
    requires
        level.wf(),
    ensures
        flood_closed(level.map, seen@, from, (flag::WATER | flag::HARMFUL) as u16),
        level.map.in_bounds_spec(from.0 as int, from.1 as int) && passable(
            level.map.tile_at(from.0 as int, from.1 as int),
            (flag::WATER | flag::HARMFUL) as u16,
        ) ==> seen@[from.1 * level.map.tw() + from.0],
{
    flood(&level.map, from, flag::WATER | flag::HARMFUL, true)
}

/// A tile a hero can stand on and walk over: nothing solid, and none of the
/// `hazards` flags.
pub open spec fn passable(t: Tile, hazards: u16) -> bool {
    !crate::tiles::blocks_walk_spec(t) && crate::tiles::flags_spec(t) & hazards == 0
}

/// The tile one step from `(x, y)` in direction `d`.
pub open spec fn step_from(x: int, y: int, d: int) -> (int, int) {
    if d == 0 {
        (x + 1, y)
    } else if d == 1 {
        (x - 1, y)
    } else if d == 2 {
        (x, y + 1)
    } else {
        (x, y - 1)
    }
}

/// The neighbour of `(x, y)` in direction `d` is seen if it is on the map
/// and walkable.
pub open spec fn covered(m: TileMap, seen: Seq<bool>, x: int, y: int, d: int, hazards: u16) -> bool {
    let (sx, sy) = step_from(x, y, d);
    m.in_bounds_spec(sx, sy) && passable(m.tile_at(sx, sy), hazards) ==> seen[sy * m.tw() + sx]
}

/// Every seen tile that can be walked from has its walkable neighbours seen
/// too, and only walkable tiles (and the starting one) are seen.
pub open spec fn flood_closed(m: TileMap, seen: Seq<bool>, from: (i32, i32), hazards: u16) -> bool {
    &&& seen.len() == m.tw() * m.th()
    &&& forall|x: int, y: int|
        m.in_bounds_spec(x, y) && #[trigger] seen[y * m.tw() + x] ==> (x == from.0 && y == from.1)
            || passable(m.tile_at(x, y), hazards)
    &&& forall|x: int, y: int, d: int|
        m.in_bounds_spec(x, y) && seen[y * m.tw() + x] && 0 <= d < 4 ==> #[trigger] covered(m, seen, x, y, d, hazards)
}

/// Marks every tile reachable on foot from `from`, moving one tile at a time
/// in the four directions over walkable tiles without `hazards`. With
/// `need_start` an unwalkable start marks nothing; without it the start is
/// marked whatever it holds. Nothing is marked for a start off the map.
pub fn flood(m: &TileMap, from: (i32, i32), hazards: u16, need_start: bool) -> (seen: Vec<bool>)
    requires
        m.wf(),
    ensures
        flood_closed(*m, seen@, from, hazards),
        m.in_bounds_spec(from.0 as int, from.1 as int) && (!need_start || passable(
            m.tile_at(from.0 as int, from.1 as int),
            hazards,
        )) ==> seen@[from.1 * m.tw() + from.0],
        !m.in_bounds_spec(from.0 as int, from.1 as int) ==> forall|i: int| 0 <= i < seen@.len() ==> !#[trigger] seen@[i],
{
    let w = m.w();
    let h = m.h();
    proof {
        m.lemma_dims();
    }
    let n = (w * h) as usize;
    let mut seen: Vec<bool> = Vec::new();
    let mut i: usize = 0;
    while i < n
        invariant
            i <= n,
            seen@.len() == i,
            forall|k: int| 0 <= k < i ==> !#[trigger] seen@[k],
        decreases n - i,
    {
        seen.push(false);
        i = i + 1;
    }
    if !m.in_bounds(from.0, from.1) {
        proof {
            assert forall|x: int, y: int| m.in_bounds_spec(x, y) && #[trigger] seen@[y * m.tw() + x] implies false by {
                m.lemma_index(x, y);
            }
        }
        return seen;
    }
    let t0 = m.get(from.0, from.1);
    let ok0 = !tiles::blocks_walk(t0) && tiles::flags(t0) & hazards == 0;
    if need_start && !ok0 {
        proof {
            assert forall|x: int, y: int| m.in_bounds_spec(x, y) && #[trigger] seen@[y * m.tw() + x] implies false by {
                m.lemma_index(x, y);
            }
        }
        return seen;
    }
    proof {
        m.lemma_index(from.0 as int, from.1 as int);
    }
    let mut queue: Vec<(i32, i32)> = Vec::new();
    queue.push(from);
    proof {
        lemma_count_true_none(seen@);
        lemma_count_true_set(seen@, from.1 * w + from.0);
    }
    let ghost blank = seen@;
    seen.set((from.1 * w + from.0) as usize, true);
    proof {
        assert(queue@[0] == from);
        assert(seen@[from.1 * w + from.0]);
        assert forall|x: int, y: int| m.in_bounds_spec(x, y) && #[trigger] seen@[y * w + x] implies x == from.0
            && y == from.1 by {
            m.lemma_index(x, y);
            if !(x == from.0 && y == from.1) {
                crate::level::lemma_distinct_index(x, y, from.0 as int, from.1 as int, w as int, h as int);
                assert(!blank[y * w + x]);
            }
        }
    }
    let mut head: usize = 0;
    while head < queue.len()
        invariant
            m.wf(),
            w == m.tw(),
            h == m.th(),
            seen@.len() == w * h,
            head <= queue@.len(),
            queue@.len() == count_true(seen@),
            forall|j: int| 0 <= j < queue@.len() ==> m.in_bounds_spec((#[trigger] queue@[j]).0 as int, queue@[j].1 as int)
                && seen@[queue@[j].1 * w + queue@[j].0],
            forall|x: int, y: int|
                m.in_bounds_spec(x, y) && #[trigger] seen@[y * w + x] ==> (x == from.0 && y == from.1)
                    || passable(m.tile_at(x, y), hazards),
            forall|x: int, y: int|
                m.in_bounds_spec(x, y) && #[trigger] seen@[y * w + x] ==> exists|j: int|
                    0 <= j < queue@.len() && queue@[j] == (x as i32, y as i32),
            forall|j: int, d: int|
                0 <= j < head && 0 <= d < 4 ==> #[trigger] covered(*m, seen@, queue@[j].0 as int, queue@[j].1 as int, d, hazards),
            m.in_bounds_spec(from.0 as int, from.1 as int),
            seen@[from.1 * w + from.0],
        decreases w * h - head,
    {
        proof {
            lemma_count_true_bound(seen@);
        }
        let (x, y) = queue[head];
        let mut d: i32 = 0;
        while d < 4
            invariant
                m.wf(),
                w == m.tw(),
                h == m.th(),
                seen@.len() == w * h,
                head < queue@.len(),
                queue@.len() == count_true(seen@),
                (x, y) == queue@[head as int],
                0 <= d <= 4,
                forall|j: int| 0 <= j < queue@.len() ==> m.in_bounds_spec((#[trigger] queue@[j]).0 as int, queue@[j].1 as int)
                    && seen@[queue@[j].1 * w + queue@[j].0],
                forall|xx: int, yy: int|
                    m.in_bounds_spec(xx, yy) && #[trigger] seen@[yy * w + xx] ==> (xx == from.0 && yy == from.1)
                        || passable(m.tile_at(xx, yy), hazards),
                forall|xx: int, yy: int|
                    m.in_bounds_spec(xx, yy) && #[trigger] seen@[yy * w + xx] ==> exists|j: int|
                        0 <= j < queue@.len() && queue@[j] == (xx as i32, yy as i32),
                forall|j: int, dd: int|
                    0 <= j < head && 0 <= dd < 4 ==> #[trigger] covered(*m, seen@, queue@[j].0 as int, queue@[j].1 as int, dd, hazards),
                forall|dd: int| 0 <= dd < d ==> #[trigger] covered(*m, seen@, x as int, y as int, dd, hazards),
                m.in_bounds_spec(from.0 as int, from.1 as int),
                seen@[from.1 * w + from.0],
            decreases 4 - d,
        {
            let ghost before = seen@;
            let ghost qbefore = queue@;
            let (nx, ny) = if d == 0 {
                (x + 1, y)
            } else if d == 1 {
                (x - 1, y)
            } else if d == 2 {
                (x, y + 1)
            } else {
                (x, y - 1)
            };
            if m.in_bounds(nx, ny) {
                proof {
                    m.lemma_index(nx as int, ny as int);
                }
                let idx = (ny * w + nx) as usize;
                let t = m.get(nx, ny);
                if !seen[idx] && !tiles::blocks_walk(t) && tiles::flags(t) & hazards == 0 {
                    let ghost old_seen = seen@;
                    let ghost old_queue = queue@;
                    proof {
                        // Each queued tile was marked once, so one more mark
                        // grows the count by exactly one.
                        lemma_count_true_set(seen@, idx as int);
                    }
                    seen.set(idx, true);
                    queue.push((nx, ny));
                    proof {
                        assert forall|xx: int, yy: int| m.in_bounds_spec(xx, yy) && #[trigger] seen@[yy * w + xx]
                            implies (xx == from.0 && yy == from.1) || passable(m.tile_at(xx, yy), hazards) by {
                            m.lemma_index(xx, yy);
                            if !(xx == nx && yy == ny) {
                                crate::level::lemma_distinct_index(xx, yy, nx as int, ny as int, w as int, h as int);
                                assert(old_seen[yy * w + xx]);
                            }
                        }
                        assert forall|xx: int, yy: int| m.in_bounds_spec(xx, yy) && #[trigger] seen@[yy * w + xx]
                            implies exists|j: int| 0 <= j < queue@.len() && queue@[j] == (xx as i32, yy as i32) by {
                            m.lemma_index(xx, yy);
                            if xx == nx && yy == ny {
                                assert(queue@[queue@.len() - 1] == (xx as i32, yy as i32));
                            } else {
                                crate::level::lemma_distinct_index(xx, yy, nx as int, ny as int, w as int, h as int);
                                assert(old_seen[yy * w + xx]);
                                let j = choose|j: int| 0 <= j < old_queue.len() && old_queue[j] == (xx as i32, yy as i32);
                                assert(queue@[j] == old_queue[j]);
                            }
                        }
                        assert forall|j: int| 0 <= j < queue@.len() implies m.in_bounds_spec((#[trigger] queue@[j]).0 as int, queue@[j].1 as int)
                            && seen@[queue@[j].1 * w + queue@[j].0] by {
                            if j < old_queue.len() {
                                assert(queue@[j] == old_queue[j]);
                                m.lemma_index(queue@[j].0 as int, queue@[j].1 as int);
                            }
                        }
                    }
                }
            }
            proof {
                assert(step_from(x as int, y as int, d as int) == (nx as int, ny as int));
                m.lemma_index(from.0 as int, from.1 as int);
                assert forall|j: int, dd: int| 0 <= j < head && 0 <= dd < 4 implies #[trigger] covered(
                    *m,
                    seen@,
                    queue@[j].0 as int,
                    queue@[j].1 as int,
                    dd,
                    hazards,
                ) by {
                    assert(queue@[j] == qbefore[j]);
                    lemma_covered_grow(*m, before, seen@, queue@[j].0 as int, queue@[j].1 as int, dd, hazards);
                }
                assert forall|dd: int| 0 <= dd <= d implies #[trigger] covered(*m, seen@, x as int, y as int, dd, hazards) by {
                    if dd < d {
                        lemma_covered_grow(*m, before, seen@, x as int, y as int, dd, hazards);
                    } else if m.in_bounds_spec(nx as int, ny as int) {
                        m.lemma_index(nx as int, ny as int);
                    }
                }
            }
            d = d + 1;
        }
        proof {
            lemma_count_true_bound(seen@);
        }
        head = head + 1;
    }
    proof {
        assert forall|xx: int, yy: int, dd: int|
            m.in_bounds_spec(xx, yy) && seen@[yy * m.tw() + xx] && 0 <= dd < 4 implies #[trigger] covered(
            *m,
            seen@,
            xx,
            yy,
            dd,
            hazards,
        ) by {
            let j = choose|j: int| 0 <= j < queue@.len() && queue@[j] == (xx as i32, yy as i32);
            assert(queue@[j].0 as int == xx && queue@[j].1 as int == yy);
            assert(covered(*m, seen@, queue@[j].0 as int, queue@[j].1 as int, dd, hazards));
        }
    }
    seen
}

/// Growing the set of seen tiles keeps a neighbour covered.
pub proof fn lemma_covered_grow(m: TileMap, s1: Seq<bool>, s2: Seq<bool>, x: int, y: int, d: int, hazards: u16)
    requires
        m.wf(),
        s1.len() == m.tw() * m.th(),
        s2.len() == s1.len(),
        forall|k: int| 0 <= k < s1.len() && s1[k] ==> #[trigger] s2[k],
        covered(m, s1, x, y, d, hazards),
    ensures
        covered(m, s2, x, y, d, hazards),
{
    let (sx, sy) = step_from(x, y, d);
    if m.in_bounds_spec(sx, sy) {
        m.lemma_index(sx, sy);
    }
}

/// How many entries of `s` are set.
pub open spec fn count_true(s: Seq<bool>) -> nat
    decreases s.len(),
{
    if s.len() == 0 {
        0
    } else {
        count_true(s.drop_last()) + if s.last() {
            1nat
        } else {
            0nat
        }
    }
}

/// No more entries are set than there are, and fewer when one is clear.
pub proof fn lemma_count_true_bound(s: Seq<bool>)
    ensures
        count_true(s) <= s.len(),
        (exists|i: int| 0 <= i < s.len() && !s[i]) ==> count_true(s) < s.len(),
    decreases s.len(),
{
    if s.len() > 0 {
        lemma_count_true_bound(s.drop_last());
        if exists|i: int| 0 <= i < s.len() && !s[i] {
            let i = choose|i: int| 0 <= i < s.len() && !s[i];
            if i < s.len() - 1 {
                assert(!s.drop_last()[i]);
            }
        }
    }
}

/// Setting a clear entry adds one to the count.
pub proof fn lemma_count_true_set(s: Seq<bool>, i: int)
    requires
        0 <= i < s.len(),
        !s[i],
    ensures
        count_true(s.update(i, true)) == count_true(s) + 1,
    decreases s.len(),
{
    let t = s.update(i, true);
    if i == s.len() - 1 {
        assert(t.drop_last() =~= s.drop_last());
    } else {
        assert(t.drop_last() =~= s.drop_last().update(i, true));
        lemma_count_true_set(s.drop_last(), i);
    }
}

/// With nothing set the count is zero.
pub proof fn lemma_count_true_none(s: Seq<bool>)
    requires
        forall|k: int| 0 <= k < s.len() ==> !#[trigger] s[k],
    ensures
        count_true(s) == 0,
    decreases s.len(),
{
    if s.len() > 0 {
        lemma_count_true_none(s.drop_last());
    }
}

} // verus!
