//! Dungeon generation.
//!
//! A dungeon is a grid of walled rooms joined by doorways. One door on the way
//! to the boss is locked, and its key is placed in a room you reach before
//! that door.
use vstd::prelude::*;
use crate::entity::Kind;
use crate::geom::{Dir, V2};
use crate::level::{Level, LevelKind, Room, RoomKind, Spawn, TileMap, ROOM_H, ROOM_W, TILE_PX, free_spot};
use crate::rng::Rng;
use crate::tiles::{self, flag, tile};
use crate::gen::graph::{carve, RoomGraph};
use crate::gen::overworld::{flood, flood_closed};

verus! {

/// A generated dungeon floor.
pub struct Dungeon {
    pub level: Level,
    pub graph: RoomGraph,
    /// Tile coordinates of the staircase back out.
    pub exit: (i32, i32),
    /// Where an arriving hero should appear.
    pub arrival: V2,
}

/// Largest dungeon, in rooms each way, that the generator builds.
pub const MAX_ROOMS: i32 = 0x100;

/// Replaces one tile of a level's map.
pub fn paint(level: &mut Level, tx: i32, ty: i32, t: u8)
    requires
        old(level).wf(),
    ensures
        final(level).wf(),
        *final(level) == (Level { map: final(level).map, ..*old(level) }),
        old(level).map.painted(final(level).map, t, |x: int, y: int| x == tx && y == ty),
{
    level.map.set(tx, ty, t);
}

/// Hollows out one room, leaving a one-tile wall all round.
pub fn carve_room(level: &mut Level, rx: i32, ry: i32)
    requires
        old(level).wf(),
        0 <= rx < MAX_ROOMS,
        0 <= ry < MAX_ROOMS,
    ensures
        final(level).wf(),
        *final(level) == (Level { map: final(level).map, ..*old(level) }),
        old(level).map.painted(
            final(level).map,
            tile::FLOOR,
            |a: int, b: int| rx * 10 + 1 <= a < rx * 10 + 9 && ry * 8 + 1 <= b < ry * 8 + 7,
        ),
{
    let x = rx * ROOM_W;
    let y = ry * ROOM_H;
    level.map.fill_rect(x + 1, y + 1, ROOM_W - 2, ROOM_H - 2, tile::FLOOR);
}

/// True when `(a, b)` is one of the first `n` rows (or columns) of the
/// doorway between room `(rx, ry)` and its neighbour in `dir`: the room's
/// wall tile and the neighbour's beside it.
pub open spec fn doorway_cell(rx: int, ry: int, dir: Dir, n: int, a: int, b: int) -> bool {
    let x = rx * 10;
    let y = ry * 8;
    match dir {
        Dir::Right => (a == x + 9 || a == x + 10) && y + 3 <= b < y + 3 + n,
        Dir::Left => (a == x || a == x - 1) && y + 3 <= b < y + 3 + n,
        Dir::Down => x + 4 <= a < x + 4 + n && (b == y + 7 || b == y + 8),
        Dir::Up => x + 4 <= a < x + 4 + n && (b == y || b == y - 1),
    }
}

/// Opens (or blocks, with `with`) the two-tile doorway between a room and
/// its neighbour in `dir`: both the room's wall and the neighbour's.
pub fn open_doorway(level: &mut Level, rx: i32, ry: i32, dir: Dir, with: u8)
    requires
        old(level).wf(),
        0 <= rx < MAX_ROOMS,
        0 <= ry < MAX_ROOMS,
    ensures
        final(level).wf(),
        *final(level) == (Level { map: final(level).map, ..*old(level) }),
        final(level).map.rw() == old(level).map.rw(),
        final(level).map.rh() == old(level).map.rh(),
        old(level).map.painted(final(level).map, with, |a: int, b: int| doorway_cell(rx as int, ry as int, dir, 2, a, b)),
{
    let x = rx * ROOM_W;
    let y = ry * ROOM_H;
    let mut i: i32 = 0;
    proof {
        assert(old(level).map.painted(level.map, with, |a: int, b: int| doorway_cell(rx as int, ry as int, dir, 0, a, b)));
    }
    while i < 2
        invariant
            level.wf(),
            0 <= i <= 2,
            x == rx * 10 && y == ry * 8,
            0 <= x < MAX_ROOMS * 10,
            0 <= y < MAX_ROOMS * 8,
            *level == (Level { map: level.map, ..*old(level) }),
            level.map.rw() == old(level).map.rw(),
            level.map.rh() == old(level).map.rh(),
            old(level).map.painted(level.map, with, |a: int, b: int| doorway_cell(rx as int, ry as int, dir, i as int, a, b)),
        decreases 2 - i,
    {
        match dir {
            Dir::Right => {
                paint(level, x + ROOM_W - 1, y + 3 + i, with);
                paint(level, x + ROOM_W, y + 3 + i, with);
            },
            Dir::Left => {
                paint(level, x, y + 3 + i, with);
                paint(level, x - 1, y + 3 + i, with);
            },
            Dir::Down => {
                paint(level, x + 4 + i, y + ROOM_H - 1, with);
                paint(level, x + 4 + i, y + ROOM_H, with);
            },
            Dir::Up => {
                paint(level, x + 4 + i, y, with);
                paint(level, x + 4 + i, y - 1, with);
            },
        }
        i = i + 1;
    }
}

/// The step from one room to the next one, as a facing.
pub open spec fn step_dir(dx: int, dy: int) -> Option<Dir> {
    if dx == 1 && dy == 0 {
        Some(Dir::Right)
    } else if dx == -1 && dy == 0 {
        Some(Dir::Left)
    } else if dx == 0 && dy == 1 {
        Some(Dir::Down)
    } else if dx == 0 && dy == -1 {
        Some(Dir::Up)
    } else {
        None
    }
}

/// The room and direction of the door leading into `target` along the path:
/// the room before it on the path and the way from there into it. `None`
/// when the target is not on the path, is its first room, or is not next to
/// the room before it.
pub fn door_into(graph: &RoomGraph, path: &[(i32, i32)], target: (i32, i32)) -> (r: Option<(i32, i32, Dir)>)
    requires
        forall|k: int| 0 <= k < path@.len() ==> -0x1000_0000 <= (#[trigger] path@[k]).0 <= 0x1000_0000
            && -0x1000_0000 <= path@[k].1 <= 0x1000_0000,
        -0x1000_0000 <= target.0 <= 0x1000_0000,
        -0x1000_0000 <= target.1 <= 0x1000_0000,
    ensures
        r matches Some((x, y, d)) ==> exists|k: int|
            1 <= k < path@.len() && #[trigger] path@[k] == target && path@[k - 1] == (x, y) && step_dir(
                target.0 - x,
                target.1 - y,
            ) == Some(d),
{
    let mut pos: usize = 0;
    let mut found = false;
    while pos < path.len()
        invariant
            pos <= path@.len(),
            found ==> pos < path@.len() && path@[pos as int] == target,
        ensures
            found ==> pos < path@.len() && path@[pos as int] == target,
        decreases path@.len() - pos,
    {
        if path[pos].0 == target.0 && path[pos].1 == target.1 {
            found = true;
            break;
        }
        pos = pos + 1;
    }
    if !found || pos == 0 {
        return None;
    }
    let from = path[pos - 1];
    let dx = target.0 - from.0;
    let dy = target.1 - from.1;
    let dir = if dx == 1 && dy == 0 {
        Dir::Right
    } else if dx == -1 && dy == 0 {
        Dir::Left
    } else if dx == 0 && dy == 1 {
        Dir::Down
    } else if dx == 0 && dy == -1 {
        Dir::Up
    } else {
        return None;
    };
    proof {
        assert(path@[pos as int] == target && path@[pos - 1] == (from.0, from.1));
    }
    Some((from.0, from.1, dir))
}

/// Puts the staircase out in the starting room: the middle column, two
/// tiles below the top wall.
pub fn place_exit(level: &mut Level, start: (i32, i32)) -> (r: (i32, i32))
    requires
        old(level).wf(),
        0 <= start.0 < MAX_ROOMS,
        0 <= start.1 < MAX_ROOMS,
    ensures
        final(level).wf(),
        *final(level) == (Level { map: final(level).map, ..*old(level) }),
        r.0 == start.0 * 10 + 5 && r.1 == start.1 * 8 + 2,
        old(level).map.painted(final(level).map, tile::STAIRS_UP, |x: int, y: int| x == r.0 && y == r.1),
{
    let tx = start.0 * ROOM_W + ROOM_W / 2;
    let ty = start.1 * ROOM_H + 2;
    paint(level, tx, ty, tile::STAIRS_UP);
    (tx, ty)
}

/// True when a tile lies on the cross of corridors joining a room's four
/// doorways. Nothing is ever placed here, which is what keeps a decorated
/// room walkable no matter what the dice say.
pub open spec fn corridor_spec(rx: int, ry: int, tx: int, ty: int) -> bool {
    let x = rx * 10;
    let y = ry * 8;
    (tx == x + 4 || tx == x + 5) || (ty == y + 3 || ty == y + 4)
}

/// See [`corridor_spec`].
pub fn is_corridor(rx: i32, ry: i32, tx: i32, ty: i32) -> (r: bool)
    requires
        0 <= rx < MAX_ROOMS,
        0 <= ry < MAX_ROOMS,
    ensures
        r == corridor_spec(rx as int, ry as int, tx as int, ty as int),
{
    let x = rx * ROOM_W;
    let y = ry * ROOM_H;
    (tx == x + 4 || tx == x + 5) || (ty == y + 3 || ty == y + 4)
}

/// Places a decoration, unless it would stand in a doorway corridor.
pub fn decorate_tile(level: &mut Level, rx: i32, ry: i32, tx: i32, ty: i32, t: u8)
    requires
        old(level).wf(),
        0 <= rx < MAX_ROOMS,
        0 <= ry < MAX_ROOMS,
    ensures
        final(level).wf(),
        *final(level) == (Level { map: final(level).map, ..*old(level) }),
        corridor_spec(rx as int, ry as int, tx as int, ty as int) ==> final(level).map == old(level).map,
        !corridor_spec(rx as int, ry as int, tx as int, ty as int) ==> old(level).map.painted(
            final(level).map,
            t,
            |x: int, y: int| x == tx && y == ty,
        ),
{
    if is_corridor(rx, ry, tx, ty) {
        return;
    }
    paint(level, tx, ty, t);
}


/// The level's grid of rooms matches the graph's, and both are small.
pub open spec fn fits_graph(level: Level, graph: RoomGraph) -> bool {
    &&& level.wf()
    &&& graph.wf()
    &&& level.map.rw() == graph.gw()
    &&& level.map.rh() == graph.gh()
    &&& graph.gw() <= MAX_ROOMS
    &&& graph.gh() <= MAX_ROOMS
}

/// Rooms along a path are grid rooms.
pub open spec fn path_in_grid(graph: RoomGraph, path: Seq<(i32, i32)>) -> bool {
    forall|k: int| 0 <= k < path.len() ==> graph.in_grid((#[trigger] path[k]).0 as int, path[k].1 as int)
}

/// Locks one door partway along the route to the boss: the door into the
/// room two thirds of the way in (never the first or the last room). Returns
/// that room's depth, so the key can be placed in a room shallower than
/// that; `None` on a route of fewer than three rooms.
pub fn lock_a_door(level: &mut Level, graph: &RoomGraph, path: &[(i32, i32)]) -> (r: Option<i32>)
    requires
        fits_graph(*old(level), *graph),
        path_in_grid(*graph, path@),
    ensures
        fits_graph(*final(level), *graph),
        *final(level) == (Level { map: final(level).map, ..*old(level) }),
        path@.len() < 3 ==> r.is_none() && *final(level) == *old(level),
{
    if path.len() < 3 {
        return None;
    }
    let third = ((path.len() as u128) * 2 / 3) as usize;
    let at = if third < 1 { 1 } else if third > path.len() - 2 { path.len() - 2 } else { third };
    let room = path[at];
    proof {
        assert(graph.in_grid(path@[at as int].0 as int, path@[at as int].1 as int));
        assert forall|k: int| 0 <= k < path@.len() implies -0x1000_0000 <= (#[trigger] path@[k]).0
            <= 0x1000_0000 && -0x1000_0000 <= path@[k].1 <= 0x1000_0000 by {
            assert(graph.in_grid(path@[k].0 as int, path@[k].1 as int));
        }
    }
    match door_into(graph, path, room) {
        Some((rx, ry, dir)) => {
            proof {
                let k = choose|k: int| 1 <= k < path@.len() && #[trigger] path@[k] == room && path@[k - 1] == (rx, ry)
                    && step_dir(room.0 - rx, room.1 - ry) == Some(dir);
                assert(graph.in_grid(path@[k - 1].0 as int, path@[k - 1].1 as int));
            }
            open_doorway(level, rx, ry, dir, tile::DOOR_LOCKED);
            Some(graph.depth_at(room.0, room.1))
        },
        None => None,
    }
}

/// Adds pots, blocks, the occasional pair of pit rows and cracked walls, one
/// roll per room; the entrance and the boss room are left bare.
pub fn decorate(level: &mut Level, graph: &RoomGraph, rng: &mut Rng, start: (i32, i32), boss: (i32, i32))
    requires
        fits_graph(*old(level), *graph),
    ensures
        fits_graph(*final(level), *graph),
        *final(level) == (Level { map: final(level).map, ..*old(level) }),
{
    let gh = graph.height();
    let gw = graph.width();
    let mut ry: i32 = 0;
    while ry < gh
        invariant
            fits_graph(*level, *graph),
            *level == (Level { map: level.map, ..*old(level) }),
            gh == graph.gh(),
            gw == graph.gw(),
            0 <= ry <= gh,
        decreases gh - ry,
    {
        let mut rx: i32 = 0;
        while rx < gw
            invariant
                fits_graph(*level, *graph),
                *level == (Level { map: level.map, ..*old(level) }),
                gh == graph.gh(),
                gw == graph.gw(),
                0 <= ry < gh,
                0 <= rx <= gw,
            decreases gw - rx,
        {
            let skip = (rx == start.0 && ry == start.1) || (rx == boss.0 && ry == boss.1);
            if !skip {
                let x = rx * ROOM_W;
                let y = ry * ROOM_H;
                let roll = rng.below(6);
                if roll == 0 {
                    // Pits either side of the middle, with the corridors left
                    // open so the room is still crossable on foot.
                    let mut i: i32 = 0;
                    while i < 5
                        invariant
                            fits_graph(*level, *graph),
                            *level == (Level { map: level.map, ..*old(level) }),
                            0 <= rx < MAX_ROOMS,
                            0 <= ry < MAX_ROOMS,
                            x == rx * 10,
                            y == ry * 8,
                            0 <= i <= 5,
                        decreases 5 - i,
                    {
                        decorate_tile(level, rx, ry, x + 2 + i, y + 2, tile::PIT);
                        decorate_tile(level, rx, ry, x + 2 + i, y + ROOM_H - 3, tile::PIT);
                        i = i + 1;
                    }
                } else if roll == 1 {
                    // Pushable blocks in the corners.
                    decorate_tile(level, rx, ry, x + 2, y + 2, tile::BLOCK);
                    decorate_tile(level, rx, ry, x + ROOM_W - 3, y + 2, tile::BLOCK);
                    decorate_tile(level, rx, ry, x + 2, y + ROOM_H - 3, tile::BLOCK);
                    decorate_tile(level, rx, ry, x + ROOM_W - 3, y + ROOM_H - 3, tile::BLOCK);
                } else if roll == 2 {
                    let mut k: i32 = 0;
                    while k < 3
                        invariant
                            fits_graph(*level, *graph),
                            *level == (Level { map: level.map, ..*old(level) }),
                            0 <= rx < MAX_ROOMS,
                            0 <= ry < MAX_ROOMS,
                            x == rx * 10,
                            y == ry * 8,
                            0 <= k <= 3,
                        decreases 3 - k,
                    {
                        let tx = x + rng.range(2, ROOM_W - 3);
                        let ty = y + rng.range(2, ROOM_H - 3);
                        decorate_tile(level, rx, ry, tx, ty, tile::POT);
                        k = k + 1;
                    }
                } else if roll == 3 {
                    // A crack in an outer wall, worth a bomb.
                    let side = rng.below(2);
                    let (tx, ty) = if side == 0 {
                        (x + rng.range(2, ROOM_W - 3), y)
                    } else {
                        (x, y + rng.range(2, ROOM_H - 3))
                    };
                    if level.map.get(tx, ty) == tile::WALL_DUNGEON {
                        paint(level, tx, ty, tile::WALL_CRACKED);
                    }
                }
            }
            rx = rx + 1;
        }
        ry = ry + 1;
    }
}

/// The monster for a roll in `0..100` shifted up by eight per dungeon, so
/// later dungeons field tougher kinds.
pub open spec fn monster_for(roll: int) -> Kind {
    if roll <= 25 {
        Kind::Keese
    } else if roll <= 45 {
        Kind::Zol
    } else if roll <= 65 {
        Kind::Octorok
    } else if roll <= 85 {
        Kind::Moblin
    } else if roll <= 105 {
        Kind::Tektite
    } else {
        Kind::Stalfos
    }
}

/// See [`monster_for`].
fn monster_kind(roll: u32) -> (r: Kind)
    ensures
        r == monster_for(roll as int),
{
    if roll <= 25 {
        Kind::Keese
    } else if roll <= 45 {
        Kind::Zol
    } else if roll <= 65 {
        Kind::Octorok
    } else if roll <= 85 {
        Kind::Moblin
    } else if roll <= 105 {
        Kind::Tektite
    } else {
        Kind::Stalfos
    }
}

/// Every spawn the generator adds stands on a free tile of the map, except
/// the boss, which stands in the middle of its room.
pub open spec fn spawns_free(level: Level, from: int) -> bool {
    forall|k: int| from <= k < level.spawns@.len() ==> #[trigger] free_spot(
        level.map,
        level.spawns@[k].tx as int,
        level.spawns@[k].ty as int,
    )
}

/// Places the boss in the middle of the deepest room, a chest with the small
/// key in a room shallower than the lock (chosen at random), a chest with
/// the dungeon's item in a dead end if there is one (else the boss room),
/// and one to a few monsters in every other room but the entrance. Chests
/// and monsters stand on the nearest free tile within three of where the
/// dice put them, and are left out when there is none.
pub fn populate(
    level: &mut Level,
    graph: &RoomGraph,
    rng: &mut Rng,
    start: (i32, i32),
    boss: (i32, i32),
    lock_depth: Option<i32>,
    index: u8,
)
    requires
        fits_graph(*old(level), *graph),
        graph.in_grid(start.0 as int, start.1 as int),
        graph.in_grid(boss.0 as int, boss.1 as int),
        old(level).spawns@.len() == 0,
    ensures
        fits_graph(*final(level), *graph),
        *final(level) == (Level { spawns: final(level).spawns, ..*old(level) }),
        final(level).spawns@.len() >= 1,
        final(level).spawns@[0] == (Spawn {
            room: (boss.1 * graph.gw() + boss.0) as u16,
            kind: crate::entity::kind_code(Kind::Boss),
            tx: (boss.0 * 10 + 5) as i32,
            ty: (boss.1 * 8 + 4) as i32,
            param: index as i32,
        }),
        spawns_free(*final(level), 1),
        forall|k: int| 1 <= k < final(level).spawns@.len() ==> (#[trigger] final(level).spawns@[k]).kind
            != crate::entity::kind_code(Kind::Boss),
{
    // The boss, in the deepest room.
    let room_index = match level.room_index(boss.0, boss.1) {
        Some(i) => i,
        None => {
            return;
        },
    };
    let c = (boss.0 * ROOM_W + ROOM_W / 2, boss.1 * ROOM_H + ROOM_H / 2);
    level.spawns.push(Spawn { room: room_index as u16, kind: Kind::Boss.to_u8(), tx: c.0, ty: c.1, param: index as i32 });
    let ghost first = level.spawns@[0];
    let gh = graph.height();
    let gw = graph.width();
    // The key goes in a room you can reach before the locked door.
    match lock_depth {
        Some(depth) => {
            let mut candidates: Vec<(i32, i32)> = Vec::new();
            proof {
                assert(gw * gh <= MAX_ROOMS * MAX_ROOMS) by (nonlinear_arith)
                    requires
                        1 <= gw <= MAX_ROOMS,
                        1 <= gh <= MAX_ROOMS,
                ;
            }
            let mut ry: i32 = 0;
            while ry < gh
                invariant
                    gh == graph.gh(),
                    gw == graph.gw(),
                    graph.wf(),
                    0 <= ry <= gh,
                    candidates@.len() <= ry * gw,
                    gw * gh <= MAX_ROOMS * MAX_ROOMS,
                    forall|k: int| 0 <= k < candidates@.len() ==> graph.in_grid((#[trigger] candidates@[k]).0 as int, candidates@[k].1 as int),
                decreases gh - ry,
            {
                let mut rx: i32 = 0;
                while rx < gw
                    invariant
                        gh == graph.gh(),
                        gw == graph.gw(),
                        graph.wf(),
                        0 <= ry < gh,
                        0 <= rx <= gw,
                        candidates@.len() <= ry * gw + rx,
                        forall|k: int| 0 <= k < candidates@.len() ==> graph.in_grid((#[trigger] candidates@[k]).0 as int, candidates@[k].1 as int),
                    decreases gw - rx,
                {
                    let d = graph.depth_at(rx, ry);
                    if d >= 0 && d < depth && !(rx == start.0 && ry == start.1) {
                        candidates.push((rx, ry));
                    }
                    rx = rx + 1;
                }
                proof {
                    assert(ry * gw + gw == (ry + 1) * gw) by (nonlinear_arith);
                }
                ry = ry + 1;
            }
            if candidates.len() == 0 {
                candidates.push(start);
            }
            proof {
                assert(candidates@.len() <= MAX_ROOMS * MAX_ROOMS + 1) by (nonlinear_arith)
                    requires
                        candidates@.len() <= gh * gw || candidates@.len() == 1,
                        gw * gh <= MAX_ROOMS * MAX_ROOMS,
                ;
            }
            let ghost before = candidates@;
            rng.shuffle(candidates.as_mut_slice());
            proof {
                assert forall|k: int| 0 <= k < candidates@.len() implies graph.in_grid((#[trigger] candidates@[k]).0 as int, candidates@[k].1 as int) by {
                    candidates@.to_multiset_ensures();
                    before.to_multiset_ensures();
                    assert(candidates@.contains(candidates@[k]));
                    assert(candidates@.to_multiset().count(candidates@[k]) > 0);
                    assert(before.to_multiset().count(candidates@[k]) > 0);
                    assert(before.contains(candidates@[k]));
                    let j = choose|j: int| 0 <= j < before.len() && before[j] == candidates@[k];
                }
            }
            let room = candidates[0];
            match level.room_index(room.0, room.1) {
                Some(ri) => {
                    let cx = room.0 * ROOM_W + ROOM_W / 2;
                    let cy = room.1 * ROOM_H + 3;
                    match level.find_free_near(cx, cy, 3) {
                        Some((tx, ty)) => {
                            // A chest holding a small key.
                            level.spawns.push(Spawn { room: ri as u16, kind: Kind::Chest.to_u8(), tx, ty, param: 9 });
                        },
                        None => {},
                    }
                },
                None => {},
            }
        },
        None => {},
    }
    // One treasure chest with a real item, in a dead end if there is one.
    let mut leaves: Vec<(i32, i32)> = Vec::new();
    let mut ry: i32 = 0;
    while ry < gh
        invariant
            gh == graph.gh(),
            gw == graph.gw(),
            fits_graph(*level, *graph),
            *level == (Level { spawns: level.spawns, ..*old(level) }),
            level.spawns@.len() >= 1,
            level.spawns@[0] == first,
            spawns_free(*level, 1),
            forall|k: int| 1 <= k < level.spawns@.len() ==> (#[trigger] level.spawns@[k]).kind
                != crate::entity::kind_code(Kind::Boss),
            0 <= ry <= gh,
            leaves@.len() <= ry * gw,
            forall|k: int| 0 <= k < leaves@.len() ==> graph.in_grid((#[trigger] leaves@[k]).0 as int, leaves@[k].1 as int),
        decreases gh - ry,
    {
        let mut rx: i32 = 0;
        while rx < gw
            invariant
                gh == graph.gh(),
                gw == graph.gw(),
                graph.wf(),
                0 <= ry < gh,
                0 <= rx <= gw,
                leaves@.len() <= ry * gw + rx,
                forall|k: int| 0 <= k < leaves@.len() ==> graph.in_grid((#[trigger] leaves@[k]).0 as int, leaves@[k].1 as int),
            decreases gw - rx,
        {
            let here_start = rx == start.0 && ry == start.1;
            let here_boss = rx == boss.0 && ry == boss.1;
            if graph.exits(rx, ry).len() == 1 && !here_start && !here_boss {
                leaves.push((rx, ry));
            }
            rx = rx + 1;
        }
        proof {
            assert(ry * gw + gw == (ry + 1) * gw) by (nonlinear_arith);
        }
        ry = ry + 1;
    }
    if leaves.len() == 0 {
        leaves.push(boss);
    }
    proof {
        assert(leaves@.len() <= MAX_ROOMS * MAX_ROOMS + 1) by (nonlinear_arith)
            requires
                leaves@.len() <= gh * gw || leaves@.len() == 1,
                gw <= MAX_ROOMS,
                gh <= MAX_ROOMS,
                gw >= 1,
                gh >= 1,
        ;
    }
    let ghost before = leaves@;
    rng.shuffle(leaves.as_mut_slice());
    proof {
        assert forall|k: int| 0 <= k < leaves@.len() implies graph.in_grid((#[trigger] leaves@[k]).0 as int, leaves@[k].1 as int) by {
            leaves@.to_multiset_ensures();
            before.to_multiset_ensures();
            assert(leaves@.contains(leaves@[k]));
            assert(leaves@.to_multiset().count(leaves@[k]) > 0);
            assert(before.to_multiset().count(leaves@[k]) > 0);
            assert(before.contains(leaves@[k]));
            let j = choose|j: int| 0 <= j < before.len() && before[j] == leaves@[k];
        }
    }
    let treasure_room = leaves[0];
    match level.room_index(treasure_room.0, treasure_room.1) {
        Some(ri) => {
            let cx = treasure_room.0 * ROOM_W + ROOM_W / 2;
            let cy = treasure_room.1 * ROOM_H + ROOM_H / 2;
            match level.find_free_near(cx, cy, 3) {
                Some((tx, ty)) => {
                    // Each dungeon holds a different item.
                    level.spawns.push(Spawn { room: ri as u16, kind: Kind::Chest.to_u8(), tx, ty, param: 1 + (index as i32 % 8) });
                },
                None => {},
            }
        },
        None => {},
    }
    // Monsters everywhere but the entrance.
    let mut my: i32 = 0;
    while my < gh
        invariant
            gh == graph.gh(),
            gw == graph.gw(),
            fits_graph(*level, *graph),
            *level == (Level { spawns: level.spawns, ..*old(level) }),
            0 <= my <= gh,
            level.spawns@.len() >= 1,
            level.spawns@[0] == first,
            spawns_free(*level, 1),
            forall|k: int| 1 <= k < level.spawns@.len() ==> (#[trigger] level.spawns@[k]).kind
                != crate::entity::kind_code(Kind::Boss),
        decreases gh - my,
    {
        let mut mx: i32 = 0;
        while mx < gw
            invariant
                gh == graph.gh(),
                gw == graph.gw(),
                fits_graph(*level, *graph),
                *level == (Level { spawns: level.spawns, ..*old(level) }),
                0 <= my < gh,
                0 <= mx <= gw,
                level.spawns@.len() >= 1,
                level.spawns@[0] == first,
                spawns_free(*level, 1),
                forall|k: int| 1 <= k < level.spawns@.len() ==> (#[trigger] level.spawns@[k]).kind
                    != crate::entity::kind_code(Kind::Boss),
            decreases gw - mx,
        {
            let skip = (mx == start.0 && my == start.1) || (mx == boss.0 && my == boss.1);
            if !skip {
                match level.room_index(mx, my) {
                    Some(ri) => {
                        let top: i32 = 3 + (if index < 3 { index as i32 } else { 3 });
                        let count = rng.range(1, top);
                        let mut n: i32 = 0;
                        while n < count
                            invariant
                                fits_graph(*level, *graph),
                                *level == (Level { spawns: level.spawns, ..*old(level) }),
                                0 <= mx < MAX_ROOMS,
                                0 <= my < MAX_ROOMS,
                                level.spawns@.len() >= 1,
                                level.spawns@[0] == first,
                                spawns_free(*level, 1),
                                forall|k: int| 1 <= k < level.spawns@.len() ==> (#[trigger] level.spawns@[k]).kind
                                    != crate::entity::kind_code(Kind::Boss),
                            decreases count - n,
                        {
                            let tx0 = mx * ROOM_W + rng.range(2, ROOM_W - 3);
                            let ty0 = my * ROOM_H + rng.range(2, ROOM_H - 3);
                            match level.find_free_near(tx0, ty0, 3) {
                                Some((tx, ty)) => {
                                    let roll = rng.below(100) + index as u32 * 8;
                                    let kind = monster_kind(roll);
                                    level.spawns.push(Spawn { room: ri as u16, kind: kind.to_u8(), tx, ty, param: 0 });
                                },
                                None => {},
                            }
                            n = n + 1;
                        }
                    },
                    None => {},
                }
            }
            mx = mx + 1;
        }
        my = my + 1;
    }
}


/// The bit for each way out of a room that the graph links.
pub fn exit_bits(graph: &RoomGraph, rx: i32, ry: i32) -> (r: u8)
    requires
        graph.wf(),
    ensures
        r == (if graph.linked_spec(rx as int, ry as int, Dir::Down) { 1u8 } else { 0u8 })
            | (if graph.linked_spec(rx as int, ry as int, Dir::Up) { 2u8 } else { 0u8 })
            | (if graph.linked_spec(rx as int, ry as int, Dir::Left) { 4u8 } else { 0u8 })
            | (if graph.linked_spec(rx as int, ry as int, Dir::Right) { 8u8 } else { 0u8 }),
{
    let a: u8 = if graph.linked(rx, ry, Dir::Down) { 1 } else { 0 };
    let b: u8 = if graph.linked(rx, ry, Dir::Up) { 2 } else { 0 };
    let c: u8 = if graph.linked(rx, ry, Dir::Left) { 4 } else { 0 };
    let d: u8 = if graph.linked(rx, ry, Dir::Right) { 8 } else { 0 };
    a | b | c | d
}

/// Generates dungeon number `index`, `rooms_w` by `rooms_h` rooms: walled
/// rooms joined along a carved maze (with a few extra doorways), the way in
/// at the bottom middle with the staircase out, the boss in the deepest room
/// behind a boss door, one door on the way locked, then decorations,
/// monsters, the key, a treasure, and the room records.
pub fn generate(seed: u64, index: u8, rooms_w: i32, rooms_h: i32) -> (d: Dungeon)
    requires
        1 <= rooms_w <= MAX_ROOMS,
        1 <= rooms_h <= MAX_ROOMS,
        index < 255,
    ensures
        fits_graph(d.level, d.graph),
        crate::world::playable(d.level),
        d.level.kind == LevelKind::Dungeon,
        d.level.dungeon == index + 1,
        d.graph.gw() == rooms_w && d.graph.gh() == rooms_h,
        d.exit == ((rooms_w / 2 * 10 + 5) as i32, ((rooms_h - 1) * 8 + 2) as i32),
        d.arrival == (V2 { x: ((d.exit.0 * 16 + 8) * 256) as i32, y: ((d.exit.1 * 16 + 24) * 256) as i32 }),
        d.level.entrance == d.arrival,
        d.level.links@.len() == 0,
        d.level.spawns@.len() >= 1,
        d.level.spawns@[0].kind == crate::entity::kind_code(Kind::Boss),
        spawns_free(d.level, 1),
        forall|k: int| 1 <= k < d.level.spawns@.len() ==> (#[trigger] d.level.spawns@[k]).kind
            != crate::entity::kind_code(Kind::Boss),
        forall|x: int, y: int| d.graph.in_grid(x, y) ==> #[trigger] d.graph.depth_spec(x, y) >= 0,
{
    let mut rng = Rng::new(seed ^ 0xd0_0d_0000_0000 ^ ((index as u64) << 32u64));
    proof {
        assert(rooms_w * 10 * rooms_h * 8 <= MAX_ROOMS * 10 * MAX_ROOMS * 8) by (nonlinear_arith)
            requires
                1 <= rooms_w <= MAX_ROOMS,
                1 <= rooms_h <= MAX_ROOMS,
        ;
    }
    let mut level = Level::new(LevelKind::Dungeon, rooms_w, rooms_h, tile::WALL_DUNGEON);
    level.dungeon = index + 1;
    // Enter from the bottom middle, the way a dungeon usually opens.
    let start = (rooms_w / 2, rooms_h - 1);
    proof {
        assert(rooms_w * rooms_h <= MAX_ROOMS * MAX_ROOMS) by (nonlinear_arith)
            requires
                1 <= rooms_w <= MAX_ROOMS,
                1 <= rooms_h <= MAX_ROOMS,
        ;
        assert(rooms_w * rooms_h >= 1) by (nonlinear_arith)
            requires
                1 <= rooms_w,
                1 <= rooms_h,
        ;
    }
    let graph = carve(&mut rng, rooms_w, rooms_h, start, (rooms_w * rooms_h / 6) as u32);
    let mut ry: i32 = 0;
    while ry < rooms_h
        invariant
            fits_graph(level, graph),
            level.kind == LevelKind::Dungeon,
            level.dungeon == index + 1,
            level.links@.len() == 0,
            level.spawns@.len() == 0,
            level.entrance.x == 80 * 256 && level.entrance.y == 64 * 256,
            graph.gw() == rooms_w && graph.gh() == rooms_h,
            0 <= ry <= rooms_h,
        decreases rooms_h - ry,
    {
        let mut rx: i32 = 0;
        while rx < rooms_w
            invariant
                fits_graph(level, graph),
                level.kind == LevelKind::Dungeon,
                level.dungeon == index + 1,
                level.links@.len() == 0,
                level.spawns@.len() == 0,
                level.entrance.x == 80 * 256 && level.entrance.y == 64 * 256,
                graph.gw() == rooms_w && graph.gh() == rooms_h,
                0 <= ry < rooms_h,
                0 <= rx <= rooms_w,
            decreases rooms_w - rx,
        {
            carve_room(&mut level, rx, ry);
            rx = rx + 1;
        }
        ry = ry + 1;
    }
    let mut ry: i32 = 0;
    while ry < rooms_h
        invariant
            fits_graph(level, graph),
            level.kind == LevelKind::Dungeon,
            level.dungeon == index + 1,
            level.links@.len() == 0,
            level.spawns@.len() == 0,
            level.entrance.x == 80 * 256 && level.entrance.y == 64 * 256,
            graph.gw() == rooms_w && graph.gh() == rooms_h,
            0 <= ry <= rooms_h,
        decreases rooms_h - ry,
    {
        let mut rx: i32 = 0;
        while rx < rooms_w
            invariant
                fits_graph(level, graph),
                level.kind == LevelKind::Dungeon,
                level.dungeon == index + 1,
                level.links@.len() == 0,
                level.spawns@.len() == 0,
                level.entrance.x == 80 * 256 && level.entrance.y == 64 * 256,
                graph.gw() == rooms_w && graph.gh() == rooms_h,
                0 <= ry < rooms_h,
                0 <= rx <= rooms_w,
            decreases rooms_w - rx,
        {
            let exits = graph.exits(rx, ry);
            let mut k: usize = 0;
            while k < exits.len()
                invariant
                    fits_graph(level, graph),
                    level.kind == LevelKind::Dungeon,
                    level.dungeon == index + 1,
                    level.links@.len() == 0,
                    level.spawns@.len() == 0,
                    level.entrance.x == 80 * 256 && level.entrance.y == 64 * 256,
                    0 <= ry < rooms_h,
                    0 <= rx < rooms_w,
                    rooms_w <= MAX_ROOMS,
                    rooms_h <= MAX_ROOMS,
                    k <= exits@.len(),
                decreases exits@.len() - k,
            {
                let dir = exits[k];
                if dir == Dir::Down || dir == Dir::Right {
                    open_doorway(&mut level, rx, ry, dir, tile::FLOOR);
                }
                k = k + 1;
            }
            rx = rx + 1;
        }
        ry = ry + 1;
    }
    let boss_room = graph.deepest();
    proof {
        assert(graph.in_grid(start.0 as int, start.1 as int));
        reveal(RoomGraph::zero_at_start);
        assert(graph.depth_spec(start.0 as int, start.1 as int) == 0);
        assert(graph.in_grid(boss_room.0 as int, boss_room.1 as int));
    }
    let path = graph.path_to(boss_room);
    proof {
        let n = graph.depth_spec(boss_room.0 as int, boss_room.1 as int);
        if n >= 0 {
            assert forall|k: int| 0 <= k < path@.len() implies graph.in_grid(
                (#[trigger] path@[k]).0 as int,
                path@[k].1 as int,
            ) by {
                assert(graph.depth_spec(path@[k].0 as int, path@[k].1 as int) == k);
            }
        }
    }
    // Lock the last door before the boss, and guard the boss room itself.
    let locked = lock_a_door(&mut level, &graph, path.as_slice());
    proof {
        assert forall|k: int| 0 <= k < path@.len() implies -0x1000_0000 <= (#[trigger] path@[k]).0
            <= 0x1000_0000 && -0x1000_0000 <= path@[k].1 <= 0x1000_0000 by {
            assert(graph.in_grid(path@[k].0 as int, path@[k].1 as int));
        }
    }
    match door_into(&graph, path.as_slice(), boss_room) {
        Some((rx, ry, dir)) => {
            proof {
                let k = choose|k: int| 1 <= k < path@.len() && #[trigger] path@[k] == boss_room && path@[k - 1] == (rx, ry)
                    && step_dir(boss_room.0 - rx, boss_room.1 - ry) == Some(dir);
                assert(graph.in_grid(path@[k - 1].0 as int, path@[k - 1].1 as int));
            }
            open_doorway(&mut level, rx, ry, dir, tile::DOOR_BOSS);
        },
        None => {},
    }
    let exit = place_exit(&mut level, start);
    let arrival = V2::from_px(exit.0 * TILE_PX + TILE_PX / 2, exit.1 * TILE_PX + TILE_PX / 2 + TILE_PX);
    level.entrance = arrival;
    decorate(&mut level, &graph, &mut rng, start, boss_room);
    populate(&mut level, &graph, &mut rng, start, boss_room, locked, index);
    let mut ry: i32 = 0;
    while ry < rooms_h
        invariant
            fits_graph(level, graph),
            level.kind == LevelKind::Dungeon,
            level.dungeon == index + 1,
            level.links@.len() == 0,
            level.entrance == arrival,
            graph.gw() == rooms_w && graph.gh() == rooms_h,
            0 <= ry <= rooms_h,
            level.spawns@.len() >= 1,
            level.spawns@[0].kind == crate::entity::kind_code(Kind::Boss),
            spawns_free(level, 1),
            forall|k: int| 1 <= k < level.spawns@.len() ==> (#[trigger] level.spawns@[k]).kind
                != crate::entity::kind_code(Kind::Boss),
        decreases rooms_h - ry,
    {
        let mut rx: i32 = 0;
        while rx < rooms_w
            invariant
                fits_graph(level, graph),
                level.kind == LevelKind::Dungeon,
                level.dungeon == index + 1,
                level.links@.len() == 0,
                level.entrance == arrival,
                graph.gw() == rooms_w && graph.gh() == rooms_h,
                0 <= ry < rooms_h,
                0 <= rx <= rooms_w,
                level.spawns@.len() >= 1,
                level.spawns@[0].kind == crate::entity::kind_code(Kind::Boss),
                spawns_free(level, 1),
                forall|k: int| 1 <= k < level.spawns@.len() ==> (#[trigger] level.spawns@[k]).kind
                    != crate::entity::kind_code(Kind::Boss),
            decreases rooms_w - rx,
        {
            let kind = if rx == start.0 && ry == start.1 {
                RoomKind::Start
            } else if rx == boss_room.0 && ry == boss_room.1 {
                RoomKind::Boss
            } else {
                RoomKind::Normal
            };
            let bits = exit_bits(&graph, rx, ry);
            match level.room_index(rx, ry) {
                Some(i) => {
                    level.rooms.set(i, Room { kind, region: index, visited: false, cleared: false, exits: bits });
                },
                None => {},
            }
            rx = rx + 1;
        }
        ry = ry + 1;
    }
    Dungeon { level, graph, exit, arrival }
}

/// Flood fill that treats locked doors as walls, for checking that a
/// dungeon can actually be finished: every tile reachable from `from` over
/// walkable tiles without water, harm or pits (the start itself is always
/// marked when it is on the map).
pub fn reachable_without_keys(level: &Level, from: (i32, i32)) -> (seen: Vec<bool>)
    requires
        level.wf(),
    ensures
        flood_closed(level.map, seen@, from, (flag::WATER | flag::HARMFUL | flag::PIT) as u16),
        level.map.in_bounds_spec(from.0 as int, from.1 as int) ==> seen@[from.1 * level.map.tw() + from.0],
{
    flood(&level.map, from, flag::WATER | flag::HARMFUL | flag::PIT, false)
}

} // verus!
