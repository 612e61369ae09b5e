//! Maps, rooms and level geometry.
//!
//! The screen layout follows the Game Boy: a 160x144 screen with a 16 pixel
//! status bar, leaving a 160x128 playfield that holds exactly 10x8 tiles of
//! 16x16 pixels. One "room" is one screenful, and the camera snaps between
//! rooms the way Link's Awakening does rather than scrolling freely.
use vstd::prelude::*;
use crate::fixed::{px, to_px, floor_px, tdiv, Fx};
use crate::geom::{Dir, Rect, V2, fits_i32};
use crate::tiles::{self, flag, tile, Tile, blocks_walk_spec, flags_spec};

verus! {

/// Width and height of one tile, in pixels.
pub const TILE_PX: i32 = 16;
/// Room width in tiles.
pub const ROOM_W: i32 = 10;
/// Room height in tiles.
pub const ROOM_H: i32 = 8;
/// Room width in pixels.
pub const ROOM_PX_W: i32 = 160;
/// Room height in pixels.
pub const ROOM_PX_H: i32 = 128;
/// Full screen width in pixels.
pub const SCREEN_W: i32 = 160;
/// Full screen height in pixels.
pub const SCREEN_H: i32 = 144;
/// Height of the status bar at the top of the screen.
pub const HUD_H: i32 = 16;

/// What sort of place a level is.
#[derive(Clone, Copy, PartialEq, Eq, Debug, Default, Structural)]
pub enum LevelKind {
    #[default]
    Overworld,
    Dungeon,
    Cave,
    Interior,
}

/// The number a level kind is stored as.
pub open spec fn level_kind_code(k: LevelKind) -> u8 {
    match k {
        LevelKind::Overworld => 0,
        LevelKind::Dungeon => 1,
        LevelKind::Cave => 2,
        LevelKind::Interior => 3,
    }
}

impl LevelKind {
    /// The number this kind is stored as.
    pub fn to_u8(self) -> (r: u8)
        ensures
            r == level_kind_code(self),
    {
        match self {
            LevelKind::Overworld => 0,
            LevelKind::Dungeon => 1,
            LevelKind::Cave => 2,
            LevelKind::Interior => 3,
        }
    }

    /// Reads a kind back from its number.
    pub fn from_u8(v: u8) -> (r: Option<LevelKind>)
        ensures
            v < 4 ==> r.is_some() && level_kind_code(r.unwrap()) == v,
            v >= 4 ==> r.is_none(),
    {
        match v {
            0 => Some(LevelKind::Overworld),
            1 => Some(LevelKind::Dungeon),
            2 => Some(LevelKind::Cave),
            3 => Some(LevelKind::Interior),
            _ => None,
        }
    }
}

/// What a room is used for. Generation fills this in; gameplay reads it to
/// decide what to spawn and whether to lock the doors behind you.
#[derive(Clone, Copy, PartialEq, Eq, Debug, Default, Structural)]
pub enum RoomKind {
    #[default]
    Normal,
    Start,
    Treasure,
    Boss,
    Shop,
    Puzzle,
    Corridor,
    Empty,
}

/// The number a room kind is stored as.
pub open spec fn room_kind_code(k: RoomKind) -> u8 {
    match k {
        RoomKind::Normal => 0,
        RoomKind::Start => 1,
        RoomKind::Treasure => 2,
        RoomKind::Boss => 3,
        RoomKind::Shop => 4,
        RoomKind::Puzzle => 5,
        RoomKind::Corridor => 6,
        RoomKind::Empty => 7,
    }
}

impl RoomKind {
    /// The number this kind is stored as.
    pub fn to_u8(self) -> (r: u8)
        ensures
            r == room_kind_code(self),
    {
        match self {
            RoomKind::Normal => 0,
            RoomKind::Start => 1,
            RoomKind::Treasure => 2,
            RoomKind::Boss => 3,
            RoomKind::Shop => 4,
            RoomKind::Puzzle => 5,
            RoomKind::Corridor => 6,
            RoomKind::Empty => 7,
        }
    }

    /// Reads a kind back from its number.
    pub fn from_u8(v: u8) -> (r: Option<RoomKind>)
        ensures
            v < 8 ==> r.is_some() && room_kind_code(r.unwrap()) == v,
            v >= 8 ==> r.is_none(),
    {
        match v {
            0 => Some(RoomKind::Normal),
            1 => Some(RoomKind::Start),
            2 => Some(RoomKind::Treasure),
            3 => Some(RoomKind::Boss),
            4 => Some(RoomKind::Shop),
            5 => Some(RoomKind::Puzzle),
            6 => Some(RoomKind::Corridor),
            7 => Some(RoomKind::Empty),
            _ => None,
        }
    }
}

/// Per-room metadata.
#[derive(Clone, Copy, Debug, PartialEq, Eq, Structural)]
pub struct Room {
    pub kind: RoomKind,
    /// Which dungeon region this room belongs to, for keys and maps.
    pub region: u8,
    /// Set once a player has entered the room at least once.
    pub visited: bool,
    /// Set once the room's encounter has been cleared.
    pub cleared: bool,
    /// Bit per [`Dir`]: a doorway leads that way.
    pub exits: u8,
}

/// A room nobody has touched yet.
pub open spec fn blank_room() -> Room {
    Room { kind: RoomKind::Normal, region: 0, visited: false, cleared: false, exits: 0 }
}

impl Default for Room {
    fn default() -> (r: Room)
        ensures
            r == blank_room(),
    {
        Room { kind: RoomKind::Normal, region: 0, visited: false, cleared: false, exits: 0 }
    }
}

/// A thing generation wants placed in a room the first time a player sees it.
#[derive(Clone, Copy, Debug, PartialEq, Eq, Structural)]
pub struct Spawn {
    /// Index of the room this spawn belongs to.
    pub room: u16,
    /// Entity kind number, see `crate::entity::Kind`.
    pub kind: u8,
    /// Tile coordinates within the level.
    pub tx: i32,
    pub ty: i32,
    /// Per-kind parameter, e.g. which boss or what a chest holds.
    pub param: i32,
}

/// A one-way link from a transition tile to somewhere else.
#[derive(Clone, Copy, Debug)]
pub struct Link {
    /// Tile coordinates of the transition tile in this level.
    pub from: (i32, i32),
    /// Index of the destination level.
    pub to_level: u16,
    /// Destination position in world pixels.
    pub to_pos: V2,
    /// Facing the traveller arrives with.
    pub to_dir: Dir,
}

/// The tile column or row a whole-pixel coordinate falls in.
pub open spec fn tile_of_px(v: int) -> int {
    v / 16
}

/// The first and last tile columns a box spans, given its left edge and its
/// (exclusive) right edge in fixed point.
pub open spec fn tile_lo(edge: int) -> int {
    tile_of_px(floor_px(edge))
}

/// The last tile a box reaches when its exclusive far edge is `edge`.
pub open spec fn tile_hi(edge: int) -> int {
    tile_of_px(floor_px(edge - 1))
}

/// Floor division by a positive divisor, as Rust's `div_euclid` computes it.
pub fn div_floor(v: i32, d: i32) -> (r: i32)
    requires
        d > 0,
    ensures
        r == v / d,
{
    assert(i32::MIN <= v / d <= i32::MAX) by (nonlinear_arith)
        requires
            d > 0,
            i32::MIN <= v <= i32::MAX,
    {
        if v >= 0 {
            assert(v / d <= v);
        } else {
            assert(v / d >= v);
        }
    }
    match v.checked_div_euclid(d) {
        Some(q) => q,
        None => 0,
    }
}

/// A grid of tiles covering a whole number of rooms, addressed in tile
/// coordinates.
#[derive(Clone, Debug)]
pub struct TileMap {
    /// Width in rooms.
    pub rooms_w: i32,
    /// Height in rooms.
    pub rooms_h: i32,
    tiles: Vec<Tile>,
}

/// The tile count of a map of `rw` by `rh` rooms.
pub open spec fn tile_count(rw: int, rh: int) -> int {
    rw * 10 * rh * 8
}

impl TileMap {
    /// Width in rooms.
    pub closed spec fn rw(&self) -> int {
        self.rooms_w as int
    }

    /// Height in rooms.
    pub closed spec fn rh(&self) -> int {
        self.rooms_h as int
    }

    /// The tiles, row major.
    pub closed spec fn cells(&self) -> Seq<Tile> {
        self.tiles@
    }

    /// Rebuilds a map of `rooms_w` by `rooms_h` rooms (at least one each way)
    /// from its tiles in row order; `None` when the size is out of range or
    /// the tile count does not match it.
    pub fn from_tiles(rooms_w: i32, rooms_h: i32, tiles: &[Tile]) -> (r: Option<TileMap>)
        ensures
            ({
                let rw = if rooms_w >= 1 { rooms_w as int } else { 1 };
                let rh = if rooms_h >= 1 { rooms_h as int } else { 1 };
                &&& r.is_some() == (rw <= 0x1_0000 && rh <= 0x1_0000 && tile_count(rw, rh)
                    <= i32::MAX && tiles@.len() == tile_count(rw, rh))
                &&& r matches Some(m) ==> m.wf() && m.rw() == rw && m.rh() == rh && m.cells()
                    == tiles@
            }),
    {
        let rw: i32 = if rooms_w >= 1 { rooms_w } else { 1 };
        let rh: i32 = if rooms_h >= 1 { rooms_h } else { 1 };
        if rw > 0x1_0000 || rh > 0x1_0000 {
            return None;
        }
        let a: i64 = rw as i64 * 10;
        let b: i64 = rh as i64 * 8;
        proof {
            assert(a * b == rw * 10 * rh * 8) by (nonlinear_arith)
                requires
                    a == rw * 10,
                    b == rh * 8,
            ;
            assert(0 < a * b <= 0x1_0000 * 10 * (0x1_0000 * 8)) by (nonlinear_arith)
                requires
                    10 <= a <= 0x1_0000 * 10,
                    8 <= b <= 0x1_0000 * 8,
            ;
        }
        let count: i64 = a * b;
        if count > i32::MAX as i64 || tiles.len() != count as usize {
            return None;
        }
        let mut cells: Vec<Tile> = Vec::new();
        let mut i: usize = 0;
        while i < tiles.len()
            invariant
                i <= tiles@.len(),
                cells@ == tiles@.take(i as int),
            decreases tiles@.len() - i,
        {
            cells.push(tiles[i]);
            assert(tiles@.take(i + 1) =~= tiles@.take(i as int).push(tiles@[i as int]));
            i = i + 1;
        }
        assert(tiles@.take(tiles@.len() as int) =~= tiles@);
        Some(TileMap { rooms_w: rw, rooms_h: rh, tiles: cells })
    }

    /// Width in tiles.
    pub open spec fn tw(&self) -> int {
        self.rw() * 10
    }

    /// Height in tiles.
    pub open spec fn th(&self) -> int {
        self.rh() * 8
    }

    /// At least one room each way, storage for every tile, and tile
    /// arithmetic that stays inside `i32`.
    pub open spec fn wf(&self) -> bool {
        &&& self.rw() >= 1
        &&& self.rh() >= 1
        &&& tile_count(self.rw(), self.rh()) <= i32::MAX
        &&& self.cells().len() == tile_count(self.rw(), self.rh())
    }

    /// True when the tile coordinate is inside the map.
    pub open spec fn in_bounds_spec(&self, tx: int, ty: int) -> bool {
        0 <= tx < self.tw() && 0 <= ty < self.th()
    }

    /// The tile at a coordinate, the void outside the map.
    pub open spec fn tile_at(&self, tx: int, ty: int) -> Tile {
        if self.in_bounds_spec(tx, ty) {
            self.cells()[ty * self.tw() + tx]
        } else {
            tile::VOID
        }
    }

    /// The same map with the tiles at the coordinates that satisfy `covered`
    /// replaced by `t`.
    pub open spec fn painted(&self, after: TileMap, t: Tile, covered: spec_fn(int, int) -> bool) -> bool {
        &&& after.rw() == self.rw()
        &&& after.rh() == self.rh()
        &&& after.wf()
        &&& forall|tx: int, ty: int|
            #[trigger] after.tile_at(tx, ty) == if self.in_bounds_spec(tx, ty) && covered(tx, ty) {
                t
            } else {
                self.tile_at(tx, ty)
            }
    }

    /// Creates a map of `rooms_w` by `rooms_h` rooms (at least one each way)
    /// filled with one tile.
    pub fn new(rooms_w: i32, rooms_h: i32, fill: Tile) -> (r: TileMap)
        requires
            tile_count(
                if rooms_w >= 1 { rooms_w as int } else { 1 },
                if rooms_h >= 1 { rooms_h as int } else { 1 },
            ) <= i32::MAX,
        ensures
            r.wf(),
            r.rw() == (if rooms_w >= 1 { rooms_w as int } else { 1 }),
            r.rh() == (if rooms_h >= 1 { rooms_h as int } else { 1 }),
            forall|i: int| 0 <= i < r.cells().len() ==> #[trigger] r.cells()[i] == fill,
    {
        let rw: i32 = if rooms_w >= 1 { rooms_w } else { 1 };
        let rh: i32 = if rooms_h >= 1 { rooms_h } else { 1 };
        assert(rw * 10 * rh * 8 == rw * rh * 80) by (nonlinear_arith);
        assert(rw * 10 <= rw * 10 * rh * 8) by (nonlinear_arith)
            requires
                rw >= 1,
                rh >= 1,
        ;
        assert(rw * 10 * rh <= rw * 10 * rh * 8) by (nonlinear_arith)
            requires
                rw >= 1,
                rh >= 1,
        ;
        let n: usize = (rw * 10 * rh * 8) as usize;
        let mut tiles: Vec<Tile> = Vec::new();
        let mut i: usize = 0;
        while i < n
            invariant
                i <= n,
                tiles@.len() == i,
                forall|k: int| 0 <= k < i ==> #[trigger] tiles@[k] == fill,
            decreases n - i,
        {
            tiles.push(fill);
            i = i + 1;
        }
        TileMap { rooms_w: rw, rooms_h: rh, tiles }
    }

    /// Width in tiles.
    pub fn w(&self) -> (r: i32)
        requires
            self.wf(),
        ensures
            r == self.tw(),
    {
        proof {
            self.lemma_dims();
        }
        self.rooms_w * 10
    }

    /// Height in tiles.
    pub fn h(&self) -> (r: i32)
        requires
            self.wf(),
        ensures
            r == self.th(),
    {
        proof {
            self.lemma_dims();
        }
        self.rooms_h * 8
    }

    /// Width in rooms.
    pub fn width_rooms(&self) -> (r: i32)
        ensures
            r == self.rw(),
    {
        self.rooms_w
    }

    /// Height in rooms.
    pub fn height_rooms(&self) -> (r: i32)
        ensures
            r == self.rh(),
    {
        self.rooms_h
    }

    /// The width and height in tiles, and their product, fit in `i32`.
    pub proof fn lemma_dims(&self)
        requires
            self.wf(),
        ensures
            10 <= self.tw() <= i32::MAX,
            8 <= self.th() <= i32::MAX,
            self.tw() * self.th() == self.cells().len(),
            self.tw() * self.th() <= i32::MAX,
    {
        let rw = self.rw();
        let rh = self.rh();
        assert(rw * 10 * (rh * 8) == rw * 10 * rh * 8) by (nonlinear_arith);
        assert(rw * 10 <= rw * 10 * (rh * 8)) by (nonlinear_arith)
            requires
                rw >= 1,
                rh >= 1,
        ;
        assert(rh * 8 <= rw * 10 * (rh * 8)) by (nonlinear_arith)
            requires
                rw >= 1,
                rh >= 1,
        ;
    }

    /// Row-major index of an in-bounds coordinate; it names a stored tile.
    pub proof fn lemma_index(&self, tx: int, ty: int)
        requires
            self.wf(),
            self.in_bounds_spec(tx, ty),
        ensures
            0 <= ty * self.tw() + tx < self.cells().len(),
            ty * self.tw() + tx < self.tw() * self.th(),
    {
        self.lemma_dims();
        let w = self.tw();
        let h = self.th();
        assert(0 <= ty * w + tx < w * h) by (nonlinear_arith)
            requires
                0 <= tx < w,
                0 <= ty < h,
        ;
    }

    /// True when the tile coordinate is inside the map.
    pub fn in_bounds(&self, tx: i32, ty: i32) -> (r: bool)
        requires
            self.wf(),
        ensures
            r == self.in_bounds_spec(tx as int, ty as int),
    {
        tx >= 0 && ty >= 0 && tx < self.w() && ty < self.h()
    }

    /// Tile at a tile coordinate. Out of bounds reads as [`tile::VOID`], which
    /// is solid, so the world is walled in without special-casing edges.
    pub fn get(&self, tx: i32, ty: i32) -> (r: Tile)
        requires
            self.wf(),
        ensures
            r == self.tile_at(tx as int, ty as int),
    {
        if self.in_bounds(tx, ty) {
            proof {
                self.lemma_index(tx as int, ty as int);
            }
            self.tiles[(ty * self.w() + tx) as usize]
        } else {
            tile::VOID
        }
    }

    /// Writes a tile, ignoring out-of-bounds writes.
    pub fn set(&mut self, tx: i32, ty: i32, t: Tile)
        requires
            old(self).wf(),
        ensures
            old(self).painted(*final(self), t, |x: int, y: int| x == tx && y == ty),
    {
        if self.in_bounds(tx, ty) {
            proof {
                self.lemma_index(tx as int, ty as int);
            }
            let w = self.w();
            let i = (ty * w + tx) as usize;
            self.tiles.set(i, t);
            proof {
                assert forall|x: int, y: int|
                    #[trigger] self.tile_at(x, y) == if old(self).in_bounds_spec(x, y) && (x == tx
                        && y == ty) {
                        t
                    } else {
                        old(self).tile_at(x, y)
                    } by {
                    if old(self).in_bounds_spec(x, y) && !(x == tx && y == ty) {
                        old(self).lemma_index(x, y);
                        lemma_distinct_index(x, y, tx as int, ty as int, w as int, self.th());
                    }
                }
            }
        } else {
            proof {
                assert forall|x: int, y: int|
                    #[trigger] self.tile_at(x, y) == if old(self).in_bounds_spec(x, y) && (x == tx
                        && y == ty) {
                        t
                    } else {
                        old(self).tile_at(x, y)
                    } by {}
            }
        }
    }

    /// Tile at a world pixel position.
    pub fn at_world(&self, p: V2) -> (r: Tile)
        requires
            self.wf(),
        ensures
            r == self.tile_at(tile_lo(p.x as int), tile_lo(p.y as int)),
    {
        self.get(div_floor(to_px(p.x), TILE_PX), div_floor(to_px(p.y), TILE_PX))
    }

    /// Fills a tile-space rectangle; the parts outside the map are ignored.
    pub fn fill_rect(&mut self, x: i32, y: i32, w: i32, h: i32, t: Tile)
        requires
            old(self).wf(),
            fits_i32(x + w),
            fits_i32(y + h),
        ensures
            old(self).painted(
                *final(self),
                t,
                |a: int, b: int| x <= a < x + w && y <= b < y + h,
            ),
    {
        let ghost m0 = *self;
        proof {
            lemma_paint_refl(m0, t, |a: int, b: int| x <= a < x + w && y <= b < y && false);
            lemma_paint_same(
                m0,
                m0,
                t,
                |a: int, b: int| x <= a < x + w && y <= b < y && false,
                |a: int, b: int| x <= a < x + w && y <= b < y,
            );
        }
        let mut ty: i32 = y;
        while ty < y + h
            invariant
                m0.wf(),
                y <= ty <= (if h > 0 { y + h } else { y as int }),
                fits_i32(x + w),
                fits_i32(y + h),
                m0.painted(*self, t, |a: int, b: int| x <= a < x + w && y <= b < ty),
            decreases y + h - ty,
        {
            let mut tx: i32 = x;
            while tx < x + w
                invariant
                    m0.wf(),
                    x <= tx <= (if w > 0 { x + w } else { x as int }),
                    y <= ty < y + h,
                    fits_i32(x + w),
                    fits_i32(y + h),
                    m0.painted(
                        *self,
                        t,
                        |a: int, b: int| (x <= a < x + w && y <= b < ty) || (b == ty && x <= a < tx),
                    ),
                decreases x + w - tx,
            {
                let ghost m1 = *self;
                self.set(tx, ty, t);
                proof {
                    lemma_paint_trans(
                        m0,
                        m1,
                        *self,
                        t,
                        |a: int, b: int| (x <= a < x + w && y <= b < ty) || (b == ty && x <= a < tx),
                        |a: int, b: int| a == tx && b == ty,
                    );
                    lemma_paint_same(
                        m0,
                        *self,
                        t,
                        |a: int, b: int|
                            ((x <= a < x + w && y <= b < ty) || (b == ty && x <= a < tx)) || (a
                                == tx && b == ty),
                        |a: int, b: int|
                            (x <= a < x + w && y <= b < ty) || (b == ty && x <= a < tx + 1),
                    );
                }
                tx = tx + 1;
            }
            proof {
                lemma_paint_same(
                    m0,
                    *self,
                    t,
                    |a: int, b: int| (x <= a < x + w && y <= b < ty) || (b == ty && x <= a < tx),
                    |a: int, b: int| x <= a < x + w && y <= b < ty + 1,
                );
            }
            ty = ty + 1;
        }
        proof {
            lemma_paint_same(
                m0,
                *self,
                t,
                |a: int, b: int| x <= a < x + w && y <= b < ty,
                |a: int, b: int| x <= a < x + w && y <= b < y + h,
            );
        }
    }

    /// Draws the outline of a tile-space rectangle: its top and bottom rows
    /// and its left and right columns.
    pub fn stroke_rect(&mut self, x: i32, y: i32, w: i32, h: i32, t: Tile)
        requires
            old(self).wf(),
            fits_i32(x + w),
            fits_i32(y + h),
            fits_i32(x + w - 1),
            fits_i32(y + h - 1),
        ensures
            old(self).painted(
                *final(self),
                t,
                |a: int, b: int|
                    (x <= a < x + w && (b == y || b == y + h - 1)) || (y <= b < y + h && (a == x
                        || a == x + w - 1)),
            ),
    {
        let ghost m0 = *self;
        proof {
            lemma_paint_refl(m0, t, |a: int, b: int| false);
            lemma_paint_same(
                m0,
                m0,
                t,
                |a: int, b: int| false,
                |a: int, b: int| x <= a < x && (b == y || b == y + h - 1),
            );
        }
        let mut tx: i32 = x;
        while tx < x + w
            invariant
                m0.wf(),
                x <= tx <= (if w > 0 { x + w } else { x as int }),
                fits_i32(x + w),
                fits_i32(y + h),
                fits_i32(x + w - 1),
                fits_i32(y + h - 1),
                m0.painted(*self, t, |a: int, b: int| x <= a < tx && (b == y || b == y + h - 1)),
            decreases x + w - tx,
        {
            let ghost m1 = *self;
            self.set(tx, y, t);
            let ghost m2 = *self;
            self.set(tx, y + h - 1, t);
            proof {
                let c0 = |a: int, b: int| x <= a < tx && (b == y || b == y + h - 1);
                let c1 = |a: int, b: int| a == tx && b == y;
                let c2 = |a: int, b: int| a == tx && b == y + h - 1;
                lemma_paint_trans(m0, m1, m2, t, c0, c1);
                lemma_paint_trans(m0, m2, *self, t, |a: int, b: int| c0(a, b) || c1(a, b), c2);
                lemma_paint_same(
                    m0,
                    *self,
                    t,
                    |a: int, b: int| (c0(a, b) || c1(a, b)) || c2(a, b),
                    |a: int, b: int| x <= a < tx + 1 && (b == y || b == y + h - 1),
                );
            }
            tx = tx + 1;
        }
        let ghost rows = |a: int, b: int| x <= a < x + w && (b == y || b == y + h - 1);
        proof {
            lemma_paint_same(
                m0,
                *self,
                t,
                |a: int, b: int| x <= a < tx && (b == y || b == y + h - 1),
                |a: int, b: int| rows(a, b) || (y <= b < y && (a == x || a == x + w - 1)),
            );
        }
        let mut ty: i32 = y;
        while ty < y + h
            invariant
                m0.wf(),
                y <= ty <= (if h > 0 { y + h } else { y as int }),
                fits_i32(x + w),
                fits_i32(y + h),
                fits_i32(x + w - 1),
                fits_i32(y + h - 1),
                rows == (|a: int, b: int| x <= a < x + w && (b == y || b == y + h - 1)),
                m0.painted(
                    *self,
                    t,
                    |a: int, b: int| rows(a, b) || (y <= b < ty && (a == x || a == x + w - 1)),
                ),
            decreases y + h - ty,
        {
            let ghost m1 = *self;
            self.set(x, ty, t);
            let ghost m2 = *self;
            self.set(x + w - 1, ty, t);
            proof {
                let c0 = |a: int, b: int| rows(a, b) || (y <= b < ty && (a == x || a == x + w - 1));
                let c1 = |a: int, b: int| a == x && b == ty;
                let c2 = |a: int, b: int| a == x + w - 1 && b == ty;
                lemma_paint_trans(m0, m1, m2, t, c0, c1);
                lemma_paint_trans(m0, m2, *self, t, |a: int, b: int| c0(a, b) || c1(a, b), c2);
                lemma_paint_same(
                    m0,
                    *self,
                    t,
                    |a: int, b: int| (c0(a, b) || c1(a, b)) || c2(a, b),
                    |a: int, b: int| rows(a, b) || (y <= b < ty + 1 && (a == x || a == x + w - 1)),
                );
            }
            ty = ty + 1;
        }
        proof {
            lemma_paint_same(
                m0,
                *self,
                t,
                |a: int, b: int| rows(a, b) || (y <= b < ty && (a == x || a == x + w - 1)),
                |a: int, b: int|
                    (x <= a < x + w && (b == y || b == y + h - 1)) || (y <= b < y + h && (a == x
                        || a == x + w - 1)),
            );
        }
    }

    /// True when every tile overlapping `r` fits the box's extent: its edges
    /// and its far edges less one unit are representable.
    pub open spec fn rect_in_range(r: Rect) -> bool {
        &&& fits_i32(r.right_spec())
        &&& fits_i32(r.bottom_spec())
        &&& fits_i32(r.right_spec() - 1)
        &&& fits_i32(r.bottom_spec() - 1)
    }

    /// True when no tile overlapping `r` satisfies `blocked`. The box's right
    /// and bottom edges are exclusive, so a body that stops exactly on a tile
    /// boundary is not tested against the tile it is touching.
    pub fn rect_is_clear(&self, r: &Rect, blocked: impl Fn(Tile) -> bool) -> (ok: bool)
        requires
            self.wf(),
            TileMap::rect_in_range(*r),
            forall|t: Tile| #[trigger] blocked.requires((t,)),
        ensures
            ok ==> forall|tx: int, ty: int|
                tile_lo(r.x as int) <= tx <= tile_hi(r.right_spec()) && tile_lo(r.y as int) <= ty
                    <= tile_hi(r.bottom_spec()) ==> blocked.ensures(
                    (#[trigger] self.tile_at(tx, ty),),
                    false,
                ),
            !ok ==> exists|tx: int, ty: int|
                tile_lo(r.x as int) <= tx <= tile_hi(r.right_spec()) && tile_lo(r.y as int) <= ty
                    <= tile_hi(r.bottom_spec()) && blocked.ensures(
                    (#[trigger] self.tile_at(tx, ty),),
                    true,
                ),
    {
        let x0 = div_floor(to_px(r.x), TILE_PX);
        let y0 = div_floor(to_px(r.y), TILE_PX);
        let x1 = div_floor(to_px(r.right() - 1), TILE_PX);
        let y1 = div_floor(to_px(r.bottom() - 1), TILE_PX);
        let mut ty: i32 = y0;
        while ty <= y1
            invariant
                self.wf(),
                forall|t: Tile| #[trigger] blocked.requires((t,)),
                y0 <= ty <= (if y1 >= y0 { y1 + 1 } else { y0 as int }),
                y1 < i32::MAX,
                x1 < i32::MAX,
                x0 == tile_lo(r.x as int),
                y0 == tile_lo(r.y as int),
                x1 == tile_hi(r.right_spec()),
                y1 == tile_hi(r.bottom_spec()),
                forall|tx: int, yy: int|
                    x0 <= tx <= x1 && y0 <= yy < ty ==> blocked.ensures(
                        (#[trigger] self.tile_at(tx, yy),),
                        false,
                    ),
            decreases y1 - ty + 1,
        {
            let mut tx: i32 = x0;
            while tx <= x1
                invariant
                    self.wf(),
                    forall|t: Tile| #[trigger] blocked.requires((t,)),
                    x0 <= tx <= (if x1 >= x0 { x1 + 1 } else { x0 as int }),
                    y0 <= ty <= y1,
                    y1 < i32::MAX,
                    x1 < i32::MAX,
                    x0 == tile_lo(r.x as int),
                    y0 == tile_lo(r.y as int),
                    x1 == tile_hi(r.right_spec()),
                    y1 == tile_hi(r.bottom_spec()),
                    forall|xx: int, yy: int|
                        x0 <= xx <= x1 && y0 <= yy < ty ==> blocked.ensures(
                            (#[trigger] self.tile_at(xx, yy),),
                            false,
                        ),
                    forall|xx: int|
                        x0 <= xx < tx ==> blocked.ensures((#[trigger] self.tile_at(xx, ty as int),), false),
                decreases x1 - tx + 1,
            {
                let t = self.get(tx, ty);
                if blocked(t) {
                    assert(blocked.ensures((self.tile_at(tx as int, ty as int),), true));
                    return false;
                }
                tx = tx + 1;
            }
            ty = ty + 1;
        }
        true
    }

    /// True when a walking body of `w_px` by `h_px` centred on `c` fits without
    /// touching solid terrain.
    pub fn body_fits(&self, c: V2, w_px: i32, h_px: i32) -> (ok: bool)
        requires
            self.wf(),
            -0x80_0000 <= w_px < 0x80_0000,
            -0x80_0000 <= h_px < 0x80_0000,
            fits_i32(c.x - tdiv(w_px * 256, 2)),
            fits_i32(c.y - tdiv(h_px * 256, 2)),
            TileMap::rect_in_range(
                Rect { x: (c.x - tdiv(w_px * 256, 2)) as i32, y: (c.y - tdiv(h_px * 256, 2)) as i32, w: (w_px * 256) as i32, h: (h_px * 256) as i32 },
            ),
        ensures
            ok == self.body_clear(
                Rect { x: (c.x - tdiv(w_px * 256, 2)) as i32, y: (c.y - tdiv(h_px * 256, 2)) as i32, w: (w_px * 256) as i32, h: (h_px * 256) as i32 },
            ),
    {
        let r = Rect::centered(c, w_px, h_px);
        let ok = self.rect_is_clear(&r, tiles::blocks_walk);
        proof {
            if !ok {
                let (tx, ty) = choose|tx: int, ty: int|
                    tile_lo(r.x as int) <= tx <= tile_hi(r.right_spec()) && tile_lo(r.y as int)
                        <= ty <= tile_hi(r.bottom_spec()) && call_ensures(
                        tiles::blocks_walk,
                        (#[trigger] self.tile_at(tx, ty),),
                        true,
                    );
                assert(blocks_walk_spec(self.tile_at(tx, ty)));
            }
        }
        ok
    }

    /// Every tile overlapping `r` with its coordinates, row by row and left
    /// to right within a row, for the caller to walk.
    pub fn for_each_tile_in(&self, r: &Rect) -> (out: Vec<(i32, i32, Tile)>)
        requires
            self.wf(),
            TileMap::rect_in_range(*r),
        ensures
            ({
                let x0 = tile_lo(r.x as int);
                let y0 = tile_lo(r.y as int);
                let nx = tile_hi(r.right_spec()) - x0 + 1;
                let ny = tile_hi(r.bottom_spec()) - y0 + 1;
                &&& (nx <= 0 || ny <= 0) ==> out@.len() == 0
                &&& (nx > 0 && ny > 0) ==> out@.len() == nx * ny
                &&& forall|k: int|
                    0 <= k < out@.len() ==> #[trigger] out@[k] == (
                        (x0 + k % nx) as i32,
                        (y0 + k / nx) as i32,
                        self.tile_at(x0 + k % nx, y0 + k / nx),
                    )
            }),
    {
        let x0 = div_floor(to_px(r.x), TILE_PX);
        let y0 = div_floor(to_px(r.y), TILE_PX);
        let x1 = div_floor(to_px(r.right() - 1), TILE_PX);
        let y1 = div_floor(to_px(r.bottom() - 1), TILE_PX);
        let ghost nx: int = x1 - x0 + 1;
        let mut out: Vec<(i32, i32, Tile)> = Vec::new();
        let mut ty: i32 = y0;
        while ty <= y1
            invariant
                self.wf(),
                y0 <= ty <= (if y1 >= y0 { y1 + 1 } else { y0 as int }),
                y1 < i32::MAX,
                x1 < i32::MAX,
                nx == x1 - x0 + 1,
                nx > 0 ==> out@.len() == (ty - y0) * nx,
                nx <= 0 ==> out@.len() == 0,
                forall|k: int|
                    0 <= k < out@.len() ==> #[trigger] out@[k] == (
                        (x0 + k % nx) as i32,
                        (y0 + k / nx) as i32,
                        self.tile_at(x0 + k % nx, y0 + k / nx),
                    ),
            decreases y1 - ty + 1,
        {
            let mut tx: i32 = x0;
            while tx <= x1
                invariant
                    self.wf(),
                    x0 <= tx <= (if x1 >= x0 { x1 + 1 } else { x0 as int }),
                    y0 <= ty <= y1,
                    y1 < i32::MAX,
                    x1 < i32::MAX,
                    nx == x1 - x0 + 1,
                    nx > 0 ==> out@.len() == (ty - y0) * nx + (tx - x0),
                    nx <= 0 ==> out@.len() == 0,
                    forall|k: int|
                        0 <= k < out@.len() ==> #[trigger] out@[k] == (
                            (x0 + k % nx) as i32,
                            (y0 + k / nx) as i32,
                            self.tile_at(x0 + k % nx, y0 + k / nx),
                        ),
                decreases x1 - tx + 1,
            {
                let t = self.get(tx, ty);
                proof {
                    let k = out@.len() as int;
                    vstd::arithmetic::div_mod::lemma_fundamental_div_mod_converse(
                        k,
                        nx,
                        ty - y0,
                        tx - x0,
                    );
                }
                out.push((tx, ty, t));
                tx = tx + 1;
            }
            proof {
                if nx > 0 {
                    assert((ty - y0) * nx + nx == (ty + 1 - y0) * nx) by (nonlinear_arith);
                }
            }
            ty = ty + 1;
        }
        proof {
            if nx > 0 && y1 >= y0 {
                assert(out@.len() == nx * (y1 - y0 + 1)) by (nonlinear_arith)
                    requires
                        out@.len() == (ty - y0) * nx,
                        ty == y1 + 1,
                ;
            }
        }
        out
    }

    /// True when no tile overlapping `r` blocks walking.
    pub open spec fn body_clear(&self, r: Rect) -> bool {
        forall|tx: int, ty: int|
            tile_lo(r.x as int) <= tx <= tile_hi(r.right_spec()) && tile_lo(r.y as int) <= ty
                <= tile_hi(r.bottom_spec()) ==> !blocks_walk_spec(#[trigger] self.tile_at(tx, ty))
    }

    /// Raw tile storage, row major. Useful for rendering and snapshots.
    pub fn raw(&self) -> (r: &[Tile])
        ensures
            r@ == self.cells(),
    {
        self.tiles.as_slice()
    }
}

/// One self-contained place: the overworld, a dungeon floor, a cave.
#[derive(Clone, Debug)]
pub struct Level {
    pub kind: LevelKind,
    pub map: TileMap,
    pub rooms: Vec<Room>,
    pub links: Vec<Link>,
    /// Enemy placements, used to populate rooms as players walk into them.
    pub spawns: Vec<Spawn>,
    /// Where an arriving player appears if nothing else says otherwise.
    pub entrance: V2,
    /// Dungeon number, or 0 for the overworld.
    pub dungeon: u8,
    /// The tile drawn underneath anything that stands on the ground, so a bush
    /// on a dungeon floor is not drawn sitting on a patch of grass.
    pub ground: Tile,
}

/// True when a tile is somewhere to put a thing down: inside the map, not
/// solid, and not water, a pit or harmful.
pub open spec fn free_spot(m: TileMap, x: int, y: int) -> bool {
    &&& m.in_bounds_spec(x, y)
    &&& !blocks_walk_spec(m.tile_at(x, y))
    &&& flags_spec(m.tile_at(x, y)) & (flag::WATER | flag::PIT | flag::HARMFUL) == 0
}

/// Where `find_free_near` looks: rings of growing radius around the centre,
/// each ring row by row from the top and left to right within a row. An
/// offset comes before another when it is in an inner ring, or in the same
/// ring and earlier in that order.
pub open spec fn ring(dx: int, dy: int) -> int {
    let ax = if dx < 0 { -dx } else { dx };
    let ay = if dy < 0 { -dy } else { dy };
    if ax >= ay { ax } else { ay }
}

/// True when offset `(dx, dy)` is visited before offset `(ex, ey)`.
pub open spec fn visited_before(dx: int, dy: int, ex: int, ey: int) -> bool {
    ring(dx, dy) < ring(ex, ey) || (ring(dx, dy) == ring(ex, ey) && (dy < ey || (dy == ey && dx
        < ex)))
}

impl Level {
    /// The map is well formed and there is one room record per room.
    pub open spec fn wf(&self) -> bool {
        &&& self.map.wf()
        &&& self.rooms@.len() == self.map.rw() * self.map.rh()
    }

    /// Creates an empty level of the given size in rooms (at least one each
    /// way), entered at the middle of the first room.
    pub fn new(kind: LevelKind, rooms_w: i32, rooms_h: i32, fill: Tile) -> (r: Level)
        requires
            tile_count(
                if rooms_w >= 1 { rooms_w as int } else { 1 },
                if rooms_h >= 1 { rooms_h as int } else { 1 },
            ) <= i32::MAX,
        ensures
            r.wf(),
            r.kind == kind,
            r.map.rw() == (if rooms_w >= 1 { rooms_w as int } else { 1 }),
            r.map.rh() == (if rooms_h >= 1 { rooms_h as int } else { 1 }),
            forall|i: int| 0 <= i < r.map.cells().len() ==> #[trigger] r.map.cells()[i] == fill,
            forall|i: int| 0 <= i < r.rooms@.len() ==> #[trigger] r.rooms@[i] == blank_room(),
            r.links@.len() == 0,
            r.spawns@.len() == 0,
            r.entrance.x == 80 * 256,
            r.entrance.y == 64 * 256,
            r.dungeon == 0,
            r.ground == (if kind == LevelKind::Overworld { tile::GRASS } else { tile::FLOOR }),
    {
        let map = TileMap::new(rooms_w, rooms_h, fill);
        proof {
            map.lemma_dims();
            let rw = map.rw();
            let rh = map.rh();
            assert(rw * rh <= rw * 10 * (rh * 8)) by (nonlinear_arith)
                requires
                    rw >= 1,
                    rh >= 1,
            ;
            assert(rw * 10 * (rh * 8) == tile_count(rw, rh)) by (nonlinear_arith);
        }
        let n: usize = (map.rooms_w * map.rooms_h) as usize;
        let mut rooms: Vec<Room> = Vec::new();
        let mut i: usize = 0;
        while i < n
            invariant
                i <= n,
                rooms@.len() == i,
                forall|k: int| 0 <= k < i ==> #[trigger] rooms@[k] == blank_room(),
            decreases n - i,
        {
            rooms.push(Room::default());
            i = i + 1;
        }
        let ground = match kind {
            LevelKind::Overworld => tile::GRASS,
            _ => tile::FLOOR,
        };
        Level {
            kind,
            map,
            rooms,
            links: Vec::new(),
            spawns: Vec::new(),
            entrance: V2::from_px(ROOM_PX_W / 2, ROOM_PX_H / 2),
            dungeon: 0,
            ground,
        }
    }

    pub fn rooms_w(&self) -> (r: i32)
        ensures
            r == self.map.rw(),
    {
        self.map.width_rooms()
    }

    pub fn rooms_h(&self) -> (r: i32)
        ensures
            r == self.map.rh(),
    {
        self.map.height_rooms()
    }

    /// Room index for room coordinates, if they are in bounds.
    pub fn room_index(&self, rx: i32, ry: i32) -> (r: Option<usize>)
        requires
            self.wf(),
        ensures
            (0 <= rx < self.map.rw() && 0 <= ry < self.map.rh()) ==> r == Some(
                (ry * self.map.rw() + rx) as usize,
            ),
            !(0 <= rx < self.map.rw() && 0 <= ry < self.map.rh()) ==> r.is_none(),
            r matches Some(i) ==> i < self.rooms@.len() && i == ry * self.map.rw() + rx,
    {
        if rx < 0 || ry < 0 || rx >= self.rooms_w() || ry >= self.rooms_h() {
            None
        } else {
            proof {
                let w = self.map.rw();
                let h = self.map.rh();
                assert(0 <= ry * w + rx < w * h) by (nonlinear_arith)
                    requires
                        0 <= rx < w,
                        0 <= ry < h,
                ;
                self.map.lemma_dims();
                assert(w * h <= self.map.tw() * self.map.th()) by (nonlinear_arith)
                    requires
                        w >= 1,
                        h >= 1,
                        self.map.tw() == w * 10,
                        self.map.th() == h * 8,
                ;
            }
            Some((ry * self.rooms_w() + rx) as usize)
        }
    }

    pub fn room(&self, rx: i32, ry: i32) -> (r: Option<&Room>)
        requires
            self.wf(),
        ensures
            (0 <= rx < self.map.rw() && 0 <= ry < self.map.rh()) ==> r == Some(
                &self.rooms@[ry * self.map.rw() + rx],
            ),
            !(0 <= rx < self.map.rw() && 0 <= ry < self.map.rh()) ==> r.is_none(),
    {
        match self.room_index(rx, ry) {
            Some(i) => Some(&self.rooms[i]),
            None => None,
        }
    }

    pub fn room_mut(&mut self, rx: i32, ry: i32) -> (r: Option<&mut Room>)
        requires
            old(self).wf(),
        ensures
            match r {
                Some(room) => {
                    let i = ry * old(self).map.rw() + rx;
                    &&& 0 <= rx < old(self).map.rw() && 0 <= ry < old(self).map.rh()
                    &&& *room == old(self).rooms@[i]
                    &&& *final(self) == (Level {
                        rooms: final(self).rooms,
                        ..*old(self)
                    })
                    &&& final(self).rooms@ == old(self).rooms@.update(i, *final(room))
                },
                None => !(0 <= rx < old(self).map.rw() && 0 <= ry < old(self).map.rh())
                    && *final(self) == *old(self),
            },
    {
        match self.room_index(rx, ry) {
            Some(i) => Some(&mut self.rooms[i]),
            None => None,
        }
    }

    /// Room coordinates containing a world pixel position.
    pub fn room_at(&self, p: V2) -> (r: (i32, i32))
        ensures
            r.0 == floor_px(p.x as int) / 160,
            r.1 == floor_px(p.y as int) / 128,
    {
        (div_floor(to_px(p.x), ROOM_PX_W), div_floor(to_px(p.y), ROOM_PX_H))
    }

    /// World-pixel bounds of a room.
    pub fn room_bounds(&self, rx: i32, ry: i32) -> (r: Rect)
        requires
            -0x8000 <= rx < 0x8000,
            -0x8000 <= ry < 0x8000,
        ensures
            r.x == rx * 160 * 256,
            r.y == ry * 128 * 256,
            r.w == 160 * 256,
            r.h == 128 * 256,
    {
        Rect::new(px(rx * ROOM_PX_W), px(ry * ROOM_PX_H), px(ROOM_PX_W), px(ROOM_PX_H))
    }

    /// Centre of a room in world pixels.
    pub fn room_center(&self, rx: i32, ry: i32) -> (r: V2)
        requires
            -0x8000 <= rx < 0x8000,
            -0x8000 <= ry < 0x8000,
        ensures
            r.x == (rx * 160 + 80) * 256,
            r.y == (ry * 128 + 64) * 256,
    {
        V2::from_px(rx * ROOM_PX_W + ROOM_PX_W / 2, ry * ROOM_PX_H + ROOM_PX_H / 2)
    }

    /// The first link starting at a tile, if any.
    pub fn link_at(&self, tx: i32, ty: i32) -> (r: Option<&Link>)
        ensures
            match r {
                Some(l) => exists|i: int|
                    0 <= i < self.links@.len() && self.links@[i] == *l && l.from == (tx, ty)
                        && forall|j: int| 0 <= j < i ==> (#[trigger] self.links@[j]).from != (tx, ty),
                None => forall|j: int|
                    0 <= j < self.links@.len() ==> (#[trigger] self.links@[j]).from != (tx, ty),
            },
    {
        let mut i: usize = 0;
        while i < self.links.len()
            invariant
                i <= self.links@.len(),
                forall|j: int| 0 <= j < i ==> (#[trigger] self.links@[j]).from != (tx, ty),
            decreases self.links@.len() - i,
        {
            if self.links[i].from.0 == tx && self.links[i].from.1 == ty {
                return Some(&self.links[i]);
            }
            i = i + 1;
        }
        None
    }

    /// Bounds of the whole level in world pixels.
    pub fn bounds(&self) -> (r: Rect)
        requires
            self.wf(),
            self.map.tw() * 16 < 0x80_0000,
            self.map.th() * 16 < 0x80_0000,
        ensures
            r.x == 0,
            r.y == 0,
            r.w == self.map.tw() * 16 * 256,
            r.h == self.map.th() * 16 * 256,
    {
        Rect::new(0, 0, px(self.map.w() * TILE_PX), px(self.map.h() * TILE_PX))
    }

    /// Clamps a position to stay inside the level, keeping a margin of
    /// `half_w` and `half_h` from its edges.
    pub fn clamp(&self, p: V2, half_w: Fx, half_h: Fx) -> (r: V2)
        requires
            self.wf(),
            self.map.tw() * 16 < 0x80_0000,
            self.map.th() * 16 < 0x80_0000,
            0 <= half_w,
            0 <= half_h,
            half_w <= self.map.tw() * 16 * 256 - half_w,
            half_h <= self.map.th() * 16 * 256 - half_h,
        ensures
            r.x == clamp_spec(p.x as int, half_w as int, self.map.tw() * 16 * 256 - half_w),
            r.y == clamp_spec(p.y as int, half_h as int, self.map.th() * 16 * 256 - half_h),
    {
        let b = self.bounds();
        let lo_x = b.x + half_w;
        let hi_x = b.right() - half_w;
        let lo_y = b.y + half_h;
        let hi_y = b.bottom() - half_h;
        V2::new(clamp_i32(p.x, lo_x, hi_x), clamp_i32(p.y, lo_y, hi_y))
    }

    /// Finds a free tile near `(tx, ty)`, searching outwards ring by ring.
    /// Used to place things that generation put somewhere awkward.
    pub fn find_free_near(&self, tx: i32, ty: i32, radius: i32) -> (r: Option<(i32, i32)>)
        requires
            self.wf(),
            radius < 0x1000_0000,
            fits_i32(tx - radius),
            fits_i32(tx + radius),
            fits_i32(ty - radius),
            fits_i32(ty + radius),
        ensures
            match r {
                Some((x, y)) => {
                    &&& free_spot(self.map, x as int, y as int)
                    &&& ring(x - tx, y - ty) <= radius
                    &&& forall|dx: int, dy: int|
                        visited_before(dx, dy, x - tx, y - ty) ==> !#[trigger] free_spot(
                            self.map,
                            tx + dx,
                            ty + dy,
                        )
                },
                None => forall|dx: int, dy: int|
                    ring(dx, dy) <= radius ==> !#[trigger] free_spot(self.map, tx + dx, ty + dy),
            },
    {
        let mut rr: i32 = 0;
        while rr <= radius
            invariant
                self.wf(),
                0 <= rr <= (if radius >= 0 { radius + 1 } else { 0 }),
                radius < 0x1000_0000,
                fits_i32(tx - radius),
                fits_i32(tx + radius),
                fits_i32(ty - radius),
                fits_i32(ty + radius),
                forall|dx: int, dy: int|
                    ring(dx, dy) < rr ==> !#[trigger] free_spot(self.map, tx + dx, ty + dy),
            decreases radius - rr + 1,
        {
            let mut dy: i32 = -rr;
            while dy <= rr
                invariant
                    self.wf(),
                    0 <= rr <= radius,
                    radius < 0x1000_0000,
                    -rr <= dy <= rr + 1,
                    fits_i32(tx - radius),
                    fits_i32(tx + radius),
                    fits_i32(ty - radius),
                    fits_i32(ty + radius),
                    forall|ex: int, ey: int|
                        ring(ex, ey) < rr ==> !#[trigger] free_spot(self.map, tx + ex, ty + ey),
                    forall|ex: int, ey: int|
                        ring(ex, ey) == rr && ey < dy ==> !#[trigger] free_spot(
                            self.map,
                            tx + ex,
                            ty + ey,
                        ),
                decreases rr - dy + 1,
            {
                let mut dx: i32 = -rr;
                while dx <= rr
                    invariant
                        self.wf(),
                        0 <= rr <= radius,
                        radius < 0x1000_0000,
                        -rr <= dy <= rr,
                        -rr <= dx <= rr + 1,
                        fits_i32(tx - radius),
                        fits_i32(tx + radius),
                        fits_i32(ty - radius),
                        fits_i32(ty + radius),
                        forall|ex: int, ey: int|
                            ring(ex, ey) < rr ==> !#[trigger] free_spot(self.map, tx + ex, ty + ey),
                        forall|ex: int, ey: int|
                            ring(ex, ey) == rr && ey < dy ==> !#[trigger] free_spot(
                                self.map,
                                tx + ex,
                                ty + ey,
                            ),
                        forall|ex: int|
                            ring(ex, dy as int) == rr && ex < dx ==> !#[trigger] free_spot(
                                self.map,
                                tx + ex,
                                ty + dy,
                            ),
                    decreases rr - dx + 1,
                {
                    let on_ring = abs_i32(dx) == rr || abs_i32(dy) == rr;
                    if on_ring {
                        let x = tx + dx;
                        let y = ty + dy;
                        let t = self.map.get(x, y);
                        if self.map.in_bounds(x, y) && !tiles::blocks_walk(t) && !tiles::any(
                            t,
                            flag::WATER | flag::PIT | flag::HARMFUL,
                        ) {
                            proof {
                                assert(free_spot(self.map, x as int, y as int));
                                assert forall|ex: int, ey: int|
                                    visited_before(ex, ey, x - tx, y - ty) implies !#[trigger] free_spot(
                                    self.map,
                                    tx + ex,
                                    ty + ey,
                                ) by {
                                    assert(ring(x - tx, y - ty) == rr);
                                }
                            }
                            return Some((x, y));
                        }
                    }
                    dx = dx + 1;
                }
                dy = dy + 1;
            }
            rr = rr + 1;
        }
        None
    }
}

/// `v` kept between `lo` and `hi`.
pub open spec fn clamp_spec(v: int, lo: int, hi: int) -> int {
    if v < lo { lo } else if v > hi { hi } else { v }
}

fn clamp_i32(v: i32, lo: i32, hi: i32) -> (r: i32)
    requires
        lo <= hi,
    ensures
        r == clamp_spec(v as int, lo as int, hi as int),
{
    if v < lo { lo } else if v > hi { hi } else { v }
}

fn abs_i32(v: i32) -> (r: i32)
    requires
        v > i32::MIN,
    ensures
        r == (if v < 0 { -v } else { v as int }),
{
    if v < 0 { -v } else { v }
}

/// Centre of the tile at tile coordinates, in world pixels.
pub fn tile_center(tx: i32, ty: i32) -> (r: V2)
    requires
        -0x8_0000 <= tx < 0x8_0000,
        -0x8_0000 <= ty < 0x8_0000,
    ensures
        r.x == (tx * 16 + 8) * 256,
        r.y == (ty * 16 + 8) * 256,
{
    V2::from_px(tx * TILE_PX + TILE_PX / 2, ty * TILE_PX + TILE_PX / 2)
}

/// Painting nothing leaves a map as it was.
pub proof fn lemma_paint_refl(m: TileMap, t: Tile, c: spec_fn(int, int) -> bool)
    requires
        m.wf(),
        forall|a: int, b: int| !#[trigger] c(a, b),
    ensures
        m.painted(m, t, c),
{
}

/// Two paintings in turn with one tile are one painting of the union.
pub proof fn lemma_paint_trans(
    m0: TileMap,
    m1: TileMap,
    m2: TileMap,
    t: Tile,
    c1: spec_fn(int, int) -> bool,
    c2: spec_fn(int, int) -> bool,
)
    requires
        m0.painted(m1, t, c1),
        m1.painted(m2, t, c2),
    ensures
        m0.painted(m2, t, |a: int, b: int| c1(a, b) || c2(a, b)),
{
    assert forall|tx: int, ty: int|
        #[trigger] m2.tile_at(tx, ty) == if m0.in_bounds_spec(tx, ty) && (c1(tx, ty) || c2(tx, ty)) {
            t
        } else {
            m0.tile_at(tx, ty)
        } by {
        assert(m2.tile_at(tx, ty) == if m1.in_bounds_spec(tx, ty) && c2(tx, ty) {
            t
        } else {
            m1.tile_at(tx, ty)
        });
        assert(m1.tile_at(tx, ty) == if m0.in_bounds_spec(tx, ty) && c1(tx, ty) {
            t
        } else {
            m0.tile_at(tx, ty)
        });
    }
}

/// A painting can be described by any predicate that agrees with its own.
pub proof fn lemma_paint_same(
    m0: TileMap,
    m1: TileMap,
    t: Tile,
    c1: spec_fn(int, int) -> bool,
    c2: spec_fn(int, int) -> bool,
)
    requires
        m0.painted(m1, t, c1),
        forall|a: int, b: int| m0.in_bounds_spec(a, b) ==> c1(a, b) == c2(a, b),
    ensures
        m0.painted(m1, t, c2),
{
    assert forall|tx: int, ty: int|
        #[trigger] m1.tile_at(tx, ty) == if m0.in_bounds_spec(tx, ty) && c2(tx, ty) {
            t
        } else {
            m0.tile_at(tx, ty)
        } by {
        assert(m1.tile_at(tx, ty) == if m0.in_bounds_spec(tx, ty) && c1(tx, ty) {
            t
        } else {
            m0.tile_at(tx, ty)
        });
    }
}

/// Two distinct in-bounds coordinates have distinct row-major indices.
pub proof fn lemma_distinct_index(x: int, y: int, x2: int, y2: int, w: int, h: int)
    requires
        0 <= x < w,
        0 <= x2 < w,
        0 <= y < h,
        0 <= y2 < h,
        !(x == x2 && y == y2),
    ensures
        y * w + x != y2 * w + x2,
{
    if y == y2 {
    } else if y < y2 {
        assert(y * w + x < y2 * w + x2) by (nonlinear_arith)
            requires
                y < y2,
                0 <= x < w,
                0 <= x2,
        ;
    } else {
        assert(y2 * w + x2 < y * w + x) by (nonlinear_arith)
            requires
                y2 < y,
                0 <= x2 < w,
                0 <= x,
        ;
    }
}

} // verus!
