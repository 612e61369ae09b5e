//! The simulation.
//!
//! [`World::step`] advances everything by exactly one frame using nothing but
//! the per-player [`Input`] set for that frame. No clocks, no floats, no
//! randomness that is not seeded: replaying the same inputs against the same
//! seed reproduces the world exactly, which is what lockstep multiplayer needs.
pub mod pstate;

use vstd::prelude::*;
use crate::entity::{eflag, info, Entities, Entity, EntityId, Kind, kind_info, NO_SLOT, is_enemy_spec};
use crate::event::{Event, Events, Sfx, queued, extends};
use crate::fixed::{px, to_px, Fx, ONE, floor_px};
use crate::geom::{Dir, Rect, V2, fits_i32};
use crate::input::Input;
use crate::items::{Inventory, Item, item_bit};
use crate::level::{Level, LevelKind, Spawn, TileMap, HUD_H, ROOM_PX_H, ROOM_PX_W, SCREEN_H, SCREEN_W, TILE_PX};
use crate::physics::{near_origin, sane_body};
use crate::rng::Rng;
use crate::tiles::{self, flag, tile};

verus! {

/// Frames a player is immune after taking a hit.
pub const PLAYER_IFRAMES: u8 = 48;

/// Frames the camera takes to scroll between rooms.
pub const ROOM_SCROLL_FRAMES: u16 = 14;

/// Frames between dying and respawning.
pub const RESPAWN_FRAMES: u16 = 90;

/// Height of the visible playfield, below the status bar.
pub const VIEW_H: i32 = SCREEN_H - HUD_H;

/// Width of the visible playfield.
pub const VIEW_W: i32 = SCREEN_W;

/// Furthest from the origin, in fixed-point units, that the simulation moves
/// an entity: a quarter of a million pixels, far beyond any generated level.
pub const PLAY_LIMIT: i32 = 0x100_0000;

/// Largest per-frame speed, height or vertical speed the simulation steps.
pub const MOTION_LIMIT: i32 = 0x10_0000;

/// Largest body, in pixels, that the simulation moves.
pub const BODY_LIMIT: i32 = 128;

/// Largest hit-point count the simulation does arithmetic on.
pub const HP_LIMIT: i16 = 0x4000;

/// Which side a player is playing on.
#[derive(Clone, Copy, PartialEq, Eq, Debug, Default, Structural)]
pub enum Role {
    /// An ordinary hero.
    #[default]
    Hero,
    /// A player who has taken control of a boss.
    Boss,
}

impl Role {
    /// The number a role is stored as.
    pub fn to_u8(self) -> (r: u8)
        ensures
            r == (if self == Role::Hero { 0u8 } else { 1u8 }),
    {
        match self {
            Role::Hero => 0,
            Role::Boss => 1,
        }
    }
}

/// A per-player view of the world.
#[derive(Clone, Copy, Debug, Default)]
pub struct Camera {
    /// Top-left of the viewport in world pixels, fixed point.
    pub x: Fx,
    pub y: Fx,
    /// Where the camera is heading.
    pub target_x: Fx,
    pub target_y: Fx,
    /// Frames of scroll remaining.
    pub scroll: u16,
    /// Frames of screen shake remaining.
    pub shake: u8,
}

/// A camera whose coordinates all lie in `0 ..= 2^30`.
pub open spec fn camera_ok(c: Camera) -> bool {
    &&& 0 <= c.x <= 0x4000_0000
    &&& 0 <= c.y <= 0x4000_0000
    &&& 0 <= c.target_x <= 0x4000_0000
    &&& 0 <= c.target_y <= 0x4000_0000
}

impl Camera {
    /// Jumps straight to a position, cancelling any scroll.
    pub fn snap(&mut self, x: Fx, y: Fx)
        ensures
            *final(self) == (Camera { x, y, target_x: x, target_y: y, scroll: 0, ..*old(self) }),
    {
        self.x = x;
        self.y = y;
        self.target_x = x;
        self.target_y = y;
        self.scroll = 0;
    }

    /// One frame of scrolling: covers `1 / scroll` of the remaining distance
    /// and lands exactly on the target on the last frame; shake wears off.
    pub fn step(&mut self)
        requires
            camera_ok(*old(self)),
        ensures
            camera_ok(*final(self)),
            final(self).target_x == old(self).target_x,
            final(self).target_y == old(self).target_y,
            final(self).shake == (if old(self).shake > 0 { old(self).shake - 1 } else { 0 }),
            old(self).scroll == 0 ==> final(self).x == old(self).x && final(self).y == old(self).y
                && final(self).scroll == 0,
            old(self).scroll == 1 ==> final(self).x == old(self).target_x && final(self).y
                == old(self).target_y && final(self).scroll == 0,
            old(self).scroll > 1 ==> {
                &&& final(self).scroll == old(self).scroll - 1
                &&& final(self).x == old(self).x + crate::fixed::tdiv(
                    old(self).target_x - old(self).x,
                    old(self).scroll as int,
                )
                &&& final(self).y == old(self).y + crate::fixed::tdiv(
                    old(self).target_y - old(self).y,
                    old(self).scroll as int,
                )
            },
    {
        if self.scroll > 0 {
            let n = self.scroll as Fx;
            let dx = crate::fixed::div_trunc((self.target_x - self.x) as i64, n as i64);
            let dy = crate::fixed::div_trunc((self.target_y - self.y) as i64, n as i64);
            proof {
                lemma_tdiv_between(self.target_x - self.x, n as int);
                lemma_tdiv_between(self.target_y - self.y, n as int);
            }
            self.x = self.x + dx as i32;
            self.y = self.y + dy as i32;
            self.scroll = self.scroll - 1;
            if self.scroll == 0 {
                self.x = self.target_x;
                self.y = self.target_y;
            }
        }
        self.shake = if self.shake > 0 { self.shake - 1 } else { 0 };
    }
}

/// Truncating division by a positive count lands between zero and the
/// dividend.
pub proof fn lemma_tdiv_between(a: int, n: int)
    requires
        n >= 1,
    ensures
        a >= 0 ==> 0 <= crate::fixed::tdiv(a, n) <= a,
        a < 0 ==> a <= crate::fixed::tdiv(a, n) <= 0,
{
    if a >= 0 {
        assert(0 <= a / n <= a) by (nonlinear_arith)
            requires
                a >= 0,
                n >= 1,
        ;
    } else {
        assert(0 <= (-a) / n <= -a) by (nonlinear_arith)
            requires
                a < 0,
                n >= 1,
        ;
    }
}

/// One participant, local or remote.
#[derive(Clone, Copy, Debug)]
pub struct Player {
    /// The entity this player is driving. For a hero that is their Link; for a
    /// boss player it is the boss entity.
    pub entity: EntityId,
    pub inv: Inventory,
    pub input: Input,
    pub role: Role,
    pub level: u16,
    /// Room coordinates the camera is showing.
    pub room: (i32, i32),
    pub camera: Camera,
    /// The object this player has picked up, if any.
    pub carrying: EntityId,
    /// Frames until this player respawns, 0 when alive.
    pub respawn: u16,
    /// True once someone has joined this slot.
    pub active: bool,
    pub deaths: u32,
    pub kills: u32,
    /// A message shown in the status bar, with frames remaining.
    pub message: Option<(&'static str, u16)>,
}

/// An empty player slot: nobody has joined it.
pub open spec fn vacant(p: Player) -> bool {
    &&& p.entity == (EntityId { idx: NO_SLOT, gen: 0 })
    &&& p.carrying == (EntityId { idx: NO_SLOT, gen: 0 })
    &&& p.role == Role::Hero
    &&& p.level == 0
    &&& p.room == (0i32, 0i32)
    &&& p.camera == Camera { x: 0, y: 0, target_x: 0, target_y: 0, scroll: 0, shake: 0 }
    &&& p.input == Input { buttons: 0, prev: 0 }
    &&& p.respawn == 0
    &&& !p.active
    &&& p.deaths == 0
    &&& p.kills == 0
    &&& p.message.is_none()
    &&& fresh_inventory(p.inv)
}

/// A sword in hand and nothing else.
pub open spec fn fresh_inventory(i: Inventory) -> bool {
    &&& i.bits() == item_bit(Item::Sword)
    &&& i.equipped@ == seq![Item::Sword, Item::Nothing]
    &&& i.bombs == 0 && i.max_bombs == 30 && i.arrows == 0 && i.max_arrows == 30
    &&& i.keys == 0 && i.rupees == 0 && i.sword_level == 1 && i.heart_pieces == 0
}

impl Default for Player {
    fn default() -> (r: Player)
        ensures
            vacant(r),
    {
        Player {
            entity: EntityId::none(),
            inv: Inventory::default(),
            input: Input::new(0),
            role: Role::Hero,
            level: 0,
            room: (0, 0),
            camera: Camera { x: 0, y: 0, target_x: 0, target_y: 0, scroll: 0, shake: 0 },
            carrying: EntityId::none(),
            respawn: 0,
            active: false,
            deaths: 0,
            kills: 0,
            message: None,
        }
    }
}

impl Player {
    pub open spec fn is_alive_spec(&self) -> bool {
        self.active && self.respawn == 0 && self.entity.idx != crate::entity::NO_SLOT
    }

    /// True when the player is in the world and not waiting to respawn.
    pub fn is_alive(&self) -> (r: bool)
        ensures
            r == self.is_alive_spec(),
    {
        self.active && self.respawn == 0 && !self.entity.is_none()
    }

    /// Centre of this player's viewport in world pixels, used as a fallback
    /// source position for damage that has no obvious origin.
    pub fn camera_center(&self) -> (r: V2)
        requires
            camera_ok(self.camera),
        ensures
            r.x == self.camera.x + VIEW_W / 2 * 256,
            r.y == self.camera.y + VIEW_H / 2 * 256,
    {
        V2::new(self.camera.x + px(VIEW_W / 2), self.camera.y + px(VIEW_H / 2))
    }
}

/// A level the simulation can run: well formed, with a map small enough that
/// its pixel extent fits comfortably in fixed point, and an entrance inside
/// the play area.
pub open spec fn playable(l: Level) -> bool {
    &&& l.wf()
    &&& l.map.tw() * 16 < 0x40_0000
    &&& l.map.th() * 16 < 0x40_0000
    &&& near_origin(l.entrance, PLAY_LIMIT as int)
}

/// The fields of an entity the simulation does arithmetic on are all small
/// enough that a frame of movement, damage and timers stays inside `i32`.
pub open spec fn in_play_spec(e: Entity) -> bool {
    &&& 0 <= e.body_w <= BODY_LIMIT
    &&& 0 <= e.body_h <= BODY_LIMIT
    &&& near_origin(e.pos, PLAY_LIMIT as int)
    &&& near_origin(e.vel, MOTION_LIMIT as int)
    &&& near_origin(e.knock, MOTION_LIMIT as int)
    &&& -MOTION_LIMIT <= e.z <= MOTION_LIMIT
    &&& -MOTION_LIMIT <= e.vz <= MOTION_LIMIT
    &&& -HP_LIMIT <= e.hp <= HP_LIMIT
    &&& -HP_LIMIT <= e.max_hp <= HP_LIMIT
    &&& forall|i: int| 0 <= i < 4 ==> -PLAY_LIMIT <= #[trigger] e.data[i] <= PLAY_LIMIT
}

/// True when the simulation can step an entity; see [`in_play_spec`].
pub fn in_play(e: &Entity) -> (r: bool)
    ensures
        r == in_play_spec(*e),
{
    let small_body = 0 <= e.body_w && e.body_w <= BODY_LIMIT && 0 <= e.body_h && e.body_h
        <= BODY_LIMIT;
    let placed = -PLAY_LIMIT <= e.pos.x && e.pos.x <= PLAY_LIMIT && -PLAY_LIMIT <= e.pos.y
        && e.pos.y <= PLAY_LIMIT;
    let moving = -MOTION_LIMIT <= e.vel.x && e.vel.x <= MOTION_LIMIT && -MOTION_LIMIT <= e.vel.y
        && e.vel.y <= MOTION_LIMIT && -MOTION_LIMIT <= e.knock.x && e.knock.x <= MOTION_LIMIT
        && -MOTION_LIMIT <= e.knock.y && e.knock.y <= MOTION_LIMIT;
    let lifted = -MOTION_LIMIT <= e.z && e.z <= MOTION_LIMIT && -MOTION_LIMIT <= e.vz && e.vz
        <= MOTION_LIMIT;
    let healthy = -HP_LIMIT <= e.hp && e.hp <= HP_LIMIT && -HP_LIMIT <= e.max_hp && e.max_hp
        <= HP_LIMIT;
    let mut data_ok = true;
    let mut i: usize = 0;
    while i < 4
        invariant
            i <= 4,
            data_ok == forall|k: int| 0 <= k < i ==> -PLAY_LIMIT <= #[trigger] e.data[k]
                <= PLAY_LIMIT,
        decreases 4 - i,
    {
        if e.data[i] < -PLAY_LIMIT || e.data[i] > PLAY_LIMIT {
            data_ok = false;
        }
        i = i + 1;
    }
    small_body && placed && moving && lifted && healthy && data_ok
}

/// The whole game state.
pub struct World {
    pub seed: u64,
    /// Frames simulated so far. Part of the RNG stream, so it must stay in sync.
    pub frame: u64,
    pub rng: Rng,
    pub levels: Vec<Level>,
    pub entities: Entities,
    pub players: Vec<Player>,
    pub events: Events,
    /// Rooms whose contents have been spawned, keyed by (level, room index).
    pub spawned: Vec<(u16, u16)>,
}

/// A player slot the simulation can run: on an existing level, in a room near
/// the origin, with its camera inside the level's pixel range.
pub open spec fn seat_ok(p: Player, n_levels: int) -> bool {
    &&& p.level < n_levels
    &&& -0x10_0000 <= p.room.0 <= 0x10_0000
    &&& -0x10_0000 <= p.room.1 <= 0x10_0000
    &&& camera_ok(p.camera)
}

impl World {
    /// Entities well formed, at least one level and every level playable, at
    /// least one and fewer than 256 player slots, each on an existing level.
    pub open spec fn wf(&self) -> bool {
        &&& self.entities.wf()
        &&& 1 <= self.levels@.len() <= 0xffff
        &&& forall|i: int| 0 <= i < self.levels@.len() ==> playable(#[trigger] self.levels@[i])
        &&& 1 <= self.players@.len() <= 255
        &&& forall|i: int|
            0 <= i < self.players@.len() ==> seat_ok(
                #[trigger] self.players@[i],
                self.levels@.len() as int,
            )
    }

    /// Only the entities, the events and the RNG have changed.
    pub open spec fn same_but_entities(&self, o: &World) -> bool {
        &&& self.levels == o.levels
        &&& self.players == o.players
        &&& self.spawned == o.spawned
        &&& self.seed == o.seed
        &&& self.frame == o.frame
    }
}

/// The pixel to frame a room from, clamped to the level's extent.
pub open spec fn camera_axis(room: int, room_px: int, level_px: int, view: int) -> int {
    let max = if level_px - view > 0 { level_px - view } else { 0 };
    let want = room * room_px;
    if want < 0 {
        0
    } else if want > max {
        max
    } else {
        want
    }
}

/// Camera position that frames a room, clamped to the level.
pub fn camera_for_room(level: &Level, room: (i32, i32)) -> (r: (Fx, Fx))
    requires
        level.map.wf(),
        level.map.tw() * 16 <= i32::MAX,
        level.map.th() * 16 <= i32::MAX,
        fits_i32(room.0 * 160),
        fits_i32(room.1 * 128),
    ensures
        r.0 == #[verifier::truncate] ((camera_axis(room.0 as int, ROOM_PX_W as int, level.map.tw() * 16, VIEW_W as int)
            * 256) as i32),
        r.1 == #[verifier::truncate] ((camera_axis(room.1 as int, ROOM_PX_H as int, level.map.th() * 16, VIEW_H as int)
            * 256) as i32),
        playable(*level) ==> r.0 == camera_axis(room.0 as int, ROOM_PX_W as int, level.map.tw() * 16, VIEW_W as int)
            * 256,
        playable(*level) ==> r.1 == camera_axis(room.1 as int, ROOM_PX_H as int, level.map.th() * 16, VIEW_H as int)
            * 256,
        playable(*level) ==> 0 <= r.0 <= 0x4000_0000,
        playable(*level) ==> 0 <= r.1 <= 0x4000_0000,
{
    let mw = level.map.w() * TILE_PX - VIEW_W;
    let mh = level.map.h() * TILE_PX - VIEW_H;
    let max_x = if mw > 0 { mw } else { 0 };
    let max_y = if mh > 0 { mh } else { 0 };
    let wx = room.0 * ROOM_PX_W;
    let wy = room.1 * ROOM_PX_H;
    let x = if wx < 0 { 0 } else if wx > max_x { max_x } else { wx };
    let y = if wy < 0 { 0 } else if wy > max_y { max_y } else { wy };
    (px(x), px(y))
}

/// Converts a world position to screen pixels for a given camera.
pub fn to_screen(cam: &Camera, p: V2) -> (r: (i32, i32))
    requires
        fits_i32(p.x - cam.x),
        fits_i32(p.y - cam.y),
    ensures
        r.0 == floor_px(p.x - cam.x),
        r.1 == floor_px(p.y - cam.y) + HUD_H,
{
    (to_px(p.x - cam.x), to_px(p.y - cam.y) + HUD_H)
}


/// The room containing a position inside the play area is near the origin.
pub proof fn lemma_room_small(p: V2)
    ensures
        -0x10_0000 <= floor_px(p.x as int) / 160 <= 0x10_0000,
        -0x10_0000 <= floor_px(p.y as int) / 128 <= 0x10_0000,
{
}

/// What [`World::spawn`] did to the slab: either a fresh entity at `r`, with
/// every other slot untouched, or nothing at all and the empty handle.
pub open spec fn spawned(before: Entities, after: Entities, r: EntityId, kind: Kind, level: u16, pos: V2) -> bool {
    if r.gen == 0 {
        after == before && r.idx == NO_SLOT
    } else {
        &&& after.resolves(r)
        &&& crate::entity::is_fresh(after.slots_view()[r.idx as int], kind, level, pos, r.gen)
        &&& after.slots_view().len() >= before.slots_view().len()
        &&& r.idx < before.slots_view().len() ==> r.gen == crate::entity::next_gen(
            before.slots_view()[r.idx as int].gen,
        )
        &&& r.idx >= before.slots_view().len() ==> r.idx == before.slots_view().len() && r.gen == 1
        &&& after.live_count() == before.live_count() + 1
        &&& forall|i: int|
            0 <= i < before.slots_view().len() && i != r.idx ==> #[trigger] after.slots_view()[i]
                == before.slots_view()[i]
    }
}

/// `after` is `before` with one more entity of `kind` at `pos` on `level`:
/// a fresh one changed as `g` relates an entity to its changed self. When
/// the slab was full the change falls on whatever the empty handle names,
/// if anything.
pub open spec fn made(
    before: Entities,
    after: Entities,
    kind: Kind,
    level: u16,
    pos: V2,
    g: spec_fn(Entity, Entity) -> bool,
) -> bool {
    if !has_room(before) {
        if before.resolves(EntityId { idx: NO_SLOT, gen: 0 }) {
            &&& g(before.slots_view()[NO_SLOT as int], after.slots_view()[NO_SLOT as int])
            &&& after.slots_view() == before.slots_view().update(NO_SLOT as int, after.slots_view()[NO_SLOT as int])
            &&& after.free_view() == before.free_view()
            &&& after.live_count() == before.live_count()
        } else {
            after == before
        }
    } else {
        exists|id: EntityId, e0: Entity|
            {
                &&& id.gen != 0
                &&& #[trigger] after.resolves(id)
                &&& #[trigger] crate::entity::is_fresh(e0, kind, level, pos, id.gen)
                &&& g(e0, after.slots_view()[id.idx as int])
                &&& after.live_count() == before.live_count() + 1
                &&& forall|i: int|
                    0 <= i < before.slots_view().len() && i != id.idx ==> #[trigger] after.slots_view()[i]
                        == before.slots_view()[i]
            }
    }
}

/// A Zol split off a dying one: one hit point, an eight-pixel body, and
/// marked as a half.
pub open spec fn small_zol() -> spec_fn(Entity, Entity) -> bool {
    |a: Entity, b: Entity|
        b == Entity { hp: 1, max_hp: 1, body_w: 8, body_h: 8, data: b.data, ..a } && b.data@ == a.data@.update(0, 1)
}

/// `after` is `before` with the entity `id` names taken out, when it names
/// one (and the slab counts a live one); otherwise `before` unchanged.
pub open spec fn removed(before: Entities, after: Entities, id: EntityId) -> bool {
    if before.live_count() > 0 && before.resolves(id) {
        &&& after.slots_view() == before.slots_view().update(
            id.idx as int,
            Entity { alive: false, ..before.slots_view()[id.idx as int] },
        )
        &&& after.free_view() == before.free_view().push(id.idx)
        &&& after.live_count() == before.live_count() - 1
    } else {
        after == before
    }
}

/// True when the slab has room for one more entity.
pub open spec fn has_room(es: Entities) -> bool {
    (es.free_view().len() > 0 || es.slots_view().len() < 0x10000) && es.live_count() < usize::MAX
}

impl World {
    /// Creates a world from generated levels, with at least one player slot.
    /// With no levels given it gets a single one-room meadow.
    pub fn new(seed: u64, levels: Vec<Level>, player_count: usize) -> (w: World)
        requires
            levels@.len() <= 0xffff,
            forall|i: int| 0 <= i < levels@.len() ==> playable(#[trigger] levels@[i]),
            player_count <= 255,
        ensures
            w.wf(),
            w.seed == seed,
            w.frame == 0,
            w.rng.st() == (seed ^ 0xb0b1_c0de) ^ crate::rng::GOLDEN,
            levels@.len() > 0 ==> w.levels@ == levels@,
            levels@.len() == 0 ==> w.levels@.len() == 1,
            w.players@.len() == (if player_count >= 1 { player_count } else { 1 }),
            forall|i: int| 0 <= i < w.players@.len() ==> vacant(#[trigger] w.players@[i]),
            w.entities.slots_view().len() == 0,
            w.entities.live_count() == 0,
            w.events@.len() == 0,
            w.spawned@.len() == 0,
    {
        let n = if player_count >= 1 { player_count } else { 1 };
        let mut players: Vec<Player> = Vec::new();
        let mut i: usize = 0;
        while i < n
            invariant
                i <= n,
                players@.len() == i,
                forall|k: int| 0 <= k < i ==> vacant(#[trigger] players@[k]),
            decreases n - i,
        {
            players.push(Player::default());
            i = i + 1;
        }
        let mut levels = levels;
        if levels.len() == 0 {
            levels.push(Level::new(LevelKind::Overworld, 1, 1, tile::GRASS));
        }
        let w = World {
            seed,
            frame: 0,
            rng: Rng::new(seed ^ 0xb0b1_c0de),
            levels,
            entities: Entities::new(),
            players,
            events: Events::new(),
            spawned: Vec::new(),
        };
        proof {
            assert forall|k: int| 0 <= k < w.players@.len() implies seat_ok(
                #[trigger] w.players@[k],
                w.levels@.len() as int,
            ) by {
                assert(vacant(w.players@[k]));
            }
        }
        w
    }

    /// Spawns an entity and returns its handle; with the slab full it spawns
    /// nothing and hands back the empty handle.
    pub fn spawn(&mut self, kind: Kind, level: u16, pos: V2) -> (r: EntityId)
        requires
            old(self).wf(),
        ensures
            final(self).wf(),
            final(self).same_but_entities(old(self)),
            final(self).events == old(self).events,
            final(self).rng == old(self).rng,
            spawned(old(self).entities, final(self).entities, r, kind, level, pos),
            (r.gen == 0) <==> !has_room(old(self).entities),
    {
        let room = (self.entities.free_slots().len() > 0 || self.entities.capacity() < 0x10000)
            && self.entities.len() < usize::MAX;
        if room {
            let r = self.entities.spawn(kind, level, pos);
            proof {
                assert(r.idx < final(self).entities.slots_view().len());
                assert(final(self).entities.slots_view().len() <= 0x10000);
            }
            r
        } else {
            EntityId::none()
        }
    }

    /// Removes an entity, if its handle still names one.
    pub fn remove(&mut self, id: EntityId)
        requires
            old(self).wf(),
        ensures
            final(self).wf(),
            final(self).same_but_entities(old(self)),
            final(self).events == old(self).events,
            final(self).rng == old(self).rng,
            old(self).entities.live_count() > 0 ==> !final(self).entities.resolves(id),
            old(self).entities.live_count() > 0 && old(self).entities.resolves(id) ==> {
                &&& final(self).entities.slots_view() == old(self).entities.slots_view().update(
                    id.idx as int,
                    Entity { alive: false, ..old(self).entities.slots_view()[id.idx as int] },
                )
                &&& final(self).entities.free_view() == old(self).entities.free_view().push(id.idx)
                &&& final(self).entities.live_count() == old(self).entities.live_count() - 1
            },
            !(old(self).entities.live_count() > 0 && old(self).entities.resolves(id))
                ==> final(self).entities == old(self).entities,
            removed(old(self).entities, final(self).entities, id),
    {
        if self.entities.len() > 0 {
            self.entities.despawn(id);
        }
    }

    /// Brings a player into the world at the first level's entrance.
    ///
    /// Returns false for a slot that does not exist; a player already in the
    /// world stays where they are.
    pub fn join(&mut self, player: usize) -> (ok: bool)
        requires
            old(self).wf(),
        ensures
            final(self).wf(),
            final(self).players@.len() == old(self).players@.len(),
            final(self).levels == old(self).levels,
            final(self).frame == old(self).frame,
            ok == (player < old(self).players@.len()),
            !ok || old(self).players@[player as int].active ==> *final(self) == *old(self),
            ok && !old(self).players@[player as int].active ==> {
                let p = final(self).players@[player as int];
                let entrance = old(self).levels@[0].entrance;
                &&& p.active
                &&& p.level == 0
                &&& p.role == Role::Hero
                &&& p.respawn == 0
                &&& p.room == (
                    (floor_px(entrance.x as int) / 160) as i32,
                    (floor_px(entrance.y as int) / 128) as i32,
                )
                &&& fresh_inventory(p.inv)
                &&& (p.entity.gen == 0) == !has_room(old(self).entities)
                &&& p.entity.gen != 0 ==> {
                    let e = final(self).entities.slots_view()[p.entity.idx as int];
                    &&& final(self).entities.resolves(p.entity)
                    &&& e.kind == Kind::Player
                    &&& e.pos == entrance
                    &&& e.level == 0
                    &&& e.player == player as u8
                    &&& e.hp == kind_info(Kind::Player).hp
                }
                &&& forall|k: int|
                    0 <= k < final(self).players@.len() && k != player
                        ==> #[trigger] final(self).players@[k] == old(self).players@[k]
                &&& final(self).levels == old(self).levels
                &&& made(
                    old(self).entities,
                    final(self).entities,
                    Kind::Player,
                    0,
                    entrance,
                    (|a: Entity, b: Entity|
                        b == Entity { player: player as u8, dir: Dir::Down, data: b.data, ..a } && b.data[0] == entrance.x
                            && b.data[1] == entrance.y && b.data[2] == a.data[2] && b.data[3] == a.data[3]),
                )
            },
    {
        if player >= self.players.len() {
            return false;
        }
        if self.players[player].active {
            return true;
        }
        let entrance = self.levels[0].entrance;
        let ghost start = self.entities;
        let id = self.spawn(Kind::Player, 0, entrance);
        let ghost mid = self.entities;
        if let Some(e) = self.entities.get_mut(id) {
            e.player = player as u8;
            e.dir = Dir::Down;
            e.data[0] = entrance.x;
            e.data[1] = entrance.y;
        }
        proof {
            if has_room(start) {
                assert(self.entities.resolves(id));
                assert(crate::entity::is_fresh(mid.slots_view()[id.idx as int], Kind::Player, 0, entrance, id.gen));
                assert(forall|i: int|
                    0 <= i < start.slots_view().len() && i != id.idx ==> #[trigger] self.entities.slots_view()[i]
                        == start.slots_view()[i]);
            }
        }
        let room = self.levels[0].room_at(entrance);
        proof {
            lemma_room_small(entrance);
        }
        let mut p = Player::default();
        p.entity = id;
        p.active = true;
        p.level = 0;
        p.room = room;
        let (cx, cy) = camera_for_room(&self.levels[0], room);
        p.camera.snap(cx, cy);
        self.players.set(player, p);
        proof {
            assert forall|k: int| 0 <= k < self.players@.len() implies seat_ok(
                #[trigger] self.players@[k],
                self.levels@.len() as int,
            ) by {
                if k != player {
                    assert(self.players@[k] == old(self).players@[k]);
                }
            }
        }
        true
    }
}


/// Squared distance between two positions, in fixed-point units.
pub open spec fn dist2(a: V2, b: V2) -> int {
    (a.x - b.x) * (a.x - b.x) + (a.y - b.y) * (a.y - b.y)
}

/// Slot `i` holds a living hero's entity on `level`, within `max_px` of
/// `from`.
pub open spec fn near_hero(w: World, level: u16, from: V2, max_px: int, i: int) -> bool {
    let e = w.entities.slots_view()[i];
    &&& 0 <= i < w.entities.slots_view().len()
    &&& e.alive
    &&& e.kind == Kind::Player
    &&& e.level == level
    &&& w.players@[(e.player as int) % (w.players@.len() as int)].is_alive_spec()
    &&& dist2(e.pos, from) <= (max_px * 256) * (max_px * 256)
}

/// Some active player on `level` shows a room within `rooms` rooms of
/// `(rx, ry)` each way.
pub open spec fn player_within(w: World, level: u16, rx: int, ry: int, rooms: int) -> bool {
    exists|k: int|
        0 <= k < w.players@.len() && {
            let p = #[trigger] w.players@[k];
            &&& p.active
            &&& p.level == level
            &&& crate::geom::abs(p.room.0 - rx) <= rooms
            &&& crate::geom::abs(p.room.1 - ry) <= rooms
        }
}

impl World {
    /// Removes a player from the world, e.g. on disconnect: their entity and
    /// whatever they carried go, and the slot is emptied.
    pub fn leave(&mut self, player: usize)
        requires
            old(self).wf(),
        ensures
            final(self).wf(),
            player < old(self).players@.len() ==> vacant(final(self).players@[player as int]),
            player < old(self).players@.len() && old(self).entities.live_count() >= 2
                && old(self).players@[player as int].entity.idx != NO_SLOT ==> !final(self).entities.resolves(old(self).players@[player as int].entity),
            player >= old(self).players@.len() ==> *final(self) == *old(self),
            final(self).players@.len() == old(self).players@.len(),
            final(self).levels == old(self).levels,
            final(self).events == old(self).events && final(self).rng == old(self).rng,
            player < old(self).players@.len() ==> {
                let p = old(self).players@[player as int];
                &&& forall|k: int| 0 <= k < old(self).players@.len() && k != player
                    ==> #[trigger] final(self).players@[k] == old(self).players@[k]
                &&& final(self).entities.slots_view().len() == old(self).entities.slots_view().len()
                &&& forall|i: int|
                    0 <= i < old(self).entities.slots_view().len() && i != p.carrying.idx && i != p.entity.idx
                        ==> #[trigger] final(self).entities.slots_view()[i] == old(self).entities.slots_view()[i]
                &&& old(self).entities.live_count() >= 1 && p.carrying.idx != NO_SLOT ==> !final(self).entities.resolves(
                    p.carrying,
                )
            },
    {
        if player < self.players.len() {
            let p = self.players[player];
            if !p.carrying.is_none() {
                self.remove(p.carrying);
            }
            let ghost mid = self.entities;
            if !p.entity.is_none() {
                self.remove(p.entity);
            }
            let ghost last = self.entities;
            proof {
                assert(if p.carrying.idx == NO_SLOT { mid == old(self).entities } else { removed(old(self).entities, mid, p.carrying) });
                assert(if p.entity.idx == NO_SLOT { last == mid } else { removed(mid, last, p.entity) });
            }
            self.players.set(player, Player::default());
            proof {
                assert forall|k: int| 0 <= k < self.players@.len() implies seat_ok(
                    #[trigger] self.players@[k],
                    self.levels@.len() as int,
                ) by {
                    if k != player {
                        assert(self.players@[k] == old(self).players@[k]);
                    }
                }
                assert(self.entities == last);
            }
        }
    }

    /// Sets the buttons held by a player for the coming frame.
    pub fn set_input(&mut self, player: usize, buttons: u16)
        requires
            old(self).wf(),
        ensures
            final(self).wf(),
            player < old(self).players@.len() ==> final(self).players@ == old(self).players@.update(
                player as int,
                Player {
                    input: Input { buttons, prev: old(self).players@[player as int].input.buttons },
                    ..old(self).players@[player as int]
                },
            ),
            player >= old(self).players@.len() ==> final(self).players@ == old(self).players@,
            final(self).entities == old(self).entities,
            final(self).levels == old(self).levels,
            final(self).events == old(self).events,
            final(self).rng == old(self).rng,
            final(self).frame == old(self).frame,
            final(self).spawned == old(self).spawned,
    {
        if player < self.players.len() {
            let mut p = self.players[player];
            p.input.advance(buttons);
            self.players.set(player, p);
            proof {
                assert forall|k: int| 0 <= k < self.players@.len() implies seat_ok(
                    #[trigger] self.players@[k],
                    self.levels@.len() as int,
                ) by {
                    if k != player {
                        assert(self.players@[k] == old(self).players@[k]);
                    }
                }
            }
        }
    }

    /// The entity a player is driving.
    pub fn player_entity(&self, player: usize) -> (r: Option<&Entity>)
        ensures
            match r {
                Some(e) => player < self.players@.len() && self.entities.resolves(
                    self.players@[player as int].entity,
                ) && *e == self.entities.slots_view()[self.players@[player as int].entity.idx as int],
                None => player >= self.players@.len() || !self.entities.resolves(
                    self.players@[player as int].entity,
                ),
            },
    {
        if player < self.players.len() {
            self.entities.get(self.players[player].entity)
        } else {
            None
        }
    }

    /// The level a player is on; the first level for a slot that does not
    /// exist, the last one for a level number past the end.
    pub fn player_level(&self, player: usize) -> (r: &Level)
        requires
            self.wf(),
        ensures
            player < self.players@.len() ==> *r == self.levels@[self.players@[player as int].level as int],
            player >= self.players@.len() ==> *r == self.levels@[0],
    {
        let idx: usize = if player < self.players.len() {
            self.players[player].level as usize
        } else {
            0
        };
        let n = self.levels.len() - 1;
        &self.levels[if idx < n { idx } else { n }]
    }

    /// The shared random stream.
    pub fn rand(&mut self) -> (r: &mut Rng)
        ensures
            *r == old(self).rng,
            *final(self) == (World { rng: *final(r), ..*old(self) }),
    {
        &mut self.rng
    }

    /// A level by number; the last one for a number past the end.
    pub fn level(&self, idx: u16) -> (r: &Level)
        requires
            self.levels@.len() >= 1,
        ensures
            *r == self.levels@[if (idx as int) < self.levels@.len() - 1 { idx as int } else {
                self.levels@.len() - 1
            }],
    {
        let n = self.levels.len() - 1;
        &self.levels[if (idx as usize) < n { idx as usize } else { n }]
    }

    /// Mutable access to a level by number; the last one for a number past
    /// the end.
    pub fn level_mut(&mut self, idx: u16) -> (r: &mut Level)
        requires
            old(self).levels@.len() >= 1,
        ensures
            ({
                let k = if (idx as int) < old(self).levels@.len() - 1 { idx as int } else {
                    old(self).levels@.len() - 1
                };
                &&& *r == old(self).levels@[k]
                &&& final(self).levels@ == old(self).levels@.update(k, *final(r))
            }),
            final(self).entities == old(self).entities,
            final(self).players == old(self).players,
            final(self).events == old(self).events,
    {
        let n = self.levels.len() - 1;
        let k = if (idx as usize) < n { idx as usize } else { n };
        &mut self.levels[k]
    }

    /// Shows a short message in a player's status bar.
    pub fn say(&mut self, player: usize, text: &'static str)
        requires
            old(self).wf(),
        ensures
            final(self).wf(),
            player < old(self).players@.len() ==> final(self).players@ == old(self).players@.update(
                player as int,
                Player { message: Some((text, 150u16)), ..old(self).players@[player as int] },
            ),
            player >= old(self).players@.len() ==> final(self).players@ == old(self).players@,
            old(self).events@.len() < crate::event::MAX_EVENTS ==> final(self).events@
                == old(self).events@.push(Event::Message(text)),
            final(self).entities == old(self).entities,
            final(self).levels == old(self).levels,
            final(self).rng == old(self).rng,
            final(self).spawned == old(self).spawned,
            final(self).frame == old(self).frame,
    {
        if player < self.players.len() {
            let mut p = self.players[player];
            p.message = Some((text, 150));
            self.players.set(player, p);
            proof {
                assert forall|k: int| 0 <= k < self.players@.len() implies seat_ok(
                    #[trigger] self.players@[k],
                    self.levels@.len() as int,
                ) by {
                    if k != player {
                        assert(self.players@[k] == old(self).players@[k]);
                    }
                }
            }
        }
        self.events.push(Event::Message(text));
    }

    /// True when any active player on `level` is within `rooms` rooms of a
    /// position, each way.
    pub fn is_near_player(&self, level: u16, pos: V2, rooms: i32) -> (r: bool)
        requires
            self.wf(),
        ensures
            ({
                let rx = floor_px(pos.x as int) / 160;
                let ry = floor_px(pos.y as int) / 128;
                r == player_within(*self, level, rx, ry, rooms as int)
            }),
    {
        let (rx, ry) = self.level(level).room_at(pos);
        let mut i: usize = 0;
        while i < self.players.len()
            invariant
                self.wf(),
                i <= self.players@.len(),
                rx == floor_px(pos.x as int) / 160,
                ry == floor_px(pos.y as int) / 128,
                forall|k: int|
                    0 <= k < i ==> !({
                        let p = #[trigger] self.players@[k];
                        &&& p.active
                        &&& p.level == level
                        &&& crate::geom::abs(p.room.0 - rx) <= rooms
                        &&& crate::geom::abs(p.room.1 - ry) <= rooms
                    }),
            decreases self.players@.len() - i,
        {
            let p = &self.players[i];
            assert(seat_ok(self.players@[i as int], self.levels@.len() as int));
            let ddx = p.room.0 - rx;
            let ddy = p.room.1 - ry;
            let adx = if ddx < 0 { -ddx } else { ddx };
            let ady = if ddy < 0 { -ddy } else { ddy };
            if p.active && p.level == level && adx <= rooms && ady <= rooms {
                return true;
            }
            i = i + 1;
        }
        false
    }

    /// Finds the closest living hero on a level, within `max_px` of `from`:
    /// the nearest, and of equally near ones the first in slot order.
    pub fn nearest_player(&self, level: u16, from: V2, max_px: i32) -> (r: Option<(EntityId, V2)>)
        requires
            self.wf(),
            -0x80_0000 <= max_px < 0x80_0000,
        ensures
            match r {
                Some((id, p)) => {
                    &&& near_hero(*self, level, from, max_px as int, id.idx as int)
                    &&& id.gen == self.entities.slots_view()[id.idx as int].gen
                    &&& p == self.entities.slots_view()[id.idx as int].pos
                    &&& forall|j: int|
                        near_hero(*self, level, from, max_px as int, j) ==> dist2(
                            self.entities.slots_view()[id.idx as int].pos,
                            from,
                        ) <= dist2(#[trigger] self.entities.slots_view()[j].pos, from)
                    &&& forall|j: int|
                        0 <= j < id.idx && near_hero(*self, level, from, max_px as int, j)
                            ==> dist2(self.entities.slots_view()[id.idx as int].pos, from) < dist2(
                            #[trigger] self.entities.slots_view()[j].pos,
                            from,
                        )
                },
                None => forall|j: int| !near_hero(*self, level, from, max_px as int, j),
            },
    {
        let m: i128 = max_px as i128 * 256;
        assert(0 <= m * m <= 0x8000_0000 * 0x8000_0000) by (nonlinear_arith)
            requires
                -0x8000_0000 <= m <= 0x8000_0000,
        ;
        let lim = m * m;
        let n = self.entities.capacity();
        let np = self.players.len();
        let mut best: Option<(EntityId, V2, i128)> = None;
        let mut i: usize = 0;
        while i < n
            invariant
                self.wf(),
                n == self.entities.slots_view().len(),
                np == self.players@.len(),
                i <= n,
                lim == (max_px * 256) * (max_px * 256),
                match best {
                    Some((id, p, d)) => {
                        &&& id.idx < i
                        &&& near_hero(*self, level, from, max_px as int, id.idx as int)
                        &&& id.gen == self.entities.slots_view()[id.idx as int].gen
                        &&& p == self.entities.slots_view()[id.idx as int].pos
                        &&& d == dist2(p, from)
                        &&& forall|j: int|
                            0 <= j < i && near_hero(*self, level, from, max_px as int, j) ==> d
                                <= dist2(#[trigger] self.entities.slots_view()[j].pos, from)
                        &&& forall|j: int|
                            0 <= j < id.idx && near_hero(*self, level, from, max_px as int, j)
                                ==> d < dist2(#[trigger] self.entities.slots_view()[j].pos, from)
                    },
                    None => forall|j: int|
                        0 <= j < i ==> !near_hero(*self, level, from, max_px as int, j),
                },
            decreases n - i,
        {
            if let Some(e) = self.entities.at(i) {
                if e.kind == Kind::Player && e.level == level {
                    let p = &self.players[(e.player as usize) % np];
                    if p.is_alive() {
                        let dx = e.pos.x as i128 - from.x as i128;
                        let dy = e.pos.y as i128 - from.y as i128;
                        assert(dx * dx <= 0x1_0000_0000 * 0x1_0000_0000
                            && dy * dy <= 0x1_0000_0000 * 0x1_0000_0000 && dx * dx >= 0 && dy * dy >= 0)
                            by (nonlinear_arith)
                            requires
                                -0x1_0000_0000 <= dx <= 0x1_0000_0000,
                                -0x1_0000_0000 <= dy <= 0x1_0000_0000,
                        ;
                        let d2 = dx * dx + dy * dy;
                        let better = match best {
                            Some((_, _, bd)) => d2 < bd,
                            None => true,
                        };
                        if d2 <= lim && better {
                            best = Some((self.entities.id_of(i), e.pos, d2));
                        }
                    }
                }
            }
            i = i + 1;
        }
        match best {
            Some((id, p, _)) => Some((id, p)),
            None => None,
        }
    }
}


/// A difference of a play-area position and a nearby point is short enough
/// to measure.
pub proof fn lemma_short_enough(a: V2, b: V2)
    requires
        near_origin(a, PLAY_LIMIT as int),
        near_origin(b, 0x4000_0000),
    ensures
        fits_i32(a.x - b.x),
        fits_i32(a.y - b.y),
        (V2 { x: (a.x - b.x) as i32, y: (a.y - b.y) as i32 }).norm2() < 0x4000_0000_0000_0000,
{
    let dx = a.x - b.x;
    let dy = a.y - b.y;
    assert(dx * dx + dy * dy < 0x4000_0000_0000_0000) by (nonlinear_arith)
        requires
            -0x4100_0000 <= dx <= 0x4100_0000,
            -0x4100_0000 <= dy <= 0x4100_0000,
    ;
}

impl World {
    /// Replaces one tile of a level; the last level for a number past the end.
    pub fn set_tile(&mut self, level: u16, tx: i32, ty: i32, t: crate::tiles::Tile)
        requires
            old(self).wf(),
        ensures
            final(self).wf(),
            ({
                let k = if (level as int) < old(self).levels@.len() - 1 { level as int } else {
                    old(self).levels@.len() - 1
                };
                &&& old(self).levels@[k].map.painted(
                    final(self).levels@[k].map,
                    t,
                    |x: int, y: int| x == tx && y == ty,
                )
                &&& final(self).levels@ == old(self).levels@.update(
                    k,
                    Level { map: final(self).levels@[k].map, ..old(self).levels@[k] },
                )
            }),
            final(self).entities == old(self).entities,
            final(self).players == old(self).players,
            final(self).events == old(self).events,
            final(self).rng == old(self).rng,
            final(self).spawned == old(self).spawned,
            final(self).frame == old(self).frame,
    {
        let n = self.levels.len() - 1;
        let k = if (level as usize) < n { level as usize } else { n };
        let ghost before = self.levels@[k as int];
        self.levels[k].map.set(tx, ty, t);
        proof {
            assert(playable(self.levels@[k as int]));
            assert forall|i: int| 0 <= i < self.levels@.len() implies playable(
                #[trigger] self.levels@[i],
            ) by {
                if i != k {
                    assert(self.levels@[i] == old(self).levels@[i]);
                }
            }
        }
    }
}


/// A hit on player `player` lands: the slot exists, its hero is alive, and the
/// hero's entity is unhurt-able only by its own invulnerability frames.
pub open spec fn hurt_lands(w: World, player: int) -> bool {
    &&& 0 <= player < w.players@.len()
    &&& w.players@[player].is_alive_spec()
    &&& w.entities.resolves(w.players@[player].entity)
    &&& {
        let e = w.entities.slots_view()[w.players@[player].entity.idx as int];
        &&& e.iframes == 0
        &&& e.hp > 0
    }
}

/// `v` fits in an `i16`.
pub open spec fn fits_i16(v: int) -> bool {
    i16::MIN <= v <= i16::MAX
}

/// The way from `b` to `a` fits in `i32`, and its squared length in `i64`:
/// knockback away from `b` can be worked out for something at `a`.
pub open spec fn knock_fits(a: V2, b: V2) -> bool {
    &&& fits_i32(a.x - b.x)
    &&& fits_i32(a.y - b.y)
    &&& (a.x - b.x) * (a.x - b.x) + (a.y - b.y) * (a.y - b.y) < i64::MAX
}

/// A hurt of `amount` from `from` on `player`, where it lands, stays inside
/// the integer types: the new health fits `i16`, and the knockback can be
/// worked out.
pub open spec fn hurt_fits(w: World, player: int, amount: i16, from: V2, knock_px: i32) -> bool {
    hurt_lands(w, player) ==> {
        let e = w.entities.slots_view()[w.players@[player].entity.idx as int];
        &&& fits_i16(e.hp - amount)
        &&& knock_px > 0 ==> knock_fits(e.pos, from)
    }
}

/// Damage of `amount` from `from` on `target`, where it lands, stays inside
/// the integer types; a hero goes through [`hurt_fits`] with the usual
/// knockback.
pub open spec fn damage_fits(w: World, target: EntityId, amount: i16, from: V2, knock_px: i32) -> bool {
    let e = w.entities.slots_view()[target.idx as int];
    w.entities.resolves(target) && hurtable(e) ==> if e.kind == Kind::Player {
        hurt_fits(w, e.player as int, amount, from, 3)
    } else {
        &&& fits_i16(e.hp - amount)
        &&& knock_px > 0 && e.flags & eflag::BOSS == 0 ==> knock_fits(e.pos, from)
    }
}

/// Tells whether knockback away from `b` can be worked out at `a`.
pub fn knock_fits_at(a: V2, b: V2) -> (r: bool)
    ensures
        r == knock_fits(a, b),
{
    let dx = a.x as i64 - b.x as i64;
    let dy = a.y as i64 - b.y as i64;
    if dx < i32::MIN as i64 || dx > i32::MAX as i64 || dy < i32::MIN as i64 || dy > i32::MAX as i64 {
        return false;
    }
    let wx = dx as i128;
    let wy = dy as i128;
    proof {
        assert(0 <= wx * wx <= 0x4000_0000_0000_0000) by (nonlinear_arith)
            requires
                -0x8000_0000 <= wx <= 0x8000_0000,
        ;
        assert(0 <= wy * wy <= 0x4000_0000_0000_0000) by (nonlinear_arith)
            requires
                -0x8000_0000 <= wy <= 0x8000_0000,
        ;
    }
    let sx: i128 = wx * wx;
    let sy: i128 = wy * wy;
    sx + sy < i64::MAX as i128
}

impl World {
    /// Tells whether a hurt on `player` stays inside the integer types; see
    /// [`hurt_fits`].
    pub fn hurt_fits_now(&self, player: usize, amount: i16, from: V2, knock_px: i32) -> (r: bool)
        requires
            self.wf(),
        ensures
            r == hurt_fits(*self, player as int, amount, from, knock_px),
    {
        if player >= self.players.len() {
            return true;
        }
        let p = self.players[player];
        if !p.is_alive() {
            return true;
        }
        match self.entities.get(p.entity) {
            Some(e) => {
                if e.iframes > 0 || e.hp <= 0 {
                    return true;
                }
                let left = e.hp as i32 - amount as i32;
                let hp_ok = i16::MIN as i32 <= left && left <= i16::MAX as i32;
                hp_ok && (knock_px <= 0 || knock_fits_at(e.pos, from))
            },
            None => true,
        }
    }

    /// Tells whether damage on `target` stays inside the integer types; see
    /// [`damage_fits`].
    pub fn damage_fits_now(&self, target: EntityId, amount: i16, from: V2, knock_px: i32) -> (r: bool)
        requires
            self.wf(),
        ensures
            r == damage_fits(*self, target, amount, from, knock_px),
    {
        match self.entities.get(target) {
            Some(e) => {
                if !e.can_be_hurt() {
                    return true;
                }
                if e.kind == Kind::Player {
                    return self.hurt_fits_now(e.player as usize, amount, from, 3);
                }
                let left = e.hp as i32 - amount as i32;
                let hp_ok = i16::MIN as i32 <= left && left <= i16::MAX as i32;
                hp_ok && (knock_px <= 0 || e.has(eflag::BOSS) || knock_fits_at(e.pos, from))
            },
            None => true,
        }
    }
}

/// Tiles that a boss's death throws open.
pub open spec fn boss_door(t: crate::tiles::Tile) -> bool {
    t == tile::DOOR_BOSS || t == tile::DOOR_SHUT
}

impl World {
    /// Kills a player and starts their respawn timer; what they carried is
    /// dropped from the world.
    pub fn kill_player(&mut self, player: usize)
        requires
            old(self).wf(),
        ensures
            final(self).wf(),
            player >= old(self).players@.len() ==> *final(self) == *old(self),
            player < old(self).players@.len() ==> {
                let p0 = old(self).players@[player as int];
                let p = final(self).players@[player as int];
                &&& p == Player {
                    carrying: EntityId { idx: NO_SLOT, gen: 0 },
                    respawn: RESPAWN_FRAMES,
                    deaths: p0.deaths.wrapping_add(1),
                    ..p0
                }
                &&& forall|k: int|
                    0 <= k < final(self).players@.len() && k != player
                        ==> #[trigger] final(self).players@[k] == old(self).players@[k]
                &&& final(self).levels == old(self).levels
                &&& old(self).entities.resolves(p0.entity) && p0.carrying.idx != p0.entity.idx ==> {
                    let e0 = old(self).entities.slots_view()[p0.entity.idx as int];
                    final(self).entities.slots_view()[p0.entity.idx as int] == (Entity {
                        hp: 0,
                        state: pstate::DEAD,
                        vel: V2 { x: 0, y: 0 },
                        timer: RESPAWN_FRAMES,
                        knock: V2 { x: 0, y: 0 },
                        knock_frames: 0,
                        ..e0
                    })
                }
            },
            final(self).players@.len() == old(self).players@.len(),
            extends(old(self).events@, final(self).events@),
    {
        if player >= self.players.len() {
            return;
        }
        let p = self.players[player];
        if !p.carrying.is_none() {
            self.remove(p.carrying);
        }
        if let Some(e) = self.entities.get_mut(p.entity) {
            e.hp = 0;
            e.state = pstate::DEAD;
            e.vel = V2::zero();
            e.timer = RESPAWN_FRAMES;
            e.knock = V2::zero();
            e.knock_frames = 0;
        }
        let mut q = self.players[player];
        q.carrying = EntityId::none();
        q.respawn = RESPAWN_FRAMES;
        q.deaths = q.deaths.wrapping_add(1);
        self.players.set(player, q);
        self.events.push(Event::PlayerDied { player: player as u8 });
        self.events.sound(Sfx::PlayerDie);
        proof {
            assert forall|k: int| 0 <= k < self.players@.len() implies seat_ok(
                #[trigger] self.players@[k],
                self.levels@.len() as int,
            ) by {
                if k != player {
                    assert(self.players@[k] == old(self).players@[k]);
                }
            }
        }
    }

    /// Damages a player with an explicit knockback distance, returning true
    /// when the hit landed. A hero whose health runs out dies.
    ///
    /// Hazards that put the player somewhere safe first (pits, water) pass
    /// zero, otherwise the knockback would shove them straight back in.
    pub fn hurt_player_with(&mut self, player: usize, amount: i16, from: V2, knock_px: i32) -> (r: bool)
        requires
            old(self).wf(),
            hurt_fits(*old(self), player as int, amount, from, knock_px),
        ensures
            final(self).wf(),
            r == hurt_lands(*old(self), player as int),
            !r ==> *final(self) == *old(self),
            r ==> {
                let p0 = old(self).players@[player as int];
                let e0 = old(self).entities.slots_view()[p0.entity.idx as int];
                &&& e0.hp - amount > 0 ==> {
                    let e = final(self).entities.slots_view()[p0.entity.idx as int];
                    &&& e.hp == e0.hp - amount
                    &&& e.iframes == PLAYER_IFRAMES
                    &&& e.state == pstate::HURT
                    &&& e.timer == 14
                    &&& final(self).players@[player as int] == p0
                }
                &&& e0.hp - amount <= 0 ==> final(self).players@[player as int].respawn == RESPAWN_FRAMES
                    && final(self).players@[player as int].deaths == p0.deaths.wrapping_add(1)
                    && !final(self).players@[player as int].is_alive_spec()
                &&& e0.hp - amount <= 0 && p0.carrying.idx != p0.entity.idx ==> {
                    let e = final(self).entities.slots_view()[p0.entity.idx as int];
                    &&& e.hp == 0
                    &&& e.iframes == PLAYER_IFRAMES
                    &&& e.state == pstate::DEAD
                }
            },
            final(self).players@.len() == old(self).players@.len(),
            final(self).levels == old(self).levels,
            extends(old(self).events@, final(self).events@),
    {
        if player >= self.players.len() {
            return false;
        }
        let p = self.players[player];
        if !p.is_alive() {
            return false;
        }
        let eid = p.entity;
        let (pos, iframes, hp) = match self.entities.get(eid) {
            Some(e) => (e.pos, e.iframes, e.hp),
            None => {
                return false;
            },
        };
        if iframes > 0 || hp <= 0 {
            return false;
        }
        let knock = if knock_px > 0 {
            let d = pos.sub(from);
            assert(d.norm2() < i64::MAX);
            d.with_length(px(knock_px))
        } else {
            V2::zero()
        };
        let died = hp - amount <= 0;
        if let Some(e) = self.entities.get_mut(eid) {
            e.hp = hp - amount;
            e.iframes = PLAYER_IFRAMES;
            e.state = pstate::HURT;
            e.timer = 14;
            e.knock = knock;
            e.knock_frames = if knock_px > 0 { 10 } else { 0 };
        }
        self.events.push(Event::PlayerHurt { player: player as u8, amount });
        self.events.sound(Sfx::PlayerHurt);
        self.events.push(Event::Shake { frames: 6 });
        if died {
            self.kill_player(player);
        }
        true
    }

    /// Damages a player with the usual knockback, returning true when the
    /// hit landed.
    pub fn hurt_player(&mut self, player: usize, amount: i16, from: V2) -> (r: bool)
        requires
            old(self).wf(),
            hurt_fits(*old(self), player as int, amount, from, 3),
        ensures
            final(self).wf(),
            r == hurt_lands(*old(self), player as int),
            !r ==> *final(self) == *old(self),
            final(self).players@.len() == old(self).players@.len(),
            final(self).levels == old(self).levels,
            extends(old(self).events@, final(self).events@),
    {
        self.hurt_player_with(player, amount, from, 3)
    }
}


/// What a monster leaves behind for a roll in `0..100`: a quarter of the
/// time a heart, then rupees, bombs and arrows, and nothing about a third of
/// the time.
pub open spec fn loot_for(roll: int) -> Option<Kind> {
    if roll <= 24 {
        Some(Kind::Heart)
    } else if roll <= 54 {
        Some(Kind::Rupee)
    } else if roll <= 62 {
        Some(Kind::BombPickup)
    } else if roll <= 68 {
        Some(Kind::ArrowPickup)
    } else {
        None
    }
}

impl World {
    /// The pickup for a loot roll; see [`loot_for`].
    fn loot_kind(roll: u32) -> (r: Option<Kind>)
        ensures
            r == loot_for(roll as int),
    {
        if roll <= 24 {
            Some(Kind::Heart)
        } else if roll <= 54 {
            Some(Kind::Rupee)
        } else if roll <= 62 {
            Some(Kind::BombPickup)
        } else if roll <= 68 {
            Some(Kind::ArrowPickup)
        } else {
            None
        }
    }

    /// Maybe drops a pickup where a monster died; pickups vanish after a
    /// while so rooms do not fill up.
    fn drop_loot(&mut self, level: u16, pos: V2)
        requires
            old(self).wf(),
        ensures
            final(self).wf(),
            final(self).players == old(self).players,
            final(self).levels == old(self).levels,
            final(self).same_but_entities(old(self)),
            final(self).events == old(self).events,
            final(self).rng.st() == crate::rng::advance(old(self).rng.st()),
            match loot_for(crate::rng::scale_below(crate::rng::draw32(old(self).rng.st()), 100) as int) {
                Some(k) => made(old(self).entities, final(self).entities, k, level, pos, (|a: Entity, b: Entity| b == Entity { timer: 480, ..a })),
                None => final(self).entities == old(self).entities,
            },
    {
        let roll = self.rng.below(100);
        match Self::loot_kind(roll) {
            Some(kind) => {
                let id = self.spawn(kind, level, pos);
                let ghost mid = self.entities;
                if let Some(e) = self.entities.get_mut(id) {
                    e.timer = 480;
                }
                proof {
                    if has_room(old(self).entities) {
                        let e1 = self.entities.slots_view()[id.idx as int];
                        let e0 = mid.slots_view()[id.idx as int];
                        assert(e1 == Entity { timer: 480, ..e0 });
                        assert(self.entities.resolves(id));
                        assert(crate::entity::is_fresh(e0, kind, level, pos, id.gen));
                        assert(forall|i: int|
                            0 <= i < old(self).entities.slots_view().len() && i != id.idx ==> #[trigger] self.entities.slots_view()[i]
                                == old(self).entities.slots_view()[i]);
                    }
                }
            },
            None => {},
        }
    }

    /// A dying Zol may split in two small ones beside it.
    fn split_zol(&mut self, level: u16, pos: V2)
        requires
            old(self).wf(),
            near_origin(pos, PLAY_LIMIT as int),
        ensures
            final(self).wf(),
            final(self).players == old(self).players,
            final(self).levels == old(self).levels,
            final(self).same_but_entities(old(self)),
            final(self).events == old(self).events,
            final(self).rng.st() == crate::rng::advance(old(self).rng.st()),
            crate::rng::scale_below(crate::rng::draw32(old(self).rng.st()), 2) != 0 ==> final(self).entities
                == old(self).entities,
            crate::rng::scale_below(crate::rng::draw32(old(self).rng.st()), 2) == 0 ==> exists|mid: Entities|
                made(old(self).entities, mid, Kind::Zol, level, V2 { x: (pos.x - 1536) as i32, y: pos.y }, small_zol())
                    && #[trigger] made(mid, final(self).entities, Kind::Zol, level, V2 { x: (pos.x + 1536) as i32, y: pos.y }, small_zol()),
    {
        let small = self.rng.below(2) == 0;
        if !small {
            return;
        }
        let ghost start = self.entities;
        let ghost mut halves: Seq<Entities> = seq![start];
        let mut i: u32 = 0;
        while i < 2
            invariant
                self.wf(),
                self.players == old(self).players,
                self.levels == old(self).levels,
                self.same_but_entities(old(self)),
                self.events == old(self).events,
                self.rng.st() == crate::rng::advance(old(self).rng.st()),
                near_origin(pos, PLAY_LIMIT as int),
                i <= 2,
                halves.len() == i + 1,
                halves[0] == start,
                halves[i as int] == self.entities,
                i >= 1 ==> made(halves[0], halves[1], Kind::Zol, level, V2 { x: (pos.x - 1536) as i32, y: pos.y }, small_zol()),
                i >= 2 ==> made(halves[1], halves[2], Kind::Zol, level, V2 { x: (pos.x + 1536) as i32, y: pos.y }, small_zol()),
            decreases 2 - i,
        {
            let off = px(if i == 0 { -6 } else { 6 });
            let p = V2::new(pos.x + off, pos.y);
            let ghost before = self.entities;
            let id = self.spawn(Kind::Zol, level, p);
            let ghost mid = self.entities;
            if let Some(e) = self.entities.get_mut(id) {
                e.hp = 1;
                e.max_hp = 1;
                e.body_w = 8;
                e.body_h = 8;
                e.data[0] = 1;
            }
            proof {
                if has_room(before) {
                    let e0 = mid.slots_view()[id.idx as int];
                    assert(self.entities.resolves(id));
                    assert(crate::entity::is_fresh(e0, Kind::Zol, level, p, id.gen));
                    assert(small_zol()(e0, self.entities.slots_view()[id.idx as int]));
                    assert(forall|k: int|
                        0 <= k < before.slots_view().len() && k != id.idx ==> #[trigger] self.entities.slots_view()[k]
                            == before.slots_view()[k]);
                }
                assert(made(before, self.entities, Kind::Zol, level, p, small_zol()));
                halves = halves.push(self.entities);
            }
            i = i + 1;
        }
        proof {
            assert(made(start, halves[1], Kind::Zol, level, V2 { x: (pos.x - 1536) as i32, y: pos.y }, small_zol()));
        }
    }

    /// Opens every boss and shut door of a level when its boss dies, and
    /// drops the prize where the boss fell.
    fn on_boss_defeated(&mut self, level: u16, pos: V2)
        requires
            old(self).wf(),
        ensures
            final(self).wf(),
            final(self).players == old(self).players,
            final(self).events == old(self).events,
            final(self).rng == old(self).rng,
            made(old(self).entities, final(self).entities, Kind::HeartPiece, level, pos, crate::objects::with_timer(0)),
            final(self).levels@.len() == old(self).levels@.len(),
            ({
                let k = if (level as int) < old(self).levels@.len() - 1 { level as int } else {
                    old(self).levels@.len() - 1
                };
                let m0 = old(self).levels@[k].map;
                let m = final(self).levels@[k].map;
                &&& forall|i: int| 0 <= i < old(self).levels@.len() && i != k
                    ==> #[trigger] final(self).levels@[i] == old(self).levels@[i]
                &&& final(self).levels@[k] == (Level { map: m, ..old(self).levels@[k] })
                &&& m.rw() == m0.rw() && m.rh() == m0.rh()
                &&& forall|tx: int, ty: int|
                    #[trigger] m.tile_at(tx, ty) == if m0.in_bounds_spec(tx, ty) && boss_door(
                        m0.tile_at(tx, ty),
                    ) {
                        tile::DOOR_OPEN
                    } else {
                        m0.tile_at(tx, ty)
                    }
            }),
    {
        let n = self.levels.len() - 1;
        let k = if (level as usize) < n { level as usize } else { n };
        let ghost m0 = self.levels@[k as int].map;
        let w = self.levels[k].map.w();
        let h = self.levels[k].map.h();
        proof {
            m0.lemma_dims();
        }
        let total = w * h;
        let mut t: i32 = 0;
        while t < total
            invariant
                self.wf(),
                self.players == old(self).players,
                self.entities == old(self).entities,
                self.events == old(self).events,
                self.rng == old(self).rng,
                self.levels@.len() == old(self).levels@.len(),
                k == (if (level as int) < old(self).levels@.len() - 1 { level as int } else {
                    old(self).levels@.len() - 1
                }),
                m0 == old(self).levels@[k as int].map,
                w == m0.tw(),
                h == m0.th(),
                total == w * h,
                0 <= t <= total,
                forall|i: int| 0 <= i < old(self).levels@.len() && i != k
                    ==> #[trigger] self.levels@[i] == old(self).levels@[i],
                self.levels@[k as int] == (Level { map: self.levels@[k as int].map, ..old(self).levels@[k as int] }),
                self.levels@[k as int].map.rw() == m0.rw(),
                self.levels@[k as int].map.rh() == m0.rh(),
                forall|tx: int, ty: int|
                    #[trigger] self.levels@[k as int].map.tile_at(tx, ty) == if m0.in_bounds_spec(tx, ty)
                        && ty * w + tx < t && boss_door(m0.tile_at(tx, ty)) {
                        tile::DOOR_OPEN
                    } else {
                        m0.tile_at(tx, ty)
                    },
            decreases total - t,
        {
            let tx = t % w;
            let ty = t / w;
            proof {
                assert(ty * w + tx == t) by (nonlinear_arith)
                    requires
                        w > 0,
                        tx == t % w,
                        ty == t / w,
                ;
                assert(0 <= ty < h) by (nonlinear_arith)
                    requires
                        w > 0,
                        0 <= t < w * h,
                        ty == t / w,
                ;
                assert(0 <= tx < w);
            }
            let cur = self.levels[k].map.get(tx, ty);
            if cur == tile::DOOR_BOSS || cur == tile::DOOR_SHUT {
                self.set_tile(k as u16, tx, ty, tile::DOOR_OPEN);
            }
            proof {
                assert forall|x: int, y: int| #[trigger] self.levels@[k as int].map.tile_at(x, y)
                    == if m0.in_bounds_spec(x, y) && y * w + x < t + 1 && boss_door(m0.tile_at(x, y)) {
                    tile::DOOR_OPEN
                } else {
                    m0.tile_at(x, y)
                } by {
                    if m0.in_bounds_spec(x, y) && y * w + x == t {
                        if !(x == tx && y == ty) {
                            crate::level::lemma_distinct_index(x, y, tx as int, ty as int, w as int, h as int);
                        }
                    }
                }
            }
            t = t + 1;
        }
        proof {
            assert forall|x: int, y: int| m0.in_bounds_spec(x, y) implies y * w + x < t by {
                assert(y * w + x < w * h) by (nonlinear_arith)
                    requires
                        0 <= x < w,
                        0 <= y < h,
                ;
            }
        }
        let ghost start = self.entities;
        let id = self.spawn(Kind::HeartPiece, level, pos);
        let ghost mid = self.entities;
        if let Some(e) = self.entities.get_mut(id) {
            e.timer = 0;
        }
        proof {
            if has_room(start) {
                assert(self.entities.resolves(id));
                assert(crate::entity::is_fresh(mid.slots_view()[id.idx as int], Kind::HeartPiece, level, pos, id.gen));
                assert(forall|i: int|
                    0 <= i < start.slots_view().len() && i != id.idx ==> #[trigger] self.entities.slots_view()[i]
                        == start.slots_view()[i]);
            }
        }
    }
}


/// The entity can take a hit right now.
pub open spec fn hurtable(e: Entity) -> bool {
    e.alive && e.flags & eflag::VULNERABLE != 0 && e.iframes == 0 && e.hp > 0
}

impl World {
    /// Kills an entity, dropping loot and emitting effects. A dying boss
    /// throws its level's doors open; a dying Zol may split.
    pub fn kill(&mut self, target: EntityId)
        requires
            old(self).wf(),
        ensures
            final(self).wf(),
            !old(self).entities.resolves(target) ==> *final(self) == *old(self),
            final(self).players == old(self).players,
            final(self).levels@.len() == old(self).levels@.len(),
            ({
                let e0 = old(self).entities.slots_view()[target.idx as int];
                let boss = e0.flags & eflag::BOSS != 0;
                let q1 = queued(
                    old(self).events@,
                    Event::Sound(if boss { Sfx::BossDie } else { Sfx::EnemyDie }),
                );
                old(self).entities.resolves(target) ==> {
                    &&& !is_enemy_spec(e0.kind) ==> {
                        &&& final(self).events == old(self).events
                        &&& final(self).rng == old(self).rng
                        &&& final(self).levels == old(self).levels
                        &&& exists|mid: Entities|
                            removed(old(self).entities, mid, target) && made(
                                mid,
                                final(self).entities,
                                Kind::Poof,
                                e0.level,
                                e0.pos,
                                crate::objects::with_timer(18),
                            )
                    }
                    &&& is_enemy_spec(e0.kind) && !boss ==> final(self).events@ == q1
                        && final(self).levels == old(self).levels
                    &&& is_enemy_spec(e0.kind) && boss ==> final(self).events@ == queued(
                        queued(q1, Event::BossDefeated { level: e0.level }),
                        Event::Shake { frames: 30 },
                    )
                }
            }),
            extends(old(self).events@, final(self).events@),
    {
        let ghost start = self.entities;
        let (kind, pos, level, is_boss) = match self.entities.get(target) {
            Some(e) => (e.kind, e.pos, e.level, e.has(eflag::BOSS)),
            None => {
                return;
            },
        };
        self.remove(target);
        let ghost gone = self.entities;
        let poof = self.spawn(Kind::Poof, level, pos);
        let ghost mid = self.entities;
        if let Some(p) = self.entities.get_mut(poof) {
            p.timer = 18;
        }
        proof {
            if has_room(gone) {
                assert(self.entities.resolves(poof));
                assert(crate::entity::is_fresh(mid.slots_view()[poof.idx as int], Kind::Poof, level, pos, poof.gen));
                assert(forall|i: int|
                    0 <= i < gone.slots_view().len() && i != poof.idx ==> #[trigger] self.entities.slots_view()[i]
                        == gone.slots_view()[i]);
            }
            assert(removed(start, gone, target));
        }
        if kind.is_enemy() {
            self.events.sound(if is_boss { Sfx::BossDie } else { Sfx::EnemyDie });
            if is_boss {
                self.events.push(Event::BossDefeated { level });
                self.events.push(Event::Shake { frames: 30 });
                self.on_boss_defeated(level, pos);
            } else {
                self.drop_loot(level, pos);
            }
            // A Zol splits when it dies.
            let placed = -PLAY_LIMIT <= pos.x && pos.x <= PLAY_LIMIT && -PLAY_LIMIT <= pos.y
                && pos.y <= PLAY_LIMIT;
            if kind == Kind::Zol && placed {
                self.split_zol(level, pos);
            }
        }
    }

    /// Applies damage to an entity, with knockback away from `from`; a hit on
    /// a hero goes through [`World::hurt_player`]. Returns true when the hit
    /// landed. A monster whose health runs out is killed.
    pub fn damage(&mut self, target: EntityId, amount: i16, from: V2, knock_px: i32) -> (r: bool)
        requires
            old(self).wf(),
            damage_fits(*old(self), target, amount, from, knock_px),
        ensures
            final(self).wf(),
            final(self).players@.len() == old(self).players@.len(),
            final(self).levels@.len() == old(self).levels@.len(),
            ({
                let e0 = old(self).entities.slots_view()[target.idx as int];
                &&& !(old(self).entities.resolves(target) && hurtable(e0)) ==> !r && *final(self)
                    == *old(self)
                &&& old(self).entities.resolves(target) && hurtable(e0) && e0.kind == Kind::Player
                    ==> r == hurt_lands(*old(self), e0.player as int)
                &&& old(self).entities.resolves(target) && hurtable(e0) && e0.kind != Kind::Player ==> r
                &&& r && e0.kind != Kind::Player && e0.hp - amount > 0 ==> {
                    let e = final(self).entities.slots_view()[target.idx as int];
                    &&& final(self).entities.resolves(target)
                    &&& e.hp == e0.hp - amount
                    &&& e.iframes == 16
                    &&& e.stun == 8
                    &&& final(self).entities.slots_view() == old(self).entities.slots_view().update(target.idx as int, e)
                    &&& final(self).entities.free_view() == old(self).entities.free_view()
                    &&& final(self).entities.live_count() == old(self).entities.live_count()
                    &&& final(self).players == old(self).players
                }
            }),
            extends(old(self).events@, final(self).events@),
    {
        let (pos, is_boss, is_player, player_idx, hurt) = match self.entities.get(target) {
            Some(e) => (e.pos, e.has(eflag::BOSS), e.kind == Kind::Player, e.player, e.can_be_hurt()),
            None => {
                return false;
            },
        };
        if !hurt {
            return false;
        }
        if is_player {
            return self.hurt_player(player_idx as usize, amount, from);
        }
        let knock = if knock_px > 0 && !is_boss {
            let d = pos.sub(from);
            assert(d.norm2() < i64::MAX);
            Some(d.with_length(px(knock_px)))
        } else {
            None
        };
        let mut dead = false;
        if let Some(e) = self.entities.get_mut(target) {
            e.hp = e.hp - amount;
            e.iframes = 16;
            e.stun = 8;
            match knock {
                Some(k) => {
                    e.knock = k;
                    e.knock_frames = 6;
                },
                None => {},
            }
            dead = e.hp <= 0;
        }
        self.events.push(Event::Hit { at: pos, heavy: is_boss });
        self.events.sound(if is_boss { Sfx::BossHurt } else { Sfx::EnemyHit });
        if dead {
            self.kill(target);
        }
        true
    }
}


/// The box a play-area entity can be hurt in, and its feet box, can be
/// computed and compared.
pub proof fn lemma_boxes_fit(e: Entity)
    requires
        in_play_spec(e),
    ensures
        e.hurt_box_fits(),
        -0x80_0000 <= e.body_w < 0x80_0000,
        -0x80_0000 <= e.body_h < 0x80_0000,
        fits_i32(e.pos.x - crate::fixed::tdiv(e.body_w * 256, 2)),
        fits_i32(e.pos.y - crate::fixed::tdiv(e.body_h * 256, 2)),
{
}

/// The hurt box of a play-area entity has representable edges.
pub proof fn lemma_hurt_box_edges(e: Entity, r: Rect)
    requires
        in_play_spec(e),
        r.x == e.pos.x - crate::fixed::tdiv(e.body_w * 256, 2),
        r.y == e.pos.y - crate::entity::hurt_height(e.body_h as int) * 256 + crate::fixed::tdiv(e.body_h * 256, 2),
        r.w == e.body_w * 256,
        r.h == crate::entity::hurt_height(e.body_h as int) * 256,
    ensures
        r.edges_fit(),
{
}

/// The feet box of a play-area entity has representable edges.
pub proof fn lemma_body_edges(e: Entity, r: Rect)
    requires
        in_play_spec(e),
        r.x == e.pos.x - crate::fixed::tdiv(e.body_w * 256, 2),
        r.y == e.pos.y - crate::fixed::tdiv(e.body_h * 256, 2),
        r.w == e.body_w * 256,
        r.h == e.body_h * 256,
    ensures
        r.edges_fit(),
{
}

impl World {
    /// Brings a dead hero back at the first level's entrance, at full health
    /// and briefly invulnerable. Dying costs half of the player's rupees.
    fn respawn_player(&mut self, player: usize)
        requires
            old(self).wf(),
            player < old(self).players@.len(),
        ensures
            final(self).wf(),
            final(self).players@.len() == old(self).players@.len(),
            final(self).levels == old(self).levels,
            final(self).players@[player as int].level == 0,
            final(self).players@[player as int].inv.rupees == old(self).players@[player as int].inv.rupees / 2,
            forall|k: int| 0 <= k < final(self).players@.len() && k != player
                ==> #[trigger] final(self).players@[k] == old(self).players@[k],
    {
        let entrance = self.levels[0].entrance;
        let eid = self.players[player].entity;
        let max_hp = info(Kind::Player).hp;
        let mut found = false;
        if let Some(e) = self.entities.get_mut(eid) {
            e.hp = max_hp;
            e.max_hp = max_hp;
            e.state = pstate::NORMAL;
            e.timer = 0;
            e.level = 0;
            e.pos = entrance;
            e.vel = V2::zero();
            e.z = 0;
            e.vz = 0;
            e.iframes = PLAYER_IFRAMES;
            e.knock = V2::zero();
            e.knock_frames = 0;
            e.data[0] = entrance.x;
            e.data[1] = entrance.y;
            found = true;
        }
        let mut p = self.players[player];
        if !found {
            let id = self.spawn(Kind::Player, 0, entrance);
            if let Some(e) = self.entities.get_mut(id) {
                e.player = player as u8;
            }
            p.entity = id;
        }
        let room = self.levels[0].room_at(entrance);
        proof {
            lemma_room_small(entrance);
        }
        let (cx, cy) = camera_for_room(&self.levels[0], room);
        p.level = 0;
        p.room = room;
        p.camera.snap(cx, cy);
        p.inv.rupees = p.inv.rupees / 2;
        self.players.set(player, p);
        proof {
            assert forall|k: int| 0 <= k < self.players@.len() implies seat_ok(
                #[trigger] self.players@[k],
                self.levels@.len() as int,
            ) by {
                if k != player {
                    assert(self.players@[k] == old(self).players@[k]);
                }
            }
        }
    }

    /// Moves a player to another level, e.g. through a staircase; a level
    /// number past the end means the last level.
    pub fn warp_player(&mut self, player: usize, to_level: u16, to_pos: V2, dir: Dir)
        requires
            old(self).wf(),
            player < old(self).players@.len(),
        ensures
            final(self).wf(),
            ({
                let n = old(self).levels@.len();
                let lv = if (to_level as int) < n - 1 { to_level } else { (n - 1) as u16 };
                let p = final(self).players@[player as int];
                &&& p.level == lv
                &&& p.room == (
                    (floor_px(to_pos.x as int) / 160) as i32,
                    (floor_px(to_pos.y as int) / 128) as i32,
                )
                &&& p.camera.scroll == 0
                &&& old(self).entities.resolves(old(self).players@[player as int].entity) ==> {
                    let e = final(self).entities.slots_view()[p.entity.idx as int];
                    &&& e.level == lv
                    &&& e.pos == to_pos
                    &&& e.dir == dir
                    &&& e.state == pstate::NORMAL
                }
            }),
            final(self).players@.len() == old(self).players@.len(),
            forall|k: int| 0 <= k < final(self).players@.len() && k != player
                ==> #[trigger] final(self).players@[k] == old(self).players@[k],
            final(self).levels == old(self).levels,
    {
        let last = (self.levels.len() - 1) as u16;
        let to_level = if to_level < last { to_level } else { last };
        let eid = self.players[player].entity;
        if let Some(e) = self.entities.get_mut(eid) {
            e.level = to_level;
            e.pos = to_pos;
            e.dir = dir;
            e.vel = V2::zero();
            e.state = pstate::NORMAL;
            e.data[0] = to_pos.x;
            e.data[1] = to_pos.y;
        }
        let room = self.level(to_level).room_at(to_pos);
        proof {
            lemma_room_small(to_pos);
        }
        let (cx, cy) = camera_for_room(self.level(to_level), room);
        let mut p = self.players[player];
        p.level = to_level;
        p.room = room;
        p.camera.snap(cx, cy);
        self.players.set(player, p);
        self.events.push(Event::LevelChanged { player: player as u8, level: to_level });
        self.events.sound(Sfx::Stairs);
        proof {
            assert forall|k: int| 0 <= k < self.players@.len() implies seat_ok(
                #[trigger] self.players@[k],
                self.levels@.len() as int,
            ) by {
                if k != player {
                    assert(self.players@[k] == old(self).players@[k]);
                }
            }
        }
    }

    /// Replaces a breakable tile with what it leaves behind and plays the
    /// effects; a tile that does not break is left alone.
    pub fn break_tile(&mut self, level: u16, tx: i32, ty: i32)
        requires
            old(self).wf(),
        ensures
            final(self).wf(),
            final(self).players == old(self).players,
            ({
                let k = if (level as int) < old(self).levels@.len() - 1 { level as int } else {
                    old(self).levels@.len() - 1
                };
                let m0 = old(self).levels@[k].map;
                let t = m0.tile_at(tx as int, ty as int);
                &&& crate::tiles::destroyed_spec(t) == t ==> *final(self) == *old(self)
                &&& crate::tiles::destroyed_spec(t) != t ==> {
                    &&& m0.painted(final(self).levels@[k].map, crate::tiles::destroyed_spec(t), |x: int, y: int| x == tx && y == ty)
                    &&& final(self).levels@ == old(self).levels@.update(
                        k,
                        Level { map: final(self).levels@[k].map, ..old(self).levels@[k] },
                    )
                }
            }),
            extends(old(self).events@, final(self).events@),
    {
        let t = self.level(level).map.get(tx, ty);
        let next = tiles::destroyed(t);
        if next == t {
            return;
        }
        proof {
            let k = if (level as int) < old(self).levels@.len() - 1 { level as int } else {
                old(self).levels@.len() - 1
            };
            assert(playable(self.levels@[k]));
            let m = self.levels@[k].map;
            assert(m.in_bounds_spec(tx as int, ty as int));
            m.lemma_dims();
        }
        self.set_tile(level, tx, ty, next);
        let pos = crate::level::tile_center(tx, ty);
        let id = self.spawn(Kind::Poof, level, pos);
        if let Some(e) = self.entities.get_mut(id) {
            e.timer = 16;
        }
        if tiles::any(t, flag::BOMBABLE) {
            self.events.sound(Sfx::Secret);
        }
    }
}


impl World {
    /// Applies an explosion: hurts everyone nearby and breaks weak walls and
    /// anything that can be cut or lifted around it.
    pub fn explode(&mut self, level: u16, pos: V2)
        requires
            old(self).wf(),
            near_origin(pos, PLAY_LIMIT as int),
        ensures
            final(self).wf(),
            final(self).players@.len() == old(self).players@.len(),
            final(self).levels@.len() == old(self).levels@.len(),
            extends(
                queued(queued(old(self).events@, Event::Sound(Sfx::Explosion)), Event::Shake { frames: 12 }),
                final(self).events@,
            ),
    {
        let id = self.spawn(Kind::Explosion, level, pos);
        if let Some(e) = self.entities.get_mut(id) {
            e.timer = 24;
        }
        self.events.sound(Sfx::Explosion);
        self.events.push(Event::Shake { frames: 12 });
        let ghost q2 = self.events@;

        let blast = Rect::centered(pos, 34, 34);
        let mut targets: Vec<EntityId> = Vec::new();
        let n = self.entities.capacity();
        let mut i: usize = 0;
        while i < n
            invariant
                self.wf(),
                n == self.entities.slots_view().len(),
                i <= n,
                blast.edges_fit(),
                self.events@ == q2,
            decreases n - i,
        {
            if let Some(e) = self.entities.at(i) {
                if e.level == level && in_play(e) {
                    proof {
                        lemma_boxes_fit(*e);
                    }
                    let hb = e.hurt_box();
                    proof {
                        lemma_hurt_box_edges(*e, hb);
                    }
                    if hb.overlaps(&blast) {
                        targets.push(self.entities.id_of(i));
                    }
                }
            }
            i = i + 1;
        }
        let mut j: usize = 0;
        while j < targets.len()
            invariant
                self.wf(),
                j <= targets@.len(),
                near_origin(pos, PLAY_LIMIT as int),
                self.players@.len() == old(self).players@.len(),
                self.levels@.len() == old(self).levels@.len(),
                extends(q2, self.events@),
            decreases targets@.len() - j,
        {
            let t = targets[j];
            let (is_player, pi, vulnerable) = match self.entities.get(t) {
                Some(e) => (e.kind == Kind::Player, e.player as usize, e.has(eflag::VULNERABLE)),
                None => (false, 0, false),
            };
            if self.entities.get(t).is_some() {
                if is_player {
                    if self.hurt_fits_now(pi, 2, pos, 3) {
                        self.hurt_player(pi, 2, pos);
                    }
                } else if vulnerable && self.damage_fits_now(t, 4, pos, 6) {
                    self.damage(t, 4, pos, 6);
                }
            }
            j = j + 1;
        }

        let (tx, ty) = crate::physics::tile_coords(pos);
        let mut dy: i32 = -1;
        while dy <= 1
            invariant
                self.wf(),
                -1 <= dy <= 2,
                -0x10_0000 <= tx <= 0x10_0000,
                -0x10_0000 <= ty <= 0x10_0000,
                self.players@.len() == old(self).players@.len(),
                self.levels@.len() == old(self).levels@.len(),
                extends(q2, self.events@),
            decreases 2 - dy,
        {
            let mut dx: i32 = -1;
            while dx <= 1
                invariant
                    self.wf(),
                    -1 <= dx <= 2,
                    -1 <= dy <= 1,
                    -0x10_0000 <= tx <= 0x10_0000,
                    -0x10_0000 <= ty <= 0x10_0000,
                    self.players@.len() == old(self).players@.len(),
                    self.levels@.len() == old(self).levels@.len(),
                    extends(q2, self.events@),
                decreases 2 - dx,
            {
                let t = self.level(level).map.get(tx + dx, ty + dy);
                if tiles::any(t, flag::BOMBABLE | flag::CUTTABLE | flag::LIFTABLE) {
                    self.break_tile(level, tx + dx, ty + dy);
                }
                dx = dx + 1;
            }
            dy = dy + 1;
        }
    }

    /// Gives a pickup to a player: money, health, keys, ammunition (with the
    /// weapon that fires it), a full heal, or a heart container.
    pub fn collect(&mut self, player: usize, kind: Kind)
        requires
            old(self).wf(),
            player < old(self).players@.len(),
        ensures
            final(self).wf(),
            final(self).players@.len() == old(self).players@.len(),
            final(self).levels == old(self).levels,
            forall|k: int| 0 <= k < final(self).players@.len() && k != player
                ==> #[trigger] final(self).players@[k] == old(self).players@[k],
            ({
                let i0 = old(self).players@[player as int].inv;
                let i = final(self).players@[player as int].inv;
                &&& kind == Kind::Rupee ==> i.rupees == crate::items::capped(i0.rupees as int + 1, 65535, 999)
                &&& kind == Kind::Key ==> i.keys == (if i0.keys < 255 { i0.keys + 1 } else { 255 })
                &&& kind == Kind::BombPickup ==> i.bits() == i0.bits() | item_bit(Item::Bombs)
                    && i.bombs == crate::items::capped(i0.bombs as int + 3, 255, i0.max_bombs as int)
                &&& kind == Kind::ArrowPickup ==> i.bits() == i0.bits() | item_bit(Item::Bow)
                    && i.arrows == crate::items::capped(i0.arrows as int + 5, 255, i0.max_arrows as int)
                &&& kind == Kind::HeartPiece ==> i.heart_pieces == (if i0.heart_pieces < 255 {
                    i0.heart_pieces + 1
                } else {
                    255
                })
                &&& (kind != Kind::Rupee && kind != Kind::Key && kind != Kind::BombPickup && kind
                    != Kind::ArrowPickup && kind != Kind::HeartPiece) ==> i == i0
            }),
            ({
                let id = old(self).players@[player as int].entity;
                let e0 = old(self).entities.slots_view()[id.idx as int];
                let e = final(self).entities.slots_view()[id.idx as int];
                &&& old(self).entities.resolves(id) && kind == Kind::Heart ==> e.hp == (if e0.hp + 4 < e0.max_hp {
                    e0.hp + 4
                } else {
                    e0.max_hp as int
                })
                &&& old(self).entities.resolves(id) && kind == Kind::Fairy ==> e.hp == e0.max_hp
                &&& old(self).entities.resolves(id) && kind == Kind::HeartPiece ==> {
                    let m = if e0.max_hp + 4 < 56 { e0.max_hp + 4 } else { 56 };
                    e.max_hp == m && e.hp == m
                }
            }),
            same_liveness(old(self).entities, final(self).entities),
            kind != Kind::Heart && kind != Kind::Fairy && kind != Kind::HeartPiece ==> final(self).entities
                == old(self).entities,
    {
        let mut p = self.players[player];
        let eid = p.entity;
        match kind {
            Kind::Rupee => {
                p.inv.add_rupees(1);
                self.events.sound(Sfx::Rupee);
            },
            Kind::Heart => {
                if let Some(e) = self.entities.get_mut(eid) {
                    let healed: i32 = e.hp as i32 + 4;
                    e.hp = if healed < e.max_hp as i32 { healed as i16 } else { e.max_hp };
                }
                self.events.sound(Sfx::Heart);
            },
            Kind::Key => {
                p.inv.keys = if p.inv.keys < 255 { p.inv.keys + 1 } else { 255 };
                self.events.sound(Sfx::Pickup);
            },
            Kind::BombPickup => {
                p.inv.give(Item::Bombs);
                p.inv.add_bombs(3);
                self.events.sound(Sfx::Pickup);
            },
            Kind::ArrowPickup => {
                p.inv.give(Item::Bow);
                p.inv.add_arrows(5);
                self.events.sound(Sfx::Pickup);
            },
            Kind::Fairy => {
                if let Some(e) = self.entities.get_mut(eid) {
                    e.hp = e.max_hp;
                }
                self.events.sound(Sfx::Secret);
            },
            Kind::HeartPiece => {
                p.inv.heart_pieces = if p.inv.heart_pieces < 255 { p.inv.heart_pieces + 1 } else { 255 };
                if let Some(e) = self.entities.get_mut(eid) {
                    let grown: i32 = e.max_hp as i32 + 4;
                    e.max_hp = if grown < 56 { grown as i16 } else { 56 };
                    e.hp = e.max_hp;
                }
                self.events.sound(Sfx::Secret);
            },
            Kind::Triforce => {
                self.events.sound(Sfx::Secret);
            },
            _ => {},
        }
        self.players.set(player, p);
        proof {
            assert forall|k: int| 0 <= k < self.players@.len() implies seat_ok(
                #[trigger] self.players@[k],
                self.levels@.len() as int,
            ) by {
                if k != player {
                    assert(self.players@[k] == old(self).players@[k]);
                }
            }
        }
        if kind == Kind::HeartPiece {
            self.say(player, "HEART CONTAINER!");
        } else if kind == Kind::Triforce {
            self.say(player, "YOU WIN!");
        }
    }
}


/// Sorted, without repeats.
pub open spec fn sorted_keys(v: Seq<(u16, u16)>) -> bool {
    forall|i: int, j: int| 0 <= i < j < v.len() ==> key_less(#[trigger] v[i], #[trigger] v[j])
}

/// The order rooms are woken in: by level, then by room index.
pub open spec fn key_less(a: (u16, u16), b: (u16, u16)) -> bool {
    a.0 < b.0 || (a.0 == b.0 && a.1 < b.1)
}

/// Putting `k` at `i` keeps a sorted list sorted when everything before `i`
/// is smaller and everything from `i` on is larger.
pub proof fn lemma_insert_sorted(before: Seq<(u16, u16)>, i: int, k: (u16, u16))
    requires
        sorted_keys(before),
        0 <= i <= before.len(),
        forall|j: int| 0 <= j < i ==> key_less(#[trigger] before[j], k),
        i < before.len() ==> key_less(k, before[i]),
    ensures
        sorted_keys(before.insert(i, k)),
        forall|x: (u16, u16)| #[trigger] before.insert(i, k).contains(x) <==> (before.contains(x) || x == k),
{
    let v = before.insert(i, k);
    assert forall|a: int, b: int| 0 <= a < b < v.len() implies key_less(
        #[trigger] v[a],
        #[trigger] v[b],
    ) by {
        if b < i {
            assert(v[a] == before[a] && v[b] == before[b]);
        } else if b == i {
            assert(v[a] == before[a]);
        } else if a == i {
            assert(v[b] == before[b - 1]);
            if b - 1 > i {
                assert(key_less(before[i], before[b - 1]));
            }
        } else if a < i {
            assert(v[a] == before[a] && v[b] == before[b - 1]);
            assert(key_less(before[a], k));
        } else {
            assert(v[a] == before[a - 1] && v[b] == before[b - 1]);
        }
    }
    assert forall|x: (u16, u16)| #[trigger] v.contains(x) <==> (before.contains(x) || x == k) by {
        if v.contains(x) {
            let j = choose|j: int| 0 <= j < v.len() && v[j] == x;
            if j < i {
                assert(before[j] == x);
            } else if j > i {
                assert(before[j - 1] == x);
            }
        }
        if before.contains(x) {
            let j = choose|j: int| 0 <= j < before.len() && before[j] == x;
            if j < i {
                assert(v[j] == x);
            } else {
                assert(v[j + 1] == x);
            }
        }
        if x == k {
            assert(v[i] == k);
        }
    }
}

/// Adds a key to a sorted list of keys, keeping it sorted and free of
/// repeats.
fn insert_key(v: &mut Vec<(u16, u16)>, k: (u16, u16))
    requires
        sorted_keys(old(v)@),
    ensures
        sorted_keys(final(v)@),
        forall|x: (u16, u16)| #[trigger] final(v)@.contains(x) <==> (old(v)@.contains(x) || x == k),
{
    let mut i: usize = 0;
    while i < v.len()
        invariant
            i <= v@.len(),
            v@ == old(v)@,
            sorted_keys(v@),
            forall|j: int| 0 <= j < i ==> key_less(#[trigger] v@[j], k),
        decreases v@.len() - i,
    {
        let x = v[i];
        if x.0 == k.0 && x.1 == k.1 {
            proof {
                assert(v@[i as int] == k);
                assert forall|y: (u16, u16)| #[trigger] v@.contains(y) <==> (old(v)@.contains(y) || y == k) by {
                    if y == k {
                        assert(v@[i as int] == y);
                    }
                }
            }
            return;
        }
        if k.0 < x.0 || (k.0 == x.0 && k.1 < x.1) {
            proof {
                lemma_insert_sorted(v@, i as int, k);
            }
            v.insert(i, k);
            return;
        }
        i = i + 1;
    }
    proof {
        lemma_insert_sorted(v@, i as int, k);
    }
    v.insert(i, k);
}

impl World {
    /// Spawns the contents of every room next to a player that has not been
    /// populated yet, in order of level and room, and marks those rooms
    /// visited.
    fn activate_rooms(&mut self)
        requires
            old(self).wf(),
        ensures
            final(self).wf(),
            final(self).players == old(self).players,
            final(self).levels@.len() == old(self).levels@.len(),
            forall|k: (u16, u16)| #[trigger] old(self).spawned@.contains(k) ==> final(self).spawned@.contains(k),
            forall|k: (u16, u16)| near_active(*old(self), k) ==> #[trigger] final(self).spawned@.contains(k),
    {
        let mut wanted: Vec<(u16, u16)> = Vec::new();
        let mut pi: usize = 0;
        while pi < self.players.len()
            invariant
                self.wf(),
                self == old(self),
                pi <= self.players@.len(),
                sorted_keys(wanted@),
                forall|k: (u16, u16)| #[trigger] wanted@.contains(k) ==> (k.0 as int) < self.levels@.len(),
                forall|k: (u16, u16), q: int, dx: int, dy: int|
                    0 <= q < pi && -1 <= dx <= 1 && -1 <= dy <= 1 && #[trigger] wakes(*old(self), q, dx, dy, k)
                        ==> wanted@.contains(k),
            decreases self.players@.len() - pi,
        {
            let p = self.players[pi];
            if p.active {
                assert(seat_ok(self.players@[pi as int], self.levels@.len() as int));
                let lv = &self.levels[p.level as usize];
                assert(playable(*lv));
                let mut dy: i32 = -1;
                while dy <= 1
                    invariant
                        self.wf(),
                        -1 <= dy <= 2,
                        -0x10_0000 <= p.room.0 <= 0x10_0000,
                        -0x10_0000 <= p.room.1 <= 0x10_0000,
                        lv.wf(),
                        sorted_keys(wanted@),
                        self == old(self),
                        pi < self.players@.len(),
                        p == self.players@[pi as int],
                        p.active,
                        (p.level as int) < self.levels@.len(),
                        *lv == self.levels@[p.level as int],
                        forall|k: (u16, u16)| #[trigger] wanted@.contains(k) ==> (k.0 as int) < self.levels@.len(),
                        forall|k: (u16, u16), q: int, dx: int, dy2: int|
                            ((0 <= q < pi && -1 <= dy2 <= 1) || (q == pi && -1 <= dy2 < dy)) && -1 <= dx <= 1
                                && #[trigger] wakes(*old(self), q, dx, dy2, k) ==> wanted@.contains(k),
                    decreases 2 - dy,
                {
                    let mut dx: i32 = -1;
                    while dx <= 1
                        invariant
                            -1 <= dx <= 2,
                            -1 <= dy <= 1,
                            -0x10_0000 <= p.room.0 <= 0x10_0000,
                            -0x10_0000 <= p.room.1 <= 0x10_0000,
                            lv.wf(),
                            sorted_keys(wanted@),
                            self == old(self),
                            pi < self.players@.len(),
                            p == self.players@[pi as int],
                            p.active,
                            (p.level as int) < self.levels@.len(),
                            *lv == self.levels@[p.level as int],
                            forall|k: (u16, u16)| #[trigger] wanted@.contains(k) ==> (k.0 as int) < self.levels@.len(),
                            forall|k: (u16, u16), q: int, dx2: int, dy2: int|
                                ((0 <= q < pi && -1 <= dy2 <= 1 && -1 <= dx2 <= 1) || (q == pi && -1 <= dy2 < dy
                                    && -1 <= dx2 <= 1) || (q == pi && dy2 == dy && -1 <= dx2 < dx))
                                    && #[trigger] wakes(*old(self), q, dx2, dy2, k) ==> wanted@.contains(k),
                        decreases 2 - dx,
                    {
                        match lv.room_index(p.room.0 + dx, p.room.1 + dy) {
                            Some(i) => {
                                insert_key(&mut wanted, (p.level, i as u16));
                            },
                            None => {},
                        }
                        proof {
                            assert forall|k: (u16, u16)| wakes(*old(self), pi as int, dx as int, dy as int, k)
                                implies #[trigger] wanted@.contains(k) by {
                            }
                        }
                        dx = dx + 1;
                    }
                    dy = dy + 1;
                }
            }
            pi = pi + 1;
        }
        proof {
            assert forall|k: (u16, u16)| near_active(*old(self), k) implies #[trigger] wanted@.contains(k) by {
                let (q, dx, dy) = choose|q: int, dx: int, dy: int|
                    0 <= q < old(self).players@.len() && -1 <= dx <= 1 && -1 <= dy <= 1 && #[trigger] wakes(
                        *old(self),
                        q,
                        dx,
                        dy,
                        k,
                    );
                assert(wakes(*old(self), q, dx, dy, k));
            }
        }
        let mut w: usize = 0;
        while w < wanted.len()
            invariant
                self.wf(),
                w <= wanted@.len(),
                self.players == old(self).players,
                self.levels@.len() == old(self).levels@.len(),
                forall|k: (u16, u16)| #[trigger] old(self).spawned@.contains(k) ==> self.spawned@.contains(k),
                forall|k: (u16, u16)| #[trigger] wanted@.contains(k) ==> (k.0 as int) < self.levels@.len(),
                forall|i: int| 0 <= i < w ==> self.spawned@.contains(#[trigger] wanted@[i]),
            decreases wanted@.len() - w,
        {
            let (level, room) = wanted[w];
            proof {
                assert(wanted@.contains(wanted@[w as int]));
            }
            let ghost sp0 = self.spawned@;
            w = w + 1;
            let mut seen = false;
            let mut j: usize = 0;
            while j < self.spawned.len()
                invariant
                    j <= self.spawned@.len(),
                    seen ==> self.spawned@.contains((level, room)),
                decreases self.spawned@.len() - j,
            {
                if self.spawned[j].0 == level && self.spawned[j].1 == room {
                    seen = true;
                    proof {
                        assert(self.spawned@[j as int] == (level, room));
                    }
                }
                j = j + 1;
            }
            if seen || (level as usize) >= self.levels.len() {
                continue;
            }
            let ghost before = self.spawned@;
            self.spawned.push((level, room));
            proof {
                assert forall|k: (u16, u16)| #[trigger] old(self).spawned@.contains(k) implies self.spawned@.contains(k) by {
                    assert(before.contains(k));
                    let jj = choose|jj: int| 0 <= jj < before.len() && before[jj] == k;
                    assert(self.spawned@[jj] == k);
                }
                assert forall|k: (u16, u16)| #[trigger] before.contains(k) implies self.spawned@.contains(k) by {
                    let jj = choose|jj: int| 0 <= jj < before.len() && before[jj] == k;
                    assert(self.spawned@[jj] == k);
                }
                assert(self.spawned@[before.len() as int] == (level, room));
            }
            let ghost sp1 = self.spawned@;
            let mut todo: Vec<Spawn> = Vec::new();
            let mut s: usize = 0;
            while s < self.levels[level as usize].spawns.len()
                invariant
                    s <= self.levels@[level as int].spawns@.len(),
                    (level as int) < self.levels@.len(),
                decreases self.levels@[level as int].spawns@.len() - s,
            {
                let sp = self.levels[level as usize].spawns[s];
                if sp.room == room {
                    todo.push(sp);
                }
                s = s + 1;
            }
            let mut t: usize = 0;
            while t < todo.len()
                invariant
                    self.wf(),
                    t <= todo@.len(),
                    self.players == old(self).players,
                    self.levels@.len() == old(self).levels@.len(),
                    forall|k: (u16, u16)| #[trigger] old(self).spawned@.contains(k) ==> self.spawned@.contains(k),
                    (level as int) < self.levels@.len(),
                    self.spawned@ == sp1,
                decreases todo@.len() - t,
            {
                let sp = todo[t];
                t = t + 1;
                let kind = Kind::from_u8(sp.kind);
                if kind == Kind::Nothing {
                    continue;
                }
                if sp.tx < -0x8_0000 || sp.tx >= 0x8_0000 || sp.ty < -0x8_0000 || sp.ty >= 0x8_0000 {
                    continue;
                }
                let pos = crate::level::tile_center(sp.tx, sp.ty);
                let id = self.spawn(kind, level, pos);
                if let Some(e) = self.entities.get_mut(id) {
                    e.data[0] = sp.param;
                    if kind == Kind::Chest {
                        e.state = 0;
                    }
                }
            }
            if (room as usize) < self.levels[level as usize].rooms.len() {
                let ghost before = self.levels@[level as int];
                let mut r = self.levels[level as usize].rooms[room as usize];
                r.visited = true;
                self.levels[level as usize].rooms.set(room as usize, r);
                proof {
                    assert(self.levels@[level as int].rooms@.len() == before.rooms@.len());
                    assert(self.levels@[level as int] == Level { rooms: self.levels@[level as int].rooms, ..before });
                    assert(playable(self.levels@[level as int]));
                    assert forall|i: int| 0 <= i < self.levels@.len() implies playable(
                        #[trigger] self.levels@[i],
                    ) by {
                        if i != level {
                            assert(self.levels@[i] == old(self).levels@[i] || playable(self.levels@[i]));
                        }
                    }
                }
            }
        }
    }
}


/// Player `q`'s room, moved by `(dx, dy)` rooms, lies in their level and is
/// room `key.1` of level `key.0`.
pub open spec fn wakes(w: World, q: int, dx: int, dy: int, key: (u16, u16)) -> bool {
    let p = w.players@[q];
    let lv = w.levels@[p.level as int];
    let rx = p.room.0 + dx;
    let ry = p.room.1 + dy;
    &&& p.active && p.level == key.0
    &&& 0 <= rx < lv.map.rw() && 0 <= ry < lv.map.rh()
    &&& (ry * lv.map.rw() + rx) as u16 == key.1
}

/// Room `key` lies under or next to the room of an active player.
pub open spec fn near_active(w: World, key: (u16, u16)) -> bool {
    exists|q: int, dx: int, dy: int|
        0 <= q < w.players@.len() && -1 <= dx <= 1 && -1 <= dy <= 1 && #[trigger] wakes(w, q, dx, dy, key)
}

/// True when a live, far-despawning entity on `level` stands in room
/// `room` of `lv`.
pub open spec fn stands_in_room(lv: Level, e: Entity, level: u16, room: u16) -> bool {
    let rx = floor_px(e.pos.x as int) / 160;
    let ry = floor_px(e.pos.y as int) / 128;
    &&& e.alive && e.level == level && e.flags & eflag::DESPAWN_FAR != 0
    &&& 0 <= rx < lv.map.rw() && 0 <= ry < lv.map.rh()
    &&& ry * lv.map.rw() + rx == room
}

/// The same slots, each as live as before and of the same generation.
pub open spec fn same_liveness(before: Entities, after: Entities) -> bool {
    &&& after.slots_view().len() == before.slots_view().len()
    &&& after.live_count() == before.live_count()
    &&& forall|i: int|
        0 <= i < before.slots_view().len() ==> #[trigger] after.slots_view()[i].alive == before.slots_view()[i].alive
            && after.slots_view()[i].gen == before.slots_view()[i].gen
}

/// Slot `i` holds a live solid body that is no boss and stands in play.
pub open spec fn pushable(es: Entities, i: int) -> bool {
    let e = es.slots_view()[i];
    &&& 0 <= i < es.slots_view().len()
    &&& e.alive && e.flags & eflag::SOLID_BODY != 0 && e.flags & eflag::BOSS == 0 && in_play_spec(e)
}

/// The pushable bodies among the first `n` slots, in slot order, each with
/// its slot, its level and its collision body.
pub open spec fn bodies_upto(es: Entities, n: int) -> Seq<(usize, u16, Rect)>
    decreases n,
{
    if n <= 0 {
        Seq::empty()
    } else {
        let prev = bodies_upto(es, n - 1);
        let e = es.slots_view()[n - 1];
        if pushable(es, n - 1) {
            prev.push(((n - 1) as usize, e.level, crate::combat::body_rect(e)))
        } else {
            prev
        }
    }
}

/// What the pair `(a, b)` of bodies pushes body `k` along x (`ax == 0`) or
/// y: two bodies on one level that overlap go half a pixel apart, `a` one
/// way and `b` the other.
pub open spec fn pair_push(s: Seq<(usize, u16, Rect)>, k: int, a: int, b: int, ax: int) -> int {
    let p = if s[a].1 == s[b].1 { crate::physics::separate_spec(s[a].2, s[b].2, 128) } else { (0, 0) };
    let d = if ax == 0 { p.0 } else { p.1 };
    if k == a { d } else if k == b { -d } else { 0 }
}

/// What the pairs `(a, a + 1)` up to `(a, b - 1)` push body `k`.
pub open spec fn row_push(s: Seq<(usize, u16, Rect)>, k: int, a: int, b: int, ax: int) -> int
    decreases b - a,
{
    if b <= a + 1 { 0 } else { row_push(s, k, a, b - 1, ax) + pair_push(s, k, a, b - 1, ax) }
}

/// What every pair whose first body comes before `a` pushes body `k`.
pub open spec fn rows_push(s: Seq<(usize, u16, Rect)>, k: int, a: int, ax: int) -> int
    decreases a,
{
    if a <= 0 { 0 } else { rows_push(s, k, a - 1, ax) + row_push(s, k, a - 1, s.len() as int, ax) }
}

proof fn lemma_pair_push_small(s: Seq<(usize, u16, Rect)>, k: int, a: int, b: int, ax: int)
    ensures
        -128 <= pair_push(s, k, a, b, ax) <= 128,
        k != a && k != b ==> pair_push(s, k, a, b, ax) == 0,
{
}

proof fn lemma_row_bound(s: Seq<(usize, u16, Rect)>, k: int, a: int, b: int, ax: int)
    requires
        0 <= a < b,
    ensures
        k == a ==> -128 * (b - a - 1) <= row_push(s, k, a, b, ax) <= 128 * (b - a - 1),
        k != a && a < k < b ==> -128 <= row_push(s, k, a, b, ax) <= 128,
        k != a && !(a < k < b) ==> row_push(s, k, a, b, ax) == 0,
    decreases b - a,
{
    if b > a + 1 {
        lemma_row_bound(s, k, a, b - 1, ax);
        lemma_pair_push_small(s, k, a, b - 1, ax);
    }
}

proof fn lemma_rows_bound(s: Seq<(usize, u16, Rect)>, k: int, a: int, ax: int)
    requires
        0 <= a <= s.len(),
        0 <= k < s.len(),
    ensures
        a <= k ==> -128 * a <= rows_push(s, k, a, ax) <= 128 * a,
        a > k ==> -128 * (s.len() - 1) <= rows_push(s, k, a, ax) <= 128 * (s.len() - 1),
    decreases a,
{
    if a > 0 {
        lemma_rows_bound(s, k, a - 1, ax);
        lemma_row_bound(s, k, a - 1, s.len() as int, ax);
    }
}

proof fn lemma_partial_bound(s: Seq<(usize, u16, Rect)>, k: int, a: int, b: int, ax: int)
    requires
        0 <= a < s.len(),
        a < b <= s.len(),
        0 <= k < s.len(),
        s.len() <= 0x10000,
    ensures
        -0x80_0000 <= rows_push(s, k, a, ax) + row_push(s, k, a, b, ax) <= 0x80_0000,
{
    lemma_rows_bound(s, k, a, ax);
    lemma_row_bound(s, k, a, b, ax);
    assert(128 * s.len() <= 0x80_0000);
}

/// `after` is `before` with only the positions of pushable bodies moved.
pub open spec fn nudged(before: Entities, after: Entities) -> bool {
    &&& after.slots_view().len() == before.slots_view().len()
    &&& after.free_view() == before.free_view()
    &&& after.live_count() == before.live_count()
    &&& forall|i: int|
        0 <= i < before.slots_view().len() ==> {
            &&& #[trigger] after.slots_view()[i] == (Entity { pos: after.slots_view()[i].pos, ..before.slots_view()[i] })
            &&& !pushable(before, i) ==> after.slots_view()[i] == before.slots_view()[i]
        }
}

/// A live far-despawning entity that nobody possesses, on a level of `w`,
/// with no active player within two rooms of it.
pub open spec fn far_gone(w: World, e: Entity) -> bool {
    &&& e.alive && e.flags & eflag::DESPAWN_FAR != 0 && e.flags & eflag::POSSESSED == 0
    &&& (e.level as int) < w.levels@.len()
    &&& !player_within(w, e.level, floor_px(e.pos.x as int) / 160, floor_px(e.pos.y as int) / 128, 2)
}

/// `after` is the entities of `w` with every far-gone one marked dead; a
/// slab whose live count ran out keeps the ones it could not remove.
pub open spec fn culled(w: World, after: Entities) -> bool {
    let before = w.entities;
    &&& after.slots_view().len() == before.slots_view().len()
    &&& forall|i: int|
        0 <= i < before.slots_view().len() ==> {
            let e = before.slots_view()[i];
            ||| #[trigger] after.slots_view()[i] == (if far_gone(w, e) { Entity { alive: false, ..e } } else { e })
            ||| far_gone(w, e) && after.live_count() == 0 && after.slots_view()[i] == e
        }
}

impl World {
    /// True when some far-despawning entity on `level` stands in room `room`.
    fn room_has_entities(&self, level: u16, room: u16) -> (r: bool)
        requires
            self.wf(),
            (level as int) < self.levels@.len(),
        ensures
            r == exists|i: int|
                0 <= i < self.entities.slots_view().len() && stands_in_room(
                    self.levels@[level as int],
                    #[trigger] self.entities.slots_view()[i],
                    level,
                    room,
                ),
    {
        let lv = &self.levels[level as usize];
        assert(playable(*lv));
        let n = self.entities.capacity();
        let mut i: usize = 0;
        while i < n
            invariant
                self.wf(),
                n == self.entities.slots_view().len(),
                i <= n,
                lv.wf(),
                *lv == self.levels@[level as int],
                forall|k: int| 0 <= k < i ==> !stands_in_room(*lv, #[trigger] self.entities.slots_view()[k], level, room),
            decreases n - i,
        {
            if let Some(e) = self.entities.at(i) {
                if e.level == level && e.has(eflag::DESPAWN_FAR) {
                    let (rx, ry) = lv.room_at(e.pos);
                    match lv.room_index(rx, ry) {
                        Some(ri) => {
                            if ri == room as usize {
                                return true;
                            }
                        },
                        None => {},
                    }
                }
            }
            i = i + 1;
        }
        false
    }

    /// Removes entities that have wandered far from every player, and lets
    /// their room repopulate when someone comes back.
    fn cull_far_entities(&mut self)
        requires
            old(self).wf(),
        ensures
            final(self).wf(),
            final(self).players == old(self).players,
            final(self).levels == old(self).levels,
            final(self).events == old(self).events,
            final(self).rng == old(self).rng,
            final(self).frame == old(self).frame,
            culled(*old(self), final(self).entities),
            forall|k: (u16, u16)| #[trigger] final(self).spawned@.contains(k) ==> old(self).spawned@.contains(k),
    {
        let mut freed: Vec<(u16, u16)> = Vec::new();
        let n = self.entities.capacity();
        let mut idx: usize = 0;
        while idx < n
            invariant
                self.wf(),
                self.players == old(self).players,
                self.levels == old(self).levels,
                idx <= n,
                n == old(self).entities.slots_view().len(),
                forall|j: int| 0 <= j < freed@.len() ==> (#[trigger] freed@[j]).0 < self.levels@.len(),
                self.events == old(self).events,
                self.rng == old(self).rng,
                self.frame == old(self).frame,
                self.spawned == old(self).spawned,
                self.entities.slots_view().len() == n,
                forall|k: int|
                    0 <= k < idx ==> {
                        let e = old(self).entities.slots_view()[k];
                        ||| #[trigger] self.entities.slots_view()[k] == (if far_gone(*old(self), e) {
                            Entity { alive: false, ..e }
                        } else {
                            e
                        })
                        ||| far_gone(*old(self), e) && self.entities.live_count() == 0
                            && self.entities.slots_view()[k] == e
                    },
                forall|k: int| idx <= k < n ==> #[trigger] self.entities.slots_view()[k]
                    == old(self).entities.slots_view()[k],
            decreases n - idx,
        {
            let (keep, level, pos) = match self.entities.at(idx) {
                Some(e) => (!e.has(eflag::DESPAWN_FAR) || e.has(eflag::POSSESSED), e.level, e.pos),
                None => (true, 0, V2::zero()),
            };
            if !keep && (level as usize) < self.levels.len() && !self.is_near_player(level, pos, 2) {
                let lv = &self.levels[level as usize];
                assert(playable(*lv));
                let (rx, ry) = lv.room_at(pos);
                match lv.room_index(rx, ry) {
                    Some(ri) => {
                        freed.push((level, ri as u16));
                    },
                    None => {},
                }
                let id = self.entities.id_of(idx);
                let ghost before = self.entities;
                self.remove(id);
                proof {
                    assert(self.entities.slots_view().len() == n);
                    assert forall|k: int| 0 <= k < n && k != idx implies #[trigger] self.entities.slots_view()[k]
                        == before.slots_view()[k] by {}
                    assert(self.entities.live_count() <= before.live_count());
                }
            }
            idx = idx + 1;
        }
        let mut f: usize = 0;
        while f < freed.len()
            invariant
                self.wf(),
                self.players == old(self).players,
                self.levels == old(self).levels,
                f <= freed@.len(),
                forall|j: int| 0 <= j < freed@.len() ==> (#[trigger] freed@[j]).0 < self.levels@.len(),
                self.events == old(self).events,
                self.rng == old(self).rng,
                self.frame == old(self).frame,
                culled(*old(self), self.entities),
                forall|k: (u16, u16)| #[trigger] self.spawned@.contains(k) ==> old(self).spawned@.contains(k),
            decreases freed@.len() - f,
        {
            let key = freed[f];
            if !self.room_has_entities(key.0, key.1) {
                let mut kept: Vec<(u16, u16)> = Vec::new();
                let mut j: usize = 0;
                while j < self.spawned.len()
                    invariant
                        j <= self.spawned@.len(),
                        forall|x: (u16, u16)| #[trigger] kept@.contains(x) ==> self.spawned@.contains(x),
                    decreases self.spawned@.len() - j,
                {
                    let k = self.spawned[j];
                    if !(k.0 == key.0 && k.1 == key.1) {
                        let ghost kb = kept@;
                        kept.push(k);
                        proof {
                            assert forall|x: (u16, u16)| #[trigger] kept@.contains(x) implies self.spawned@.contains(x) by {
                                let jj = choose|jj: int| 0 <= jj < kept@.len() && kept@[jj] == x;
                                if jj < kb.len() {
                                    assert(kb[jj] == x);
                                    assert(kb.contains(x));
                                } else {
                                    assert(self.spawned@[j as int] == x);
                                }
                            }
                        }
                    }
                    j = j + 1;
                }
                self.spawned = kept;
            }
            f = f + 1;
        }
    }

    /// Pushes overlapping solid bodies apart, half a pixel a frame each way,
    /// so monsters do not stack. Bosses stand their ground.
    fn separate_bodies(&mut self)
        requires
            old(self).wf(),
        ensures
            final(self).wf(),
            final(self).players == old(self).players,
            final(self).levels == old(self).levels,
            final(self).events == old(self).events,
            final(self).rng == old(self).rng,
            final(self).spawned == old(self).spawned,
            final(self).frame == old(self).frame,
            nudged(old(self).entities, final(self).entities),
            ({
                let s = bodies_upto(old(self).entities, old(self).entities.slots_view().len() as int);
                forall|k: int|
                    0 <= k < s.len() ==> #[trigger] final(self).entities.slots_view()[s[k].0 as int].pos == (V2 {
                        x: (old(self).entities.slots_view()[s[k].0 as int].pos.x + rows_push(s, k, s.len() as int, 0)) as i32,
                        y: (old(self).entities.slots_view()[s[k].0 as int].pos.y + rows_push(s, k, s.len() as int, 1)) as i32,
                    })
            }),
    {
        let mut solids: Vec<(usize, u16, Rect)> = Vec::new();
        let n = self.entities.capacity();
        let mut i: usize = 0;
        while i < n
            invariant
                self.wf(),
                n == self.entities.slots_view().len(),
                i <= n,
                self == old(self),
                solids@ == bodies_upto(old(self).entities, i as int),
                solids@.len() <= i,
                forall|k: int| 0 <= k < solids@.len() ==> crate::physics::small_rect(#[trigger] solids@[k].2),
                forall|k: int| 0 <= k < solids@.len() ==> pushable(old(self).entities, #[trigger] solids@[k].0 as int),
                forall|k: int| 0 <= k < solids@.len() ==> (#[trigger] solids@[k]).0 < i,
                forall|k1: int, k2: int| 0 <= k1 < k2 < solids@.len() ==> (#[trigger] solids@[k1]).0 < (#[trigger] solids@[k2]).0,
            decreases n - i,
        {
            if let Some(e) = self.entities.at(i) {
                if e.has(eflag::SOLID_BODY) && !e.has(eflag::BOSS) && in_play(e) {
                    proof {
                        lemma_boxes_fit(*e);
                    }
                    let b = e.body();
                    solids.push((i, e.level, b));
                    proof {
                        assert(b == crate::combat::body_rect(*e));
                    }
                }
            }
            i = i + 1;
        }
        let ghost s = solids@;
        let m = solids.len();
        let mut a: usize = 0;
        while a < m
            invariant
                self.wf(),
                self.players == old(self).players,
                self.levels == old(self).levels,
                self.events == old(self).events,
                m == solids@.len(),
                s == solids@,
                s == bodies_upto(old(self).entities, old(self).entities.slots_view().len() as int),
                m <= 0x10000,
                a <= m,
                forall|k: int| 0 <= k < solids@.len() ==> crate::physics::small_rect(#[trigger] solids@[k].2),
                forall|k: int| 0 <= k < solids@.len() ==> pushable(old(self).entities, #[trigger] solids@[k].0 as int),
                forall|k1: int, k2: int| 0 <= k1 < k2 < s.len() ==> (#[trigger] s[k1]).0 < (#[trigger] s[k2]).0,
                self.rng == old(self).rng,
                self.spawned == old(self).spawned,
                self.frame == old(self).frame,
                nudged(old(self).entities, self.entities),
                forall|k: int|
                    0 <= k < m ==> #[trigger] self.entities.slots_view()[s[k].0 as int].pos.x
                        == old(self).entities.slots_view()[s[k].0 as int].pos.x + rows_push(s, k, a as int, 0),
                forall|k: int|
                    0 <= k < m ==> #[trigger] self.entities.slots_view()[s[k].0 as int].pos.y
                        == old(self).entities.slots_view()[s[k].0 as int].pos.y + rows_push(s, k, a as int, 1),
            decreases m - a,
        {
            let mut b: usize = a + 1;
            while b < m
                invariant
                    self.wf(),
                    self.players == old(self).players,
                    self.levels == old(self).levels,
                    self.events == old(self).events,
                    m == solids@.len(),
                    s == solids@,
                    m <= 0x10000,
                    a < m,
                    a + 1 <= b <= m,
                    forall|k: int| 0 <= k < solids@.len() ==> crate::physics::small_rect(#[trigger] solids@[k].2),
                    forall|k: int| 0 <= k < solids@.len() ==> pushable(old(self).entities, #[trigger] solids@[k].0 as int),
                    forall|k1: int, k2: int| 0 <= k1 < k2 < s.len() ==> (#[trigger] s[k1]).0 < (#[trigger] s[k2]).0,
                    self.rng == old(self).rng,
                    self.spawned == old(self).spawned,
                    self.frame == old(self).frame,
                    nudged(old(self).entities, self.entities),
                    forall|k: int|
                        0 <= k < m ==> #[trigger] self.entities.slots_view()[s[k].0 as int].pos.x
                            == old(self).entities.slots_view()[s[k].0 as int].pos.x + rows_push(s, k, a as int, 0)
                            + row_push(s, k, a as int, b as int, 0),
                    forall|k: int|
                        0 <= k < m ==> #[trigger] self.entities.slots_view()[s[k].0 as int].pos.y
                            == old(self).entities.slots_view()[s[k].0 as int].pos.y + rows_push(s, k, a as int, 1)
                            + row_push(s, k, a as int, b as int, 1),
                decreases m - b,
            {
                let ghost before = self.entities;
                proof {
                    assert(pushable(old(self).entities, s[a as int].0 as int));
                    assert(pushable(old(self).entities, s[b as int].0 as int));
                    assert(s[a as int].0 < s[b as int].0);
                }
                if solids[a].1 == solids[b].1 {
                    let push = crate::physics::separate(&solids[a].2, &solids[b].2, ONE / 2);
                    proof {
                        let ia = s[a as int].0 as int;
                        let ib = s[b as int].0 as int;
                        assert(pair_push(s, a as int, a as int, b as int, 0) == push.x);
                        assert(pair_push(s, a as int, a as int, b as int, 1) == push.y);
                        assert(pair_push(s, b as int, a as int, b as int, 0) == -push.x);
                        assert(pair_push(s, b as int, a as int, b as int, 1) == -push.y);
                        lemma_partial_bound(s, a as int, a as int, b + 1, 0);
                        lemma_partial_bound(s, a as int, a as int, b + 1, 1);
                        lemma_partial_bound(s, b as int, a as int, b + 1, 0);
                        lemma_partial_bound(s, b as int, a as int, b + 1, 1);
                        assert(row_push(s, a as int, a as int, b + 1, 0) == row_push(s, a as int, a as int, b as int, 0) + push.x);
                        assert(row_push(s, a as int, a as int, b + 1, 1) == row_push(s, a as int, a as int, b as int, 1) + push.y);
                        assert(row_push(s, b as int, a as int, b + 1, 0) == row_push(s, b as int, a as int, b as int, 0) - push.x);
                        assert(row_push(s, b as int, a as int, b + 1, 1) == row_push(s, b as int, a as int, b as int, 1) - push.y);
                        assert(self.entities.slots_view()[ia] == (Entity { pos: self.entities.slots_view()[ia].pos, ..old(self).entities.slots_view()[ia] }));
                        assert(self.entities.slots_view()[ib] == (Entity { pos: self.entities.slots_view()[ib].pos, ..old(self).entities.slots_view()[ib] }));
                        assert(self.entities.slots_view()[s[a as int].0 as int].pos.x == old(self).entities.slots_view()[ia].pos.x + rows_push(s, a as int, a as int, 0)
                            + row_push(s, a as int, a as int, b as int, 0));
                        assert(self.entities.slots_view()[s[b as int].0 as int].pos.x == old(self).entities.slots_view()[ib].pos.x + rows_push(s, b as int, a as int, 0)
                            + row_push(s, b as int, a as int, b as int, 0));
                    }
                    if push.x != 0 || push.y != 0 {
                        if let Some(e) = self.entities.at_mut(solids[a].0) {
                            let nx = e.pos.x as i64 + push.x as i64;
                            let ny = e.pos.y as i64 + push.y as i64;
                            if i32::MIN as i64 <= nx && nx <= i32::MAX as i64 && i32::MIN as i64 <= ny
                                && ny <= i32::MAX as i64 {
                                e.pos = V2::new(nx as i32, ny as i32);
                            }
                        }
                        if let Some(e) = self.entities.at_mut(solids[b].0) {
                            let nx = e.pos.x as i64 - push.x as i64;
                            let ny = e.pos.y as i64 - push.y as i64;
                            if i32::MIN as i64 <= nx && nx <= i32::MAX as i64 && i32::MIN as i64 <= ny
                                && ny <= i32::MAX as i64 {
                                e.pos = V2::new(nx as i32, ny as i32);
                            }
                        }
                    }
                }
                proof {
                    let ia = s[a as int].0 as int;
                    let ib = s[b as int].0 as int;
                    assert(self.entities.slots_view().len() == before.slots_view().len());
                    assert forall|i2: int| 0 <= i2 < before.slots_view().len() && i2 != ia && i2 != ib implies
                        #[trigger] self.entities.slots_view()[i2] == before.slots_view()[i2] by {}
                    assert(self.entities.slots_view()[ia].pos.x == before.slots_view()[ia].pos.x + pair_push(s, a as int, a as int, b as int, 0));
                    assert(self.entities.slots_view()[ia].pos.y == before.slots_view()[ia].pos.y + pair_push(s, a as int, a as int, b as int, 1));
                    assert(self.entities.slots_view()[ib].pos.x == before.slots_view()[ib].pos.x + pair_push(s, b as int, a as int, b as int, 0));
                    assert(self.entities.slots_view()[ib].pos.y == before.slots_view()[ib].pos.y + pair_push(s, b as int, a as int, b as int, 1));
                    assert forall|k: int| 0 <= k < m implies #[trigger] self.entities.slots_view()[s[k].0 as int].pos.x
                        == old(self).entities.slots_view()[s[k].0 as int].pos.x + rows_push(s, k, a as int, 0)
                        + row_push(s, k, a as int, b + 1, 0) by {
                        assert(before.slots_view()[s[k].0 as int].pos.x == old(self).entities.slots_view()[s[k].0 as int].pos.x
                            + rows_push(s, k, a as int, 0) + row_push(s, k, a as int, b as int, 0));
                        lemma_pair_push_small(s, k, a as int, b as int, 0);
                        lemma_pair_push_small(s, k, a as int, b as int, 1);
                        assert(row_push(s, k, a as int, b + 1, 0) == row_push(s, k, a as int, b as int, 0) + pair_push(s, k, a as int, b as int, 0));
                        assert(row_push(s, k, a as int, b + 1, 1) == row_push(s, k, a as int, b as int, 1) + pair_push(s, k, a as int, b as int, 1));
                        if k != a && k != b {
                            if k < a {
                                assert(s[k].0 < s[a as int].0);
                            } else {
                                assert(s[a as int].0 < s[k].0);
                            }
                            if k < b {
                                assert(s[k].0 < s[b as int].0);
                            } else {
                                assert(s[b as int].0 < s[k].0);
                            }
                        }
                    }
                    assert forall|k: int| 0 <= k < m implies #[trigger] self.entities.slots_view()[s[k].0 as int].pos.y
                        == old(self).entities.slots_view()[s[k].0 as int].pos.y + rows_push(s, k, a as int, 1)
                        + row_push(s, k, a as int, b + 1, 1) by {
                        assert(before.slots_view()[s[k].0 as int].pos.y == old(self).entities.slots_view()[s[k].0 as int].pos.y
                            + rows_push(s, k, a as int, 1) + row_push(s, k, a as int, b as int, 1));
                        lemma_pair_push_small(s, k, a as int, b as int, 0);
                        lemma_pair_push_small(s, k, a as int, b as int, 1);
                        assert(row_push(s, k, a as int, b + 1, 0) == row_push(s, k, a as int, b as int, 0) + pair_push(s, k, a as int, b as int, 0));
                        assert(row_push(s, k, a as int, b + 1, 1) == row_push(s, k, a as int, b as int, 1) + pair_push(s, k, a as int, b as int, 1));
                        if k != a && k != b {
                            if k < a {
                                assert(s[k].0 < s[a as int].0);
                            } else {
                                assert(s[a as int].0 < s[k].0);
                            }
                            if k < b {
                                assert(s[k].0 < s[b as int].0);
                            } else {
                                assert(s[b as int].0 < s[k].0);
                            }
                        }
                    }
                }
                b = b + 1;
            }
            proof {
                assert forall|k: int| 0 <= k < m implies #[trigger] self.entities.slots_view()[s[k].0 as int].pos.x
                    == old(self).entities.slots_view()[s[k].0 as int].pos.x + rows_push(s, k, a + 1, 0) by {
                    assert(rows_push(s, k, a + 1, 0) == rows_push(s, k, a as int, 0) + row_push(s, k, a as int, m as int, 0));
                }
                assert forall|k: int| 0 <= k < m implies #[trigger] self.entities.slots_view()[s[k].0 as int].pos.y
                    == old(self).entities.slots_view()[s[k].0 as int].pos.y + rows_push(s, k, a + 1, 1) by {
                    assert(rows_push(s, k, a + 1, 1) == rows_push(s, k, a as int, 1) + row_push(s, k, a as int, m as int, 1));
                }
            }
            a = a + 1;
        }
        proof {
            assert forall|k: int| 0 <= k < s.len() implies #[trigger] self.entities.slots_view()[s[k].0 as int].pos == (V2 {
                x: (old(self).entities.slots_view()[s[k].0 as int].pos.x + rows_push(s, k, s.len() as int, 0)) as i32,
                y: (old(self).entities.slots_view()[s[k].0 as int].pos.y + rows_push(s, k, s.len() as int, 1)) as i32,
            }) by {
                assert(self.entities.slots_view()[s[k].0 as int].pos.x == old(self).entities.slots_view()[s[k].0 as int].pos.x
                    + rows_push(s, k, a as int, 0));
                assert(self.entities.slots_view()[s[k].0 as int].pos.y == old(self).entities.slots_view()[s[k].0 as int].pos.y
                    + rows_push(s, k, a as int, 1));
            }
        }
    }
}


impl World {
    /// Replaces one player slot with a new record that the simulation can
    /// still run.
    pub fn set_player(&mut self, pi: usize, p: Player)
        requires
            old(self).wf(),
            pi < old(self).players@.len(),
            seat_ok(p, old(self).levels@.len() as int),
        ensures
            final(self).wf(),
            final(self).players@ == old(self).players@.update(pi as int, p),
            final(self).entities == old(self).entities,
            final(self).levels == old(self).levels,
            final(self).events == old(self).events,
            final(self).rng == old(self).rng,
            final(self).spawned == old(self).spawned,
            final(self).frame == old(self).frame,
    {
        self.players.set(pi, p);
        proof {
            assert forall|k: int| 0 <= k < self.players@.len() implies seat_ok(
                #[trigger] self.players@[k],
                self.levels@.len() as int,
            ) by {
                if k != pi {
                    assert(self.players@[k] == old(self).players@[k]);
                }
            }
        }
    }
}


/// True when `move_by` can run on this entity and delta: a sane body, a
/// position and a delta well inside `i32`.
pub fn can_move(e: &Entity, d: V2) -> (r: bool)
    ensures
        r == (sane_body(*e) && near_origin(e.pos, 0x1000_0000) && near_origin(d, 0x1000_0000)),
{
    0 <= e.body_w && e.body_w <= 4096 && 0 <= e.body_h && e.body_h <= 4096 && -0x1000_0000 <= e.pos.x
        && e.pos.x <= 0x1000_0000 && -0x1000_0000 <= e.pos.y && e.pos.y <= 0x1000_0000
        && -0x1000_0000 <= d.x && d.x <= 0x1000_0000 && -0x1000_0000 <= d.y && d.y <= 0x1000_0000
}


/// A velocity of `speed` at `angle` (a full turn is 256): the cosine and the
/// sine scaled by the speed, each divided by 256 towards zero.
/// The velocity of `speed` towards `angle`, a full turn being 256: the
/// cosine of the angle along x and its sine along y, from the sine table.
pub open spec fn polar_spec(angle: int, speed: int) -> V2 {
    V2 {
        x: crate::fixed::tdiv(crate::fixed::sin_entry((angle + 64) % 256) * speed, 256) as i32,
        y: crate::fixed::tdiv(crate::fixed::sin_entry(angle % 256) * speed, 256) as i32,
    }
}

pub(crate) fn polar(angle: i32, speed: Fx) -> (r: V2)
    requires
        0 <= angle <= 0x1_0000,
        0 <= speed <= 0x1_0000,
    ensures
        r == polar_spec(angle as int, speed as int),
        r.x == crate::fixed::tdiv(crate::fixed::sin_entry(((angle + 64) % 256) as int) * speed, 256),
        r.y == crate::fixed::tdiv(crate::fixed::sin_entry((angle % 256) as int) * speed, 256),
{
    let c = crate::fixed::cos(angle);
    let s = crate::fixed::sin(angle);
    proof {
        crate::fixed::lemma_sin_bounded(((angle + 64) % 256) as int);
        crate::fixed::lemma_sin_bounded((angle % 256) as int);
        assert(-0x100_0000 <= c * speed <= 0x100_0000) by (nonlinear_arith)
            requires
                -256 <= c <= 256,
                0 <= speed <= 0x1_0000,
        ;
        assert(-0x100_0000 <= s * speed <= 0x100_0000) by (nonlinear_arith)
            requires
                -256 <= s <= 256,
                0 <= speed <= 0x1_0000,
        ;
    }
    let x = crate::fixed::div_trunc((c * speed) as i64, 256);
    let y = crate::fixed::div_trunc((s * speed) as i64, 256);
    proof {
        lemma_tdiv_between(c * speed, 256);
        lemma_tdiv_between(s * speed, 256);
    }
    V2::new(x as i32, y as i32)
}


impl World {
    /// Advances the simulation by one frame: wake rooms near players, run
    /// every player, monster and object, resolve combat, push bodies apart,
    /// cull what wandered off, then tick cameras, messages and respawns.
    pub fn step(&mut self)
        requires
            old(self).wf(),
        ensures
            final(self).wf(),
            final(self).frame == old(self).frame.wrapping_add(1),
            final(self).players@.len() == old(self).players@.len(),
            final(self).levels@.len() == old(self).levels@.len(),
    {
        self.events.clear();
        let frame = self.frame.wrapping_add(1);
        self.activate_rooms();
        let np = self.players.len();
        let nl = self.levels.len();
        let mut i: usize = 0;
        while i < np
            invariant
                self.wf(),
                np == self.players@.len(),
                nl == self.levels@.len(),
                i <= np,
            decreases np - i,
        {
            if self.players[i].active {
                crate::player::update(self, i);
            }
            i = i + 1;
        }
        let n = self.entities.capacity();
        let mut idx: usize = 0;
        while idx < n
            invariant
                self.wf(),
                np == self.players@.len(),
                nl == self.levels@.len(),
                idx <= n,
            decreases n - idx,
        {
            let (skip, enemy, possessed) = match self.entities.at(idx) {
                Some(e) => (e.kind == Kind::Player || !e.alive, e.kind.is_enemy(), e.has(eflag::POSSESSED)),
                None => (true, false, false),
            };
            if !skip {
                if enemy {
                    // A player driving this monster has already moved it.
                    if !possessed {
                        crate::enemy::update(self, idx);
                    }
                } else {
                    crate::objects::update(self, idx);
                }
            }
            idx = idx + 1;
        }
        crate::combat::resolve(self);
        self.separate_bodies();
        self.cull_far_entities();
        let mut k: usize = 0;
        while k < np
            invariant
                self.wf(),
                np == self.players@.len(),
                nl == self.levels@.len(),
                k <= np,
            decreases np - k,
        {
            let mut p = self.players[k];
            proof {
                assert(seat_ok(self.players@[k as int], self.levels@.len() as int));
            }
            p.camera.step();
            match p.message {
                Some((text, t)) => {
                    let left = if t > 0 { t - 1 } else { 0 };
                    p.message = if left == 0 { None } else { Some((text, left)) };
                },
                None => {},
            }
            let mut revive = false;
            if p.respawn > 0 {
                p.respawn = p.respawn - 1;
                revive = p.respawn == 0;
            }
            self.set_player(k, p);
            if revive {
                self.respawn_player(k);
            }
            k = k + 1;
        }
        self.entities.collect_dead();
        self.frame = frame;
    }
}

} // verus!
