//! The player state machine: walking, swinging, lifting, falling, drowning.
use vstd::prelude::*;
use crate::entity::{eflag, info, kind_info, Entity, EntityId, Kind, NO_SLOT};
use crate::event::{Event, Sfx, MAX_EVENTS, queued};
use crate::fixed::{px, to_px, Fx, floor_px};
use crate::geom::{Dir, V2, dir_step, fits_i32};
use crate::input::button;
use crate::items::{Item, item_bit, capped, owns};
use crate::level::{clamp_spec, tile_center, tile_lo, TILE_PX};
use crate::physics::{self, near_origin, sane_body};
use crate::tiles::{self, flag, tile};
use crate::world::{
    camera_for_room, can_move, in_play, Role, in_play_spec, pstate, seat_ok, playable, World, ROOM_SCROLL_FRAMES,
    PLAY_LIMIT, made, has_room,
};

verus! {

/// Walking speed in fixed-point pixels per frame.
pub const WALK: Fx = 320;

/// Diagonal movement is scaled so speed is the same in every direction.
pub const DIAG: Fx = 181;

/// Frames a sword swing lasts.
pub const SWING_FRAMES: u16 = 16;

/// Frames a lift takes before the object is overhead.
pub const LIFT_FRAMES: u16 = 10;

/// Upward speed of a feather jump.
pub const JUMP_VZ: Fx = 680;

/// Gravity applied to jumps and thrown objects, per frame.
pub const GRAVITY: Fx = 56;

/// The facing for pressed axes: with both axes pressed the current facing
/// stays if it is one of the two, otherwise the horizontal one wins.
pub open spec fn facing_spec(cur: Dir, ax: i32, ay: i32) -> Dir {
    let h = if ax == -1 { Some(Dir::Left) } else if ax == 1 { Some(Dir::Right) } else { None };
    let v = if ay == -1 { Some(Dir::Up) } else if ay == 1 { Some(Dir::Down) } else { None };
    match (h, v) {
        (Some(hd), Some(vd)) => if cur == hd || cur == vd { cur } else { hd },
        (Some(hd), None) => hd,
        (None, Some(vd)) => vd,
        (None, None) => cur,
    }
}

/// Chooses a facing from the pressed axes, keeping the current one when it is
/// still being held so that diagonal movement does not flip-flop.
pub fn facing_for(cur: Dir, ax: i32, ay: i32) -> (r: Dir)
    ensures
        r == facing_spec(cur, ax, ay),
{
    let horizontal = if ax == -1 {
        Some(Dir::Left)
    } else if ax == 1 {
        Some(Dir::Right)
    } else {
        None
    };
    let vertical = if ay == -1 {
        Some(Dir::Up)
    } else if ay == 1 {
        Some(Dir::Down)
    } else {
        None
    };
    match (horizontal, vertical) {
        (Some(h), Some(v)) => {
            if cur == h || cur == v {
                cur
            } else {
                h
            }
        },
        (Some(h), None) => h,
        (None, Some(v)) => v,
        (None, None) => cur,
    }
}

/// Tile coordinates directly in front of an entity: three quarters of a tile
/// ahead of its centre.
pub fn tile_in_front(e: &Entity) -> (r: (i32, i32))
    requires
        near_origin(e.pos, PLAY_LIMIT as int),
    ensures
        r.0 == tile_lo(e.pos.x + dir_step(e.dir).0 * 12 * 256),
        r.1 == tile_lo(e.pos.y + dir_step(e.dir).1 * 12 * 256),
{
    let (dx, dy) = e.dir.step();
    let ahead = V2::new(e.pos.x + px(dx * (TILE_PX * 3 / 4)), e.pos.y + px(dy * (TILE_PX * 3 / 4)));
    physics::tile_coords(ahead)
}

/// Height in whole pixels an entity is drawn above its shadow.
pub fn draw_z(e: &Entity) -> (r: i32)
    ensures
        r == (if floor_px(e.z as int) > 0 { floor_px(e.z as int) } else { 0 }),
{
    let z = to_px(e.z);
    if z > 0 {
        z
    } else {
        0
    }
}

/// Writes an entity back into its slot, if its handle still resolves.
fn write_back(world: &mut World, eid: EntityId, e: Entity)
    requires
        old(world).wf(),
    ensures
        final(world).wf(),
        final(world).players == old(world).players,
        final(world).levels == old(world).levels,
        final(world).events == old(world).events,
        final(world).rng == old(world).rng,
        final(world).spawned == old(world).spawned,
        old(world).entities.resolves(eid) ==> final(world).entities.slots_view() == old(
            world,
        ).entities.slots_view().update(eid.idx as int, e),
        !old(world).entities.resolves(eid) ==> final(world).entities == old(world).entities,
{
    if let Some(slot) = world.entities.get_mut(eid) {
        *slot = e;
    }
}

/// What a chest holds for a given parameter, and the line it shows.
pub open spec fn chest_item(param: i32) -> Option<Item> {
    if param == 1 {
        Some(Item::Bombs)
    } else if param == 2 {
        Some(Item::Bow)
    } else if param == 3 {
        Some(Item::Boomerang)
    } else if param == 4 {
        Some(Item::Feather)
    } else if param == 5 {
        Some(Item::Bracelet)
    } else if param == 6 {
        Some(Item::Flippers)
    } else if param == 7 {
        Some(Item::Boots)
    } else if param == 8 {
        Some(Item::Shield)
    } else {
        None
    }
}

/// Grants the contents of a chest: an item (bombs and the bow come with ten
/// bombs and twenty arrows), a small key for parameter 9, otherwise twenty
/// rupees.
pub fn open_chest(world: &mut World, pi: usize, param: i32)
    requires
        old(world).wf(),
        pi < old(world).players@.len(),
    ensures
        final(world).wf(),
        final(world).players@.len() == old(world).players@.len(),
        final(world).entities == old(world).entities,
        final(world).levels == old(world).levels,
        ({
            let i0 = old(world).players@[pi as int].inv;
            let i = final(world).players@[pi as int].inv;
            &&& chest_item(param) matches Some(it) ==> i.bits() == i0.bits() | item_bit(it)
            &&& chest_item(param) == Some(Item::Bombs) ==> i.bombs == capped(i0.bombs as int + 10, 255, i0.max_bombs as int)
            &&& chest_item(param) == Some(Item::Bow) ==> i.arrows == capped(i0.arrows as int + 20, 255, i0.max_arrows as int)
            &&& chest_item(param).is_none() && param == 9 ==> i.keys == (if i0.keys < 255 { i0.keys + 1 } else { 255 })
            &&& chest_item(param).is_none() && param != 9 ==> i.rupees == capped(i0.rupees as int + 20, 65535, 999)
        }),
{
    let (item, text): (Option<Item>, &'static str) = if param == 1 {
        (Some(Item::Bombs), "BOMBS!")
    } else if param == 2 {
        (Some(Item::Bow), "BOW AND ARROWS!")
    } else if param == 3 {
        (Some(Item::Boomerang), "BOOMERANG!")
    } else if param == 4 {
        (Some(Item::Feather), "ROC'S FEATHER!")
    } else if param == 5 {
        (Some(Item::Bracelet), "POWER BRACELET!")
    } else if param == 6 {
        (Some(Item::Flippers), "FLIPPERS!")
    } else if param == 7 {
        (Some(Item::Boots), "PEGASUS BOOTS!")
    } else if param == 8 {
        (Some(Item::Shield), "SHIELD!")
    } else if param == 9 {
        (None, "A SMALL KEY")
    } else {
        (None, "20 RUPEES")
    };
    let mut p = world.players[pi];
    match item {
        Some(Item::Bombs) => {
            p.inv.give(Item::Bombs);
            p.inv.add_bombs(10);
        },
        Some(Item::Bow) => {
            p.inv.give(Item::Bow);
            p.inv.add_arrows(20);
        },
        Some(i) => p.inv.give(i),
        None => {
            if param == 9 {
                p.inv.keys = if p.inv.keys < 255 { p.inv.keys + 1 } else { 255 };
            } else {
                p.inv.add_rupees(20);
            }
        },
    }
    proof {
        assert(seat_ok(world.players@[pi as int], world.levels@.len() as int));
    }
    world.set_player(pi, p);
    world.say(pi, text);
}


/// A velocity of `len` along a facing; see [`aim`].
pub open spec fn aim_spec(d: Dir, len: Fx) -> V2 {
    V2 {
        x: #[verifier::truncate] (crate::fixed::tdiv(dir_step(d).0 * 256 * len, 256) as i32),
        y: #[verifier::truncate] (crate::fixed::tdiv(dir_step(d).1 * 256 * len, 256) as i32),
    }
}

/// A velocity aimed along a facing points that way at the full speed, and
/// not at all across it: aiming right flies right, aiming up flies up.
pub proof fn lemma_aim_ahead(d: Dir, len: Fx)
    requires
        0 <= len <= 0x10_0000,
    ensures
        aim_spec(d, len).x == dir_step(d).0 * len,
        aim_spec(d, len).y == dir_step(d).1 * len,
{
    let a = len * 256;
    assert(crate::fixed::tdiv(a, 256) == len) by (nonlinear_arith)
        requires
            0 <= len <= 0x10_0000,
            a == len * 256,
    ;
    assert(crate::fixed::tdiv(-a, 256) == -len) by (nonlinear_arith)
        requires
            0 <= len <= 0x10_0000,
            a == len * 256,
    ;
    assert(crate::fixed::tdiv(0, 256) == 0);
    let sx = dir_step(d).0;
    let sy = dir_step(d).1;
    assert(sx * 256 * len == if sx == 1 { a } else if sx == -1 { -a } else { 0 }) by (nonlinear_arith)
        requires
            sx == 1 || sx == -1 || sx == 0,
            a == len * 256,
    ;
    assert(sy * 256 * len == if sy == 1 { a } else if sy == -1 { -a } else { 0 }) by (nonlinear_arith)
        requires
            sy == 1 || sy == -1 || sy == 0,
            a == len * 256,
    ;
}

/// A velocity of `len` along a facing.
pub fn aim(d: Dir, len: Fx) -> (r: V2)
    ensures
        r == aim_spec(d, len),
        ({
            let l = 256int;
            &&& r.x == #[verifier::truncate] (crate::fixed::tdiv(dir_step(d).0 * 256 * len, l) as i32)
            &&& r.y == #[verifier::truncate] (crate::fixed::tdiv(dir_step(d).1 * 256 * len, l) as i32)
        }),
{
    let u = d.unit();
    proof {
        assert(u.norm2() == 65536) by {
            assert(u.x * u.x + u.y * u.y == 65536) by (nonlinear_arith)
                requires
                    (u.x == 0 && (u.y == 256 || u.y == -256)) || (u.y == 0 && (u.x == 256 || u.x
                        == -256)),
            ;
        }
        crate::fixed::lemma_floor_sqrt_is(65536, 256);
    }
    u.with_length(len)
}

/// Throws whatever the player is carrying: it flies four pixels a frame the
/// way the player faces, from twelve pixels up, for at most ninety frames.
pub fn throw_carried(world: &mut World, pi: usize)
    requires
        old(world).wf(),
        pi < old(world).players@.len(),
    ensures
        final(world).wf(),
        final(world).players@.len() == old(world).players@.len(),
        final(world).levels == old(world).levels,
        final(world).players@[pi as int].carrying == (EntityId { idx: NO_SLOT, gen: 0 }),
{
    let cid = world.players[pi].carrying;
    let mut p = world.players[pi];
    p.carrying = EntityId::none();
    proof {
        assert(seat_ok(world.players@[pi as int], world.levels@.len() as int));
    }
    world.set_player(pi, p);
    let dir = match world.player_entity(pi) {
        Some(e) => e.dir,
        None => {
            return;
        },
    };
    if let Some(c) = world.entities.get_mut(cid) {
        c.state = 1;
        c.vel = aim(dir, px(4));
        c.vz = 0;
        c.z = px(12);
        c.timer = 90;
    }
    let eid = world.players[pi].entity;
    if let Some(e) = world.entities.get_mut(eid) {
        e.state = pstate::THROW;
        e.timer = 8;
    }
    world.events.sound(Sfx::Throw);
}

/// Picks up the bush, pot or rock in front of the player. Rocks need the
/// bracelet; the tile is replaced by what it leaves behind and a carried
/// object takes its place overhead.
pub fn lift(world: &mut World, pi: usize)
    requires
        old(world).wf(),
        pi < old(world).players@.len(),
    ensures
        final(world).wf(),
        final(world).players@.len() == old(world).players@.len(),
        final(world).levels@.len() == old(world).levels@.len(),
        ({
            let eid = old(world).players@[pi as int].entity;
            let e = old(world).entities.slots_view()[eid.idx as int];
            let k = if (e.level as int) < old(world).levels@.len() - 1 { e.level as int } else { old(world).levels@.len() - 1 };
            let tx = tile_lo(e.pos.x + dir_step(e.dir).0 * 12 * 256);
            let ty = tile_lo(e.pos.y + dir_step(e.dir).1 * 12 * 256);
            let t = old(world).levels@[k].map.tile_at(tx, ty);
            let can = old(world).entities.resolves(eid) && in_play_spec(e) && tiles::flags_spec(t) & flag::LIFTABLE != 0;
            let heavy = t == tile::ROCK && !owns(old(world).players@[pi as int].inv.bits(), Item::Bracelet);
            let ev0 = old(world).events@;
            &&& !can ==> *final(world) == *old(world)
            &&& can && heavy && ev0.len() + 2 <= MAX_EVENTS ==> final(world).events@ == ev0.push(Event::Sound(Sfx::Error)).push(
                Event::Message("TOO HEAVY"),
            ) && final(world).levels == old(world).levels
            &&& can && !heavy ==> {
                &&& old(world).levels@[k].map.painted(final(world).levels@[k].map, tiles::destroyed_spec(t), |x: int, y: int| x == tx && y == ty)
                &&& ev0.len() < MAX_EVENTS ==> final(world).events@ == ev0.push(Event::Sound(Sfx::Lift))
            }
        }),
{
    let e = match world.player_entity(pi) {
        Some(e) => *e,
        None => {
            return;
        },
    };
    if !in_play(&e) {
        return;
    }
    let (tx, ty) = tile_in_front(&e);
    let t = world.level(e.level).map.get(tx, ty);
    if !tiles::any(t, flag::LIFTABLE) {
        return;
    }
    if t == tile::ROCK && !world.players[pi].inv.has(Item::Bracelet) {
        world.events.sound(Sfx::Error);
        world.say(pi, "TOO HEAVY");
        return;
    }
    world.set_tile(e.level, tx, ty, tiles::destroyed(t));
    let eid = world.players[pi].entity;
    let id = world.spawn(Kind::Carried, e.level, tile_center(tx, ty));
    if let Some(c) = world.entities.get_mut(id) {
        c.owner = eid;
        c.data[0] = t as i32;
        c.z = px(14);
        c.state = 0;
    }
    let mut p = world.players[pi];
    p.carrying = id;
    proof {
        assert(seat_ok(world.players@[pi as int], world.levels@.len() as int));
    }
    world.set_player(pi, p);
    if let Some(pe) = world.entities.get_mut(eid) {
        pe.state = pstate::LIFT;
        pe.timer = LIFT_FRAMES;
    }
    world.events.sound(Sfx::Lift);
}

/// Starts a sword swing: the blade appears twelve pixels ahead of the hand,
/// and at full health a beam flies off too, as it does in the classics.
pub fn swing_sword(world: &mut World, pi: usize)
    requires
        old(world).wf(),
        pi < old(world).players@.len(),
    ensures
        final(world).wf(),
        final(world).players == old(world).players,
        final(world).levels == old(world).levels,
        ({
            let eid = old(world).players@[pi as int].entity;
            let e = old(world).entities.slots_view()[eid.idx as int];
            let swings = old(world).entities.resolves(eid) && e.state != pstate::ATTACK && in_play_spec(e);
            let ev0 = old(world).events@;
            let ev1 = if ev0.len() < MAX_EVENTS { ev0.push(Event::Sound(Sfx::SwordSwing)) } else { ev0 };
            let ev2 = if e.hp >= e.max_hp && ev1.len() < MAX_EVENTS { ev1.push(Event::Sound(Sfx::SwordBeam)) } else { ev1 };
            &&& !swings ==> *final(world) == *old(world)
            &&& swings ==> final(world).events@ == ev2 && final(world).rng == old(world).rng
        }),
{
    let eid = world.players[pi].entity;
    let e = match world.entities.get(eid) {
        Some(e) => *e,
        None => {
            return;
        },
    };
    if e.state == pstate::ATTACK || !in_play(&e) {
        return;
    }
    if let Some(p) = world.entities.get_mut(eid) {
        p.state = pstate::ATTACK;
        p.timer = SWING_FRAMES;
    }
    let (dx, dy) = e.dir.step();
    let at = V2::new(e.pos.x + px(dx * 12), e.pos.y + px(dy * 12) - px(4));
    let id = world.spawn(Kind::SwordSwing, e.level, at);
    let lvl = world.players[pi].inv.sword_level;
    if let Some(s) = world.entities.get_mut(id) {
        s.owner = eid;
        s.dir = e.dir;
        s.timer = SWING_FRAMES - 4;
        s.data[0] = if lvl > 1 { lvl as i32 } else { 1 };
    }
    world.events.sound(Sfx::SwordSwing);
    if e.hp >= e.max_hp {
        let id = world.spawn(Kind::SwordBeam, e.level, at);
        if let Some(b) = world.entities.get_mut(id) {
            b.owner = eid;
            b.dir = e.dir;
            b.vel = aim(e.dir, info(Kind::SwordBeam).speed);
            b.timer = 50;
        }
        world.events.sound(Sfx::SwordBeam);
    }
}

/// True when some live boomerang belongs to `owner`.
fn boomerang_out(world: &World, owner: EntityId) -> (r: bool)
    requires
        world.wf(),
    ensures
        r == exists|i: int|
            0 <= i < world.entities.slots_view().len() && #[trigger] world.entities.slots_view()[i].alive
                && world.entities.slots_view()[i].kind == Kind::Boomerang && world.entities.slots_view()[i].owner == owner,
{
    let n = world.entities.capacity();
    let mut i: usize = 0;
    while i < n
        invariant
            i <= n,
            n == world.entities.slots_view().len(),
            forall|k: int|
                0 <= k < i ==> !(#[trigger] world.entities.slots_view()[k].alive && world.entities.slots_view()[k].kind
                    == Kind::Boomerang && world.entities.slots_view()[k].owner == owner),
        decreases n - i,
    {
        if let Some(b) = world.entities.at(i) {
            if b.kind == Kind::Boomerang && b.owner == owner {
                return true;
            }
        }
        i = i + 1;
    }
    false
}

/// Uses an equipped item. `slot` is 0 for A and 1 for B. Nothing happens to
/// a hurt or falling hero; one carrying something throws it instead; an item
/// that cannot be used buzzes.
pub fn use_item(world: &mut World, pi: usize, item: Item, slot: usize)
    requires
        old(world).wf(),
        pi < old(world).players@.len(),
    ensures
        final(world).wf(),
        final(world).players@.len() == old(world).players@.len(),
        final(world).levels@.len() == old(world).levels@.len(),
        ({
            let p = old(world).players@[pi as int];
            let e = old(world).entities.slots_view()[p.entity.idx as int];
            let ready = old(world).entities.resolves(p.entity) && e.state != pstate::HURT && e.state != pstate::FALL
                && p.carrying.idx == NO_SLOT;
            let usable = owns(p.inv.bits(), item) && (item == Item::Bombs ==> p.inv.bombs > 0) && (item == Item::Bow
                ==> p.inv.arrows > 0);
            let ev0 = old(world).events@;
            &&& !old(world).entities.resolves(p.entity) || e.state == pstate::HURT || e.state == pstate::FALL
                ==> *final(world) == *old(world)
            &&& ready && item != Item::Nothing && !usable ==> *final(world) == (World { events: final(world).events, ..*old(world) })
                && (ev0.len() < MAX_EVENTS ==> final(world).events@ == ev0.push(Event::Sound(Sfx::Error)))
            &&& ready && item == Item::Shield && usable ==> *final(world) == (World { events: final(world).events, ..*old(world) })
                && (ev0.len() < MAX_EVENTS ==> final(world).events@ == ev0.push(Event::Sound(Sfx::Shield)))
            &&& ready && item == Item::Feather && usable && ev0.len() < MAX_EVENTS ==> final(world).events@ == ev0.push(
                Event::Sound(Sfx::Jump),
            )
            &&& ready && item == Item::Sword && usable ==> {
                let ev1 = queued(ev0, Event::Sound(Sfx::SwordSwing));
                let ev2 = if e.hp >= e.max_hp { queued(ev1, Event::Sound(Sfx::SwordBeam)) } else { ev1 };
                &&& final(world).players == old(world).players && final(world).levels == old(world).levels
                &&& e.state != pstate::ATTACK && in_play_spec(e) ==> final(world).events@ == ev2
                &&& !(e.state != pstate::ATTACK && in_play_spec(e)) ==> *final(world) == *old(world)
            }
            &&& ready && item == Item::Bombs && usable ==> {
                let q = final(world).players@[pi as int];
                &&& q == (crate::world::Player { inv: q.inv, ..p }) && q.inv.bombs == p.inv.bombs - 1
                &&& q.inv.arrows == p.inv.arrows && q.inv.bits() == p.inv.bits()
                &&& in_play_spec(e) ==> final(world).events@ == queued(ev0, Event::Sound(Sfx::BombPlace)) && made(
                    old(world).entities,
                    final(world).entities,
                    Kind::Bomb,
                    e.level,
                    V2 {
                        x: (e.pos.x + dir_step(e.dir).0 * 14 * 256) as i32,
                        y: (e.pos.y + dir_step(e.dir).1 * 14 * 256) as i32,
                    },
                    (|a: Entity, b: Entity| b == Entity { timer: 120, owner: p.entity, ..a }),
                )
            }
            &&& ready && item == Item::Boomerang && usable ==> {
                let out = exists|i: int|
                    0 <= i < old(world).entities.slots_view().len() && #[trigger] old(world).entities.slots_view()[i].alive
                        && old(world).entities.slots_view()[i].kind == Kind::Boomerang
                        && old(world).entities.slots_view()[i].owner == p.entity;
                &&& out ==> *final(world) == *old(world)
                &&& !out ==> {
                    &&& final(world).players == old(world).players && final(world).levels == old(world).levels
                    &&& final(world).events@ == queued(ev0, Event::Sound(Sfx::Boomerang))
                    &&& made(
                        old(world).entities,
                        final(world).entities,
                        Kind::Boomerang,
                        e.level,
                        e.pos,
                        (|a: Entity, b: Entity|
                            b == Entity {
                                dir: e.dir,
                                owner: p.entity,
                                vel: aim_spec(e.dir, kind_info(Kind::Boomerang).speed),
                                timer: 26,
                                ..a
                            }),
                    )
                }
            }
            &&& ready && item == Item::Bow && usable ==> {
                let q = final(world).players@[pi as int];
                &&& q == (crate::world::Player { inv: q.inv, ..p }) && q.inv.arrows == p.inv.arrows - 1
                &&& q.inv.bombs == p.inv.bombs && q.inv.bits() == p.inv.bits()
                &&& final(world).events@ == queued(ev0, Event::Sound(Sfx::Shoot))
                &&& made(
                    old(world).entities,
                    final(world).entities,
                    Kind::Arrow,
                    e.level,
                    e.pos,
                    (|a: Entity, b: Entity|
                        b == Entity {
                            dir: e.dir,
                            owner: p.entity,
                            flags: a.flags | eflag::PLAYER_OWNED,
                            vel: aim_spec(e.dir, kind_info(Kind::Arrow).speed),
                            timer: 60,
                            ..a
                        }),
                )
            }
        }),
{
    let e = match world.player_entity(pi) {
        Some(e) => *e,
        None => {
            return;
        },
    };
    if e.state == pstate::HURT || e.state == pstate::FALL {
        return;
    }
    if !world.players[pi].carrying.is_none() {
        throw_carried(world, pi);
        return;
    }
    if item != Item::Nothing && !world.players[pi].inv.can_use(item) {
        world.events.sound(Sfx::Error);
        return;
    }
    let eid = world.players[pi].entity;
    match item {
        Item::Sword => swing_sword(world, pi),
        Item::Bombs => {
            let mut p = world.players[pi];
            p.inv.spend(Item::Bombs);
            proof {
                assert(seat_ok(world.players@[pi as int], world.levels@.len() as int));
            }
            world.set_player(pi, p);
            if !in_play(&e) {
                return;
            }
            let (dx, dy) = e.dir.step();
            let at = V2::new(e.pos.x + px(dx * 14), e.pos.y + px(dy * 14));
            let ghost before = world.entities;
            let id = world.spawn(Kind::Bomb, e.level, at);
            let ghost mid = world.entities;
            if let Some(b) = world.entities.get_mut(id) {
                b.timer = 120;
                b.owner = eid;
            }
            proof {
                assert(at == (V2 {
                    x: (e.pos.x + dir_step(e.dir).0 * 14 * 256) as i32,
                    y: (e.pos.y + dir_step(e.dir).1 * 14 * 256) as i32,
                }));
                if has_room(before) {
                    assert(world.entities.resolves(id));
                    assert(crate::entity::is_fresh(mid.slots_view()[id.idx as int], Kind::Bomb, e.level, at, id.gen));
                    assert(forall|i: int|
                        0 <= i < before.slots_view().len() && i != id.idx ==> #[trigger] world.entities.slots_view()[i]
                            == before.slots_view()[i]);
                }
            }
            world.events.sound(Sfx::BombPlace);
        },
        Item::Bow => {
            let mut p = world.players[pi];
            p.inv.spend(Item::Bow);
            proof {
                assert(seat_ok(world.players@[pi as int], world.levels@.len() as int));
            }
            world.set_player(pi, p);
            let ghost before = world.entities;
            let id = world.spawn(Kind::Arrow, e.level, e.pos);
            let ghost mid = world.entities;
            if let Some(a) = world.entities.get_mut(id) {
                a.dir = e.dir;
                a.owner = eid;
                a.flags = a.flags | eflag::PLAYER_OWNED;
                a.vel = aim(e.dir, info(Kind::Arrow).speed);
                a.timer = 60;
            }
            proof {
                if has_room(before) {
                    assert(world.entities.resolves(id));
                    assert(crate::entity::is_fresh(mid.slots_view()[id.idx as int], Kind::Arrow, e.level, e.pos, id.gen));
                    assert(forall|i: int|
                        0 <= i < before.slots_view().len() && i != id.idx ==> #[trigger] world.entities.slots_view()[i]
                            == before.slots_view()[i]);
                }
            }
            world.events.sound(Sfx::Shoot);
        },
        Item::Boomerang => {
            if boomerang_out(world, eid) {
                return;
            }
            let ghost before = world.entities;
            let id = world.spawn(Kind::Boomerang, e.level, e.pos);
            let ghost mid = world.entities;
            if let Some(b) = world.entities.get_mut(id) {
                b.dir = e.dir;
                b.owner = eid;
                b.vel = aim(e.dir, info(Kind::Boomerang).speed);
                b.timer = 26;
            }
            proof {
                if has_room(before) {
                    assert(world.entities.resolves(id));
                    assert(crate::entity::is_fresh(mid.slots_view()[id.idx as int], Kind::Boomerang, e.level, e.pos, id.gen));
                    assert(forall|i: int|
                        0 <= i < before.slots_view().len() && i != id.idx ==> #[trigger] world.entities.slots_view()[i]
                            == before.slots_view()[i]);
                }
            }
            world.events.sound(Sfx::Boomerang);
        },
        Item::Feather => {
            if let Some(p) = world.entities.get_mut(eid) {
                if !p.has(eflag::AIRBORNE) {
                    p.set_flag(eflag::AIRBORNE, true);
                    p.vz = JUMP_VZ;
                    p.state = pstate::JUMP;
                }
            }
            world.events.sound(Sfx::Jump);
        },
        Item::Bracelet => {
            lift(world, pi);
        },
        Item::Shield => {
            world.events.sound(Sfx::Shield);
        },
        Item::Boots | Item::Flippers | Item::Nothing => {
            // Passive, or nothing equipped: fall back to lifting.
            if slot == 0 {
                lift(world, pi);
            }
        },
    }
}

/// Handles context actions that take priority over the equipped item:
/// throwing what you are holding, unlocking a door (which takes a key),
/// reading a sign, opening a chest. Returns true when something happened.
pub fn try_interact(world: &mut World, pi: usize) -> (r: bool)
    requires
        old(world).wf(),
        pi < old(world).players@.len(),
    ensures
        final(world).wf(),
        final(world).players@.len() == old(world).players@.len(),
        final(world).levels@.len() == old(world).levels@.len(),
        old(world).players@[pi as int].carrying.idx != NO_SLOT ==> r,
{
    if !world.players[pi].carrying.is_none() {
        throw_carried(world, pi);
        return true;
    }
    let e = match world.player_entity(pi) {
        Some(e) => *e,
        None => {
            return false;
        },
    };
    if !in_play(&e) {
        return false;
    }
    let (tx, ty) = tile_in_front(&e);
    let t = world.level(e.level).map.get(tx, ty);
    if tiles::any(t, flag::LOCKED) {
        let mut p = world.players[pi];
        if p.inv.use_key() {
            proof {
                assert(seat_ok(world.players@[pi as int], world.levels@.len() as int));
            }
            world.set_player(pi, p);
            world.set_tile(e.level, tx, ty, tile::DOOR_OPEN);
            world.events.sound(Sfx::Unlock);
            world.say(pi, "THE DOOR OPENS");
        } else {
            world.events.sound(Sfx::Error);
            world.say(pi, "IT IS LOCKED");
        }
        return true;
    }
    if t == tile::SIGN {
        world.events.sound(Sfx::Text);
        world.say(pi, "DANGER AHEAD");
        return true;
    }
    let front = tile_center(tx, ty);
    let n = world.entities.capacity();
    let mut found: Option<(EntityId, i32)> = None;
    let mut i: usize = 0;
    while i < n
        invariant
            world.wf(),
            i <= n,
            n == world.entities.slots_view().len(),
        decreases n - i,
    {
        if let Some(c) = world.entities.at(i) {
            let ddx = c.pos.x as i64 - front.x as i64;
            let ddy = c.pos.y as i64 - front.y as i64;
            let adx = if ddx < 0 { -ddx } else { ddx };
            let ady = if ddy < 0 { -ddy } else { ddy };
            if c.kind == Kind::Chest && c.level == e.level && c.state == 0 && adx < 12 * 256 && ady
                < 12 * 256 {
                found = Some((world.entities.id_of(i), c.data[0]));
                break;
            }
        }
        i = i + 1;
    }
    match found {
        Some((id, param)) => {
            if let Some(c) = world.entities.get_mut(id) {
                c.state = 1;
            }
            world.events.sound(Sfx::ChestOpen);
            open_chest(world, pi, param);
            true
        },
        None => false,
    }
}


/// Advances one player by a frame: timers, knockback, steering, terrain
/// (water, pits, ledges, stairs), the A, B and START buttons, the carried
/// object, and the camera when the hero crosses into another room. A player
/// driving a boss is handed to the boss controls instead.
pub fn update(world: &mut World, pi: usize)
    requires
        old(world).wf(),
        pi < old(world).players@.len(),
    ensures
        final(world).wf(),
        final(world).players@.len() == old(world).players@.len(),
        final(world).levels@.len() == old(world).levels@.len(),
        ({
            let p = old(world).players@[pi as int];
            let e0 = old(world).entities.slots_view()[p.entity.idx as int];
            let present = p.role != Role::Boss && old(world).entities.resolves(p.entity);
            &&& p.role != Role::Boss && !(present) ==> *final(world) == *old(world)
            &&& present && (!p.is_alive_spec() || e0.state == pstate::DEAD) ==> {
                &&& final(world).players == old(world).players && final(world).levels == old(world).levels
                &&& final(world).events == old(world).events && final(world).rng == old(world).rng
                &&& final(world).entities.slots_view() == old(world).entities.slots_view().update(
                    p.entity.idx as int,
                    Entity {
                        iframes: if e0.iframes > 0 { (e0.iframes - 1) as u8 } else { 0 },
                        stun: if e0.stun > 0 { (e0.stun - 1) as u8 } else { 0 },
                        anim_timer: if e0.anim_timer > 0 { (e0.anim_timer - 1) as u8 } else { 0 },
                        vel: V2 { x: 0, y: 0 },
                        ..e0
                    },
                )
            }
        }),
{
    if world.players[pi].role == Role::Boss {
        crate::boss::update(world, pi);
        return;
    }
    let eid = world.players[pi].entity;
    let mut e = match world.entities.get(eid) {
        Some(e) => *e,
        None => {
            return;
        },
    };
    e.iframes = if e.iframes > 0 { e.iframes - 1 } else { 0 };
    e.stun = if e.stun > 0 { e.stun - 1 } else { 0 };
    if e.anim_timer > 0 {
        e.anim_timer = e.anim_timer - 1;
    }
    if !world.players[pi].is_alive() || e.state == pstate::DEAD {
        e.vel = V2::zero();
        write_back(world, eid, e);
        return;
    }
    if !in_play(&e) || (e.level as usize) >= world.levels.len() {
        return;
    }
    if e.state == pstate::HURT || e.state == pstate::ATTACK || e.state == pstate::LIFT || e.state
        == pstate::THROW {
        e.timer = if e.timer > 0 { e.timer - 1 } else { 0 };
        if e.timer == 0 {
            e.state = pstate::NORMAL;
        }
    } else if e.state == pstate::FALL {
        e.timer = if e.timer > 0 { e.timer - 1 } else { 0 };
        if e.timer == 0 {
            e.state = pstate::NORMAL;
            let safe = V2::new(e.data[0], e.data[1]);
            e.pos = safe;
            e.z = 0;
            e.vz = 0;
            write_back(world, eid, e);
            // No knockback: the player has just been put back on solid
            // ground and must not be shoved into the hole again.
            world.hurt_player_with(pi, 2, safe, 0);
            return;
        }
        write_back(world, eid, e);
        return;
    }
    let input = world.players[pi].input;
    let (e, ax, ay) = walk(world, pi, e, input);
    match terrain(world, pi, eid, e, ax, ay) {
        Some(e) => {
            let e = buttons(world, pi, eid, e, input);
            settle(world, pi, eid, e);
        },
        None => {},
    }
}

#[verifier::rlimit(40)]
/// The walking part of a frame: knockback, facing and animation, speed from
/// terrain, state, boots; the jump arc; and the move itself.
fn walk(world: &World, pi: usize, e: Entity, input: crate::input::Input) -> (r: (Entity, i32, i32))
    requires
        world.wf(),
        pi < world.players@.len(),
        in_play_spec(e),
        (e.level as int) < world.levels@.len(),
    ensures
        r.0.level == e.level,
        r.0.body_w == e.body_w && r.0.body_h == e.body_h,
        r.0.data == e.data,
        -1 <= r.1 <= 1 && -1 <= r.2 <= 1,
{
    let mut e = e;
    let level = e.level;
    proof {
        assert(playable(world.levels@[level as int]));
    }
    // Knockback overrides steering for a few frames.
    if e.knock_frames > 0 {
        e.knock_frames = e.knock_frames - 1;
        let k = e.knock;
        if can_move(&e, k) {
            physics::move_by(&world.levels[level as usize].map, &mut e, k);
        }
        if e.knock_frames == 0 {
            e.knock = V2::zero();
        }
    }
    let can_steer = e.state == pstate::NORMAL || e.state == pstate::SWIM || e.has(eflag::AIRBORNE);
    let mut ax = input.axis_x();
    let mut ay = input.axis_y();
    if !can_steer {
        ax = 0;
        ay = 0;
    }
    if ax != 0 || ay != 0 {
        e.dir = facing_for(e.dir, ax, ay);
        if e.anim_timer < 1 {
            e.anim_timer = 1;
        }
        if e.anim_timer == 1 {
            e.anim = e.anim.wrapping_add(1) & 3;
            e.anim_timer = 7;
        }
    } else {
        e.anim = 0;
    }
    // Speed depends on terrain and state.
    let foot_tile = world.levels[level as usize].map.at_world(e.pos);
    let mut speed: Fx = WALK;
    if e.state == pstate::SWIM {
        speed = WALK / 2;
    } else if tiles::any(foot_tile, flag::SLOW) {
        speed = WALK * 3 / 4;
    }
    if e.state == pstate::ATTACK {
        speed = speed / 2;
    }
    if world.players[pi].inv.has(Item::Boots) && input.held(button::SELECT) {
        speed = speed * 2;
    }
    assert(0 <= speed <= 640);
    let vx: i32 = if ax < 0 { -speed } else if ax > 0 { speed } else { 0 };
    let vy: i32 = if ay < 0 { -speed } else if ay > 0 { speed } else { 0 };
    assert(vx == speed * ax && vy == speed * ay) by (nonlinear_arith)
        requires
            -1 <= ax <= 1,
            -1 <= ay <= 1,
            vx == (if ax < 0 { -speed } else if ax > 0 { speed as int } else { 0 }),
            vy == (if ay < 0 { -speed } else if ay > 0 { speed as int } else { 0 }),
    ;
    let mut delta = V2::new(vx, vy);
    if ax != 0 && ay != 0 {
        delta = V2::new(
            crate::fixed::div_trunc((delta.x * DIAG) as i64, 256) as i32,
            crate::fixed::div_trunc((delta.y * DIAG) as i64, 256) as i32,
        );
    }
    // Airborne movement keeps going in the jump direction.
    if e.has(eflag::AIRBORNE) {
        e.vz = e.vz - GRAVITY;
        e.z = e.z + e.vz;
        if e.z <= 0 {
            e.z = 0;
            e.vz = 0;
            e.set_flag(eflag::AIRBORNE, false);
            if e.state == pstate::JUMP {
                e.state = pstate::NORMAL;
            }
        }
    }
    if (delta.x != 0 || delta.y != 0) && can_move(&e, delta) {
        physics::move_by(&world.levels[level as usize].map, &mut e, delta);
    }
    (e, ax, ay)
}

/// What the ground does to a hero after the move: deep water washes them
/// back (unless they have flippers), pits make them fall, ledges hop them
/// down, stairs take them elsewhere. `None` when the frame ends here.
fn terrain(world: &mut World, pi: usize, eid: EntityId, e: Entity, ax: i32, ay: i32) -> (r: Option<Entity>)
    requires
        old(world).wf(),
        pi < old(world).players@.len(),
        (e.level as int) < old(world).levels@.len(),
        in_play_spec(e) || true,
        0 <= e.body_w <= crate::world::BODY_LIMIT,
        0 <= e.body_h <= crate::world::BODY_LIMIT,
        near_origin(V2 { x: e.data[0], y: e.data[1] }, PLAY_LIMIT as int),
    ensures
        final(world).wf(),
        final(world).players@.len() == old(world).players@.len(),
        final(world).levels@.len() == old(world).levels@.len(),
        r matches Some(f) ==> f.level == e.level && f.body_w == e.body_w && f.body_h == e.body_h,
{
    let mut e = e;
    let level = e.level;
    let (tx, ty) = physics::tile_coords(e.pos);
    let here = world.levels[level as usize].map.get(tx, ty);
    let here_flags = tiles::flags(here);
    if !e.has(eflag::AIRBORNE) {
        if here_flags & flag::WATER != 0 {
            if here == tile::LAVA || !world.players[pi].inv.has(Item::Flippers) {
                // Wash back to the last safe spot and take a knock.
                let safe = V2::new(e.data[0], e.data[1]);
                e.pos = safe;
                e.state = pstate::NORMAL;
                write_back(world, eid, e);
                world.events.sound(Sfx::Splash);
                world.hurt_player_with(pi, 2, safe, 0);
                return None;
            }
            e.state = pstate::SWIM;
        } else {
            if e.state == pstate::SWIM {
                e.state = pstate::NORMAL;
            }
            if here_flags & flag::PIT != 0 {
                e.state = pstate::FALL;
                e.timer = 24;
                world.events.sound(Sfx::Fall);
                write_back(world, eid, e);
                return None;
            }
            if here_flags & (flag::SOLID | flag::HARMFUL) == 0 {
                // Remember where it is safe to be put back.
                e.data[0] = e.pos.x;
                e.data[1] = e.pos.y;
            }
        }
        // Hop down a ledge when walking into it.
        match tiles::ledge_dir(here) {
            Some(ld) => {
                let st = ld.step();
                if ax == st.0 && ay == st.1 {
                    e.set_flag(eflag::AIRBORNE, true);
                    e.vz = JUMP_VZ / 2;
                    e.state = pstate::JUMP;
                    let u = ld.unit();
                    e.knock = V2::new(u.x * 2, u.y * 2);
                    e.knock_frames = 12;
                    world.events.sound(Sfx::Jump);
                }
            },
            None => {},
        }
    }
    // Stairs and warps.
    if here_flags & flag::TRANSITION != 0 {
        match world.levels[level as usize].link_at(tx, ty) {
            Some(link) => {
                let link = *link;
                write_back(world, eid, e);
                world.warp_player(pi, link.to_level, link.to_pos, link.to_dir);
                return None;
            },
            None => {},
        }
    }
    Some(e)
}

/// The buttons: A interacts or uses the first item, B the second, START
/// swaps them. Returns the hero as the items left it.
fn buttons(world: &mut World, pi: usize, eid: EntityId, e: Entity, input: crate::input::Input) -> (r: Entity)
    requires
        old(world).wf(),
        pi < old(world).players@.len(),
    ensures
        final(world).wf(),
        final(world).players@.len() == old(world).players@.len(),
        final(world).levels@.len() == old(world).levels@.len(),
        r.level == e.level,
{
    let mut e = e;
    if input.pressed(button::A) {
        write_back(world, eid, e);
        if try_interact(world, pi) {
            return e;
        }
        let item = world.players[pi].inv.equipped[0];
        use_item(world, pi, item, 0);
        match world.entities.get(eid) {
            Some(u) => {
                if u.level == e.level {
                    e = *u;
                }
            },
            None => {},
        }
    }
    if input.pressed(button::B) {
        write_back(world, eid, e);
        let item = world.players[pi].inv.equipped[1];
        use_item(world, pi, item, 1);
        match world.entities.get(eid) {
            Some(u) => {
                if u.level == e.level {
                    e = *u;
                }
            },
            None => {},
        }
    }
    if input.pressed(button::START) {
        let mut p = world.players[pi];
        p.inv.swap_equipped();
        proof {
            assert(seat_ok(world.players@[pi as int], world.levels@.len() as int));
        }
        world.set_player(pi, p);
    }
    e
}

/// The end of a hero's frame: the carried object follows them overhead, they
/// are kept inside the level, and the camera starts scrolling when they
/// cross into another room.
fn settle(world: &mut World, pi: usize, eid: EntityId, e: Entity)
    requires
        old(world).wf(),
        pi < old(world).players@.len(),
        (e.level as int) < old(world).levels@.len(),
    ensures
        final(world).wf(),
        final(world).players@.len() == old(world).players@.len(),
        final(world).levels@.len() == old(world).levels@.len(),
        0 <= e.body_w <= crate::world::BODY_LIMIT && 0 <= e.body_h <= crate::world::BODY_LIMIT ==> {
            let lv = old(world).levels@[e.level as int];
            let x = clamp_spec(e.pos.x as int, e.body_w * 256 / 2, lv.map.tw() * 16 * 256 - e.body_w * 256 / 2);
            let y = clamp_spec(e.pos.y as int, e.body_h * 256 / 2, lv.map.th() * 16 * 256 - e.body_h * 256 / 2);
            final(world).players@[pi as int].room == ((floor_px(x) / 160) as i32, (floor_px(y) / 128) as i32)
        },
{
    let mut e = e;
    let level = e.level;
    if !(0 <= e.body_w && e.body_w <= crate::world::BODY_LIMIT && 0 <= e.body_h && e.body_h
        <= crate::world::BODY_LIMIT) {
        return;
    }
    // Keep the carried object glued overhead.
    let carrying = world.players[pi].carrying;
    if let Some(c) = world.entities.get_mut(carrying) {
        if c.state == 0 && e.pos.y >= i32::MIN + 1024 {
            c.pos = V2::new(e.pos.x, e.pos.y - px(4));
            c.z = px(14);
            c.level = e.level;
        }
    }
    let level_ref = &world.levels[level as usize];
    proof {
        assert(playable(*level_ref));
        level_ref.map.lemma_dims();
    }
    e.pos = level_ref.clamp(e.pos, px(e.body_w) / 2, px(e.body_h) / 2);
    let room = level_ref.room_at(e.pos);
    write_back(world, eid, e);
    let cur = world.players[pi].room;
    if room.0 != cur.0 || room.1 != cur.1 {
        proof {
            crate::world::lemma_room_small(e.pos);
        }
        let (cx, cy) = camera_for_room(&world.levels[level as usize], room);
        let mut p = world.players[pi];
        p.room = room;
        p.camera.target_x = cx;
        p.camera.target_y = cy;
        p.camera.scroll = ROOM_SCROLL_FRAMES;
        proof {
            assert(seat_ok(world.players@[pi as int], world.levels@.len() as int));
        }
        world.set_player(pi, p);
        world.events.push(Event::RoomChanged { player: pi as u8, rx: room.0, ry: room.1 });
    }
}

} // verus!
