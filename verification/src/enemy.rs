//! Monster behaviour.
//!
//! Every monster is a small state machine driven by timers and the shared
//! deterministic RNG. None of them look at wall-clock time or at anything the
//! renderer does, so two machines running the same inputs see the same fight.
use vstd::prelude::*;
use crate::entity::{eflag, info, Entity, EntityId, Kind, kind_info};
use crate::fixed::px;
use crate::geom::{dir_code, Dir, V2, dir_step};
use crate::rng::{advance, draw32, scale_below};
use crate::fixed::{floor_px, floor_sqrt};
use crate::level::TileMap;
use crate::physics::{self, near_origin};
use crate::player::{aim, aim_spec};
use crate::event::{Event, Sfx, MAX_EVENTS};
use crate::tiles::{self, flag};
use crate::world::{can_move, player_within, has_room, in_play, in_play_spec, made, playable, polar, World, PLAY_LIMIT};

verus! {

/// A monster the simulation can step: it is in the play area, on an existing
/// level of a well-formed world.
pub open spec fn steppable(w: World, e: Entity) -> bool {
    &&& w.wf()
    &&& in_play_spec(e)
    &&& (e.level as int) < w.levels@.len()
}

/// Only the entities, the events and the random stream may have changed.
pub open spec fn kept(after: World, before: World) -> bool {
    &&& after.wf()
    &&& after.players@.len() == before.players@.len()
    &&& after.levels@.len() == before.levels@.len()
}

/// A monster's frame clock: damage immunity, stun and its timer count down
/// to zero, and every eighth frame the animation steps on, in four frames.
pub open spec fn ticked(e: Entity) -> Entity {
    let at = ((e.anim_timer + 1) % 256) as u8;
    Entity {
        iframes: if e.iframes > 0 { (e.iframes - 1) as u8 } else { 0 },
        stun: if e.stun > 0 { (e.stun - 1) as u8 } else { 0 },
        timer: if e.timer > 0 { (e.timer - 1) as u16 } else { 0 },
        anim_timer: at,
        anim: if at % 8 == 0 { ((e.anim + 1) % 4) as u8 } else { e.anim },
        ..e
    }
}

/// See [`ticked`].
fn tick(e: Entity) -> (r: Entity)
    ensures
        r == ticked(e),
{
    let mut e = e;
    let ghost e0 = e;
    e.iframes = if e.iframes > 0 { e.iframes - 1 } else { 0 };
    e.stun = if e.stun > 0 { e.stun - 1 } else { 0 };
    e.timer = if e.timer > 0 { e.timer - 1 } else { 0 };
    e.anim_timer = e.anim_timer.wrapping_add(1);
    if e.anim_timer % 8 == 0 {
        let a = e.anim;
        let w = a.wrapping_add(1);
        assert(w & 3 == w % 4) by (bit_vector);
        e.anim = w & 3;
    }
    e
}

/// `after` is `before` with slot `idx` holding `e` when it held a live
/// entity, and unchanged otherwise.
pub open spec fn written(before: World, after: World, idx: int, e: Entity) -> bool {
    if 0 <= idx < before.entities.slots_view().len() && before.entities.slots_view()[idx].alive {
        &&& after == (World { entities: after.entities, ..before })
        &&& after.entities.slots_view() == before.entities.slots_view().update(idx, e)
        &&& after.entities.free_view() == before.entities.free_view()
        &&& after.entities.live_count() == before.entities.live_count()
    } else {
        after == before
    }
}

/// Advances one monster by a frame. Monsters far from every player sleep;
/// knockback and stun take precedence over behaviour.
#[verifier::rlimit(30)]
pub fn update(world: &mut World, idx: usize)
    requires
        old(world).wf(),
    ensures
        kept(*final(world), *old(world)),
        ({
            let e0 = old(world).entities.slots_view()[idx as int];
            let live = idx < old(world).entities.slots_view().len() && e0.alive && in_play_spec(e0)
                && (e0.level as int) < old(world).levels@.len();
            let awake = player_within(*old(world), e0.level, floor_px(e0.pos.x as int) / 160, floor_px(e0.pos.y as int) / 128, 1);
            &&& !live ==> *final(world) == *old(world)
            &&& live && !awake ==> written(*old(world), *final(world), idx as int, ticked(e0))
            &&& live && awake && e0.knock_frames == 0 && ticked(e0).stun > 0 ==> written(*old(world), *final(world), idx as int, ticked(e0))
        }),
{
    let id = world.entities.id_of(idx);
    let mut e = match world.entities.at(idx) {
        Some(e) => *e,
        None => {
            return;
        },
    };
    let ghost e0 = e;
    if !in_play(&e) || (e.level as usize) >= world.levels.len() {
        return;
    }
    e = tick(e);
    // Monsters far from every player go to sleep rather than wandering off.
    if !world.is_near_player(e.level, e.pos, 1) {
        write(world, idx, e);
        return;
    }
    proof {
        assert(playable(world.levels@[e.level as int]));
    }
    if e.knock_frames > 0 {
        e.knock_frames = e.knock_frames - 1;
        let k = e.knock;
        if can_move(&e, k) {
            physics::move_by(&world.levels[e.level as usize].map, &mut e, k);
        }
        if e.knock_frames == 0 {
            e.knock = V2::zero();
        }
        write(world, idx, e);
        return;
    }
    if e.stun > 0 {
        write(world, idx, e);
        return;
    }
    let target = match world.nearest_player(e.level, e.pos, 200) {
        Some((_, p)) => if near(p) {
            Some(p)
        } else {
            None
        },
        None => None,
    };
    if e.kind == Kind::Octorok {
        octorok(world, &mut e, id, target);
    } else if e.kind == Kind::Moblin {
        moblin(world, &mut e, id, target);
    } else if e.kind == Kind::Zol {
        zol(world, &mut e, target);
    } else if e.kind == Kind::Keese {
        keese(world, &mut e, target);
    } else if e.kind == Kind::Tektite {
        tektite(world, &mut e, target);
    } else if e.kind == Kind::Stalfos {
        stalfos(world, &mut e, target);
    } else if e.kind == Kind::Boss {
        boss(world, &mut e, id, target);
    }
    write(world, idx, e);
}

/// True when a position lies inside the play area.
pub fn near(p: V2) -> (r: bool)
    ensures
        r == near_origin(p, PLAY_LIMIT as int),
{
    -PLAY_LIMIT <= p.x && p.x <= PLAY_LIMIT && -PLAY_LIMIT <= p.y && p.y <= PLAY_LIMIT
}

/// Writes a monster back into its slot, if the slot is still live.
fn write(world: &mut World, idx: usize, e: Entity)
    requires
        old(world).wf(),
    ensures
        final(world).wf(),
        final(world).players == old(world).players,
        final(world).levels == old(world).levels,
        written(*old(world), *final(world), idx as int, e),
{
    if let Some(slot) = world.entities.at_mut(idx) {
        *slot = e;
    }
}

/// Moves a walker one step of `speed` along `dir`, refusing to step into
/// water, pits or harmful ground unless it flies. Returns true when it moved
/// without touching a wall.
pub fn walk(map: &TileMap, e: &mut Entity, dir: Dir, speed: i32) -> (r: bool)
    requires
        map.wf(),
        in_play_spec(*old(e)),
        0 <= speed <= 0x1000,
    ensures
        final(e).level == old(e).level,
        final(e).body_w == old(e).body_w && final(e).body_h == old(e).body_h,
        final(e).data == old(e).data,
        *final(e) == (Entity { pos: final(e).pos, ..*old(e) }),
        (final(e).pos, r) == walk_spec(*map, *old(e), dir, speed),
{
    let d = aim(dir, speed);
    proof {
        let s0 = dir_step(dir).0;
        let s1 = dir_step(dir).1;
        assert(-0x10_0000 <= s0 * 256 * speed <= 0x10_0000) by (nonlinear_arith)
            requires
                -1 <= s0 <= 1,
                0 <= speed <= 0x1000,
        ;
        assert(-0x10_0000 <= s1 * 256 * speed <= 0x10_0000) by (nonlinear_arith)
            requires
                -1 <= s1 <= 1,
                0 <= speed <= 0x1000,
        ;
        crate::world::lemma_tdiv_between(s0 * 256 * speed, 256);
        crate::world::lemma_tdiv_between(s1 * 256 * speed, 256);
    }
    let ahead = V2::new(e.pos.x + d.x * 3, e.pos.y + d.y * 3);
    if !e.has(eflag::FLYING) {
        let t = map.at_world(ahead);
        if tiles::any(t, flag::WATER | flag::PIT | flag::HARMFUL) {
            return false;
        }
    }
    if !can_move(e, d) {
        return false;
    }
    let hit = physics::move_by(map, e, d);
    !hit.any()
}

/// Where a walk of `speed` towards `dir` leaves `e`, and whether it went
/// unblocked: a walker that is not flying refuses to step into water, a pit
/// or harm three steps ahead, and stays put on a move too large to make.
pub open spec fn walk_spec(map: TileMap, e: Entity, dir: Dir, speed: i32) -> (V2, bool) {
    let d = aim_spec(dir, speed);
    let ahead = V2 { x: (e.pos.x + d.x * 3) as i32, y: (e.pos.y + d.y * 3) as i32 };
    let t = map.tile_at(crate::level::tile_lo(ahead.x as int), crate::level::tile_lo(ahead.y as int));
    if e.flags & eflag::FLYING == 0 && tiles::flags_spec(t) & (flag::WATER | flag::PIT | flag::HARMFUL) != 0 {
        (e.pos, false)
    } else if !(physics::sane_body(e) && near_origin(e.pos, 0x1000_0000) && near_origin(d, 0x1000_0000)) {
        (e.pos, false)
    } else {
        let (p, hit) = physics::move_spec(map, e, d);
        (p, !(hit.x || hit.y))
    }
}

/// The facing along the longer axis of a gap: sideways when it is wider
/// than tall, else up or down.
pub open spec fn axis_dir(dx: int, dy: int) -> Dir {
    let adx = if dx < 0 { -dx } else { dx };
    let ady = if dy < 0 { -dy } else { dy };
    if adx > ady {
        if dx < 0 { Dir::Left } else { Dir::Right }
    } else if dy < 0 {
        Dir::Up
    } else {
        Dir::Down
    }
}

/// Picks a random direction, biased towards the player when one is in sight:
/// with `bias` percent odds it heads along the longer axis of the gap.
pub fn choose_dir(world: &mut World, e: &Entity, target: Option<V2>, bias: u32) -> (r: Dir)
    requires
        old(world).wf(),
        near_origin(e.pos, PLAY_LIMIT as int),
        target matches Some(t) ==> near_origin(t, PLAY_LIMIT as int),
    ensures
        final(world).wf(),
        *final(world) == (World { rng: final(world).rng, ..*old(world) }),
        ({
            let s0 = old(world).rng.st();
            let aimed = target is Some && scale_below(draw32(s0), 100) < bias;
            let s1 = if target is Some { advance(s0) } else { s0 };
            &&& aimed ==> r == axis_dir(target->0.x - e.pos.x, target->0.y - e.pos.y) && final(world).rng.st() == s1
            &&& !aimed ==> dir_code(r) == scale_below(draw32(s1), 4) % 4 && final(world).rng.st() == advance(s1)
        }),
{
    match target {
        Some(t) => {
            if world.rng.below(100) < bias {
                let d = t.sub(e.pos);
                let adx = if d.x < 0 { -d.x } else { d.x };
                let ady = if d.y < 0 { -d.y } else { d.y };
                return if adx > ady {
                    if d.x < 0 {
                        Dir::Left
                    } else {
                        Dir::Right
                    }
                } else if d.y < 0 {
                    Dir::Up
                } else {
                    Dir::Down
                };
            }
        },
        None => {},
    }
    Dir::from_u8(world.rng.below(4) as u8)
}

/// Fires a projectile of `kind` from a monster along `dir`, for ninety
/// frames at the kind's speed.
pub fn fire_at(world: &mut World, e: &Entity, kind: Kind, dir: Dir)
    requires
        old(world).wf(),
    ensures
        kept(*final(world), *old(world)),
        final(world).players == old(world).players,
        final(world).levels == old(world).levels,
        final(world).same_but_entities(old(world)),
        final(world).rng == old(world).rng,
        made(old(world).entities, final(world).entities, kind, e.level, e.pos, (|a: Entity, b: Entity| b == Entity { dir, vel: aim_spec(dir, kind_info(kind).speed), timer: 90, ..a })),
        old(world).events@.len() < MAX_EVENTS ==> final(world).events@ == old(world).events@.push(Event::Sound(Sfx::Shoot)),
        old(world).events@.len() >= MAX_EVENTS ==> final(world).events@ == old(world).events@,
{
    let id = world.spawn(kind, e.level, e.pos);
    let ghost mid = world.entities;
    let v = aim(dir, info(kind).speed);
    if let Some(p) = world.entities.get_mut(id) {
        p.dir = dir;
        p.vel = v;
        p.timer = 90;
    }
    proof {
        if has_room(old(world).entities) {
            let e1 = world.entities.slots_view()[id.idx as int];
            let e0 = mid.slots_view()[id.idx as int];
            assert(e1 == Entity { dir, vel: aim_spec(dir, kind_info(kind).speed), timer: 90, ..e0 });
            assert(world.entities.resolves(id));
            assert(crate::entity::is_fresh(e0, kind, e.level, e.pos, id.gen));
            assert(forall|i: int|
                0 <= i < old(world).entities.slots_view().len() && i != id.idx ==> #[trigger] world.entities.slots_view()[i]
                    == old(world).entities.slots_view()[i]);
        }
    }
    world.events.sound(crate::event::Sfx::Shoot);
}

/// A timer value drawn from `lo ..= hi`.
fn draw_timer(world: &mut World, lo: i32, hi: i32) -> (r: u16)
    requires
        old(world).wf(),
        0 <= lo <= hi <= 1000,
    ensures
        final(world).wf(),
        *final(world) == (World { rng: final(world).rng, ..*old(world) }),
        lo <= r <= hi,
{
    let v = world.rng.range(lo, hi);
    v as u16
}

/// Octoroks walk, pause, and spit a rock at a hero they line up with.
fn octorok(world: &mut World, e: &mut Entity, id: EntityId, target: Option<V2>)
    requires
        steppable(*old(world), *old(e)),
        target matches Some(t) ==> near_origin(t, PLAY_LIMIT as int),
    ensures
        kept(*final(world), *old(world)),
        final(e).level == old(e).level,
        old(e).state == 0 && old(e).timer == 0 ==> final(e).state == 1 && 20 <= final(e).timer <= 50,
        old(e).state != 0 && !(old(e).timer == 0 && near_origin(old(e).pos, PLAY_LIMIT as int)) ==> *final(e) == *old(e)
            && *final(world) == *old(world),
{
    if e.state == 0 {
        let dir = e.dir;
        let speed = info(Kind::Octorok).speed;
        proof {
            assert(playable(world.levels@[e.level as int]));
        }
        let moved = walk(&world.levels[e.level as usize].map, e, dir, speed);
        if e.timer == 0 {
            e.state = 1;
            e.timer = draw_timer(world, 20, 50);
        } else if !moved && near(e.pos) {
            // Blocked: face somewhere else and keep going.
            e.dir = choose_dir(world, e, target, 40);
        }
    } else {
        if e.timer == 0 && near(e.pos) {
            match target {
                Some(t) => {
                    let d = t.sub(e.pos);
                    let adx = if d.x < 0 { -d.x } else { d.x };
                    let ady = if d.y < 0 { -d.y } else { d.y };
                    let aligned = adx < px(20) || ady < px(20);
                    if aligned && world.rng.below(100) < 60 {
                        e.dir = Dir::from_delta(d.x, d.y);
                        let dir = e.dir;
                        fire_at(world, e, Kind::Rock, dir);
                    }
                },
                None => {},
            }
            e.state = 0;
            e.timer = draw_timer(world, 30, 80);
            e.dir = choose_dir(world, e, target, 40);
        }
    }
}

/// True when there is a target and its distance from `p`, in fixed point
/// and cut to an `i32`, is under `r_px` pixels.
pub open spec fn within_spec(p: V2, target: Option<V2>, r_px: int) -> bool {
    target is Some && (#[verifier::truncate] (floor_sqrt(
        (target->0.x - p.x) * (target->0.x - p.x) + (target->0.y - p.y) * (target->0.y - p.y),
    ) as i32)) < r_px * 256
}

/// True when the target is within `r_px` pixels of `p`.
fn within(p: V2, target: Option<V2>, r_px: i32) -> (r: bool)
    requires
        near_origin(p, PLAY_LIMIT as int),
        target matches Some(t) ==> near_origin(t, PLAY_LIMIT as int),
        0 <= r_px <= 0x1000,
    ensures
        r == within_spec(p, target, r_px as int),
{
    match target {
        Some(t) => {
            proof {
                crate::world::lemma_short_enough(t, p);
            }
            t.sub(p).length() < px(r_px)
        },
        None => false,
    }
}

/// Moblins wander, close in on a nearby hero, and loose an arrow when they
/// line up with one.
fn moblin(world: &mut World, e: &mut Entity, id: EntityId, target: Option<V2>)
    requires
        steppable(*old(world), *old(e)),
        target matches Some(t) ==> near_origin(t, PLAY_LIMIT as int),
    ensures
        kept(*final(world), *old(world)),
        final(e).level == old(e).level,
        old(e).timer != 0 ==> {
            let (p, moved) = walk_spec(
                old(world).levels@[old(e).level as int].map,
                *old(e),
                old(e).dir,
                kind_info(Kind::Moblin).speed,
            );
            &&& *final(world) == *old(world)
            &&& *final(e) == (Entity { pos: p, timer: if moved { old(e).timer } else { 0 }, ..*old(e) })
        },
        old(e).timer == 0 ==> final(e).timer == 30 || final(e).timer == 0 || 20 <= final(e).timer <= 50,
{
    let speed = info(Kind::Moblin).speed;
    let close = within(e.pos, target, 72);
    if e.timer == 0 {
        e.dir = choose_dir(world, e, target, if close { 85 } else { 25 });
        e.timer = draw_timer(world, 20, 50);
        // Moblins loose an arrow when they line up with a hero.
        match target {
            Some(t) => {
                let d = t.sub(e.pos);
                let adx = if d.x < 0 { -d.x } else { d.x };
                let ady = if d.y < 0 { -d.y } else { d.y };
                if (adx < px(12) || ady < px(12)) && world.rng.below(100) < 35 {
                    e.dir = Dir::from_delta(d.x, d.y);
                    let dir = e.dir;
                    fire_at(world, e, Kind::Arrow, dir);
                    e.timer = 30;
                    return;
                }
            },
            None => {},
        }
    }
    let dir = e.dir;
    proof {
        assert(playable(world.levels@[e.level as int]));
    }
    if !walk(&world.levels[e.level as usize].map, e, dir, speed) {
        e.timer = 0;
    }
}

/// Zols sit, then hop towards a hero.
fn zol(world: &mut World, e: &mut Entity, target: Option<V2>)
    requires
        steppable(*old(world), *old(e)),
        target matches Some(t) ==> near_origin(t, PLAY_LIMIT as int),
    ensures
        kept(*final(world), *old(world)),
        final(e).level == old(e).level,
        old(e).state == 0 && old(e).timer != 0 ==> *final(e) == *old(e) && *final(world) == *old(world),
        old(e).state == 0 && old(e).timer == 0 ==> final(e).state == 1 && final(e).timer == 22 && final(e).vz == 420
            && final(e).pos == old(e).pos,
{
    if e.state == 0 {
        if e.timer == 0 {
            e.state = 1;
            e.timer = 22;
            e.dir = choose_dir(world, e, target, 70);
            e.vz = 420;
            e.set_flag(eflag::AIRBORNE, true);
        }
    } else {
        e.vz = e.vz - crate::player::GRAVITY;
        let z = e.z + e.vz;
        e.z = if z > 0 { z } else { 0 };
        if e.z <= 0 {
            e.z = 0;
            e.vz = 0;
            e.set_flag(eflag::AIRBORNE, false);
            e.state = 0;
            e.timer = draw_timer(world, 30, 70);
        }
        let dir = e.dir;
        let speed = info(Kind::Zol).speed * 2;
        proof {
            assert(playable(world.levels@[e.level as int]));
        }
        if in_play(e) {
            walk(&world.levels[e.level as usize].map, e, dir, speed);
        }
    }
}

/// Keese rest until a hero comes near, then flap about in bursts, bouncing
/// off walls.
fn keese(world: &mut World, e: &mut Entity, target: Option<V2>)
    requires
        steppable(*old(world), *old(e)),
        target matches Some(t) ==> near_origin(t, PLAY_LIMIT as int),
    ensures
        kept(*final(world), *old(world)),
        final(e).level == old(e).level,
        old(e).state == 0 ==> *final(world) == *old(world) && *final(e) == if within_spec(old(e).pos, target, 56) {
            Entity { state: 1, timer: 40, ..*old(e) }
        } else {
            *old(e)
        },
{
    // Bats rest until disturbed, then flap about in bursts.
    if e.state == 0 {
        let awake = within(e.pos, target, 56);
        if awake {
            e.state = 1;
            e.timer = 40;
        }
        return;
    }
    if e.timer == 0 {
        e.timer = draw_timer(world, 20, 60);
        let angle = world.rng.below(256) as i32;
        let speed = info(Kind::Keese).speed;
        e.vel = polar(angle, speed);
        proof {
            crate::fixed::lemma_sin_bounded(((angle + 64) % 256) as int);
            crate::fixed::lemma_sin_bounded((angle % 256) as int);
            crate::world::lemma_tdiv_between(crate::fixed::sin_entry(((angle + 64) % 256) as int) * speed, 256);
            crate::world::lemma_tdiv_between(crate::fixed::sin_entry((angle % 256) as int) * speed, 256);
        }
        e.dir = Dir::from_delta(e.vel.x, e.vel.y);
    }
    let v = e.vel;
    proof {
        assert(playable(world.levels@[e.level as int]));
    }
    if can_move(e, v) {
        let hit = physics::move_by(&world.levels[e.level as usize].map, e, v);
        if hit.x {
            e.vel.x = -e.vel.x;
        }
        if hit.y {
            e.vel.y = -e.vel.y;
        }
    }
}

/// Tektites crouch, then leap at a hero, bouncing off what they hit.
fn tektite(world: &mut World, e: &mut Entity, target: Option<V2>)
    requires
        steppable(*old(world), *old(e)),
        target matches Some(t) ==> near_origin(t, PLAY_LIMIT as int),
    ensures
        kept(*final(world), *old(world)),
        final(e).level == old(e).level,
        old(e).state == 0 && old(e).timer != 0 ==> *final(e) == *old(e) && *final(world) == *old(world),
        old(e).state == 0 && old(e).timer == 0 ==> final(e).state == 1 && final(e).timer == 30 && final(e).vz == 600
            && final(e).vel == aim_spec(final(e).dir, kind_info(Kind::Tektite).speed),
{
    if e.state == 0 {
        if e.timer == 0 {
            e.state = 1;
            e.timer = 30;
            e.vz = 600;
            e.set_flag(eflag::AIRBORNE, true);
            let dir = choose_dir(world, e, target, 65);
            e.dir = dir;
            let speed = info(Kind::Tektite).speed;
            e.vel = aim(dir, speed);
        }
    } else {
        e.vz = e.vz - crate::player::GRAVITY;
        let z = e.z + e.vz;
        e.z = if z > 0 { z } else { 0 };
        let v = e.vel;
        proof {
            assert(playable(world.levels@[e.level as int]));
        }
        if can_move(e, v) {
            let hit = physics::move_by(&world.levels[e.level as usize].map, e, v);
            if hit.any() {
                e.vel = V2::new(-e.vel.x, -e.vel.y);
            }
        }
        if e.z <= 0 {
            e.z = 0;
            e.vz = 0;
            e.vel = V2::zero();
            e.set_flag(eflag::AIRBORNE, false);
            e.state = 0;
            e.timer = draw_timer(world, 20, 50);
        }
    }
}

/// Stalfos wander, and dodge away when a hero gets right on top of them.
fn stalfos(world: &mut World, e: &mut Entity, target: Option<V2>)
    requires
        steppable(*old(world), *old(e)),
        target matches Some(t) ==> near_origin(t, PLAY_LIMIT as int),
    ensures
        kept(*final(world), *old(world)),
        final(e).level == old(e).level,
        within_spec(old(e).pos, target, 24) && old(e).state != 2 ==> final(e).state == 2 && final(e).timer == 18,
{
    let speed = info(Kind::Stalfos).speed;
    // Skeletons dodge away when a hero gets right on top of them.
    let very_close = within(e.pos, target, 24);
    if very_close && e.state != 2 {
        e.state = 2;
        e.timer = 18;
        match target {
            Some(t) => {
                e.dir = Dir::from_delta(t.x - e.pos.x, t.y - e.pos.y).opposite();
            },
            None => {},
        }
    }
    proof {
        assert(playable(world.levels@[e.level as int]));
    }
    if e.state == 2 {
        let dir = e.dir;
        walk(&world.levels[e.level as usize].map, e, dir, speed * 3 / 2);
        if e.timer == 0 {
            e.state = 0;
            e.timer = 20;
        }
    } else {
        if e.timer == 0 {
            e.dir = choose_dir(world, e, target, 75);
            e.timer = draw_timer(world, 18, 40);
        }
        let dir = e.dir;
        if !walk(&world.levels[e.level as usize].map, e, dir, speed) {
            e.timer = 0;
        }
    }
}

/// The dungeon boss: stalks the nearest hero, then winds up and rings itself
/// with fireballs, eight instead of four once below half health, when it
/// also moves half again as fast.
fn boss(world: &mut World, e: &mut Entity, id: EntityId, target: Option<V2>)
    requires
        steppable(*old(world), *old(e)),
        target matches Some(t) ==> near_origin(t, PLAY_LIMIT as int),
    ensures
        kept(*final(world), *old(world)),
        final(e).level == old(e).level,
        old(e).state != 0 && old(e).state != 1 ==> *final(e) == (Entity { state: 0, timer: 30, ..*old(e) })
            && *final(world) == *old(world),
        old(e).state == 1 && old(e).timer != 0 ==> *final(e) == *old(e) && *final(world) == *old(world),
{
    let base = info(Kind::Boss).speed;
    // Below half health it gets angry and moves faster.
    let enraged = (e.hp as i32) * 2 <= e.max_hp as i32;
    let speed = if enraged { base * 3 / 2 } else { base };
    proof {
        assert(playable(world.levels@[e.level as int]));
    }
    if e.state == 0 {
        if e.timer == 0 {
            e.state = if world.rng.coin() { 1 } else { 0 };
            e.timer = draw_timer(world, 40, 90);
            e.dir = choose_dir(world, e, target, 80);
        }
        let dir = e.dir;
        if !walk(&world.levels[e.level as usize].map, e, dir, speed) {
            e.timer = 0;
        }
    } else if e.state == 1 {
        if e.timer == 0 {
            let count: i32 = if enraged { 8 } else { 4 };
            let mut i: i32 = 0;
            while i < count
                invariant
                    world.wf(),
                    0 <= i <= count,
                    count == 4 || count == 8,
                    world.players@.len() == old(world).players@.len(),
                    world.levels@.len() == old(world).levels@.len(),
                decreases count - i,
            {
                let angle = i * 256 / count + if enraged { 16 } else { 0 };
                let fid = world.spawn(Kind::Fireball, e.level, e.pos);
                if let Some(f) = world.entities.get_mut(fid) {
                    let sp = info(Kind::Fireball).speed;
                    f.vel = polar(angle, sp);
                    f.timer = 120;
                }
                i = i + 1;
            }
            world.events.sound(crate::event::Sfx::Shoot);
            e.state = 0;
            e.timer = draw_timer(world, 60, 110);
        }
    } else {
        e.state = 0;
        e.timer = 30;
    }
}

} // verus!
