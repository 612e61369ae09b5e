//! Playing as the monster.
//!
//! A boss player drives a boss entity instead of a hero. Nothing else in the
//! simulation changes: the boss is still an enemy, so heroes' swords still
//! hurt it and its touch still hurts them. Possession only swaps out who
//! decides where it goes, which is why this is a short file rather than a
//! second combat system.
use vstd::prelude::*;
use crate::entity::{eflag, info, kind_info, Entities, Entity, EntityId, Kind, NO_SLOT, kind_code};
use crate::event::{Event, Sfx, MAX_EVENTS};
use crate::fixed::px;
use crate::geom::{Dir, Rect, V2};
use crate::input::button;
use crate::level::Spawn;
use crate::physics::{self, near_origin};
use crate::world::{
    camera_for_room, can_move, in_play, playable, polar, polar_spec, made, has_room, seat_ok, vacant, Player, Role, World,
    PLAY_LIMIT, ROOM_SCROLL_FRAMES,
};

verus! {

/// Frames between a boss player's slams.
pub const SLAM_COOLDOWN: u16 = 36;

/// Frames between a boss player's fireball rings.
pub const RING_COOLDOWN: u16 = 90;

/// Slot `i` holds a boss that no player drives.
pub open spec fn free_boss(es: Entities, i: int) -> bool {
    let e = es.slots_view()[i];
    &&& 0 <= i < es.slots_view().len()
    &&& e.alive && e.kind == Kind::Boss && e.flags & eflag::POSSESSED == 0
}

/// Slot `i` holds the first boss that no player drives.
pub open spec fn first_free_boss(es: Entities, i: int) -> bool {
    &&& free_boss(es, i)
    &&& forall|j: int| 0 <= j < i ==> !free_boss(es, j)
}

impl World {
    /// Hands a player control of a boss.
    ///
    /// Takes the first unpossessed boss already in the world, or wakes one
    /// from the level data if none has been spawned yet. Returns false when
    /// the world holds no boss at all, which is the case for a world
    /// generated without dungeons.
    pub fn possess_boss(&mut self, player: usize) -> (r: bool)
        requires
            old(self).wf(),
        ensures
            final(self).wf(),
            final(self).players@.len() == old(self).players@.len(),
            player >= old(self).players@.len() ==> !r && *final(self) == *old(self),
            r ==> {
                let p = final(self).players@[player as int];
                &&& p.role == Role::Boss
                &&& p.active
                &&& p.respawn == 0
                &&& final(self).entities.resolves(p.entity)
                &&& final(self).entities.slots_view()[p.entity.idx as int].kind == Kind::Boss
                &&& final(self).entities.slots_view()[p.entity.idx as int].flags & eflag::POSSESSED != 0
                &&& forall|k: int| 0 <= k < old(self).players@.len() && k != player
                    ==> #[trigger] final(self).players@[k] == old(self).players@[k]
            },
            !r ==> final(self).players == old(self).players && final(self).levels == old(self).levels,
            forall|i: int|
                #[trigger] first_free_boss(old(self).entities, i) && player < old(self).players@.len()
                    && (old(self).entities.slots_view()[i].level as int) < old(self).levels@.len() ==> r
                    && final(self).players@[player as int].entity == (EntityId {
                        idx: i as u16,
                        gen: old(self).entities.slots_view()[i].gen,
                    }),
    {
        if player >= self.players.len() {
            return false;
        }
        let mut existing: Option<EntityId> = None;
        let n = self.entities.capacity();
        let mut i: usize = 0;
        while i < n && existing.is_none()
            invariant
                self.wf(),
                i <= n,
                n == self.entities.slots_view().len(),
                *self == *old(self),
                existing matches Some(id) ==> self.entities.resolves(id)
                    && self.entities.slots_view()[id.idx as int].kind == Kind::Boss
                    && first_free_boss(old(self).entities, id.idx as int),
                existing is None ==> forall|j: int| 0 <= j < i ==> !free_boss(old(self).entities, j),
                existing matches Some(id) ==> id.idx + 1 == i,
            decreases n - i,
        {
            if let Some(e) = self.entities.at(i) {
                if e.kind == Kind::Boss && !e.has(eflag::POSSESSED) {
                    existing = Some(self.entities.id_of(i));
                }
            }
            i = i + 1;
        }
        proof {
            if existing is None {
                assert forall|j: int| #[trigger] first_free_boss(old(self).entities, j) implies false by {
                    assert(!free_boss(old(self).entities, j));
                }
            }
        }
        let boss = match existing {
            Some(id) => id,
            None => match self.spawn_a_boss() {
                Some(id) => id,
                None => {
                    return false;
                },
            },
        };
        let level = match self.entities.get(boss) {
            Some(e) => {
                if e.kind != Kind::Boss {
                    return false;
                }
                e.level
            },
            None => {
                return false;
            },
        };
        if (level as usize) >= self.levels.len() {
            return false;
        }
        // Let go of whatever this player was driving.
        let old_id = self.players[player].entity;
        if !(old_id.idx == boss.idx && old_id.gen == boss.gen) && !old_id.is_none() {
            if old_id.idx != boss.idx {
                self.remove(old_id);
            }
        }
        let ghost fl = self.entities.slots_view()[boss.idx as int].flags;
        let pos = match self.entities.get_mut(boss) {
            Some(e) => {
                e.flags = e.flags | eflag::POSSESSED;
                e.player = player as u8;
                // A player-driven boss keeps its own room rather than
                // despawning when the heroes wander off.
                e.flags = e.flags & !eflag::DESPAWN_FAR;
                e.pos
            },
            None => {
                return false;
            },
        };
        let room = self.level(level).room_at(pos);
        proof {
            crate::world::lemma_room_small(pos);
            assert(playable(self.levels@[level as int]));
        }
        let (cx, cy) = camera_for_room(self.level(level), room);
        let mut p = self.players[player];
        p.entity = boss;
        p.role = Role::Boss;
        p.level = level;
        p.room = room;
        p.active = true;
        p.respawn = 0;
        p.carrying = EntityId::none();
        p.camera.x = cx;
        p.camera.y = cy;
        p.camera.target_x = cx;
        p.camera.target_y = cy;
        p.camera.scroll = 0;
        self.set_player(player, p);
        proof {
            assert(((fl | 2048u32) & !32u32) & 2048u32 != 0) by (bit_vector);
        }
        self.say(player, "YOU ARE THE BOSS");
        true
    }

    /// Spawns a boss from the first level whose data places one, and marks
    /// its room populated so that the streamer does not add a second.
    fn spawn_a_boss(&mut self) -> (r: Option<EntityId>)
        requires
            old(self).wf(),
        ensures
            final(self).wf(),
            final(self).players == old(self).players,
            final(self).levels == old(self).levels,
            r matches Some(id) ==> id.gen == 0 || (final(self).entities.resolves(id)
                && final(self).entities.slots_view()[id.idx as int].kind == Kind::Boss),
    {
        let mut found: Option<(u16, Spawn)> = None;
        let mut i: usize = 0;
        while i < self.levels.len()
            invariant
                i <= self.levels@.len(),
                self.levels@.len() <= 0xffff,
                found matches Some((l, _)) ==> (l as int) < self.levels@.len(),
            decreases self.levels@.len() - i,
        {
            let mut j: usize = 0;
            let mut hit: Option<Spawn> = None;
            while j < self.levels[i].spawns.len()
                invariant
                    j <= self.levels@[i as int].spawns@.len(),
                    i < self.levels@.len(),
                decreases self.levels@[i as int].spawns@.len() - j,
            {
                let s = self.levels[i].spawns[j];
                if s.kind == Kind::Boss.to_u8() {
                    hit = Some(s);
                    break;
                }
                j = j + 1;
            }
            match hit {
                Some(s) => {
                    found = Some((i as u16, s));
                    break;
                },
                None => {},
            }
            i = i + 1;
        }
        let (level, spawn) = match found {
            Some(f) => f,
            None => {
                return None;
            },
        };
        if spawn.tx < -0x8_0000 || spawn.tx >= 0x8_0000 || spawn.ty < -0x8_0000 || spawn.ty >= 0x8_0000 {
            return None;
        }
        let pos = crate::level::tile_center(spawn.tx, spawn.ty);
        let id = self.spawn(Kind::Boss, level, pos);
        if let Some(e) = self.entities.get_mut(id) {
            e.data[0] = spawn.param;
        }
        let rx = crate::fixed::div_trunc(spawn.tx as i64, crate::level::ROOM_W as i64) as i32;
        let ry = crate::fixed::div_trunc(spawn.ty as i64, crate::level::ROOM_H as i64) as i32;
        match self.level(level).room_index(rx, ry) {
            Some(room) => {
                let key = (level, room as u16);
                let mut seen = false;
                let mut k: usize = 0;
                while k < self.spawned.len()
                    invariant
                        k <= self.spawned@.len(),
                    decreases self.spawned@.len() - k,
                {
                    if self.spawned[k].0 == key.0 && self.spawned[k].1 == key.1 {
                        seen = true;
                    }
                    k = k + 1;
                }
                if !seen {
                    self.spawned.push(key);
                }
            },
            None => {},
        }
        Some(id)
    }

    /// Gives up control of a boss and puts the player back to being a hero:
    /// the boss goes back to the monsters and the player rejoins at the
    /// entrance.
    pub fn become_hero(&mut self, player: usize)
        requires
            old(self).wf(),
        ensures
            final(self).wf(),
            final(self).players@.len() == old(self).players@.len(),
            player >= old(self).players@.len() ==> *final(self) == *old(self),
            final(self).levels@.len() == old(self).levels@.len(),
            player < old(self).players@.len() ==> final(self).players@[player as int].role == Role::Hero
                && final(self).players@[player as int].active,
    {
        if player >= self.players.len() {
            return;
        }
        let old_id = self.players[player].entity;
        if let Some(e) = self.entities.get_mut(old_id) {
            if e.kind == Kind::Boss {
                e.flags = e.flags & !eflag::POSSESSED;
                e.flags = e.flags | eflag::DESPAWN_FAR;
                e.player = 0xff;
            }
        }
        self.set_player(player, Player::default());
        self.join(player);
    }
}

/// Advances a player-driven boss for one frame: it walks where the stick
/// points, slams on A and throws a ring of fire on B, each on its own
/// cooldown. A boss that the heroes killed turns its player back into a
/// hero.
pub fn update(world: &mut World, pi: usize)
    requires
        old(world).wf(),
        pi < old(world).players@.len(),
    ensures
        final(world).wf(),
        final(world).players@.len() == old(world).players@.len(),
        final(world).levels@.len() == old(world).levels@.len(),
        !old(world).entities.resolves(old(world).players@[pi as int].entity) ==> final(world).players@[pi as int].role
            == Role::Hero && final(world).players@[pi as int].active,
{
    let eid = world.players[pi].entity;
    let mut e = match world.entities.get(eid) {
        Some(e) => *e,
        None => {
            // The heroes killed it. Back to being one of them.
            world.become_hero(pi);
            return;
        },
    };
    if !in_play(&e) || (e.level as usize) >= world.levels.len() {
        return;
    }
    e.iframes = if e.iframes > 0 { e.iframes - 1 } else { 0 };
    e.stun = if e.stun > 0 { e.stun - 1 } else { 0 };
    e.timer = if e.timer > 0 { e.timer - 1 } else { 0 };
    e.anim_timer = e.anim_timer.wrapping_add(1);
    let input = world.players[pi].input;
    let level = e.level;
    proof {
        assert(playable(world.levels@[level as int]));
    }
    if e.knock_frames > 0 {
        e.knock_frames = e.knock_frames - 1;
        let k = e.knock;
        if can_move(&e, k) {
            physics::move_by(&world.levels[level as usize].map, &mut e, k);
        }
        if e.knock_frames == 0 {
            e.knock = V2::zero();
        }
    }
    if e.stun == 0 {
        let ax = input.axis_x();
        let ay = input.axis_y();
        if ax != 0 || ay != 0 {
            e.dir = Dir::from_delta(px(ax), px(ay));
            let speed = info(Kind::Boss).speed;
            let mut delta = V2::new(speed * ax, speed * ay);
            if ax != 0 && ay != 0 {
                delta = V2::new(
                    crate::fixed::div_trunc((delta.x * 181) as i64, 256) as i32,
                    crate::fixed::div_trunc((delta.y * 181) as i64, 256) as i32,
                );
            }
            if can_move(&e, delta) {
                physics::move_by(&world.levels[level as usize].map, &mut e, delta);
            }
        }
        // A slam: a short, heavy blow to everything standing close by.
        if input.pressed(button::A) && e.data[1] <= 0 {
            e.data[1] = SLAM_COOLDOWN as i32;
            let at = e.pos;
            write_back(world, eid, e);
            if near_origin_exec(at) {
                slam(world, pi, at);
            }
            match world.entities.get(eid) {
                Some(u) => {
                    e = *u;
                },
                None => {},
            }
        }
        // A ring of fire, on a longer leash.
        if input.pressed(button::B) && e.data[2] <= 0 {
            e.data[2] = RING_COOLDOWN as i32;
            write_back(world, eid, e);
            ring_of_fire(world, eid);
            match world.entities.get(eid) {
                Some(u) => {
                    e = *u;
                },
                None => {},
            }
        }
    }
    if !in_play(&e) {
        return;
    }
    e.data[1] = if e.data[1] - 1 > 0 { e.data[1] - 1 } else { 0 };
    e.data[2] = if e.data[2] - 1 > 0 { e.data[2] - 1 } else { 0 };
    let level_ref = &world.levels[level as usize];
    proof {
        assert(playable(*level_ref));
        level_ref.map.lemma_dims();
    }
    e.pos = level_ref.clamp(e.pos, px(e.body_w) / 2, px(e.body_h) / 2);
    let room = level_ref.room_at(e.pos);
    write_back(world, eid, e);
    let cur = world.players[pi].room;
    if room.0 != cur.0 || room.1 != cur.1 {
        proof {
            crate::world::lemma_room_small(e.pos);
        }
        let (cx, cy) = camera_for_room(&world.levels[level as usize], room);
        let mut p = world.players[pi];
        p.room = room;
        p.camera.target_x = cx;
        p.camera.target_y = cy;
        p.camera.scroll = ROOM_SCROLL_FRAMES;
        proof {
            assert(seat_ok(world.players@[pi as int], world.levels@.len() as int));
        }
        world.set_player(pi, p);
    }
}

/// True when a position lies inside the play area.
fn near_origin_exec(p: V2) -> (r: bool)
    ensures
        r == near_origin(p, PLAY_LIMIT as int),
{
    -PLAY_LIMIT <= p.x && p.x <= PLAY_LIMIT && -PLAY_LIMIT <= p.y && p.y <= PLAY_LIMIT
}

/// Writes an entity back into its slot, if its handle still resolves.
fn write_back(world: &mut World, eid: EntityId, e: Entity)
    requires
        old(world).wf(),
    ensures
        final(world).wf(),
        final(world).players == old(world).players,
        final(world).levels == old(world).levels,
{
    if let Some(slot) = world.entities.get_mut(eid) {
        *slot = e;
    }
}

/// Hurts every other hero standing next to the boss: a box 52 by 48 pixels
/// around it, four quarter hearts each.
pub fn slam(world: &mut World, pi: usize, at: V2)
    requires
        old(world).wf(),
        pi < old(world).players@.len(),
        near_origin(at, PLAY_LIMIT as int),
    ensures
        final(world).wf(),
        final(world).players@.len() == old(world).players@.len(),
        final(world).levels@.len() == old(world).levels@.len(),
        final(world).events@.len() >= MAX_EVENTS || {
            let q = final(world).events@;
            &&& q.len() >= 2
            &&& q[q.len() - 2] == Event::Sound(Sfx::Explosion)
            &&& q[q.len() - 1] == (Event::Shake { frames: 8 })
        },
{
    let level = world.players[pi].level;
    let area = Rect::centered(at, 52, 48);
    let mut hits: Vec<usize> = Vec::new();
    let n = world.entities.capacity();
    let mut i: usize = 0;
    while i < n
        invariant
            world.wf(),
            i <= n,
            n == world.entities.slots_view().len(),
            area.edges_fit(),
        decreases n - i,
    {
        if let Some(e) = world.entities.at(i) {
            if e.kind == Kind::Player && e.level == level && in_play(e) {
                proof {
                    crate::world::lemma_boxes_fit(*e);
                }
                let hb = e.hurt_box();
                proof {
                    crate::world::lemma_hurt_box_edges(*e, hb);
                }
                if hb.overlaps(&area) {
                    hits.push(e.player as usize);
                }
            }
        }
        i = i + 1;
    }
    let mut j: usize = 0;
    while j < hits.len()
        invariant
            world.wf(),
            j <= hits@.len(),
            near_origin(at, PLAY_LIMIT as int),
            world.players@.len() == old(world).players@.len(),
            world.levels@.len() == old(world).levels@.len(),
        decreases hits@.len() - j,
    {
        let target = hits[j];
        if target != pi {
            if world.hurt_fits_now(target, 4, at, 3) {
                world.hurt_player(target, 4, at);
            }
        }
        j = j + 1;
    }
    let id = world.spawn(Kind::Poof, level, at);
    if let Some(p) = world.entities.get_mut(id) {
        p.timer = 14;
    }
    world.events.sound(Sfx::Explosion);
    world.events.push(crate::event::Event::Shake { frames: 8 });
}

/// Throws eight fireballs out from the boss, one every eighth of a turn.
pub fn ring_of_fire(world: &mut World, boss: EntityId)
    requires
        old(world).wf(),
    ensures
        final(world).wf(),
        final(world).players == old(world).players,
        final(world).levels == old(world).levels,
        !old(world).entities.resolves(boss) ==> *final(world) == *old(world),
        old(world).entities.resolves(boss) && old(world).events@.len() < MAX_EVENTS ==> final(world).events@
            == old(world).events@.push(Event::Sound(Sfx::Shoot)),
        old(world).entities.resolves(boss) ==> {
            let b = old(world).entities.slots_view()[boss.idx as int];
            ring_made(old(world).entities, final(world).entities, b.level, b.pos, boss)
        },
{
    let e = match world.entities.get(boss) {
        Some(e) => *e,
        None => {
            return;
        },
    };
    let ghost st: Seq<Entities> = seq![world.entities];
    let mut i: i32 = 0;
    while i < 8
        invariant
            world.wf(),
            0 <= i <= 8,
            world.players == old(world).players,
            world.levels == old(world).levels,
            world.events == old(world).events,
            st.len() == i + 1,
            st[0] == old(world).entities,
            st[i as int] == world.entities,
            forall|k: int| 0 <= k < i ==> made(#[trigger] st[k], st[k + 1], Kind::Fireball, e.level, e.pos, ring_step(k, boss)),
        decreases 8 - i,
    {
        let angle = i * 32;
        let ghost before = world.entities;
        let id = world.spawn(Kind::Fireball, e.level, e.pos);
        let ghost mid = world.entities;
        if let Some(f) = world.entities.get_mut(id) {
            let sp = info(Kind::Fireball).speed;
            f.vel = polar(angle, sp);
            f.timer = 120;
            f.owner = boss;
        }
        proof {
            if has_room(before) {
                assert(world.entities.resolves(id));
                assert(crate::entity::is_fresh(mid.slots_view()[id.idx as int], Kind::Fireball, e.level, e.pos, id.gen));
                assert(forall|j: int|
                    0 <= j < before.slots_view().len() && j != id.idx ==> #[trigger] world.entities.slots_view()[j]
                        == before.slots_view()[j]);
            }
            assert(made(before, world.entities, Kind::Fireball, e.level, e.pos, ring_step(i as int, boss)));
            let old_st = st;
            st = st.push(world.entities);
            assert forall|k: int| 0 <= k < i + 1 implies made(#[trigger] st[k], st[k + 1], Kind::Fireball, e.level, e.pos, ring_step(k, boss)) by {
                if k < i {
                    assert(st[k] == old_st[k] && st[k + 1] == old_st[k + 1]);
                }
            }
        }
        i = i + 1;
    }
    proof {
        assert(st.len() == 9 && st[0] == old(world).entities && st[8] == world.entities);
    }
    world.events.sound(Sfx::Shoot);
}

/// What fireball `k` of a ring gets: flying out at `k` eighths of a turn at
/// fireball speed, for two seconds, thrown by `boss`.
pub open spec fn ring_step(k: int, boss: EntityId) -> spec_fn(Entity, Entity) -> bool {
    |a: Entity, b: Entity|
        b == Entity {
            vel: polar_spec(32 * k, kind_info(Kind::Fireball).speed as int),
            timer: 120,
            owner: boss,
            ..a
        }
}

/// The ring is a full ring: fireball `k + 4` flies exactly opposite
/// fireball `k`, so the eight cover every direction in pairs.
pub proof fn lemma_ring_opposite(k: int)
    requires
        0 <= k < 4,
    ensures
        polar_spec(32 * (k + 4), kind_info(Kind::Fireball).speed as int).x == -polar_spec(
            32 * k,
            kind_info(Kind::Fireball).speed as int,
        ).x,
        polar_spec(32 * (k + 4), kind_info(Kind::Fireball).speed as int).y == -polar_spec(
            32 * k,
            kind_info(Kind::Fireball).speed as int,
        ).y,
{
    let sp = kind_info(Kind::Fireball).speed as int;
    crate::fixed::lemma_sin_half_turn((32 * k + 64) % 256);
    crate::fixed::lemma_sin_half_turn((32 * k) % 256);
    assert((32 * (k + 4) + 64) % 256 == ((32 * k + 64) % 256 + 128) % 256);
    assert((32 * (k + 4)) % 256 == ((32 * k) % 256 + 128) % 256);
    let cx = crate::fixed::sin_entry((32 * k + 64) % 256);
    let cy = crate::fixed::sin_entry((32 * k) % 256);
    crate::fixed::lemma_tdiv_neg(cx * sp, 256);
    crate::fixed::lemma_tdiv_neg(cy * sp, 256);
    assert((-cx) * sp == -(cx * sp)) by (nonlinear_arith);
    assert((-cy) * sp == -(cy * sp)) by (nonlinear_arith);
    crate::fixed::lemma_sin_bounded((32 * k + 64) % 256);
    crate::fixed::lemma_sin_bounded((32 * k) % 256);
    crate::world::lemma_tdiv_between(cx * sp, 256);
    crate::world::lemma_tdiv_between(cy * sp, 256);
}

/// `after` is `before` with a ring of eight fireballs made, one after the
/// other, at `pos` on `level`: fireball `k` flies at `32 * k` of a 256
/// turn (see [`ring_step`]).
pub open spec fn ring_made(before: Entities, after: Entities, level: u16, pos: V2, boss: EntityId) -> bool {
    exists|st: Seq<Entities>|
        #![trigger st.len()]
        st.len() == 9 && st[0] == before && st[8] == after && forall|k: int|
            0 <= k < 8 ==> made(#[trigger] st[k], st[k + 1], Kind::Fireball, level, pos, ring_step(k, boss))
}

} // verus!
