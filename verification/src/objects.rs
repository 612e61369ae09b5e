//! Everything that is neither a player nor a monster: swords in mid-swing,
//! arrows, bombs, thrown pots, dropped hearts and puffs of smoke.
use vstd::prelude::*;
use crate::entity::{eflag, hurt_height, Entities, Entity, EntityId, Kind};
use crate::fixed::tdiv;
use crate::fixed::px;
use crate::geom::{Rect, V2};
use crate::physics::{self, near_origin};
use crate::player::GRAVITY;
use crate::world::{can_move, has_room, in_play, in_play_spec, made, playable, removed, World, PLAY_LIMIT};
use crate::enemy::{kept, near, written};

verus! {

/// Advances one non-monster entity by a frame: blades follow the hand that
/// swings them, projectiles fly until they hit something or time out,
/// boomerangs come home, bombs go off, thrown objects arc and shatter, and
/// pickups and puffs wink out when their time is up.
pub fn update(world: &mut World, idx: usize)
    requires
        old(world).wf(),
    ensures
        kept(*final(world), *old(world)),
        ({
            let e0 = old(world).entities.slots_view()[idx as int];
            let live = idx < old(world).entities.slots_view().len() && e0.alive && in_play_spec(e0)
                && (e0.level as int) < old(world).levels@.len();
            let fades = e0.kind == Kind::Explosion || e0.kind == Kind::Poof || e0.kind == Kind::Sparkle;
            &&& !live ==> *final(world) == *old(world)
            &&& live && fades && e0.timer <= 1 ==> *final(world) == (World { entities: final(world).entities, ..*old(world) })
                && removed(old(world).entities, final(world).entities, EntityId { idx: idx as u16, gen: e0.gen })
            &&& live && fades && e0.timer > 1 ==> written(
                *old(world),
                *final(world),
                idx as int,
                Entity { anim_timer: ((e0.anim_timer + 1) % 256) as u8, timer: (e0.timer - 1) as u16, ..e0 },
            )
        }),
{
    let id = world.entities.id_of(idx);
    let mut e = match world.entities.at(idx) {
        Some(e) => *e,
        None => {
            return;
        },
    };
    if !in_play(&e) || (e.level as usize) >= world.levels.len() {
        return;
    }
    e.anim_timer = e.anim_timer.wrapping_add(1);
    let expired = e.timer == 1;
    e.timer = if e.timer > 0 { e.timer - 1 } else { 0 };
    proof {
        assert(playable(world.levels@[e.level as int]));
    }
    if e.kind == Kind::SwordSwing {
        // The blade tracks the hand that swings it.
        match world.entities.get(e.owner) {
            Some(owner) => {
                if in_play(owner) {
                    let (dx, dy) = owner.dir.step();
                    e.pos = V2::new(owner.pos.x + px(dx * 12), owner.pos.y + px(dy * 12) - px(4));
                    e.dir = owner.dir;
                    e.level = owner.level;
                    e.z = owner.z;
                }
            },
            None => {
                e.timer = 0;
            },
        }
        if e.timer == 0 {
            world.remove(id);
            return;
        }
    } else if e.kind == Kind::Rock || e.kind == Kind::Arrow || e.kind == Kind::SwordBeam || e.kind
        == Kind::Fireball {
        let v = e.vel;
        let mut hit_any = false;
        if can_move(&e, v) {
            let hit = physics::move_by(&world.levels[e.level as usize].map, &mut e, v);
            hit_any = hit.any();
        }
        if hit_any || e.timer == 0 {
            poof(world, &e);
            world.remove(id);
            return;
        }
    } else if e.kind == Kind::Boomerang {
        if e.state == 0 && e.timer == 0 {
            e.state = 1;
        }
        if e.state == 1 {
            // Coming home. If the owner is gone it simply fades.
            match world.entities.get(e.owner) {
                Some(o) => {
                    let target = o.pos;
                    e.level = o.level;
                    if !near(target) || (e.level as usize) >= world.levels.len() {
                        world.remove(id);
                        return;
                    }
                    proof {
                        crate::world::lemma_short_enough(target, e.pos);
                    }
                    let to = target.sub(e.pos);
                    if to.length() < px(10) {
                        world.remove(id);
                        return;
                    }
                    e.vel = to.with_length(crate::entity::info(Kind::Boomerang).speed);
                },
                None => {
                    world.remove(id);
                    return;
                },
            }
        }
        let v = e.vel;
        // A boomerang bounces off walls rather than stopping dead.
        if can_move(&e, v) {
            let hit = physics::move_by(&world.levels[e.level as usize].map, &mut e, v);
            if hit.any() && e.state == 0 {
                e.state = 1;
            }
        }
    } else if e.kind == Kind::Bomb {
        if expired {
            let level = e.level;
            let pos = e.pos;
            world.remove(id);
            world.explode(level, pos);
            return;
        }
    } else if e.kind == Kind::Explosion {
        if e.timer == 0 {
            world.remove(id);
            return;
        }
    } else if e.kind == Kind::Carried {
        if e.state == 1 {
            // Thrown: fly forward and arc to the ground.
            e.vz = e.vz - GRAVITY;
            e.z = e.z + e.vz;
            let v = e.vel;
            let mut hit_any = false;
            if can_move(&e, v) {
                let hit = physics::move_by(&world.levels[e.level as usize].map, &mut e, v);
                hit_any = hit.any();
            }
            if hit_any || e.z <= 0 || e.timer == 0 {
                let level = e.level;
                let pos = e.pos;
                world.remove(id);
                if near(pos) {
                    smash(world, level, pos);
                }
                return;
            }
        } else if world.entities.get(e.owner).is_none() {
            world.remove(id);
            return;
        }
    } else if e.kind == Kind::Poof || e.kind == Kind::Sparkle {
        if e.timer == 0 {
            world.remove(id);
            return;
        }
    } else if e.kind.is_pickup() {
        // Pickups bob in place and eventually wink out; a timer of zero set at
        // spawn time means they stay.
        if expired {
            world.remove(id);
            return;
        }
        if e.z > 0 {
            e.vz = e.vz - GRAVITY;
            let z = e.z + e.vz;
            e.z = if z > 0 { z } else { 0 };
        }
    }
    if let Some(slot) = world.entities.at_mut(idx) {
        *slot = e;
    }
}

/// A puff of smoke where a projectile ended.
fn poof(world: &mut World, e: &Entity)
    requires
        old(world).wf(),
    ensures
        final(world).wf(),
        final(world).players == old(world).players,
        final(world).levels == old(world).levels,
        final(world).same_but_entities(old(world)),
        final(world).events == old(world).events && final(world).rng == old(world).rng,
        made(old(world).entities, final(world).entities, Kind::Poof, e.level, e.pos, (|a: Entity, b: Entity| b == Entity { timer: 12, ..a })),
{
    let id = world.spawn(Kind::Poof, e.level, e.pos);
    let ghost mid = world.entities;
    if let Some(p) = world.entities.get_mut(id) {
        p.timer = 12;
    }
    proof {
        if has_room(old(world).entities) {
            let e1 = world.entities.slots_view()[id.idx as int];
            let e0 = mid.slots_view()[id.idx as int];
            assert(e1 == Entity { timer: 12, ..e0 });
            assert(world.entities.resolves(id));
            assert(crate::entity::is_fresh(e0, Kind::Poof, e.level, e.pos, id.gen));
            assert(e1.timer == 12);
            assert(forall|i: int|
                0 <= i < old(world).entities.slots_view().len() && i != id.idx ==> #[trigger] world.entities.slots_view()[i]
                    == old(world).entities.slots_view()[i]);
        }
    }
}

/// A new entity with its timer set to `t`.
pub open spec fn with_timer(t: u16) -> spec_fn(Entity, Entity) -> bool {
    |a: Entity, b: Entity| b == Entity { timer: t, ..a }
}

/// The twenty-pixel square a thrown object shatters over.
pub open spec fn smash_area(pos: V2) -> Rect {
    Rect { x: (pos.x - 2560) as i32, y: (pos.y - 2560) as i32, w: 5120, h: 5120 }
}

/// The hurt box of an entity; see `Entity::hurt_box`.
pub open spec fn hurt_rect(e: Entity) -> Rect {
    Rect {
        x: (e.pos.x - tdiv(e.body_w * 256, 2)) as i32,
        y: (e.pos.y - hurt_height(e.body_h as int) * 256 + tdiv(e.body_h * 256, 2)) as i32,
        w: (e.body_w * 256) as i32,
        h: (hurt_height(e.body_h as int) * 256) as i32,
    }
}

/// True when a shattering at `pos` on `level` hits `e`.
pub open spec fn hit_by_smash(e: Entity, level: u16, pos: V2) -> bool {
    &&& e.alive && e.level == level && e.flags & eflag::VULNERABLE != 0 && in_play_spec(e)
    &&& hurt_rect(e).overlaps_spec(smash_area(pos))
}

/// True when a shattering at `pos` on `level` hits something in `es`.
pub open spec fn smash_hits(es: Entities, level: u16, pos: V2) -> bool {
    exists|k: int| 0 <= k < es.slots_view().len() && hit_by_smash(#[trigger] es.slots_view()[k], level, pos)
}

/// A thrown object shattering: every vulnerable thing whose hurt box meets
/// the twenty-pixel square where it lands takes two quarter hearts.
pub fn smash(world: &mut World, level: u16, pos: V2)
    requires
        old(world).wf(),
        near_origin(pos, PLAY_LIMIT as int),
    ensures
        kept(*final(world), *old(world)),
        exists|mid: Entities|
            #[trigger] made(old(world).entities, mid, Kind::Poof, level, pos, with_timer(14))
                && (!smash_hits(mid, level, pos) ==> final(world).entities == mid && final(world).same_but_entities(old(world))
                && final(world).events == old(world).events),
{
    let id = world.spawn(Kind::Poof, level, pos);
    let ghost mid0 = world.entities;
    if let Some(p) = world.entities.get_mut(id) {
        p.timer = 14;
    }
    proof {
        if has_room(old(world).entities) {
            let e1 = world.entities.slots_view()[id.idx as int];
            let e0 = mid0.slots_view()[id.idx as int];
            assert(e1 == Entity { timer: 14, ..e0 });
            assert(world.entities.resolves(id));
            assert(crate::entity::is_fresh(e0, Kind::Poof, level, pos, id.gen));
            assert(forall|i: int|
                0 <= i < old(world).entities.slots_view().len() && i != id.idx ==> #[trigger] world.entities.slots_view()[i]
                    == old(world).entities.slots_view()[i]);
        }
    }
    let ghost mid = world.entities;
    let ghost w1 = *world;
    assert(made(old(world).entities, mid, Kind::Poof, level, pos, with_timer(14)));
    let area = Rect::centered(pos, 20, 20);
    assert(area == smash_area(pos));
    let mut hits: Vec<EntityId> = Vec::new();
    let n = world.entities.capacity();
    let mut i: usize = 0;
    while i < n
        invariant
            world.wf(),
            i <= n,
            n == world.entities.slots_view().len(),
            area.edges_fit(),
            *world == w1,
            mid == w1.entities,
            area == smash_area(pos),
            hits@.len() > 0 ==> smash_hits(mid, level, pos),
        decreases n - i,
    {
        if let Some(t) = world.entities.at(i) {
            if t.level == level && t.has(eflag::VULNERABLE) && in_play(t) {
                proof {
                    crate::world::lemma_boxes_fit(*t);
                }
                let hb = t.hurt_box();
                proof {
                    crate::world::lemma_hurt_box_edges(*t, hb);
                }
                if hb.overlaps(&area) {
                    proof {
                        assert(hb == hurt_rect(*t));
                        assert(hit_by_smash(mid.slots_view()[i as int], level, pos));
                    }
                    hits.push(world.entities.id_of(i));
                }
            }
        }
        i = i + 1;
    }
    let mut j: usize = 0;
    while j < hits.len()
        invariant
            world.wf(),
            j <= hits@.len(),
            near_origin(pos, PLAY_LIMIT as int),
            world.players@.len() == old(world).players@.len(),
            world.levels@.len() == old(world).levels@.len(),
            hits@.len() == 0 ==> *world == w1,
            hits@.len() > 0 ==> smash_hits(mid, level, pos),
        decreases hits@.len() - j,
    {
        if world.damage_fits_now(hits[j], 2, pos, 4) {
            world.damage(hits[j], 2, pos, 4);
        }
        j = j + 1;
    }
    proof {
        assert(made(old(world).entities, mid, Kind::Poof, level, pos, with_timer(14)));
    }
}

} // verus!
