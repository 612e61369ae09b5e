//! Resolving who hit whom this frame.
//!
//! Collision pairs are gathered first and applied afterwards so that the order
//! entities happen to sit in the slab cannot change the outcome.
use vstd::prelude::*;
use crate::entity::{eflag, info, Entities, Entity, EntityId, Kind, is_pickup_spec};
use crate::event::Sfx;
use crate::geom::{Dir, Rect, V2};
use crate::input::button;
use crate::items::Item;
use crate::physics::near_origin;
use crate::world::{in_play, in_play_spec, pstate, removed, same_liveness, World, HP_LIMIT, PLAY_LIMIT};
use crate::enemy::{kept, near};

verus! {

/// Runs every damage and pickup interaction for the frame: player weapons
/// against monsters, monsters against heroes, then heroes against pickups.
pub fn resolve(world: &mut World)
    requires
        old(world).wf(),
    ensures
        kept(*final(world), *old(world)),
{
    weapons_vs_monsters(world);
    monsters_vs_players(world);
    pickups(world);
}

/// How hard a player weapon hits: a swing by the sword's level (at least
/// one), a beam one, a hero's arrow two, a boomerang nothing but a stun.
/// Anything else is no weapon.
pub open spec fn weapon_damage(kind: Kind, flags: u32, data0: i32) -> Option<int> {
    if kind == Kind::SwordSwing {
        Some(if data0 > 1 { data0 as int } else { 1 })
    } else if kind == Kind::SwordBeam {
        Some(1)
    } else if kind == Kind::Arrow && flags & eflag::PLAYER_OWNED != 0 {
        Some(2)
    } else if kind == Kind::Boomerang {
        Some(0)
    } else {
        None
    }
}

/// A weapon a hero wields: a sword swing (of a level the damage field can
/// hold), a sword beam, a boomerang, or an arrow a hero shot.
pub open spec fn hero_weapon(wp: Entity) -> bool {
    ||| wp.kind == Kind::SwordSwing && wp.data[0] <= HP_LIMIT
    ||| wp.kind == Kind::SwordBeam
    ||| wp.kind == Kind::Boomerang
    ||| wp.kind == Kind::Arrow && wp.flags & eflag::PLAYER_OWNED != 0
}

/// In `es`, the hero weapon in slot `wi` meets the target in slot `ti`:
/// both live and in play on one level, the target something vulnerable that
/// is not a hero nor the weapon's own holder, and their hurt boxes overlap.
pub open spec fn meets(es: Entities, wi: int, ti: int) -> bool {
    let wp = es.slots_view()[wi];
    let t = es.slots_view()[ti];
    &&& 0 <= wi < es.slots_view().len() && 0 <= ti < es.slots_view().len() && wi != ti
    &&& wp.alive && t.alive && in_play_spec(wp) && in_play_spec(t)
    &&& hero_weapon(wp)
    &&& t.level == wp.level && t.flags & eflag::VULNERABLE != 0 && t.kind != Kind::Player
    &&& !(ti == wp.owner.idx && t.gen == wp.owner.gen)
    &&& crate::objects::hurt_rect(t).overlaps_spec(crate::objects::hurt_rect(wp))
}

/// The weapon in slot `wi` meets the target in slot `ti`, and no other
/// weapon meets any other target.
pub open spec fn sole_meeting(es: Entities, wi: int, ti: int) -> bool {
    &&& meets(es, wi, ti)
    &&& forall|w2: int, t2: int| #[trigger] meets(es, w2, t2) ==> w2 == wi && t2 == ti
}

/// The hit that phase one records for weapon `wi` meeting target `ti`.
pub open spec fn hit_entry(es: Entities, wi: int, ti: int) -> (EntityId, EntityId, i16, bool) {
    let wp = es.slots_view()[wi];
    let d: i16 = if wp.kind == Kind::SwordSwing {
        if wp.data[0] > 1 { wp.data[0] as i16 } else { 1i16 }
    } else if wp.kind == Kind::SwordBeam {
        1i16
    } else if wp.kind == Kind::Boomerang {
        0i16
    } else {
        2i16
    };
    (
        EntityId { idx: ti as u16, gen: es.slots_view()[ti].gen },
        EntityId { idx: wi as u16, gen: wp.gen },
        d,
        wp.kind == Kind::Boomerang,
    )
}

/// Player weapons hitting anything that can be hurt. A weapon never hits its
/// owner or another hero; a kill is credited to the hero holding the weapon;
/// arrows and beams are spent on impact.
///
/// When one weapon alone meets one target, the target takes the weapon's
/// damage: a sword swing its level (at least one), a beam one, a hero's
/// arrow two; a boomerang only stuns it. An arrow or a beam that lands is
/// spent.
fn weapons_vs_monsters(world: &mut World)
    requires
        old(world).wf(),
    ensures
        kept(*final(world), *old(world)),
        forall|wi: int, ti: int|
            #[trigger] sole_meeting(old(world).entities, wi, ti) ==> {
                let wp = old(world).entities.slots_view()[wi];
                let t = old(world).entities.slots_view()[ti];
                let t2 = final(world).entities.slots_view()[ti];
                let d: int = if wp.kind == Kind::SwordSwing {
                    if wp.data[0] > 1 { wp.data[0] as int } else { 1 }
                } else if wp.kind == Kind::SwordBeam {
                    1
                } else {
                    2
                };
                &&& wp.kind == Kind::Boomerang ==> t2.stun >= 45 && t2.hp == t.hp
                &&& wp.kind != Kind::Boomerang && t.iframes == 0 && t.hp > d ==> {
                    &&& final(world).entities.resolves(EntityId { idx: ti as u16, gen: t.gen })
                    &&& t2.hp == t.hp - d
                    &&& t2.iframes == 16
                    &&& (wp.kind == Kind::Arrow || wp.kind == Kind::SwordBeam) && old(world).entities.live_count() >= 1
                        ==> !final(world).entities.resolves(EntityId { idx: wi as u16, gen: wp.gen })
                }
            },
{
    let ghost es0 = world.entities;
    let ghost sole: Option<(int, int)> = if exists|wi: int, ti: int| #[trigger] sole_meeting(es0, wi, ti) {
        Some(choose|p: (int, int)| sole_meeting(es0, p.0, p.1))
    } else {
        None
    };
    proof {
        if exists|wi: int, ti: int| #[trigger] sole_meeting(es0, wi, ti) {
            let (wi, ti) = choose|wi: int, ti: int| #[trigger] sole_meeting(es0, wi, ti);
            assert(sole_meeting(es0, (wi, ti).0, (wi, ti).1));
        }
    }
    let mut hits: Vec<(EntityId, EntityId, i16, bool)> = Vec::new();
    let n = world.entities.capacity();
    let mut w: usize = 0;
    while w < n
        invariant
            world.wf(),
            w <= n,
            n == world.entities.slots_view().len(),
            forall|k: int| 0 <= k < hits@.len() ==> -HP_LIMIT < (#[trigger] hits@[k]).2 <= HP_LIMIT,
            *world == *old(world),
            es0 == old(world).entities,
            sole matches Some(p) ==> sole_meeting(es0, p.0, p.1),
            sole matches Some(p) ==> hits@.len() == (if p.0 < w { 1int } else { 0int }),
            sole matches Some(p) ==> (hits@.len() == 1 ==> hits@[0] == hit_entry(es0, p.0, p.1)),
        decreases n - w,
    {
        if let Some(weapon) = world.entities.at(w) {
            let dmg: Option<i32> = if weapon.kind == Kind::SwordSwing {
                Some(if weapon.data[0] > 1 { weapon.data[0] } else { 1 })
            } else if weapon.kind == Kind::SwordBeam {
                Some(1)
            } else if weapon.kind == Kind::Arrow && weapon.has(eflag::PLAYER_OWNED) {
                Some(2)
            } else if weapon.kind == Kind::Boomerang {
                Some(0)
            } else {
                None
            };
            match dmg {
                Some(d) => {
                    if in_play(weapon) && d <= HP_LIMIT as i32 {
                        let stun_only = weapon.kind == Kind::Boomerang;
                        proof {
                            crate::world::lemma_boxes_fit(*weapon);
                        }
                        let area = weapon.hurt_box();
                        proof {
                            crate::world::lemma_hurt_box_edges(*weapon, area);
                            assert(area == crate::objects::hurt_rect(*weapon));
                            assert(hero_weapon(*weapon));
                        }
                        let wid = world.entities.id_of(w);
                        let mut t: usize = 0;
                        while t < n
                            invariant
                                world.wf(),
                                t <= n,
                                w < n,
                                n == world.entities.slots_view().len(),
                                area.edges_fit(),
                                0 <= d <= HP_LIMIT,
                                forall|k: int| 0 <= k < hits@.len() ==> -HP_LIMIT < (#[trigger] hits@[k]).2 <= HP_LIMIT,
                                *world == *old(world),
                                es0 == old(world).entities,
                                *weapon == es0.slots_view()[w as int],
                                weapon.alive && in_play_spec(*weapon) && hero_weapon(*weapon),
                                area == crate::objects::hurt_rect(*weapon),
                                wid == (EntityId { idx: w as u16, gen: weapon.gen }),
                                d == hit_entry(es0, w as int, 0).2,
                                stun_only == (weapon.kind == Kind::Boomerang),
                                sole matches Some(p) ==> sole_meeting(es0, p.0, p.1),
                                sole matches Some(p) ==> hits@.len() == (if p.0 < w || (p.0 == w && p.1 < t) {
                                    1int
                                } else {
                                    0int
                                }),
                                sole matches Some(p) ==> (hits@.len() == 1 ==> hits@[0] == hit_entry(es0, p.0, p.1)),
                            decreases n - t,
                        {
                            let ghost ok = meets(es0, w as int, t as int);
                            if let Some(target) = world.entities.at(t) {
                                let tid = world.entities.id_of(t);
                                if t != w && target.level == weapon.level && target.has(
                                    eflag::VULNERABLE,
                                ) && target.kind != Kind::Player && !(tid.idx == weapon.owner.idx
                                    && tid.gen == weapon.owner.gen) && in_play(target) {
                                    proof {
                                        crate::world::lemma_boxes_fit(*target);
                                    }
                                    let hb = target.hurt_box();
                                    proof {
                                        crate::world::lemma_hurt_box_edges(*target, hb);
                                        assert(hb == crate::objects::hurt_rect(*target));
                                    }
                                    if hb.overlaps(&area) {
                                        proof {
                                            assert(meets(es0, w as int, t as int));
                                        }
                                        hits.push((tid, wid, d as i16, stun_only));
                                        proof {
                                            if sole is Some {
                                                let p = sole->0;
                                                assert(p.0 == w && p.1 == t);
                                                assert(hits@[0] == hit_entry(es0, p.0, p.1));
                                            }
                                        }
                                    } else {
                                        proof {
                                            assert(!meets(es0, w as int, t as int));
                                        }
                                    }
                                } else {
                                    proof {
                                        assert(!meets(es0, w as int, t as int));
                                    }
                                }
                            } else {
                                proof {
                                    assert(!meets(es0, w as int, t as int));
                                }
                            }
                            proof {
                                if sole is Some {
                                    let p = sole->0;
                                    if p.0 == w && p.1 == t {
                                        assert(meets(es0, p.0, p.1));
                                    }
                                }
                            }
                            t = t + 1;
                        }
                    } else {
                        proof {
                            assert forall|t2: int| !meets(es0, w as int, t2) by {}
                        }
                    }
                },
                None => {
                    proof {
                        assert forall|t2: int| !meets(es0, w as int, t2) by {}
                    }
                },
            }
        } else {
            proof {
                assert forall|t2: int| !meets(es0, w as int, t2) by {}
            }
        }
        proof {
            if sole is Some {
                let p = sole->0;
                if p.0 == w {
                    assert(meets(es0, p.0, p.1));
                }
            }
        }
        w = w + 1;
    }
    let ghost hits0 = hits@;
    let mut h: usize = 0;
    while h < hits.len()
        invariant
            world.wf(),
            h <= hits@.len(),
            hits@ == hits0,
            world.players@.len() == old(world).players@.len(),
            world.levels@.len() == old(world).levels@.len(),
            forall|k: int| 0 <= k < hits@.len() ==> -HP_LIMIT < (#[trigger] hits@[k]).2 <= HP_LIMIT,
            es0 == old(world).entities,
            sole matches Some(p) ==> sole_meeting(es0, p.0, p.1) && hits@.len() == 1 && hits@[0] == hit_entry(es0, p.0, p.1),
            sole is Some && h == 0 ==> world.entities == es0,
            sole is Some && h == 1 ==> {
                let p = sole->0;
                let wp = es0.slots_view()[p.0];
                let t = es0.slots_view()[p.1];
                let t2 = world.entities.slots_view()[p.1];
                let d: int = if wp.kind == Kind::SwordSwing {
                    if wp.data[0] > 1 { wp.data[0] as int } else { 1 }
                } else if wp.kind == Kind::SwordBeam {
                    1
                } else {
                    2
                };
                &&& wp.kind == Kind::Boomerang ==> t2.stun >= 45 && t2.hp == t.hp
                &&& wp.kind != Kind::Boomerang && t.iframes == 0 && t.hp > d ==> {
                    &&& world.entities.resolves(EntityId { idx: p.1 as u16, gen: t.gen })
                    &&& t2.hp == t.hp - d
                    &&& t2.iframes == 16
                    &&& (wp.kind == Kind::Arrow || wp.kind == Kind::SwordBeam) && es0.live_count() >= 1
                        ==> !world.entities.resolves(EntityId { idx: p.0 as u16, gen: wp.gen })
                }
            },
        decreases hits@.len() - h,
    {
        let (target, weapon_id, damage, stun_only) = hits[h];
        let ghost first = h == 0;
        proof {
            if sole is Some && first {
                let p = sole->0;
                let wp = es0.slots_view()[p.0];
                let t = es0.slots_view()[p.1];
                assert(target == EntityId { idx: p.1 as u16, gen: t.gen });
                assert(weapon_id == EntityId { idx: p.0 as u16, gen: wp.gen });
                assert((p.0 as u16) as int == p.0 && (p.1 as u16) as int == p.1);
                assert(world.entities.resolves(weapon_id));
                assert(world.entities.resolves(target));
            }
        }
        h = h + 1;
        let (from, kind, owner) = match world.entities.get(weapon_id) {
            Some(wp) => (wp.pos, wp.kind, wp.owner),
            None => {
                continue;
            },
        };
        if stun_only {
            let ghost w_before = world.entities;
            if let Some(t) = world.entities.get_mut(target) {
                t.stun = if t.stun > 45 { t.stun } else { 45 };
            }
            world.events.sound(Sfx::EnemyHit);
            proof {
                if sole is Some && first {
                    let p = sole->0;
                    assert(w_before == es0);
                    assert(world.entities.slots_view()[p.1].stun >= 45);
                    assert(world.entities.slots_view()[p.1].hp == es0.slots_view()[p.1].hp);
                }
            }
            continue;
        }
        if !near(from) {
            continue;
        }
        proof {
            if sole is Some && first {
                let p = sole->0;
                let wp = es0.slots_view()[p.0];
                let t = es0.slots_view()[p.1];
                assert(from == wp.pos);
                crate::world::lemma_short_enough(t.pos, from);
                assert(damage as int == (if wp.kind == Kind::SwordSwing {
                    if wp.data[0] > 1 { wp.data[0] as int } else { 1 }
                } else if wp.kind == Kind::SwordBeam {
                    1
                } else {
                    2
                }));
            }
        }
        let was_alive = world.entities.get(target).is_some();
        let ghost before = *world;
        let landed = world.damage_fits_now(target, damage, from, 6) && world.damage(target, damage, from, 6);
        let ghost after_hit = *world;
        if landed && was_alive && world.entities.get(target).is_none() {
            // Credit the kill to whoever owns the weapon.
            let credit = match world.entities.get(owner) {
                Some(o) => if o.kind == Kind::Player {
                    Some(o.player as usize)
                } else {
                    None
                },
                None => None,
            };
            match credit {
                Some(pi) => {
                    if pi < world.players.len() {
                        let mut p = world.players[pi];
                        p.kills = p.kills.wrapping_add(1);
                        proof {
                            assert(crate::world::seat_ok(world.players@[pi as int], world.levels@.len() as int));
                        }
                        world.set_player(pi, p);
                    }
                },
                None => {},
            }
        }
        let ghost after_credit = world.entities;
        // Arrows and beams are spent on impact.
        if landed && (kind == Kind::Arrow || kind == Kind::SwordBeam) {
            world.remove(weapon_id);
        }
        proof {
            if sole is Some && first {
                let p = sole->0;
                let wp = es0.slots_view()[p.0];
                let t = es0.slots_view()[p.1];
                assert(p.0 != p.1);
                if t.iframes == 0 && t.hp > damage {
                    assert(landed);
                    assert(after_hit.entities.slots_view()[p.1].hp == t.hp - damage);
                    assert(after_credit == after_hit.entities);
                    if kind == Kind::Arrow || kind == Kind::SwordBeam {
                        assert(world.entities.slots_view()[p.1] == after_credit.slots_view()[p.1]);
                    }
                }
            }
        }
    }
}

/// Monsters and their projectiles hurting heroes they touch. A hero's own
/// arrows never bite them; a raised shield stops a hit from the front; a
/// projectile that hits or is blocked is spent.
fn monsters_vs_players(world: &mut World)
    requires
        old(world).wf(),
    ensures
        kept(*final(world), *old(world)),
{
    let mut hits: Vec<(usize, i16, V2, EntityId)> = Vec::new();
    let n = world.entities.capacity();
    let mut i: usize = 0;
    while i < n
        invariant
            world.wf(),
            i <= n,
            n == world.entities.slots_view().len(),
            forall|k: int| 0 <= k < hits@.len() ==> {
                let h = #[trigger] hits@[k];
                &&& 0 < h.1 <= HP_LIMIT
                &&& near_origin(h.2, PLAY_LIMIT as int)
            },
        decreases n - i,
    {
        if let Some(p) = world.entities.at(i) {
            let pi = p.player as usize;
            if p.kind == Kind::Player && p.iframes == 0 && p.state != pstate::DEAD && pi
                < world.players.len() && world.players[pi].is_alive() && in_play(p) {
                let pid = world.entities.id_of(i);
                proof {
                    crate::world::lemma_boxes_fit(*p);
                }
                let body = p.body();
                proof {
                    crate::world::lemma_body_edges(*p, body);
                }
                let mut a: usize = 0;
                while a < n
                    invariant
                        world.wf(),
                        a <= n,
                        n == world.entities.slots_view().len(),
                        body.edges_fit(),
                        forall|k: int| 0 <= k < hits@.len() ==> {
                            let h = #[trigger] hits@[k];
                            &&& 0 < h.1 <= HP_LIMIT
                            &&& near_origin(h.2, PLAY_LIMIT as int)
                        },
                    decreases n - a,
                {
                    if let Some(att) = world.entities.at(a) {
                        if a != i && att.level == p.level && att.has(eflag::TOUCH_HURTS)
                            && !att.has(eflag::PLAYER_OWNED) && !(att.owner.idx == pid.idx
                            && att.owner.gen == pid.gen) && in_play(att) {
                            let damage = info(att.kind).touch_damage;
                            proof {
                                crate::world::lemma_boxes_fit(*att);
                            }
                            let hb = att.hurt_box();
                            proof {
                                crate::world::lemma_hurt_box_edges(*att, hb);
                            }
                            if damage > 0 && damage <= HP_LIMIT && hb.overlaps(&body) {
                                hits.push((pi, damage, att.pos, world.entities.id_of(a)));
                            }
                        }
                    }
                    a = a + 1;
                }
            }
        }
        i = i + 1;
    }
    let mut h: usize = 0;
    while h < hits.len()
        invariant
            world.wf(),
            h <= hits@.len(),
            world.players@.len() == old(world).players@.len(),
            world.levels@.len() == old(world).levels@.len(),
            forall|k: int| 0 <= k < hits@.len() ==> {
                let h = #[trigger] hits@[k];
                &&& 0 < h.1 <= HP_LIMIT
                &&& near_origin(h.2, PLAY_LIMIT as int)
            },
        decreases hits@.len() - h,
    {
        let (pi, damage, from, attacker) = hits[h];
        h = h + 1;
        if shield_blocks(world, pi, from) {
            world.events.sound(Sfx::Shield);
            spend_projectile(world, attacker);
            continue;
        }
        if world.hurt_fits_now(pi, damage, from, 3) && world.hurt_player(pi, damage, from) {
            spend_projectile(world, attacker);
        }
    }
}

/// Removes an attacker if it is a projectile.
fn spend_projectile(world: &mut World, attacker: EntityId)
    requires
        old(world).wf(),
    ensures
        final(world).wf(),
        final(world).players == old(world).players,
        final(world).levels == old(world).levels,
        final(world).same_but_entities(old(world)),
        final(world).events == old(world).events && final(world).rng == old(world).rng,
        ({
            let k = old(world).entities.slots_view()[attacker.idx as int].kind;
            if old(world).entities.resolves(attacker) && (k == Kind::Rock || k == Kind::Arrow || k == Kind::SwordBeam
                || k == Kind::Boomerang || k == Kind::Fireball) {
                removed(old(world).entities, final(world).entities, attacker)
            } else {
                final(world).entities == old(world).entities
            }
        }),
{
    let proj = match world.entities.get(attacker) {
        Some(a) => a.kind.is_projectile(),
        None => false,
    };
    if proj {
        world.remove(attacker);
    }
}

/// True when the player is holding a shield towards the attack: the shield
/// is on a button that is held, the hero is not reeling from a hit, and the
/// attack comes from the way they face.
pub fn shield_blocks(world: &World, pi: usize, from: V2) -> (r: bool)
    requires
        world.wf(),
        near_origin(from, PLAY_LIMIT as int),
    ensures
        r ==> pi < world.players@.len() && world.entities.resolves(world.players@[pi as int].entity),
        r ==> world.players@[pi as int].inv.equipped@.contains(Item::Shield),
{
    if pi >= world.players.len() {
        return false;
    }
    let p = world.players[pi];
    let e = match world.entities.get(p.entity) {
        Some(e) => *e,
        None => {
            return false;
        },
    };
    if e.state == pstate::HURT || !near(e.pos) {
        return false;
    }
    let held = if p.inv.equipped[0] == Item::Shield {
        p.input.held(button::A)
    } else if p.inv.equipped[1] == Item::Shield {
        p.input.held(button::B)
    } else {
        return false;
    };
    if !held {
        return false;
    }
    proof {
        crate::world::lemma_short_enough(from, e.pos);
        if p.inv.equipped[0] == Item::Shield {
            assert(p.inv.equipped@[0] == Item::Shield);
        } else {
            assert(p.inv.equipped@[1] == Item::Shield);
        }
    }
    let d = from.sub(e.pos);
    Dir::from_delta(d.x, d.y) == e.dir
}

/// The collision body of `e`; see `Entity::body`.
pub open spec fn body_rect(e: Entity) -> Rect {
    Rect {
        x: (e.pos.x - crate::fixed::tdiv(e.body_w * 256, 2)) as i32,
        y: (e.pos.y - crate::fixed::tdiv(e.body_h * 256, 2)) as i32,
        w: (e.body_w * 256) as i32,
        h: (e.body_h * 256) as i32,
    }
}

/// `r` grown by `n` pixels on every side.
pub open spec fn grown(r: Rect, n: int) -> Rect {
    Rect { x: (r.x - n * 256) as i32, y: (r.y - n * 256) as i32, w: (r.w + n * 512) as i32, h: (r.h + n * 512) as i32 }
}

/// In `w`, slot `i` holds a living hero in play, and slot `k` a pickup in
/// play on the hero's level whose body meets the hero's body grown by three
/// pixels.
pub open spec fn reaches(w: World, i: int, k: int) -> bool {
    let es = w.entities.slots_view();
    let p = es[i];
    let item = es[k];
    &&& 0 <= i < es.len() && 0 <= k < es.len() && i != k
    &&& p.alive && p.kind == Kind::Player && (p.player as int) < w.players@.len()
    &&& w.players@[p.player as int].is_alive_spec() && in_play_spec(p)
    &&& item.alive && item.level == p.level && is_pickup_spec(item.kind) && in_play_spec(item)
    &&& body_rect(item).overlaps_spec(grown(body_rect(p), 3))
}

/// The handle of slot `k` in `es`, in its current generation.
pub open spec fn handle(es: Entities, k: int) -> EntityId {
    EntityId { idx: k as u16, gen: es.slots_view()[k].gen }
}

/// `id` no longer names a live entity, or the slab has no live count left
/// to remove anything by.
pub open spec fn gone(es: Entities, id: EntityId) -> bool {
    !es.resolves(id) || es.live_count() == 0
}

/// True when some entry of `taken` claims `id`.
pub open spec fn lists(taken: Seq<(usize, EntityId, Kind)>, id: EntityId) -> bool {
    exists|j: int| 0 <= j < taken.len() && (#[trigger] taken[j]).1 == id
}

proof fn lemma_removed_gone(before: Entities, after: Entities, id: EntityId)
    requires
        removed(before, after, id),
    ensures
        gone(after, id),
        forall|x: EntityId| gone(before, x) ==> #[trigger] gone(after, x),
{
    if before.live_count() > 0 && before.resolves(id) {
        assert forall|x: EntityId| gone(before, x) implies #[trigger] gone(after, x) by {
            if x.idx < after.slots_view().len() && x.idx != id.idx {
                assert(after.slots_view()[x.idx as int] == before.slots_view()[x.idx as int]);
            }
        }
    }
}

proof fn lemma_same_liveness_gone(before: Entities, after: Entities)
    requires
        same_liveness(before, after),
    ensures
        forall|x: EntityId| gone(before, x) ==> #[trigger] gone(after, x),
{
    assert forall|x: EntityId| gone(before, x) implies #[trigger] gone(after, x) by {
        if x.idx < after.slots_view().len() {
            assert(after.slots_view()[x.idx as int].alive == before.slots_view()[x.idx as int].alive);
        }
    }
}

/// Heroes walking over things worth picking up: anything whose body meets
/// the hero's body grown by three pixels. A pickup can only be claimed once
/// even if two heroes reach it together.
fn pickups(world: &mut World)
    requires
        old(world).wf(),
    ensures
        kept(*final(world), *old(world)),
        forall|i: int, k: int| #[trigger] reaches(*old(world), i, k) ==> gone(
            final(world).entities,
            handle(old(world).entities, k),
        ),
{
    let mut taken: Vec<(usize, EntityId, Kind)> = Vec::new();
    let n = world.entities.capacity();
    let mut i: usize = 0;
    while i < n
        invariant
            world.wf(),
            i <= n,
            n == world.entities.slots_view().len(),
            forall|k: int| 0 <= k < taken@.len() ==> (#[trigger] taken@[k]).0 < world.players@.len(),
            *world == *old(world),
            forall|i2: int, k: int| 0 <= i2 < i && #[trigger] reaches(*old(world), i2, k) ==> lists(
                taken@,
                handle(old(world).entities, k),
            ),
        decreases n - i,
    {
        if let Some(p) = world.entities.at(i) {
            let pi = p.player as usize;
            if p.kind == Kind::Player && pi < world.players.len() && world.players[pi].is_alive()
                && in_play(p) {
                proof {
                    crate::world::lemma_boxes_fit(*p);
                }
                let body = p.body();
                let reach = body.inflate(3);
                proof {
                    crate::world::lemma_body_edges(*p, body);
                }
                let mut k: usize = 0;
                while k < n
                    invariant
                        world.wf(),
                        k <= n,
                        n == world.entities.slots_view().len(),
                        reach.edges_fit(),
                        pi < world.players@.len(),
                        forall|j: int| 0 <= j < taken@.len() ==> (#[trigger] taken@[j]).0 < world.players@.len(),
                        *world == *old(world),
                        i < n,
                        *p == world.entities.slots_view()[i as int],
                        reach == grown(body_rect(*p), 3),
                        forall|i2: int, k2: int|
                            ((0 <= i2 < i) || (i2 == i && 0 <= k2 < k)) && #[trigger] reaches(*old(world), i2, k2)
                                ==> lists(taken@, handle(old(world).entities, k2)),
                    decreases n - k,
                {
                    if let Some(item) = world.entities.at(k) {
                        if k != i && item.level == p.level && item.kind.is_pickup() && in_play(item) {
                            proof {
                                crate::world::lemma_boxes_fit(*item);
                            }
                            let ib = item.body();
                            proof {
                                crate::world::lemma_body_edges(*item, ib);
                            }
                            if ib.overlaps(&reach) {
                                let ghost tb = taken@;
                                taken.push((pi, world.entities.id_of(k), item.kind));
                                proof {
                                    assert(taken@[tb.len() as int].1 == handle(old(world).entities, k as int));
                                    assert forall|x: EntityId| lists(tb, x) implies lists(taken@, x) by {
                                        let jj = choose|jj: int| 0 <= jj < tb.len() && (#[trigger] tb[jj]).1 == x;
                                        assert(taken@[jj] == tb[jj]);
                                    }
                                }
                            }
                        }
                    }
                    proof {
                        assert forall|k2: int| #[trigger] reaches(*old(world), i as int, k2) && k2 == k implies lists(
                            taken@,
                            handle(old(world).entities, k2),
                        ) by {}
                    }
                    k = k + 1;
                }
            }
        }
        i = i + 1;
    }
    proof {
        assert forall|i2: int, k: int| #[trigger] reaches(*old(world), i2, k) implies lists(
            taken@,
            handle(old(world).entities, k),
        ) by {
            assert(0 <= i2 < n);
        }
    }
    let mut claimed: Vec<EntityId> = Vec::new();
    let mut t: usize = 0;
    while t < taken.len()
        invariant
            world.wf(),
            t <= taken@.len(),
            world.players@.len() == old(world).players@.len(),
            world.levels@.len() == old(world).levels@.len(),
            forall|j: int| 0 <= j < taken@.len() ==> (#[trigger] taken@[j]).0 < world.players@.len(),
            forall|j: int| 0 <= j < t ==> gone(world.entities, (#[trigger] taken@[j]).1),
            forall|c: int| 0 <= c < claimed@.len() ==> gone(world.entities, #[trigger] claimed@[c]),
        decreases taken@.len() - t,
    {
        let (pi, id, kind) = taken[t];
        t = t + 1;
        let mut seen = false;
        let mut c: usize = 0;
        while c < claimed.len()
            invariant
                c <= claimed@.len(),
                seen ==> gone(world.entities, id),
                forall|c2: int| 0 <= c2 < claimed@.len() ==> gone(world.entities, #[trigger] claimed@[c2]),
            decreases claimed@.len() - c,
        {
            if claimed[c].idx == id.idx && claimed[c].gen == id.gen {
                seen = true;
                proof {
                    assert(claimed@[c as int] == id);
                }
            }
            c = c + 1;
        }
        if seen || world.entities.get(id).is_none() {
            continue;
        }
        let ghost cb = claimed@;
        claimed.push(id);
        let ghost e0 = world.entities;
        world.remove(id);
        let ghost e1 = world.entities;
        world.collect(pi, kind);
        proof {
            lemma_removed_gone(e0, e1, id);
            lemma_same_liveness_gone(e1, world.entities);
            assert forall|c: int| 0 <= c < claimed@.len() implies gone(world.entities, #[trigger] claimed@[c]) by {
                if c < cb.len() {
                    assert(claimed@[c] == cb[c]);
                }
            }
        }
    }
}

} // verus!
