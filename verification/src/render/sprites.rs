//! Choosing which image to draw for an entity.
use vstd::prelude::*;
use crate::assets::pack::SpriteId;
use crate::assets::tile::{FLIP_X, FLIP_Y};
use crate::entity::{eflag, Entity, Kind, NO_SLOT};
use crate::geom::Dir;
use crate::items::Item;
use crate::world::{pstate, World};

verus! {

/// Sideways images face right; facing left mirrors them.
pub open spec fn side_flip(d: Dir) -> u8 {
    if d == Dir::Left { FLIP_X } else { 0 }
}

/// The first image on even animation frames, the second on odd ones.
pub open spec fn two_frame(anim: u8, a: SpriteId, b: SpriteId) -> SpriteId {
    if anim % 2 == 0 { a } else { b }
}

/// True when player slot `p` exists and holds something over its head.
pub open spec fn is_carrying(world: World, p: u8) -> bool {
    (p as int) < world.players@.len() && world.players@[p as int].carrying.idx != NO_SLOT
}

/// The hero's pose: nothing when dead; falling and swimming have their own
/// images, then attacking, then carrying, then walking (frames 0 and 2
/// neutral, 1 and 3 the step). All but falling mirror when facing left.
pub open spec fn hero_pose(e: Entity, carrying: bool) -> Option<(SpriteId, u8)> {
    if e.state == pstate::DEAD {
        None
    } else if e.state == pstate::FALL {
        Some((SpriteId::HeroFall, 0u8))
    } else if e.state == pstate::SWIM {
        Some((SpriteId::HeroSwim, side_flip(e.dir)))
    } else {
        let id = if e.state == pstate::ATTACK {
            match e.dir {
                Dir::Down => SpriteId::HeroAttackDown,
                Dir::Up => SpriteId::HeroAttackUp,
                _ => SpriteId::HeroAttackSide,
            }
        } else if carrying {
            match e.dir {
                Dir::Down => SpriteId::HeroCarryDown,
                Dir::Up => SpriteId::HeroCarryUp,
                _ => SpriteId::HeroCarrySide,
            }
        } else {
            match e.dir {
                Dir::Down => two_frame(e.anim, SpriteId::HeroDown0, SpriteId::HeroDown1),
                Dir::Up => two_frame(e.anim, SpriteId::HeroUp0, SpriteId::HeroUp1),
                _ => two_frame(e.anim, SpriteId::HeroSide0, SpriteId::HeroSide1),
            }
        };
        Some((id, side_flip(e.dir)))
    }
}

/// The image and flip for every kind but the hero, on frame `frame`:
/// nothing for a carried tile (drawn from its terrain art) or no kind.
pub open spec fn kind_image(frame: u64, e: Entity) -> Option<(SpriteId, u8)> {
    match e.kind {
        Kind::Octorok => Some((two_frame(e.anim, SpriteId::Octorok0, SpriteId::Octorok1), side_flip(e.dir))),
        Kind::Moblin => Some((two_frame(e.anim, SpriteId::Moblin0, SpriteId::Moblin1), side_flip(e.dir))),
        Kind::Zol => Some((two_frame(e.anim, SpriteId::Zol0, SpriteId::Zol1), 0u8)),
        Kind::Keese => Some((two_frame(e.anim, SpriteId::Keese0, SpriteId::Keese1), 0u8)),
        Kind::Tektite => Some((two_frame(e.anim, SpriteId::Tektite0, SpriteId::Tektite1), 0u8)),
        Kind::Stalfos => Some((two_frame(e.anim, SpriteId::Stalfos0, SpriteId::Stalfos1), side_flip(e.dir))),
        Kind::Boss => Some((if (frame / 12) % 2 == 0 { SpriteId::Boss0 } else { SpriteId::Boss1 }, 0u8)),
        Kind::Rock => Some((SpriteId::Rock, 0u8)),
        Kind::Fireball => Some((SpriteId::Fireball, 0u8)),
        Kind::Arrow => Some(
            match e.dir {
                Dir::Up => (SpriteId::ArrowVert, 0u8),
                Dir::Down => (SpriteId::ArrowVert, FLIP_Y),
                Dir::Left => (SpriteId::ArrowSide, FLIP_X),
                Dir::Right => (SpriteId::ArrowSide, 0u8),
            },
        ),
        Kind::SwordBeam => Some(
            if e.dir == Dir::Up || e.dir == Dir::Down {
                (SpriteId::BeamVert, 0u8)
            } else {
                (SpriteId::BeamSide, 0u8)
            },
        ),
        Kind::Boomerang => Some((SpriteId::Boomerang, if (frame / 3) % 2 == 0 { 0u8 } else { FLIP_X })),
        Kind::Bomb => Some((SpriteId::Bomb, 0u8)),
        Kind::Explosion => Some((SpriteId::Explosion, 0u8)),
        Kind::SwordSwing => Some(
            match e.dir {
                Dir::Up => (SpriteId::SwordUp, 0u8),
                Dir::Down => (SpriteId::SwordUp, FLIP_Y),
                Dir::Left => (SpriteId::SwordSide, FLIP_X),
                Dir::Right => (SpriteId::SwordSide, 0u8),
            },
        ),
        Kind::Rupee => Some((SpriteId::Rupee, 0u8)),
        Kind::Heart => Some((SpriteId::Heart, 0u8)),
        Kind::Key => Some((SpriteId::Key, 0u8)),
        Kind::BombPickup => Some((SpriteId::BombPickup, 0u8)),
        Kind::ArrowPickup => Some((SpriteId::ArrowPickup, 0u8)),
        Kind::Fairy => Some((SpriteId::Fairy, if (frame / 6) % 2 == 0 { 0u8 } else { FLIP_X })),
        Kind::HeartPiece => Some((SpriteId::HeartPiece, 0u8)),
        Kind::Triforce => Some((SpriteId::Triforce, 0u8)),
        Kind::Chest => Some((if e.state == 0 { SpriteId::ChestClosed } else { SpriteId::ChestOpen }, 0u8)),
        Kind::Poof => Some((SpriteId::Poof, 0u8)),
        Kind::Sparkle => Some((SpriteId::Sparkle, 0u8)),
        _ => None,
    }
}

/// What [`for_entity`] gives: the hero's pose for a player, the kind's
/// image otherwise.
pub open spec fn entity_image(world: World, e: Entity) -> Option<(SpriteId, u8)> {
    if e.kind == Kind::Player {
        hero_pose(e, is_carrying(world, e.player))
    } else {
        kind_image(world.frame, e)
    }
}

fn side(d: Dir) -> (r: u8)
    ensures
        r == side_flip(d),
{
    if d == Dir::Left { FLIP_X } else { 0 }
}

fn pick(anim: u8, a: SpriteId, b: SpriteId) -> (r: SpriteId)
    ensures
        r == two_frame(anim, a, b),
{
    if anim % 2 == 0 { a } else { b }
}

/// A chest is drawn shut until it has been opened: state 0 shows the closed
/// chest, any other state the open one, never flipped.
pub proof fn lemma_chest_images(w: World, e: Entity)
    requires
        e.kind == Kind::Chest,
    ensures
        e.state == 0 ==> entity_image(w, e) == Some((SpriteId::ChestClosed, 0u8)),
        e.state != 0 ==> entity_image(w, e) == Some((SpriteId::ChestOpen, 0u8)),
        entity_image(w, e) != entity_image(w, Entity { state: if e.state == 0 { 1u8 } else { 0u8 }, ..e }),
{
}

/// The image and flip to draw for an entity, or `None` to draw nothing;
/// see [`entity_image`].
pub fn for_entity(world: &World, e: &Entity) -> (r: Option<(SpriteId, u8)>)
    ensures
        r == entity_image(*world, *e),
        e.kind == Kind::Chest && e.state == 0 ==> r == Some((SpriteId::ChestClosed, 0u8)),
        e.kind == Kind::Chest && e.state != 0 ==> r == Some((SpriteId::ChestOpen, 0u8)),
{
    let side_flip = side(e.dir);
    let frame = world.frame;
    match e.kind {
        Kind::Player => player(world, e),
        Kind::Octorok => Some((pick(e.anim, SpriteId::Octorok0, SpriteId::Octorok1), side_flip)),
        Kind::Moblin => Some((pick(e.anim, SpriteId::Moblin0, SpriteId::Moblin1), side_flip)),
        Kind::Zol => Some((pick(e.anim, SpriteId::Zol0, SpriteId::Zol1), 0)),
        Kind::Keese => Some((pick(e.anim, SpriteId::Keese0, SpriteId::Keese1), 0)),
        Kind::Tektite => Some((pick(e.anim, SpriteId::Tektite0, SpriteId::Tektite1), 0)),
        Kind::Stalfos => Some((pick(e.anim, SpriteId::Stalfos0, SpriteId::Stalfos1), side_flip)),
        Kind::Boss => Some((if (frame / 12) % 2 == 0 { SpriteId::Boss0 } else { SpriteId::Boss1 }, 0)),
        Kind::Rock => Some((SpriteId::Rock, 0)),
        Kind::Fireball => Some((SpriteId::Fireball, 0)),
        Kind::Arrow => Some(
            match e.dir {
                Dir::Up => (SpriteId::ArrowVert, 0),
                Dir::Down => (SpriteId::ArrowVert, FLIP_Y),
                Dir::Left => (SpriteId::ArrowSide, FLIP_X),
                Dir::Right => (SpriteId::ArrowSide, 0),
            },
        ),
        Kind::SwordBeam => Some(
            match e.dir {
                Dir::Up | Dir::Down => (SpriteId::BeamVert, 0),
                _ => (SpriteId::BeamSide, 0),
            },
        ),
        Kind::Boomerang => Some((SpriteId::Boomerang, if (frame / 3) % 2 == 0 { 0 } else { FLIP_X })),
        Kind::Bomb => Some((SpriteId::Bomb, 0)),
        Kind::Explosion => Some((SpriteId::Explosion, 0)),
        Kind::SwordSwing => Some(
            match e.dir {
                Dir::Up => (SpriteId::SwordUp, 0),
                Dir::Down => (SpriteId::SwordUp, FLIP_Y),
                Dir::Left => (SpriteId::SwordSide, FLIP_X),
                Dir::Right => (SpriteId::SwordSide, 0),
            },
        ),
        Kind::Carried => None,
        Kind::Rupee => Some((SpriteId::Rupee, 0)),
        Kind::Heart => Some((SpriteId::Heart, 0)),
        Kind::Key => Some((SpriteId::Key, 0)),
        Kind::BombPickup => Some((SpriteId::BombPickup, 0)),
        Kind::ArrowPickup => Some((SpriteId::ArrowPickup, 0)),
        Kind::Fairy => Some((SpriteId::Fairy, if (frame / 6) % 2 == 0 { 0 } else { FLIP_X })),
        Kind::HeartPiece => Some((SpriteId::HeartPiece, 0)),
        Kind::Triforce => Some((SpriteId::Triforce, 0)),
        Kind::Chest => Some((if e.state == 0 { SpriteId::ChestClosed } else { SpriteId::ChestOpen }, 0)),
        Kind::Poof => Some((SpriteId::Poof, 0)),
        Kind::Sparkle => Some((SpriteId::Sparkle, 0)),
        Kind::Nothing => None,
    }
}

/// The hero's pose; see [`hero_pose`].
fn player(world: &World, e: &Entity) -> (r: Option<(SpriteId, u8)>)
    ensures
        r == hero_pose(*e, is_carrying(*world, e.player)),
{
    if e.state == pstate::DEAD {
        return None;
    }
    let side_flip = side(e.dir);
    let carrying = (e.player as usize) < world.players.len() && !world.players[e.player as usize].carrying.is_none();
    let id = if e.state == pstate::FALL {
        return Some((SpriteId::HeroFall, 0));
    } else if e.state == pstate::SWIM {
        return Some((SpriteId::HeroSwim, side_flip));
    } else if e.state == pstate::ATTACK {
        match e.dir {
            Dir::Down => SpriteId::HeroAttackDown,
            Dir::Up => SpriteId::HeroAttackUp,
            _ => SpriteId::HeroAttackSide,
        }
    } else if carrying {
        match e.dir {
            Dir::Down => SpriteId::HeroCarryDown,
            Dir::Up => SpriteId::HeroCarryUp,
            _ => SpriteId::HeroCarrySide,
        }
    } else {
        match e.dir {
            Dir::Down => pick(e.anim, SpriteId::HeroDown0, SpriteId::HeroDown1),
            Dir::Up => pick(e.anim, SpriteId::HeroUp0, SpriteId::HeroUp1),
            _ => pick(e.anim, SpriteId::HeroSide0, SpriteId::HeroSide1),
        }
    };
    Some((id, side_flip))
}

/// The status bar icon for an item: a sparkle for no item.
pub fn item_icon(item: Item) -> (r: SpriteId)
    ensures
        r == match item {
            Item::Sword => SpriteId::IconSword,
            Item::Shield => SpriteId::IconShield,
            Item::Bombs => SpriteId::IconBomb,
            Item::Bow => SpriteId::IconBow,
            Item::Boomerang => SpriteId::IconBoomerang,
            Item::Feather => SpriteId::IconFeather,
            Item::Bracelet => SpriteId::IconBracelet,
            Item::Boots => SpriteId::IconBoots,
            Item::Flippers => SpriteId::IconFlippers,
            Item::Nothing => SpriteId::Sparkle,
        },
{
    match item {
        Item::Sword => SpriteId::IconSword,
        Item::Shield => SpriteId::IconShield,
        Item::Bombs => SpriteId::IconBomb,
        Item::Bow => SpriteId::IconBow,
        Item::Boomerang => SpriteId::IconBoomerang,
        Item::Feather => SpriteId::IconFeather,
        Item::Bracelet => SpriteId::IconBracelet,
        Item::Boots => SpriteId::IconBoots,
        Item::Flippers => SpriteId::IconFlippers,
        Item::Nothing => SpriteId::Sparkle,
    }
}

/// True when this entity is drawn under everything else.
pub fn is_floor_layer(e: &Entity) -> (r: bool)
    ensures
        r == (e.flags & eflag::FLOOR_LAYER != 0),
{
    e.has(eflag::FLOOR_LAYER)
}

} // verus!
