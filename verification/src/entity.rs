//! Entities and the slab they live in.
//!
//! Everything that is not terrain is an entity: players, enemies, the rock an
//! octorok spits, a lifted bush in mid-air, a heart on the floor. They live in
//! a slab with generation counters so a stale [`EntityId`] can never be
//! mistaken for a live one.
use vstd::prelude::*;
use crate::fixed::{px, tdiv, Fx};
use crate::geom::{Dir, Rect, V2, fits_i32};

pub mod eflag;

verus! {

use eflag::{
    AIRBORNE, BOSS, DESPAWN_FAR, DIE_ON_WALL, FLOOR_LAYER, FLYING, GHOST, PLAYER_OWNED, POSSESSED,
    SOLID_BODY, TOUCH_HURTS, VULNERABLE,
};

/// What an entity is.
#[derive(Clone, Copy, PartialEq, Eq, Debug, Default, Structural)]
pub enum Kind {
    #[default]
    Nothing,
    Player,
    // Enemies.
    Octorok,
    Moblin,
    Zol,
    Keese,
    Tektite,
    Stalfos,
    /// A dungeon boss. `data[0]` selects which one.
    Boss,

    // Projectiles and weapons.
    Rock,
    Arrow,
    SwordBeam,
    Boomerang,
    Bomb,
    Explosion,
    /// The sword blade itself while a swing is in progress.
    SwordSwing,
    Fireball,

    // Pickups.
    Rupee,
    Heart,
    Key,
    BombPickup,
    ArrowPickup,
    Fairy,
    HeartPiece,
    Triforce,

    // World objects.
    Chest,
    /// A tile the player has picked up and may throw. `data[0]` is the tile id.
    Carried,
    Poof,
    Sparkle,
}

/// The number a kind is stored as; part of the snapshot format.
pub open spec fn kind_code(k: Kind) -> u8 {
    match k {
        Kind::Nothing => 0,
        Kind::Player => 1,
        Kind::Octorok => 16,
        Kind::Moblin => 17,
        Kind::Zol => 18,
        Kind::Keese => 19,
        Kind::Tektite => 20,
        Kind::Stalfos => 21,
        Kind::Boss => 31,
        Kind::Rock => 48,
        Kind::Arrow => 49,
        Kind::SwordBeam => 50,
        Kind::Boomerang => 51,
        Kind::Bomb => 52,
        Kind::Explosion => 53,
        Kind::SwordSwing => 54,
        Kind::Fireball => 55,
        Kind::Rupee => 64,
        Kind::Heart => 65,
        Kind::Key => 66,
        Kind::BombPickup => 67,
        Kind::ArrowPickup => 68,
        Kind::Fairy => 69,
        Kind::HeartPiece => 70,
        Kind::Triforce => 71,
        Kind::Chest => 80,
        Kind::Carried => 81,
        Kind::Poof => 82,
        Kind::Sparkle => 83,
    }
}

/// The kind a stored number stands for.
pub open spec fn kind_from_code(v: u8) -> Kind {
    if v == 1 {
        Kind::Player
    } else if v == 16 {
        Kind::Octorok
    } else if v == 17 {
        Kind::Moblin
    } else if v == 18 {
        Kind::Zol
    } else if v == 19 {
        Kind::Keese
    } else if v == 20 {
        Kind::Tektite
    } else if v == 21 {
        Kind::Stalfos
    } else if v == 31 {
        Kind::Boss
    } else if v == 48 {
        Kind::Rock
    } else if v == 49 {
        Kind::Arrow
    } else if v == 50 {
        Kind::SwordBeam
    } else if v == 51 {
        Kind::Boomerang
    } else if v == 52 {
        Kind::Bomb
    } else if v == 53 {
        Kind::Explosion
    } else if v == 54 {
        Kind::SwordSwing
    } else if v == 55 {
        Kind::Fireball
    } else if v == 64 {
        Kind::Rupee
    } else if v == 65 {
        Kind::Heart
    } else if v == 66 {
        Kind::Key
    } else if v == 67 {
        Kind::BombPickup
    } else if v == 68 {
        Kind::ArrowPickup
    } else if v == 69 {
        Kind::Fairy
    } else if v == 70 {
        Kind::HeartPiece
    } else if v == 71 {
        Kind::Triforce
    } else if v == 80 {
        Kind::Chest
    } else if v == 81 {
        Kind::Carried
    } else if v == 82 {
        Kind::Poof
    } else if v == 83 {
        Kind::Sparkle
    } else {
        Kind::Nothing
    }
}

impl Kind {
    /// The number this kind is stored as.
    pub fn to_u8(self) -> (r: u8)
        ensures
            r == kind_code(self),
    {
        match self {
            Kind::Nothing => 0,
            Kind::Player => 1,
            Kind::Octorok => 16,
            Kind::Moblin => 17,
            Kind::Zol => 18,
            Kind::Keese => 19,
            Kind::Tektite => 20,
            Kind::Stalfos => 21,
            Kind::Boss => 31,
            Kind::Rock => 48,
            Kind::Arrow => 49,
            Kind::SwordBeam => 50,
            Kind::Boomerang => 51,
            Kind::Bomb => 52,
            Kind::Explosion => 53,
            Kind::SwordSwing => 54,
            Kind::Fireball => 55,
            Kind::Rupee => 64,
            Kind::Heart => 65,
            Kind::Key => 66,
            Kind::BombPickup => 67,
            Kind::ArrowPickup => 68,
            Kind::Fairy => 69,
            Kind::HeartPiece => 70,
            Kind::Triforce => 71,
            Kind::Chest => 80,
            Kind::Carried => 81,
            Kind::Poof => 82,
            Kind::Sparkle => 83,
        }
    }

    /// Reads a kind back from its number; unknown numbers are no kind.
    pub fn from_u8(v: u8) -> (r: Kind)
        ensures
            r == kind_from_code(v),
    {
        match v {
            1 => Kind::Player,
            16 => Kind::Octorok,
            17 => Kind::Moblin,
            18 => Kind::Zol,
            19 => Kind::Keese,
            20 => Kind::Tektite,
            21 => Kind::Stalfos,
            31 => Kind::Boss,
            48 => Kind::Rock,
            49 => Kind::Arrow,
            50 => Kind::SwordBeam,
            51 => Kind::Boomerang,
            52 => Kind::Bomb,
            53 => Kind::Explosion,
            54 => Kind::SwordSwing,
            55 => Kind::Fireball,
            64 => Kind::Rupee,
            65 => Kind::Heart,
            66 => Kind::Key,
            67 => Kind::BombPickup,
            68 => Kind::ArrowPickup,
            69 => Kind::Fairy,
            70 => Kind::HeartPiece,
            71 => Kind::Triforce,
            80 => Kind::Chest,
            81 => Kind::Carried,
            82 => Kind::Poof,
            83 => Kind::Sparkle,
            _ => Kind::Nothing,
        }
    }

    /// True for anything that fights on the monsters' side.
    pub fn is_enemy(self) -> (r: bool)
        ensures
            r == is_enemy_spec(self),
    {
        match self {
            Kind::Octorok | Kind::Moblin | Kind::Zol | Kind::Keese | Kind::Tektite
            | Kind::Stalfos | Kind::Boss => true,
            _ => false,
        }
    }

    /// True for anything the player walks over to collect.
    pub fn is_pickup(self) -> (r: bool)
        ensures
            r == is_pickup_spec(self),
    {
        match self {
            Kind::Rupee | Kind::Heart | Kind::Key | Kind::BombPickup | Kind::ArrowPickup
            | Kind::Fairy | Kind::HeartPiece | Kind::Triforce => true,
            _ => false,
        }
    }

    /// True for anything that flies in a straight-ish line and dies on impact.
    pub fn is_projectile(self) -> (r: bool)
        ensures
            r == (self == Kind::Rock || self == Kind::Arrow || self == Kind::SwordBeam || self
                == Kind::Boomerang || self == Kind::Fireball),
    {
        match self {
            Kind::Rock | Kind::Arrow | Kind::SwordBeam | Kind::Boomerang | Kind::Fireball => true,
            _ => false,
        }
    }
}

/// True for anything that fights on the monsters' side.
pub open spec fn is_enemy_spec(k: Kind) -> bool {
    k == Kind::Octorok || k == Kind::Moblin || k == Kind::Zol || k == Kind::Keese || k
        == Kind::Tektite || k == Kind::Stalfos || k == Kind::Boss
}

/// True for anything the player walks over to collect.
pub open spec fn is_pickup_spec(k: Kind) -> bool {
    k == Kind::Rupee || k == Kind::Heart || k == Kind::Key || k == Kind::BombPickup || k
        == Kind::ArrowPickup || k == Kind::Fairy || k == Kind::HeartPiece || k == Kind::Triforce
}

/// Every kind survives being stored as its number and read back.
pub proof fn lemma_kind_code_roundtrip(k: Kind)
    ensures
        kind_from_code(kind_code(k)) == k,
{
}

/// Static per-kind properties.
#[derive(Clone, Copy, Debug)]
pub struct KindInfo {
    /// Collision body width in pixels.
    pub body_w: i32,
    /// Collision body height in pixels.
    pub body_h: i32,
    /// Starting health, in the same units as player quarter-hearts for players
    /// and plain hit points for monsters.
    pub hp: i16,
    /// Contact damage dealt to a player, in quarter hearts.
    pub touch_damage: i16,
    /// Base movement speed in fixed-point pixels per frame.
    pub speed: Fx,
    pub flags: u32,
}

impl Default for KindInfo {
    fn default() -> (r: KindInfo)
        ensures
            r == stats(12, 12, 1, 0, 0, 0),
    {
        make_stats(12, 12, 1, 0, 0, 0)
    }
}

/// A row of the kind table.
pub open spec fn stats(body_w: i32, body_h: i32, hp: i16, touch_damage: i16, speed: Fx, flags: u32) -> KindInfo {
    KindInfo { body_w, body_h, hp, touch_damage, speed, flags }
}

fn make_stats(body_w: i32, body_h: i32, hp: i16, touch_damage: i16, speed: Fx, flags: u32) -> (r: KindInfo)
    ensures
        r == stats(body_w, body_h, hp, touch_damage, speed, flags),
{
    KindInfo { body_w, body_h, hp, touch_damage, speed, flags }
}

/// Static properties for a kind.
pub open spec fn kind_info(kind: Kind) -> KindInfo {
    match kind {
        Kind::Player => stats(10, 8, 12, 0, 320, SOLID_BODY),
        Kind::Octorok => stats(12, 12, 2, 2, 96, VULNERABLE | TOUCH_HURTS | SOLID_BODY | DESPAWN_FAR),
        Kind::Moblin => stats(13, 13, 3, 2, 128, VULNERABLE | TOUCH_HURTS | SOLID_BODY | DESPAWN_FAR),
        Kind::Zol => stats(12, 10, 2, 2, 64, VULNERABLE | TOUCH_HURTS | SOLID_BODY | DESPAWN_FAR),
        Kind::Keese => stats(10, 10, 1, 2, 192, VULNERABLE | TOUCH_HURTS | FLYING | DESPAWN_FAR),
        Kind::Tektite => stats(12, 12, 2, 2, 224, VULNERABLE | TOUCH_HURTS | SOLID_BODY | DESPAWN_FAR),
        Kind::Stalfos => stats(12, 14, 4, 4, 144, VULNERABLE | TOUCH_HURTS | SOLID_BODY | DESPAWN_FAR),
        Kind::Boss => stats(28, 26, 24, 4, 128, VULNERABLE | TOUCH_HURTS | SOLID_BODY | BOSS),
        Kind::Rock | Kind::Fireball => stats(6, 6, 1, 2, 288, FLYING | DIE_ON_WALL | TOUCH_HURTS),
        Kind::Arrow => stats(6, 6, 1, 2, 448, FLYING | DIE_ON_WALL),
        Kind::SwordBeam => stats(8, 8, 1, 0, 448, FLYING | DIE_ON_WALL | PLAYER_OWNED),
        Kind::Boomerang => stats(8, 8, 1, 0, 352, FLYING | PLAYER_OWNED),
        Kind::Bomb => stats(10, 10, 1, 0, 0, 0),
        Kind::Explosion => stats(28, 28, 1, 0, 0, GHOST),
        Kind::SwordSwing => stats(12, 12, 1, 0, 0, GHOST | PLAYER_OWNED),
        Kind::Carried => stats(12, 12, 1, 0, 0, GHOST),
        Kind::Chest => stats(16, 14, 1, 0, 0, 0),
        Kind::Poof | Kind::Sparkle => stats(8, 8, 1, 0, 0, GHOST),
        Kind::Rupee | Kind::Heart | Kind::Key | Kind::BombPickup | Kind::ArrowPickup | Kind::Fairy | Kind::HeartPiece | Kind::Triforce => stats(10, 10, 1, 0, 0, GHOST),
        _ => stats(12, 12, 1, 0, 0, 0),
    }
}

/// Static properties for a kind.
pub fn info(kind: Kind) -> (r: KindInfo)
    ensures
        r == kind_info(kind),
{
    match kind {
        Kind::Player => make_stats(10, 8, 12, 0, 320, SOLID_BODY),
        Kind::Octorok => make_stats(12, 12, 2, 2, 96, VULNERABLE | TOUCH_HURTS | SOLID_BODY | DESPAWN_FAR),
        Kind::Moblin => make_stats(13, 13, 3, 2, 128, VULNERABLE | TOUCH_HURTS | SOLID_BODY | DESPAWN_FAR),
        Kind::Zol => make_stats(12, 10, 2, 2, 64, VULNERABLE | TOUCH_HURTS | SOLID_BODY | DESPAWN_FAR),
        Kind::Keese => make_stats(10, 10, 1, 2, 192, VULNERABLE | TOUCH_HURTS | FLYING | DESPAWN_FAR),
        Kind::Tektite => make_stats(12, 12, 2, 2, 224, VULNERABLE | TOUCH_HURTS | SOLID_BODY | DESPAWN_FAR),
        Kind::Stalfos => make_stats(12, 14, 4, 4, 144, VULNERABLE | TOUCH_HURTS | SOLID_BODY | DESPAWN_FAR),
        Kind::Boss => make_stats(28, 26, 24, 4, 128, VULNERABLE | TOUCH_HURTS | SOLID_BODY | BOSS),
        Kind::Rock | Kind::Fireball => make_stats(6, 6, 1, 2, 288, FLYING | DIE_ON_WALL | TOUCH_HURTS),
        Kind::Arrow => make_stats(6, 6, 1, 2, 448, FLYING | DIE_ON_WALL),
        Kind::SwordBeam => make_stats(8, 8, 1, 0, 448, FLYING | DIE_ON_WALL | PLAYER_OWNED),
        Kind::Boomerang => make_stats(8, 8, 1, 0, 352, FLYING | PLAYER_OWNED),
        Kind::Bomb => make_stats(10, 10, 1, 0, 0, 0),
        Kind::Explosion => make_stats(28, 28, 1, 0, 0, GHOST),
        Kind::SwordSwing => make_stats(12, 12, 1, 0, 0, GHOST | PLAYER_OWNED),
        Kind::Carried => make_stats(12, 12, 1, 0, 0, GHOST),
        Kind::Chest => make_stats(16, 14, 1, 0, 0, 0),
        Kind::Poof | Kind::Sparkle => make_stats(8, 8, 1, 0, 0, GHOST),
        Kind::Rupee | Kind::Heart | Kind::Key | Kind::BombPickup | Kind::ArrowPickup | Kind::Fairy | Kind::HeartPiece | Kind::Triforce => make_stats(10, 10, 1, 0, 0, GHOST),
        _ => make_stats(12, 12, 1, 0, 0, 0),
    }
}


/// A handle to an entity that goes stale when the slot is reused.
#[derive(Clone, Copy, PartialEq, Eq, Debug, Default, Structural)]
pub struct EntityId {
    pub idx: u16,
    pub gen: u16,
}

/// The slot index no entity ever lives in.
pub const NO_SLOT: u16 = 0xffff;

impl EntityId {
    /// The handle that refers to nothing.
    pub fn none() -> (r: EntityId)
        ensures
            r == (EntityId { idx: NO_SLOT, gen: 0 }),
    {
        EntityId { idx: NO_SLOT, gen: 0 }
    }

    pub fn is_none(self) -> (r: bool)
        ensures
            r == (self.idx == NO_SLOT),
    {
        self.idx == NO_SLOT
    }
}

/// A live thing in the world.
#[derive(Clone, Copy, Debug)]
pub struct Entity {
    pub kind: Kind,
    /// Index of the level this entity is on.
    pub level: u16,
    /// Centre of the collision body, in world pixels.
    pub pos: V2,
    pub vel: V2,
    /// Height above the floor, for jumps and thrown objects.
    pub z: Fx,
    pub vz: Fx,
    pub dir: Dir,
    pub hp: i16,
    pub max_hp: i16,
    /// Knockback applied over the next few frames.
    pub knock: V2,
    pub knock_frames: u8,
    /// Frames of damage immunity remaining.
    pub iframes: u8,
    /// Frames the entity cannot act for.
    pub stun: u8,
    /// Behaviour state, interpreted per kind.
    pub state: u8,
    /// Frames remaining in the current state.
    pub timer: u16,
    pub anim: u8,
    pub anim_timer: u8,
    pub flags: u32,
    /// Scratch space, interpreted per kind.
    pub data: [i32; 4],
    /// The entity that created this one, for projectiles and swings.
    pub owner: EntityId,
    /// Index of the player this entity belongs to, for player entities.
    pub player: u8,
    pub body_w: i32,
    pub body_h: i32,
    pub alive: bool,
    /// The slot's generation counter; handles carry a copy of it.
    pub gen: u16,
}

/// True when every field but the generation holds its resting value: no
/// kind, nowhere, unowned, not alive.
pub open spec fn is_blank(e: Entity) -> bool {
    &&& e.kind == Kind::Nothing
    &&& e.level == 0
    &&& e.pos == V2 { x: 0, y: 0 }
    &&& e.vel == V2 { x: 0, y: 0 }
    &&& e.z == 0
    &&& e.vz == 0
    &&& e.dir == Dir::Down
    &&& e.hp == 1
    &&& e.max_hp == 1
    &&& e.knock == V2 { x: 0, y: 0 }
    &&& e.knock_frames == 0
    &&& e.iframes == 0
    &&& e.stun == 0
    &&& e.state == 0
    &&& e.timer == 0
    &&& e.anim == 0
    &&& e.anim_timer == 0
    &&& e.flags == 0
    &&& e.data@ == seq![0i32, 0i32, 0i32, 0i32]
    &&& e.owner == EntityId { idx: NO_SLOT, gen: 0 }
    &&& e.player == 0xff
    &&& e.body_w == 12
    &&& e.body_h == 12
    &&& !e.alive
}

fn blank_entity(gen: u16) -> (r: Entity)
    ensures
        is_blank(r),
        r.gen == gen,
{
    let r = Entity {
        kind: Kind::Nothing,
        level: 0,
        pos: V2::zero(),
        vel: V2::zero(),
        z: 0,
        vz: 0,
        dir: Dir::Down,
        hp: 1,
        max_hp: 1,
        knock: V2::zero(),
        knock_frames: 0,
        iframes: 0,
        stun: 0,
        state: 0,
        timer: 0,
        anim: 0,
        anim_timer: 0,
        flags: 0,
        data: [0i32, 0i32, 0i32, 0i32],
        owner: EntityId::none(),
        player: 0xff,
        body_w: 12,
        body_h: 12,
        alive: false,
        gen,
    };
    assert(r.data@ =~= seq![0i32, 0i32, 0i32, 0i32]);
    r
}

impl Default for Entity {
    fn default() -> (r: Entity)
        ensures
            is_blank(r),
            r.gen == 0,
    {
        blank_entity(0)
    }
}

/// The damage box's height in pixels: the feet box, at least twelve pixels,
/// plus four.
pub open spec fn hurt_height(body_h: int) -> int {
    (if body_h >= 12 { body_h } else { 12 }) + 4
}

impl Entity {
    /// True when `hurt_box` can be computed without leaving `i32`.
    pub open spec fn hurt_box_fits(&self) -> bool {
        &&& -0x80_0000 <= self.body_w < 0x80_0000
        &&& -0x80_0000 <= self.body_h < 0x80_0000 - 4
        &&& fits_i32(self.pos.x - tdiv(self.body_w * 256, 2))
        &&& fits_i32(self.pos.y - hurt_height(self.body_h as int) * 256)
        &&& fits_i32(self.pos.y - hurt_height(self.body_h as int) * 256 + tdiv(self.body_h * 256, 2))
    }

    /// Collision body in world space.
    pub fn body(&self) -> (r: Rect)
        requires
            -0x80_0000 <= self.body_w < 0x80_0000,
            -0x80_0000 <= self.body_h < 0x80_0000,
            fits_i32(self.pos.x - tdiv(self.body_w * 256, 2)),
            fits_i32(self.pos.y - tdiv(self.body_h * 256, 2)),
        ensures
            r.x == self.pos.x - tdiv(self.body_w * 256, 2),
            r.y == self.pos.y - tdiv(self.body_h * 256, 2),
            r.w == self.body_w * 256,
            r.h == self.body_h * 256,
    {
        Rect::centered(self.pos, self.body_w, self.body_h)
    }

    /// Body used for taking damage: a bit taller than the feet box so that
    /// slashing at the top of a sprite connects.
    pub fn hurt_box(&self) -> (r: Rect)
        requires
            self.hurt_box_fits(),
        ensures
            r.x == self.pos.x - tdiv(self.body_w * 256, 2),
            r.y == self.pos.y - hurt_height(self.body_h as int) * 256 + tdiv(self.body_h * 256, 2),
            r.w == self.body_w * 256,
            r.h == hurt_height(self.body_h as int) * 256,
    {
        let h: i32 = (if self.body_h >= 12 { self.body_h } else { 12 }) + 4;
        let pw = px(self.body_w);
        let ph = px(h);
        let pbh = px(self.body_h);
        Rect::new(self.pos.x - pw / 2, self.pos.y - ph + pbh / 2, pw, ph)
    }

    /// True when any of the bits in `f` is set.
    pub fn has(&self, f: u32) -> (r: bool)
        ensures
            r == (self.flags & f != 0),
    {
        self.flags & f != 0
    }

    /// Sets or clears the bits in `f`, leaving the others alone.
    pub fn set_flag(&mut self, f: u32, on: bool)
        ensures
            *final(self) == (Entity {
                flags: if on { old(self).flags | f } else { old(self).flags & !f },
                ..*old(self)
            }),
    {
        if on {
            self.flags = self.flags | f;
        } else {
            self.flags = self.flags & !f;
        }
    }

    /// The generation counter for this slot, used by snapshots.
    pub fn generation(&self) -> (r: u16)
        ensures
            r == self.gen,
    {
        self.gen
    }

    /// Restores a generation counter when loading a snapshot.
    pub fn set_generation(&mut self, gen: u16)
        ensures
            *final(self) == (Entity { gen, ..*old(self) }),
    {
        self.gen = gen;
    }

    /// True when the entity can be hurt right now.
    pub fn can_be_hurt(&self) -> (r: bool)
        ensures
            r == (self.alive && self.flags & VULNERABLE != 0 && self.iframes == 0 && self.hp > 0),
    {
        self.alive && self.has(VULNERABLE) && self.iframes == 0 && self.hp > 0
    }
}


/// The generation a slot gets when it is handed out again: one more, skipping
/// zero on wrap-around so that a live handle never carries generation zero.
pub open spec fn next_gen(g: u16) -> u16 {
    if g == 0xffff { 1 } else { (g + 1) as u16 }
}

/// True when `e` is what `spawn` puts in a slot: the kind's defaults at `pos`
/// on `level`, alive, with generation `gen`.
pub open spec fn is_fresh(e: Entity, kind: Kind, level: u16, pos: V2, gen: u16) -> bool {
    let ki = kind_info(kind);
    &&& e.kind == kind
    &&& e.level == level
    &&& e.pos == pos
    &&& e.vel == V2 { x: 0, y: 0 }
    &&& e.z == 0
    &&& e.vz == 0
    &&& e.dir == Dir::Down
    &&& e.hp == ki.hp
    &&& e.max_hp == ki.hp
    &&& e.knock == V2 { x: 0, y: 0 }
    &&& e.knock_frames == 0
    &&& e.iframes == 0
    &&& e.stun == 0
    &&& e.state == 0
    &&& e.timer == 0
    &&& e.anim == 0
    &&& e.anim_timer == 0
    &&& e.flags == ki.flags
    &&& e.data@ == seq![0i32, 0i32, 0i32, 0i32]
    &&& e.owner == EntityId { idx: NO_SLOT, gen: 0 }
    &&& e.player == 0xff
    &&& e.body_w == ki.body_w
    &&& e.body_h == ki.body_h
    &&& e.alive
    &&& e.gen == gen
}

/// The slots `collect_dead` frees among the first `n`: dead, still carrying a
/// kind, and not already on the free list; in index order.
pub open spec fn pending_dead(s: Seq<Entity>, free: Seq<u16>, n: int) -> Seq<u16>
    decreases n,
{
    if n <= 0 {
        Seq::empty()
    } else {
        let rest = pending_dead(s, free, n - 1);
        let e = s[n - 1];
        if !e.alive && e.kind != Kind::Nothing && !free.contains((n - 1) as u16) {
            rest.push((n - 1) as u16)
        } else {
            rest
        }
    }
}

/// What `collect_dead` leaves in a slot: a dead entity that still has a kind
/// loses it.
pub open spec fn swept(e: Entity) -> Entity {
    if !e.alive && e.kind != Kind::Nothing {
        Entity { kind: Kind::Nothing, ..e }
    } else {
        e
    }
}

/// The number of live entities among the first `n` slots.
pub open spec fn count_alive(s: Seq<Entity>, n: int) -> nat
    decreases n,
{
    if n <= 0 {
        0
    } else {
        count_alive(s, n - 1) + if s[n - 1].alive { 1nat } else { 0nat }
    }
}

/// True when slot `i` can go back on the free list: it exists and is dead.
pub open spec fn reusable(s: Seq<Entity>, i: u16) -> bool {
    i < s.len() && !s[i as int].alive
}

/// The slab of entities.
#[derive(Clone, Debug, Default)]
pub struct Entities {
    slots: Vec<Entity>,
    free: Vec<u16>,
    live: usize,
}

impl Entities {
    /// Every slot, live or not, in index order.
    pub closed spec fn slots_view(&self) -> Seq<Entity> {
        self.slots@
    }

    /// The free list; the last entry is handed out first.
    pub closed spec fn free_view(&self) -> Seq<u16> {
        self.free@
    }

    /// The live-entity counter.
    pub closed spec fn live_count(&self) -> nat {
        self.live as nat
    }

    /// Handles fit in sixteen bits and every free-list entry names a slot.
    pub open spec fn wf(&self) -> bool {
        &&& self.slots_view().len() <= 0x10000
        &&& forall|i: int|
            0 <= i < self.free_view().len() ==> #[trigger] self.free_view()[i]
                < self.slots_view().len()
    }

    /// True when `id` names a live entity in its current generation.
    pub open spec fn resolves(&self, id: EntityId) -> bool {
        &&& id.idx < self.slots_view().len()
        &&& self.slots_view()[id.idx as int].alive
        &&& self.slots_view()[id.idx as int].gen == id.gen
    }

    pub fn new() -> (r: Entities)
        ensures
            r.wf(),
            r.slots_view() == Seq::<Entity>::empty(),
            r.free_view() == Seq::<u16>::empty(),
            r.live_count() == 0,
    {
        Entities { slots: Vec::new(), free: Vec::new(), live: 0 }
    }

    /// Number of live entities.
    pub fn len(&self) -> (r: usize)
        ensures
            r == self.live_count(),
    {
        self.live
    }

    pub fn is_empty(&self) -> (r: bool)
        ensures
            r == (self.live_count() == 0),
    {
        self.live == 0
    }

    /// Number of slots, live or not. Iterating `0..capacity()` covers them all.
    pub fn capacity(&self) -> (r: usize)
        ensures
            r == self.slots_view().len(),
    {
        self.slots.len()
    }

    /// Spawns an entity of `kind` at `pos` on `level`, with the kind's
    /// defaults. The most recently freed slot is reused first; with none free,
    /// a new slot is added at the end.
    pub fn spawn(&mut self, kind: Kind, level: u16, pos: V2) -> (r: EntityId)
        requires
            old(self).wf(),
            old(self).free_view().len() > 0 || old(self).slots_view().len() < 0x10000,
            old(self).live_count() < usize::MAX,
        ensures
            final(self).wf(),
            old(self).free_view().len() > 0 ==> {
                &&& r.idx == old(self).free_view().last()
                &&& final(self).free_view() == old(self).free_view().drop_last()
                &&& final(self).slots_view().len() == old(self).slots_view().len()
                &&& r.gen == next_gen(old(self).slots_view()[r.idx as int].gen)
            },
            old(self).free_view().len() == 0 ==> {
                &&& r.idx == old(self).slots_view().len()
                &&& final(self).free_view() == old(self).free_view()
                &&& final(self).slots_view().len() == old(self).slots_view().len() + 1
                &&& r.gen == 1
            },
            is_fresh(final(self).slots_view()[r.idx as int], kind, level, pos, r.gen),
            forall|i: int|
                0 <= i < old(self).slots_view().len() && i != r.idx
                    ==> #[trigger] final(self).slots_view()[i] == old(self).slots_view()[i],
            final(self).live_count() == old(self).live_count() + 1,
            final(self).resolves(r),
    {
        let ki = info(kind);
        let idx: u16 = match self.free.pop() {
            Some(i) => i,
            None => {
                self.slots.push(blank_entity(0));
                (self.slots.len() - 1) as u16
            },
        };
        let old_gen: u16 = self.slots[idx as usize].gen;
        let gen: u16 = if old_gen == 0xffff { 1 } else { old_gen + 1 };
        let mut e = blank_entity(gen);
        e.kind = kind;
        e.level = level;
        e.pos = pos;
        e.hp = ki.hp;
        e.max_hp = ki.hp;
        e.flags = ki.flags;
        e.body_w = ki.body_w;
        e.body_h = ki.body_h;
        e.alive = true;
        self.slots.set(idx as usize, e);
        self.live = self.live + 1;
        proof {
            assert forall|i: int| 0 <= i < self.free@.len() implies #[trigger] self.free@[i]
                < self.slots@.len() by {
                assert(self.free@[i] == old(self).free@[i]);
            }
        }
        EntityId { idx, gen }
    }

    /// Marks an entity dead and frees its slot. A stale handle changes nothing.
    pub fn despawn(&mut self, id: EntityId)
        requires
            old(self).wf(),
            old(self).resolves(id) ==> old(self).live_count() > 0,
        ensures
            final(self).wf(),
            !final(self).resolves(id),
            old(self).resolves(id) ==> {
                &&& final(self).slots_view() == old(self).slots_view().update(
                    id.idx as int,
                    Entity { alive: false, ..old(self).slots_view()[id.idx as int] },
                )
                &&& final(self).free_view() == old(self).free_view().push(id.idx)
                &&& final(self).live_count() == old(self).live_count() - 1
            },
            !old(self).resolves(id) ==> *final(self) == *old(self),
    {
        let i = id.idx as usize;
        if i < self.slots.len() && self.slots[i].alive && self.slots[i].gen == id.gen {
            let mut e = self.slots[i];
            e.alive = false;
            self.slots.set(i, e);
            self.free.push(id.idx);
            self.live = self.live - 1;
            proof {
                assert forall|k: int| 0 <= k < self.free@.len() implies #[trigger] self.free@[k]
                    < self.slots@.len() by {
                    if k < old(self).free@.len() {
                        assert(self.free@[k] == old(self).free_view()[k]);
                    }
                }
            }
        }
    }

    /// Frees every slot whose entity died during the step without being
    /// despawned: its kind is cleared, its index goes on the free list, and
    /// the live count drops by one (never below zero).
    pub fn collect_dead(&mut self)
        requires
            old(self).wf(),
        ensures
            final(self).wf(),
            final(self).slots_view() == old(self).slots_view().map_values(|e: Entity| swept(e)),
            final(self).free_view() == old(self).free_view() + pending_dead(
                old(self).slots_view(),
                old(self).free_view(),
                old(self).slots_view().len() as int,
            ),
            final(self).live_count() == (if old(self).live_count() >= pending_dead(
                old(self).slots_view(),
                old(self).free_view(),
                old(self).slots_view().len() as int,
            ).len() {
                old(self).live_count() - pending_dead(
                    old(self).slots_view(),
                    old(self).free_view(),
                    old(self).slots_view().len() as int,
                ).len()
            } else {
                0
            }),
    {
        let ghost s0 = self.slots@;
        let ghost f0 = self.free@;
        let ghost l0 = self.live as int;
        let n = self.slots.len();
        assert forall|k: int| 0 <= k < f0.len() implies #[trigger] f0[k] < n by {
            assert(f0[k] == old(self).free_view()[k]);
        }
        let mut i: usize = 0;
        while i < n
            invariant
                n == s0.len(),
                s0.len() <= 0x10000,
                self.slots@.len() == n,
                i <= n,
                forall|k: int| 0 <= k < i ==> #[trigger] self.slots@[k] == swept(s0[k]),
                forall|k: int| i <= k < n ==> #[trigger] self.slots@[k] == s0[k],
                self.free@ == f0 + pending_dead(s0, f0, i as int),
                forall|k: int| 0 <= k < f0.len() ==> #[trigger] f0[k] < n,
                self.live == (if l0 >= pending_dead(s0, f0, i as int).len() {
                    l0 - pending_dead(s0, f0, i as int).len()
                } else {
                    0
                }),
                forall|k: int|
                    0 <= k < pending_dead(s0, f0, i as int).len() ==> #[trigger] pending_dead(
                        s0,
                        f0,
                        i as int,
                    )[k] < i,
            decreases n - i,
        {
            let e = self.slots[i];
            if !e.alive && e.kind != Kind::Nothing {
                let mut e2 = e;
                e2.kind = Kind::Nothing;
                self.slots.set(i, e2);
                let iu: u16 = i as u16;
                let present = contains_u16(&self.free, iu);
                proof {
                    let p = pending_dead(s0, f0, i as int);
                    assert(self.free@ == f0 + p);
                    if !f0.contains(iu) {
                        // The entry is not among the earlier pending ones either.
                        assert(!p.contains(iu)) by {
                            if p.contains(iu) {
                                let k = choose|k: int| 0 <= k < p.len() && p[k] == iu;
                                assert(p[k] < i);
                            }
                        }
                        assert(!self.free@.contains(iu)) by {
                            if self.free@.contains(iu) {
                                let k = choose|k: int|
                                    0 <= k < self.free@.len() && self.free@[k] == iu;
                                if k < f0.len() {
                                    assert(f0[k] == iu);
                                } else {
                                    assert(p[k - f0.len()] == iu);
                                }
                            }
                        }
                    } else {
                        let k = choose|k: int| 0 <= k < f0.len() && f0[k] == iu;
                        assert(self.free@[k] == iu);
                    }
                }
                if !present {
                    self.free.push(iu);
                    self.live = if self.live > 0 { self.live - 1 } else { 0 };
                }
            }
            proof {
                let p = pending_dead(s0, f0, i as int);
                let p1 = pending_dead(s0, f0, i + 1);
                assert(self.free@ =~= f0 + p1);
                assert forall|k: int| 0 <= k < p1.len() implies #[trigger] p1[k] < i + 1 by {
                    if k < p.len() {
                        assert(p1[k] == p[k]);
                    }
                }
            }
            i = i + 1;
        }
        proof {
            assert(self.slots@ =~= s0.map_values(|e: Entity| swept(e)));
            let p = pending_dead(s0, f0, n as int);
            assert forall|k: int| 0 <= k < self.free@.len() implies #[trigger] self.free@[k]
                < self.slots@.len() by {
                if k < f0.len() {
                    assert(self.free@[k] == f0[k]);
                } else {
                    assert(self.free@[k] == p[k - f0.len()]);
                }
            }
        }
    }

    pub fn get(&self, id: EntityId) -> (r: Option<&Entity>)
        ensures
            match r {
                Some(e) => self.resolves(id) && *e == self.slots_view()[id.idx as int],
                None => !self.resolves(id),
            },
    {
        let i = id.idx as usize;
        if i < self.slots.len() && self.slots[i].alive && self.slots[i].gen == id.gen {
            Some(&self.slots[i])
        } else {
            None
        }
    }

    /// Mutable access to the entity `id` names, if it still resolves. Only
    /// that slot can change through the returned reference.
    pub fn get_mut(&mut self, id: EntityId) -> (r: Option<&mut Entity>)
        ensures
            match r {
                Some(e) => {
                    &&& old(self).resolves(id)
                    &&& *e == old(self).slots_view()[id.idx as int]
                    &&& final(self).slots_view() == old(self).slots_view().update(
                        id.idx as int,
                        *final(e),
                    )
                    &&& final(self).free_view() == old(self).free_view()
                    &&& final(self).live_count() == old(self).live_count()
                },
                None => !old(self).resolves(id) && *final(self) == *old(self),
            },
    {
        let i = id.idx as usize;
        if i < self.slots.len() && self.slots[i].alive && self.slots[i].gen == id.gen {
            Some(&mut self.slots[i])
        } else {
            None
        }
    }

    /// Entity in a slot regardless of generation, for iteration by index.
    pub fn at(&self, idx: usize) -> (r: Option<&Entity>)
        ensures
            match r {
                Some(e) => idx < self.slots_view().len() && self.slots_view()[idx as int].alive
                    && *e == self.slots_view()[idx as int],
                None => !(idx < self.slots_view().len() && self.slots_view()[idx as int].alive),
            },
    {
        if idx < self.slots.len() && self.slots[idx].alive {
            Some(&self.slots[idx])
        } else {
            None
        }
    }

    /// Mutable access to the live entity in slot `idx`, whatever its generation.
    pub fn at_mut(&mut self, idx: usize) -> (r: Option<&mut Entity>)
        ensures
            match r {
                Some(e) => {
                    &&& idx < old(self).slots_view().len()
                    &&& old(self).slots_view()[idx as int].alive
                    &&& *e == old(self).slots_view()[idx as int]
                    &&& final(self).slots_view() == old(self).slots_view().update(
                        idx as int,
                        *final(e),
                    )
                    &&& final(self).free_view() == old(self).free_view()
                    &&& final(self).live_count() == old(self).live_count()
                },
                None => !(idx < old(self).slots_view().len() && old(self).slots_view()[
                    idx as int].alive) && *final(self) == *old(self),
            },
    {
        if idx < self.slots.len() && self.slots[idx].alive {
            Some(&mut self.slots[idx])
        } else {
            None
        }
    }

    /// Every live entity with its handle, in slot order.
    pub fn iter(&self) -> (r: Vec<(EntityId, &Entity)>)
        requires
            self.wf(),
        ensures
            r@.len() == count_alive(self.slots_view(), self.slots_view().len() as int),
            forall|k: int|
                0 <= k < r@.len() ==> {
                    let (id, e) = #[trigger] r@[k];
                    &&& id.idx < self.slots_view().len()
                    &&& *e == self.slots_view()[id.idx as int]
                    &&& e.alive
                    &&& id.gen == e.gen
                },
            forall|k: int, j: int| 0 <= k < j < r@.len() ==> r@[k].0.idx < r@[j].0.idx,
            forall|i: int|
                0 <= i < self.slots_view().len() && (#[trigger] self.slots_view()[i]).alive
                    ==> exists|k: int| 0 <= k < r@.len() && r@[k].0.idx == i,
    {
        let mut out: Vec<(EntityId, &Entity)> = Vec::new();
        let n = self.slots.len();
        let mut i: usize = 0;
        while i < n
            invariant
                n == self.slots@.len(),
                n <= 0x10000,
                i <= n,
                out@.len() == count_alive(self.slots@, i as int),
                forall|k: int|
                    0 <= k < out@.len() ==> {
                        let (id, e) = #[trigger] out@[k];
                        &&& id.idx < i
                        &&& *e == self.slots@[id.idx as int]
                        &&& e.alive
                        &&& id.gen == e.gen
                    },
                forall|k: int, j: int| 0 <= k < j < out@.len() ==> out@[k].0.idx < out@[j].0.idx,
                forall|m: int|
                    0 <= m < i && (#[trigger] self.slots@[m]).alive ==> exists|k: int|
                        0 <= k < out@.len() && out@[k].0.idx == m,
            decreases n - i,
        {
            let ghost before = out@;
            let e = &self.slots[i];
            if e.alive {
                let id = EntityId { idx: i as u16, gen: e.gen };
                out.push((id, e));
            }
            proof {
                assert forall|m: int|
                    0 <= m < i + 1 && (#[trigger] self.slots@[m]).alive implies exists|k: int|
                    0 <= k < out@.len() && out@[k].0.idx == m by {
                    if m < i {
                        let k = choose|k: int| 0 <= k < before.len() && before[k].0.idx == m;
                        assert(out@[k] == before[k]);
                    } else {
                        assert(out@[out@.len() - 1].0.idx == i);
                    }
                }
            }
            i = i + 1;
        }
        out
    }

    /// Rebuilds a slab from slots and a free list read out of a snapshot.
    /// Free-list entries that name no slot, or a live one, are dropped; the
    /// live count is the number of live slots.
    pub fn rebuild(slots: Vec<Entity>, free: Vec<u16>) -> (r: Entities)
        requires
            slots@.len() <= 0x10000,
        ensures
            r.wf(),
            r.slots_view() == slots@,
            r.free_view() == free@.filter(|i: u16| reusable(slots@, i)),
            r.live_count() == count_alive(slots@, slots@.len() as int),
    {
        let n = slots.len();
        let mut live: usize = 0;
        let mut i: usize = 0;
        while i < n
            invariant
                n == slots@.len(),
                i <= n,
                live == count_alive(slots@, i as int),
                live <= i,
            decreases n - i,
        {
            if slots[i].alive {
                live = live + 1;
            }
            i = i + 1;
        }
        let mut kept: Vec<u16> = Vec::new();
        let mut j: usize = 0;
        while j < free.len()
            invariant
                j <= free@.len(),
                n == slots@.len(),
                kept@ == free@.take(j as int).filter(|i: u16| reusable(slots@, i)),
            decreases free@.len() - j,
        {
            let f = free[j];
            proof {
                reveal_with_fuel(Seq::filter, 1);
                assert(free@.take(j + 1).drop_last() =~= free@.take(j as int));
            }
            if (f as usize) < n && !slots[f as usize].alive {
                kept.push(f);
            }
            j = j + 1;
        }
        proof {
            assert(free@.take(free@.len() as int) =~= free@);
            let fl = free@.filter(|i: u16| reusable(slots@, i));
            assert forall|k: int| 0 <= k < fl.len() implies #[trigger] fl[k] < slots@.len() by {
                free@.lemma_filter_pred(|i: u16| reusable(slots@, i), k);
            }
        }
        Entities { slots, free: kept, live }
    }

    /// Handle for a slot index; the empty handle past the end.
    pub fn id_of(&self, idx: usize) -> (r: EntityId)
        requires
            self.wf(),
        ensures
            idx < self.slots_view().len() ==> r == (EntityId {
                idx: idx as u16,
                gen: self.slots_view()[idx as int].gen,
            }),
            idx >= self.slots_view().len() ==> r == (EntityId { idx: NO_SLOT, gen: 0 }),
    {
        if idx < self.slots.len() {
            EntityId { idx: idx as u16, gen: self.slots[idx].gen }
        } else {
            EntityId::none()
        }
    }

    /// Every slot, live or not, in index order. Snapshots need the dead ones
    /// too so that handles keep pointing at the same slots after a restore.
    pub fn slots(&self) -> (r: &[Entity])
        ensures
            r@ == self.slots_view(),
    {
        self.slots.as_slice()
    }

    /// The free list, in the order slots will be handed out again.
    ///
    /// Snapshots have to carry this: which slot the next spawn lands in decides
    /// the order entities are visited in, and therefore what the simulation
    /// does next. Rebuilding it in index order is not the same slab.
    pub fn free_slots(&self) -> (r: &[u16])
        ensures
            r@ == self.free_view(),
    {
        self.free.as_slice()
    }

    /// Removes every entity, keeping allocated storage.
    pub fn clear(&mut self)
        ensures
            final(self).wf(),
            final(self).slots_view() == Seq::<Entity>::empty(),
            final(self).free_view() == Seq::<u16>::empty(),
            final(self).live_count() == 0,
    {
        self.slots.clear();
        self.free.clear();
        self.live = 0;
    }
}

/// True when `x` occurs in `v`.
fn contains_u16(v: &Vec<u16>, x: u16) -> (r: bool)
    ensures
        r == v@.contains(x),
{
    let mut i: usize = 0;
    while i < v.len()
        invariant
            i <= v@.len(),
            forall|k: int| 0 <= k < i ==> v@[k] != x,
        decreases v@.len() - i,
    {
        if v[i] == x {
            assert(v@[i as int] == x);
            return true;
        }
        i = i + 1;
    }
    false
}

} // verus!
