//! Asset packs: the bridge between what the simulation means and what you see.
//!
//! A pack holds three things: a flat array of 8x8 tiles, a palette table, and
//! *structure* — which cells make up the bush tile, which make up the hero
//! walking left. The structure comes from the built-in pack; the pixels can be
//! replaced wholesale from a ROM or an image, which is what lets you point the
//! engine at a cartridge you own and see the world redrawn with its graphics.
use vstd::prelude::*;
use crate::assets::palette::{default_palettes, grass_colours, Palette};
use crate::assets::tile::{blank_tile, Cell, Tile8, NO_TILE};
use crate::tiles::tile;
use crate::text::chars_of;

verus! {

broadcast use vstd::string::group_string_axioms;

/// A 16x16 terrain tile: four 8x8 cells in reading order.
pub type MetaTile = [Cell; 4];

/// The pixels of an empty tile: all 0.
pub open spec fn zeros() -> Seq<u8> {
    Seq::new(64, |i: int| 0u8)
}

/// An empty tile.
pub fn blank() -> (t: Tile8)
    ensures
        t@ == zeros(),
{
    let t = blank_tile();
    assert(t@ =~= zeros());
    t
}

/// A cell that draws nothing.
pub open spec fn blank_cell() -> Cell {
    Cell { tile: NO_TILE, palette: 0, flip: 0 }
}

/// A composed image made of 8x8 cells.
#[derive(Clone, Debug)]
pub struct Sprite {
    /// Width in cells.
    pub cols: u8,
    /// Height in cells.
    pub rows: u8,
    /// `cols * rows` cells in reading order.
    pub cells: Vec<Cell>,
    /// Offset in pixels from the draw anchor to the sprite's top-left.
    pub ox: i8,
    pub oy: i8,
}

impl Sprite {
    /// A sprite with no cells.
    pub fn empty() -> (s: Sprite)
        ensures
            s.cols == 0 && s.rows == 0 && s.cells@.len() == 0 && s.ox == 0 && s.oy == 0,
    {
        Sprite { cols: 0, rows: 0, cells: Vec::new(), ox: 0, oy: 0 }
    }

    pub fn width(&self) -> (r: i32)
        ensures
            r == self.cols * 8,
    {
        self.cols as i32 * 8
    }

    pub fn height(&self) -> (r: i32)
        ensures
            r == self.rows * 8,
    {
        self.rows as i32 * 8
    }

    /// The cell at `(cx, cy)`, or a blank one outside the cells.
    pub fn cell(&self, cx: usize, cy: usize) -> (c: Cell)
        requires
            cx < 0x1_0000 && cy < 0x1_0000,
        ensures
            c == (if cy * self.cols + cx < self.cells@.len() {
                self.cells@[cy * self.cols + cx]
            } else {
                blank_cell()
            }),
    {
        proof {
            assert(cy * self.cols <= 0x1_0000 * 255) by (nonlinear_arith)
                requires
                    cy < 0x1_0000,
                    self.cols <= 255,
            ;
        }
        let i = cy * self.cols as usize + cx;
        if i < self.cells.len() {
            self.cells[i]
        } else {
            Cell::blank()
        }
    }
}

/// Every image the renderer knows how to draw, in the order their art is
/// kept.
#[derive(Clone, Copy, PartialEq, Eq, Structural, Debug)]
pub enum SpriteId {
    HeroDown0,
    HeroDown1,
    HeroUp0,
    HeroUp1,
    HeroSide0,
    HeroSide1,
    HeroAttackDown,
    HeroAttackUp,
    HeroAttackSide,
    HeroCarryDown,
    HeroCarryUp,
    HeroCarrySide,
    HeroSwim,
    HeroFall,
    SwordUp,
    SwordSide,
    Octorok0,
    Octorok1,
    Moblin0,
    Moblin1,
    Zol0,
    Zol1,
    Keese0,
    Keese1,
    Tektite0,
    Tektite1,
    Stalfos0,
    Stalfos1,
    Boss0,
    Boss1,
    Rock,
    ArrowVert,
    ArrowSide,
    BeamVert,
    BeamSide,
    Boomerang,
    Bomb,
    Explosion,
    Fireball,
    Rupee,
    Heart,
    Key,
    BombPickup,
    ArrowPickup,
    Fairy,
    HeartPiece,
    Triforce,
    ChestClosed,
    ChestOpen,
    Poof,
    Sparkle,
    Shadow,
    HudHeart4,
    HudHeart2,
    HudHeart1,
    HudHeart0,
    IconSword,
    IconShield,
    IconBomb,
    IconBow,
    IconBoomerang,
    IconFeather,
    IconBracelet,
    IconBoots,
    IconFlippers,
    IconKey,
    IconRupee,
    Count,
}

/// Where a sprite's art is kept.
pub open spec fn sprite_index(id: SpriteId) -> int {
    match id {
        SpriteId::HeroDown0 => 0,
        SpriteId::HeroDown1 => 1,
        SpriteId::HeroUp0 => 2,
        SpriteId::HeroUp1 => 3,
        SpriteId::HeroSide0 => 4,
        SpriteId::HeroSide1 => 5,
        SpriteId::HeroAttackDown => 6,
        SpriteId::HeroAttackUp => 7,
        SpriteId::HeroAttackSide => 8,
        SpriteId::HeroCarryDown => 9,
        SpriteId::HeroCarryUp => 10,
        SpriteId::HeroCarrySide => 11,
        SpriteId::HeroSwim => 12,
        SpriteId::HeroFall => 13,
        SpriteId::SwordUp => 14,
        SpriteId::SwordSide => 15,
        SpriteId::Octorok0 => 16,
        SpriteId::Octorok1 => 17,
        SpriteId::Moblin0 => 18,
        SpriteId::Moblin1 => 19,
        SpriteId::Zol0 => 20,
        SpriteId::Zol1 => 21,
        SpriteId::Keese0 => 22,
        SpriteId::Keese1 => 23,
        SpriteId::Tektite0 => 24,
        SpriteId::Tektite1 => 25,
        SpriteId::Stalfos0 => 26,
        SpriteId::Stalfos1 => 27,
        SpriteId::Boss0 => 28,
        SpriteId::Boss1 => 29,
        SpriteId::Rock => 30,
        SpriteId::ArrowVert => 31,
        SpriteId::ArrowSide => 32,
        SpriteId::BeamVert => 33,
        SpriteId::BeamSide => 34,
        SpriteId::Boomerang => 35,
        SpriteId::Bomb => 36,
        SpriteId::Explosion => 37,
        SpriteId::Fireball => 38,
        SpriteId::Rupee => 39,
        SpriteId::Heart => 40,
        SpriteId::Key => 41,
        SpriteId::BombPickup => 42,
        SpriteId::ArrowPickup => 43,
        SpriteId::Fairy => 44,
        SpriteId::HeartPiece => 45,
        SpriteId::Triforce => 46,
        SpriteId::ChestClosed => 47,
        SpriteId::ChestOpen => 48,
        SpriteId::Poof => 49,
        SpriteId::Sparkle => 50,
        SpriteId::Shadow => 51,
        SpriteId::HudHeart4 => 52,
        SpriteId::HudHeart2 => 53,
        SpriteId::HudHeart1 => 54,
        SpriteId::HudHeart0 => 55,
        SpriteId::IconSword => 56,
        SpriteId::IconShield => 57,
        SpriteId::IconBomb => 58,
        SpriteId::IconBow => 59,
        SpriteId::IconBoomerang => 60,
        SpriteId::IconFeather => 61,
        SpriteId::IconBracelet => 62,
        SpriteId::IconBoots => 63,
        SpriteId::IconFlippers => 64,
        SpriteId::IconKey => 65,
        SpriteId::IconRupee => 66,
        SpriteId::Count => 67,
    }
}

/// How many sprites a pack holds.
pub const SPRITE_COUNT: usize = 67;

impl SpriteId {
    /// How many sprites a pack holds.
    pub const N: usize = 67;

    /// Where this sprite's art is kept; see [`sprite_index`].
    pub fn index(self) -> (r: usize)
        ensures
            r == sprite_index(self),
    {
        match self {
        SpriteId::HeroDown0 => 0,
        SpriteId::HeroDown1 => 1,
        SpriteId::HeroUp0 => 2,
        SpriteId::HeroUp1 => 3,
        SpriteId::HeroSide0 => 4,
        SpriteId::HeroSide1 => 5,
        SpriteId::HeroAttackDown => 6,
        SpriteId::HeroAttackUp => 7,
        SpriteId::HeroAttackSide => 8,
        SpriteId::HeroCarryDown => 9,
        SpriteId::HeroCarryUp => 10,
        SpriteId::HeroCarrySide => 11,
        SpriteId::HeroSwim => 12,
        SpriteId::HeroFall => 13,
        SpriteId::SwordUp => 14,
        SpriteId::SwordSide => 15,
        SpriteId::Octorok0 => 16,
        SpriteId::Octorok1 => 17,
        SpriteId::Moblin0 => 18,
        SpriteId::Moblin1 => 19,
        SpriteId::Zol0 => 20,
        SpriteId::Zol1 => 21,
        SpriteId::Keese0 => 22,
        SpriteId::Keese1 => 23,
        SpriteId::Tektite0 => 24,
        SpriteId::Tektite1 => 25,
        SpriteId::Stalfos0 => 26,
        SpriteId::Stalfos1 => 27,
        SpriteId::Boss0 => 28,
        SpriteId::Boss1 => 29,
        SpriteId::Rock => 30,
        SpriteId::ArrowVert => 31,
        SpriteId::ArrowSide => 32,
        SpriteId::BeamVert => 33,
        SpriteId::BeamSide => 34,
        SpriteId::Boomerang => 35,
        SpriteId::Bomb => 36,
        SpriteId::Explosion => 37,
        SpriteId::Fireball => 38,
        SpriteId::Rupee => 39,
        SpriteId::Heart => 40,
        SpriteId::Key => 41,
        SpriteId::BombPickup => 42,
        SpriteId::ArrowPickup => 43,
        SpriteId::Fairy => 44,
        SpriteId::HeartPiece => 45,
        SpriteId::Triforce => 46,
        SpriteId::ChestClosed => 47,
        SpriteId::ChestOpen => 48,
        SpriteId::Poof => 49,
        SpriteId::Sparkle => 50,
        SpriteId::Shadow => 51,
        SpriteId::HudHeart4 => 52,
        SpriteId::HudHeart2 => 53,
        SpriteId::HudHeart1 => 54,
        SpriteId::HudHeart0 => 55,
        SpriteId::IconSword => 56,
        SpriteId::IconShield => 57,
        SpriteId::IconBomb => 58,
        SpriteId::IconBow => 59,
        SpriteId::IconBoomerang => 60,
        SpriteId::IconFeather => 61,
        SpriteId::IconBracelet => 62,
        SpriteId::IconBoots => 63,
        SpriteId::IconFlippers => 64,
        SpriteId::IconKey => 65,
        SpriteId::IconRupee => 66,
        SpriteId::Count => 67,
        }
    }
}

/// The sprite kept at an index, in order; `Count` past the end.
pub fn sprite_at(i: usize) -> (id: SpriteId)
    ensures
        i < SPRITE_COUNT ==> sprite_index(id) == i,
        i >= SPRITE_COUNT ==> id == SpriteId::Count,
{
    if i == 0 {
        SpriteId::HeroDown0
    } else if i == 1 {
        SpriteId::HeroDown1
    } else if i == 2 {
        SpriteId::HeroUp0
    } else if i == 3 {
        SpriteId::HeroUp1
    } else if i == 4 {
        SpriteId::HeroSide0
    } else if i == 5 {
        SpriteId::HeroSide1
    } else if i == 6 {
        SpriteId::HeroAttackDown
    } else if i == 7 {
        SpriteId::HeroAttackUp
    } else if i == 8 {
        SpriteId::HeroAttackSide
    } else if i == 9 {
        SpriteId::HeroCarryDown
    } else if i == 10 {
        SpriteId::HeroCarryUp
    } else if i == 11 {
        SpriteId::HeroCarrySide
    } else if i == 12 {
        SpriteId::HeroSwim
    } else if i == 13 {
        SpriteId::HeroFall
    } else if i == 14 {
        SpriteId::SwordUp
    } else if i == 15 {
        SpriteId::SwordSide
    } else if i == 16 {
        SpriteId::Octorok0
    } else if i == 17 {
        SpriteId::Octorok1
    } else if i == 18 {
        SpriteId::Moblin0
    } else if i == 19 {
        SpriteId::Moblin1
    } else if i == 20 {
        SpriteId::Zol0
    } else if i == 21 {
        SpriteId::Zol1
    } else if i == 22 {
        SpriteId::Keese0
    } else if i == 23 {
        SpriteId::Keese1
    } else if i == 24 {
        SpriteId::Tektite0
    } else if i == 25 {
        SpriteId::Tektite1
    } else if i == 26 {
        SpriteId::Stalfos0
    } else if i == 27 {
        SpriteId::Stalfos1
    } else if i == 28 {
        SpriteId::Boss0
    } else if i == 29 {
        SpriteId::Boss1
    } else if i == 30 {
        SpriteId::Rock
    } else if i == 31 {
        SpriteId::ArrowVert
    } else if i == 32 {
        SpriteId::ArrowSide
    } else if i == 33 {
        SpriteId::BeamVert
    } else if i == 34 {
        SpriteId::BeamSide
    } else if i == 35 {
        SpriteId::Boomerang
    } else if i == 36 {
        SpriteId::Bomb
    } else if i == 37 {
        SpriteId::Explosion
    } else if i == 38 {
        SpriteId::Fireball
    } else if i == 39 {
        SpriteId::Rupee
    } else if i == 40 {
        SpriteId::Heart
    } else if i == 41 {
        SpriteId::Key
    } else if i == 42 {
        SpriteId::BombPickup
    } else if i == 43 {
        SpriteId::ArrowPickup
    } else if i == 44 {
        SpriteId::Fairy
    } else if i == 45 {
        SpriteId::HeartPiece
    } else if i == 46 {
        SpriteId::Triforce
    } else if i == 47 {
        SpriteId::ChestClosed
    } else if i == 48 {
        SpriteId::ChestOpen
    } else if i == 49 {
        SpriteId::Poof
    } else if i == 50 {
        SpriteId::Sparkle
    } else if i == 51 {
        SpriteId::Shadow
    } else if i == 52 {
        SpriteId::HudHeart4
    } else if i == 53 {
        SpriteId::HudHeart2
    } else if i == 54 {
        SpriteId::HudHeart1
    } else if i == 55 {
        SpriteId::HudHeart0
    } else if i == 56 {
        SpriteId::IconSword
    } else if i == 57 {
        SpriteId::IconShield
    } else if i == 58 {
        SpriteId::IconBomb
    } else if i == 59 {
        SpriteId::IconBow
    } else if i == 60 {
        SpriteId::IconBoomerang
    } else if i == 61 {
        SpriteId::IconFeather
    } else if i == 62 {
        SpriteId::IconBracelet
    } else if i == 63 {
        SpriteId::IconBoots
    } else if i == 64 {
        SpriteId::IconFlippers
    } else if i == 65 {
        SpriteId::IconKey
    } else if i == 66 {
        SpriteId::IconRupee
    } else {
        SpriteId::Count
    }
}

/// Where a pack's pixels came from.
#[derive(Clone, Debug)]
pub enum Source {
    /// The art that ships with the engine.
    BuiltIn,
    /// Tiles lifted out of a Game Boy ROM the player supplied.
    Rom { title: String, offset: usize },
    /// Tiles decoded from an image or raw tile dump.
    File { name: String },
}

/// A complete set of graphics.
#[derive(Clone, Debug)]
pub struct AssetPack {
    pub name: String,
    pub source: Source,
    pub tiles: Vec<Tile8>,
    pub palettes: Vec<Palette>,
    /// One entry per logical terrain tile id.
    pub metatiles: Vec<MetaTile>,
    /// True for terrain that is an object standing on the ground rather than
    /// the ground itself. These are drawn over the level's ground tile, with
    /// colour 0 left transparent.
    pub overlay: Vec<bool>,
    /// One entry per [`SpriteId`].
    pub sprites: Vec<Sprite>,
}

impl AssetPack {
    /// A terrain table for every tile id and art for every sprite.
    pub open spec fn wf(&self) -> bool {
        &&& self.metatiles@.len() == tile::COUNT
        &&& self.overlay@.len() == tile::COUNT
        &&& self.sprites@.len() == SPRITE_COUNT
    }

    /// An empty pack with the default palettes and nothing drawn: one blank
    /// tile, blank terrain, no overlays and empty sprites.
    pub fn empty() -> (p: AssetPack)
        ensures
            p.wf(),
            p.tiles@.len() == 1 && p.tiles@[0]@ == zeros(),
            p.palettes@.len() == 16,
            forall|i: int| 0 <= i < tile::COUNT ==> (#[trigger] p.metatiles@[i])@ == seq![blank_cell(), blank_cell(), blank_cell(), blank_cell()],
            forall|i: int| 0 <= i < tile::COUNT ==> !#[trigger] p.overlay@[i],
            forall|i: int| 0 <= i < SPRITE_COUNT ==> (#[trigger] p.sprites@[i]).cells@.len() == 0,
    {
        let mut tiles: Vec<Tile8> = Vec::new();
        tiles.push(blank());
        let mut metatiles: Vec<MetaTile> = Vec::new();
        let mut overlay: Vec<bool> = Vec::new();
        let mut i: usize = 0;
        while i < tile::COUNT
            invariant
                i <= tile::COUNT,
                metatiles@.len() == i && overlay@.len() == i,
                forall|k: int| 0 <= k < i ==> (#[trigger] metatiles@[k])@ == seq![blank_cell(), blank_cell(), blank_cell(), blank_cell()],
                forall|k: int| 0 <= k < i ==> !#[trigger] overlay@[k],
            decreases tile::COUNT - i,
        {
            let b = Cell::blank();
            let m: MetaTile = [b, b, b, b];
            proof {
                assert(m@ =~= seq![blank_cell(), blank_cell(), blank_cell(), blank_cell()]);
            }
            metatiles.push(m);
            overlay.push(false);
            i = i + 1;
        }
        let mut sprites: Vec<Sprite> = Vec::new();
        let mut k: usize = 0;
        while k < SPRITE_COUNT
            invariant
                k <= SPRITE_COUNT,
                sprites@.len() == k,
                forall|j: int| 0 <= j < k ==> (#[trigger] sprites@[j]).cells@.len() == 0,
            decreases SPRITE_COUNT - k,
        {
            sprites.push(Sprite::empty());
            k = k + 1;
        }
        AssetPack {
            name: "empty".to_owned(),
            source: Source::BuiltIn,
            tiles,
            palettes: default_palettes(),
            metatiles,
            overlay,
            sprites,
        }
    }

    /// Pixels for a tile index, or a blank tile when out of range.
    pub fn tile(&self, index: u16) -> (t: Tile8)
        ensures
            t@ == (if (index as int) < self.tiles@.len() { self.tiles@[index as int]@ } else { zeros() }),
    {
        if (index as usize) < self.tiles.len() {
            self.tiles[index as usize]
        } else {
            blank()
        }
    }

    /// The palette at an index, falling back to the first default one.
    pub fn palette(&self, index: u8) -> (p: Palette)
        ensures
            (index as int) < self.palettes@.len() ==> p == self.palettes@[index as int],
            p.0@ == palette_colours(*self, index as int),
    {
        if (index as usize) < self.palettes.len() {
            self.palettes[index as usize]
        } else {
            default_palettes()[0]
        }
    }

    /// The art for a logical terrain tile, blank past the table.
    pub fn metatile(&self, t: u8) -> (m: MetaTile)
        ensures
            m@ == (if (t as int) < self.metatiles@.len() {
                self.metatiles@[t as int]@
            } else {
                seq![blank_cell(), blank_cell(), blank_cell(), blank_cell()]
            }),
    {
        if (t as usize) < self.metatiles.len() {
            self.metatiles[t as usize]
        } else {
            let b = Cell::blank();
            let m: MetaTile = [b, b, b, b];
            proof {
                assert(m@ =~= seq![blank_cell(), blank_cell(), blank_cell(), blank_cell()]);
            }
            m
        }
    }

    /// True when this terrain is drawn over the level's ground tile.
    pub fn is_overlay(&self, t: u8) -> (r: bool)
        ensures
            r == ((t as int) < self.overlay@.len() && self.overlay@[t as int]),
    {
        (t as usize) < self.overlay.len() && self.overlay[t as usize]
    }

    /// The art for a sprite.
    pub fn sprite(&self, id: SpriteId) -> (s: &Sprite)
        requires
            self.wf(),
            id != SpriteId::Count,
        ensures
            *s == self.sprites@[sprite_index(id)],
    {
        &self.sprites[id.index()]
    }

    /// Replaces tile pixels starting at `base`, growing the array (with
    /// blank tiles) if needed; returns how many tiles came in.
    ///
    /// Structure is untouched, so an imported tileset lands under the existing
    /// arrangement of metatiles and sprites.
    pub fn import_tiles(&mut self, base: usize, tiles: &[Tile8]) -> (n: usize)
        requires
            base + tiles@.len() <= usize::MAX,
        ensures
            n == tiles@.len(),
            final(self).tiles@.len() == if old(self).tiles@.len() < base + tiles@.len() {
                base + tiles@.len()
            } else {
                old(self).tiles@.len() as int
            },
            forall|i: int|
                0 <= i < final(self).tiles@.len() ==> (#[trigger] final(self).tiles@[i])@ == if base <= i < base
                    + tiles@.len() {
                    tiles@[i - base]@
                } else if i < old(self).tiles@.len() {
                    old(self).tiles@[i]@
                } else {
                    zeros()
                },
            final(self).metatiles == old(self).metatiles,
            final(self).overlay == old(self).overlay,
            final(self).sprites == old(self).sprites,
            final(self).palettes == old(self).palettes,
            final(self).name == old(self).name,
            final(self).source == old(self).source,
    {
        let ghost before = self.tiles@;
        let want = base + tiles.len();
        while self.tiles.len() < want
            invariant
                self.tiles@.len() <= if before.len() < want { want as int } else { before.len() as int },
                self.tiles@.len() >= before.len(),
                forall|i: int| 0 <= i < self.tiles@.len() ==> (#[trigger] self.tiles@[i])@ == if i < before.len() { before[i]@ } else { zeros() },
                self.metatiles == old(self).metatiles,
                self.overlay == old(self).overlay,
                self.sprites == old(self).sprites,
                self.palettes == old(self).palettes,
                self.name == old(self).name,
                self.source == old(self).source,
            decreases want - self.tiles@.len(),
        {
            self.tiles.push(blank());
        }
        let ghost grown = self.tiles@;
        let mut k: usize = 0;
        while k < tiles.len()
            invariant
                base + tiles@.len() == want,
                self.tiles@.len() == grown.len(),
                grown.len() >= want,
                k <= tiles@.len(),
                forall|i: int| 0 <= i < self.tiles@.len() ==> (#[trigger] self.tiles@[i])@ == if base <= i < base + k {
                    tiles@[i - base]@
                } else {
                    grown[i]@
                },
                self.metatiles == old(self).metatiles,
                self.overlay == old(self).overlay,
                self.sprites == old(self).sprites,
                self.palettes == old(self).palettes,
                self.name == old(self).name,
                self.source == old(self).source,
            decreases tiles@.len() - k,
        {
            self.tiles.set(base + k, tiles[k]);
            k = k + 1;
        }
        tiles.len()
    }

    /// Replaces palettes from `base` on, growing the table with the first
    /// default palette if needed and keeping any the new set does not reach.
    pub fn import_palettes(&mut self, base: usize, palettes: &[Palette])
        requires
            base + palettes@.len() <= usize::MAX,
        ensures
            final(self).palettes@.len() == if old(self).palettes@.len() < base + palettes@.len() {
                base + palettes@.len()
            } else {
                old(self).palettes@.len() as int
            },
            forall|i: int|
                0 <= i < final(self).palettes@.len() ==> (base <= i < base + palettes@.len() ==> #[trigger] final(self).palettes@[i] == palettes@[i - base])
                    && (!(base <= i < base + palettes@.len()) && i < old(self).palettes@.len() ==> final(self).palettes@[i] == old(self).palettes@[i])
                    && (!(base <= i < base + palettes@.len()) && i >= old(self).palettes@.len() ==> final(self).palettes@[i].0@ == grass_colours()),
            final(self).tiles == old(self).tiles,
            final(self).overlay == old(self).overlay,
            final(self).name == old(self).name,
            final(self).source == old(self).source,
            final(self).metatiles == old(self).metatiles,
            final(self).sprites == old(self).sprites,
    {
        let ghost before = self.palettes@;
        let want = base + palettes.len();
        let fill = default_palettes()[0];
        while self.palettes.len() < want
            invariant
                self.palettes@.len() <= if before.len() < want { want as int } else { before.len() as int },
                self.palettes@.len() >= before.len(),
                forall|i: int| 0 <= i < before.len() ==> #[trigger] self.palettes@[i] == before[i],
                forall|i: int| before.len() <= i < self.palettes@.len() ==> #[trigger] self.palettes@[i].0@ == grass_colours(),
                fill.0@ == grass_colours(),
                self.tiles == old(self).tiles,
                self.overlay == old(self).overlay,
                self.name == old(self).name,
                self.source == old(self).source,
                self.metatiles == old(self).metatiles,
                self.sprites == old(self).sprites,
            decreases want - self.palettes@.len(),
        {
            self.palettes.push(fill);
        }
        let ghost grown = self.palettes@;
        let mut k: usize = 0;
        while k < palettes.len()
            invariant
                base + palettes@.len() == want,
                self.palettes@.len() == grown.len(),
                grown.len() >= want,
                grown.len() >= before.len(),
                forall|i: int| 0 <= i < before.len() ==> #[trigger] grown[i] == before[i],
                forall|i: int| before.len() <= i < grown.len() ==> #[trigger] grown[i].0@ == grass_colours(),
                k <= palettes@.len(),
                forall|i: int| 0 <= i < self.palettes@.len() ==> #[trigger] self.palettes@[i] == if base <= i < base + k {
                    palettes@[i - base]
                } else {
                    grown[i]
                },
                self.tiles == old(self).tiles,
                self.metatiles == old(self).metatiles,
                self.sprites == old(self).sprites,
                self.overlay == old(self).overlay,
                self.name == old(self).name,
                self.source == old(self).source,
            decreases palettes@.len() - k,
        {
            self.palettes.set(base + k, palettes[k]);
            k = k + 1;
        }
    }

    /// Number of distinct 8x8 tiles in the pack.
    pub fn tile_count(&self) -> (r: usize)
        ensures
            r == self.tiles@.len(),
    {
        self.tiles.len()
    }
}

/// Where the first tile with these pixels is among the first `n`, or -1.
pub open spec fn find_upto(tiles: Seq<Tile8>, t: Seq<u8>, n: int) -> int
    decreases n,
{
    if n <= 0 {
        -1
    } else {
        let f = find_upto(tiles, t, n - 1);
        if f >= 0 {
            f
        } else if tiles[n - 1]@ == t {
            n - 1
        } else {
            -1
        }
    }
}

/// Where the first tile with these pixels is, or -1.
pub open spec fn find_tile(tiles: Seq<Tile8>, t: Seq<u8>) -> int {
    find_upto(tiles, t, tiles.len() as int)
}

/// A found tile has those pixels and lies in the list.
proof fn lemma_find_upto(tiles: Seq<Tile8>, t: Seq<u8>, n: int)
    requires
        0 <= n <= tiles.len(),
    ensures
        -1 <= find_upto(tiles, t, n) < n,
        find_upto(tiles, t, n) >= 0 ==> tiles[find_upto(tiles, t, n)]@ == t,
        find_upto(tiles, t, n) < 0 ==> forall|j: int| 0 <= j < n ==> (#[trigger] tiles[j])@ != t,
    decreases n,
{
    if n > 0 {
        lemma_find_upto(tiles, t, n - 1);
    }
}

/// Once found among the first `a` tiles, a tile stays found there.
proof fn lemma_find_stays(tiles: Seq<Tile8>, t: Seq<u8>, a: int, b: int)
    requires
        0 <= a <= b,
        find_upto(tiles, t, a) >= 0,
    ensures
        find_upto(tiles, t, b) == find_upto(tiles, t, a),
    decreases b - a,
{
    if b > a {
        lemma_find_stays(tiles, t, a, b - 1);
    }
}

/// The colour a character of art stands for.
pub open spec fn art_value(c: char) -> u8 {
    if c == '-' || c == '1' {
        1
    } else if c == '+' || c == '2' {
        2
    } else if c == '#' || c == '3' {
        3
    } else {
        0
    }
}

/// The character at column `x` of a row of art, `.` past its end.
pub open spec fn art_char(row: Seq<char>, x: int) -> char {
    if 0 <= x < row.len() { row[x] } else { '.' }
}

/// The pixels of cell `(cx, cy)` of some art.
pub open spec fn cell_pixels(rows: Seq<Seq<char>>, cx: int, cy: int) -> Seq<u8> {
    Seq::new(64, |i: int| art_value(art_char(rows[cy * 8 + i / 8], cx * 8 + i % 8)))
}

/// The colours of the palette at an index, or the first default
/// palette's past the table.
pub open spec fn palette_colours(pack: AssetPack, index: int) -> Seq<u32> {
    if index < pack.palettes@.len() {
        pack.palettes@[index].0@
    } else {
        grass_colours()
    }
}

/// The pixels of the tile at an index, blank past the end.
pub open spec fn tile_at(pack: AssetPack, index: int) -> Seq<u8> {
    if index < pack.tiles@.len() { pack.tiles@[index]@ } else { zeros() }
}

/// Builds a pack from string art, reusing identical tiles.
pub struct PackBuilder {
    tiles: Vec<Tile8>,
    pub pack: AssetPack,
}

impl PackBuilder {
    /// The pack being built.
    pub closed spec fn built(&self) -> AssetPack {
        self.pack
    }

    /// The tiles gathered so far.
    pub closed spec fn gathered(&self) -> Seq<Tile8> {
        self.tiles@
    }

    /// A builder with only the blank tile, at index 0, so that an unset
    /// cell draws nothing; its pack is empty and named `name`.
    pub fn new(name: &str) -> (b: PackBuilder)
        ensures
            b.built().wf(),
            b.built().name@ == name@,
            b.gathered().len() == 1,
            b.gathered()[0]@ == zeros(),
    {
        let mut b = PackBuilder { tiles: Vec::new(), pack: AssetPack::empty() };
        b.pack.name = name.to_owned();
        let _ = b.intern(blank());
        b
    }

    /// Adds a tile, returning the index of an identical one if there is one,
    /// otherwise of the new one at the end.
    pub fn intern(&mut self, t: Tile8) -> (i: u16)
        ensures
            final(self).built() == old(self).built(),
            find_tile(old(self).gathered(), t@) >= 0 ==> final(self).gathered() == old(self).gathered() && i as int
                == find_tile(old(self).gathered(), t@) as u16,
            find_tile(old(self).gathered(), t@) < 0 ==> final(self).gathered() == old(self).gathered().push(t) && i
                == old(self).gathered().len() as u16,
    {
        let n = self.tiles.len();
        let mut k: usize = 0;
        while k < n
            invariant
                n == self.tiles@.len(),
                k <= n,
                find_upto(self.tiles@, t@, k as int) < 0,
            decreases n - k,
        {
            if same_tile(&self.tiles[k], &t) {
                proof {
                    lemma_find_stays(self.tiles@, t@, k + 1, n as int);
                }
                return k as u16;
            }
            k = k + 1;
        }
        self.tiles.push(t);
        n as u16
    }

    /// Converts string art into a sprite of `w / 8` by `h / 8` cells, where
    /// `h` is the number of rows and `w` the longest row: each cell whose
    /// pixels are all 0 is blank, any other is its interned tile in
    /// `palette`. `.` and a space (and anything unknown, or nothing past a
    /// short row) are colour 0, `-` or `1` is 1, `+` or `2` is 2 and `#` or
    /// `3` is 3.
    pub fn art(&mut self, rows: &[&str], palette: u8) -> (s: Sprite)
        requires
            rows@.len() % 8 == 0 && rows@.len() > 0,
            rows@.len() <= 0x7f8,
            art_width(rows@.map_values(|r: &str| r@)) % 8 == 0,
            0 < art_width(rows@.map_values(|r: &str| r@)) <= 0x7f8,
            old(self).gathered().len() + (art_width(rows@.map_values(|r: &str| r@)) / 8) * (rows@.len() / 8) < 0x1_0000,
        ensures
            final(self).built() == old(self).built(),
            final(self).gathered().len() >= old(self).gathered().len(),
            final(self).gathered().subrange(0, old(self).gathered().len() as int) == old(self).gathered(),
            s.cols as int == art_width(rows@.map_values(|r: &str| r@)) / 8,
            s.rows as int == rows@.len() / 8,
            s.ox == 0 && s.oy == 0,
            s.cells@.len() == s.cols * s.rows,
            forall|k: int| 0 <= k < s.cells@.len() ==> {
                let px = cell_pixels(rows@.map_values(|r: &str| r@), k % s.cols as int, k / s.cols as int);
                let c = #[trigger] s.cells@[k];
                if px == zeros() {
                    c == blank_cell()
                } else {
                    &&& c.palette == palette && c.flip == 0
                    &&& c.tile < final(self).gathered().len()
                    &&& final(self).gathered()[c.tile as int]@ == px
                }
            },
    {
        let ghost text = rows@.map_values(|r: &str| r@);
        let h = rows.len();
        let mut chars: Vec<Vec<char>> = Vec::new();
        let mut w: usize = 0;
        let mut r: usize = 0;
        while r < h
            invariant
                h == rows@.len(),
                text == rows@.map_values(|r: &str| r@),
                r <= h,
                chars@.len() == r,
                forall|j: int| 0 <= j < r ==> (#[trigger] chars@[j])@ == text[j],
                w as int == width_upto(text, r as int),
            decreases h - r,
        {
            let cs = chars_of(rows[r]);
            if cs.len() > w {
                w = cs.len();
            }
            chars.push(cs);
            r = r + 1;
        }
        let cols = w / 8;
        let nrows = h / 8;
        let ghost start = self.tiles@;
        let mut cells: Vec<Cell> = Vec::new();
        let mut cy: usize = 0;
        while cy < nrows
            invariant
                h == rows@.len(),
                nrows == h / 8,
                cols == w / 8,
                w as int == art_width(text),
                w <= 0x7f8 && h <= 0x7f8,
                w % 8 == 0 && h % 8 == 0,
                chars@.len() == h,
                forall|j: int| 0 <= j < h ==> (#[trigger] chars@[j])@ == text[j],
                start.len() + cols * nrows < 0x1_0000,
                self.tiles@.len() <= start.len() + cells@.len(),
                cy <= nrows,
                cells@.len() == cy * cols,
                self.pack == old(self).pack,
                self.tiles@.len() >= start.len(),
                self.tiles@.subrange(0, start.len() as int) == start,
                forall|k: int| 0 <= k < cells@.len() ==> cell_ok(#[trigger] cells@[k], cell_pixels(text, k % cols as int, k / cols as int), palette, self.tiles@),
            decreases nrows - cy,
        {
            let mut cx: usize = 0;
            while cx < cols
                invariant
                    h == rows@.len(),
                    nrows == h / 8,
                    cols == w / 8,
                    w <= 0x7f8 && h <= 0x7f8,
                    w % 8 == 0 && h % 8 == 0,
                    chars@.len() == h,
                    forall|j: int| 0 <= j < h ==> (#[trigger] chars@[j])@ == text[j],
                    start.len() + cols * nrows < 0x1_0000,
                    self.tiles@.len() <= start.len() + cells@.len(),
                    cy < nrows,
                    cx <= cols,
                    cells@.len() == cy * cols + cx,
                    self.pack == old(self).pack,
                    self.tiles@.len() >= start.len(),
                    self.tiles@.subrange(0, start.len() as int) == start,
                    forall|k: int| 0 <= k < cells@.len() ==> cell_ok(#[trigger] cells@[k], cell_pixels(text, k % cols as int, k / cols as int), palette, self.tiles@),
                decreases cols - cx,
            {
                proof {
                    assert(cy * 8 + 8 <= h) by (nonlinear_arith)
                        requires
                            cy < nrows,
                            nrows == h / 8,
                            h % 8 == 0,
                    ;
                }
                let t = cell_tile(&chars, cx, cy);
                proof {
                    assert(t@ == cell_pixels(text, cx as int, cy as int));
                }
                let used = !is_zero(&t);
                let ghost before = self.tiles@;
                let ghost k = cells@.len() as int;
                proof {
                    assert((cy * cols + cx) % cols as int == cx && (cy * cols + cx) / cols as int == cy) by (nonlinear_arith)
                        requires
                            cx < cols,
                    ;
                }
                proof {
                    assert(cells@.len() < cols * nrows) by (nonlinear_arith)
                        requires
                            cells@.len() == cy * cols + cx,
                            cx < cols,
                            cy < nrows,
                    ;
                }
                if used {
                    let i = self.intern(t);
                    proof {
                        lemma_find_upto(before, t@, before.len() as int);
                        assert(self.tiles@.subrange(0, before.len() as int) =~= before);
                    }
                    cells.push(Cell::new(i, palette));
                } else {
                    cells.push(Cell::blank());
                }
                proof {
                    assert(self.tiles@.subrange(0, before.len() as int) =~= before);
                    assert forall|j: int| 0 <= j < cells@.len() implies cell_ok(#[trigger] cells@[j], cell_pixels(text, j % cols as int, j / cols as int), palette, self.tiles@) by {
                        if j < k {
                            assert(cell_ok(cells@[j], cell_pixels(text, j % cols as int, j / cols as int), palette, before));
                            lemma_cell_ok_grow(cells@[j], cell_pixels(text, j % cols as int, j / cols as int), palette, before, self.tiles@);
                        }
                    }
                    assert(self.tiles@.subrange(0, start.len() as int) =~= start) by {
                        assert(before.subrange(0, start.len() as int) =~= start);
                    }
                }
                cx = cx + 1;
            }
            proof {
                assert(cy * cols + cols == (cy + 1) * cols) by (nonlinear_arith);
            }
            cy = cy + 1;
        }
        proof {
            assert(nrows * cols == cols * nrows) by (nonlinear_arith);
        }
        Sprite { cols: cols as u8, rows: nrows as u8, cells, ox: 0, oy: 0 }
    }

    /// Registers terrain from 8x8 or 16x16 art: 16x16 art gives the four
    /// cells in reading order, 8x8 art fills all four with its one cell.
    pub fn terrain(&mut self, id: u8, rows: &[&str], palette: u8)
        requires
            old(self).built().wf(),
            (id as int) < tile::COUNT,
            rows@.len() == 8 || rows@.len() == 16,
            art_width(text_of(rows@)) == rows@.len(),
            old(self).gathered().len() + 4 < 0x1_0000,
        ensures
            final(self).built().wf(),
            tiles_kept(old(self).gathered(), final(self).gathered()),
            same_except_terrain(old(self).built(), final(self).built(), id as int, old(self).built().overlay@),
            terrain_made(final(self).built().metatiles@[id as int]@, text_of(rows@), palette, final(self).gathered()),
    {
        let ghost text = text_of(rows@);
        let s = self.art(rows, palette);
        let meta: MetaTile = if s.cols == 2 && s.rows == 2 {
            [s.cell(0, 0), s.cell(1, 0), s.cell(0, 1), s.cell(1, 1)]
        } else {
            let c = s.cell(0, 0);
            [c, c, c, c]
        };
        proof {
            assert(s.cells@.len() == s.cols * s.rows);
            if s.cols == 2 {
                assert(cell_ok(s.cells@[1], cell_pixels(text, 1int % 2, 1int / 2), palette, self.tiles@));
                assert(cell_ok(s.cells@[2], cell_pixels(text, 2int % 2, 2int / 2), palette, self.tiles@));
                assert(cell_ok(s.cells@[3], cell_pixels(text, 3int % 2, 3int / 2), palette, self.tiles@));
            }
            assert(cell_ok(s.cells@[0], cell_pixels(text, 0int % (s.cols as int), 0int / (s.cols as int)), palette, self.tiles@));
        }
        self.pack.metatiles.set(id as usize, meta);
        proof {
            assert(self.pack.overlay@ == old(self).pack.overlay@);
        }
    }

    /// Registers a 16x16 object that stands on the ground: colour 0 is left
    /// transparent and the level's ground shows through.
    pub fn object(&mut self, id: u8, rows: &[&str], palette: u8)
        requires
            old(self).built().wf(),
            (id as int) < tile::COUNT,
            rows@.len() == 8 || rows@.len() == 16,
            art_width(text_of(rows@)) == rows@.len(),
            old(self).gathered().len() + 4 < 0x1_0000,
        ensures
            final(self).built().wf(),
            tiles_kept(old(self).gathered(), final(self).gathered()),
            same_except_terrain(old(self).built(), final(self).built(), id as int, old(self).built().overlay@.update(id as int, true)),
            terrain_made(final(self).built().metatiles@[id as int]@, text_of(rows@), palette, final(self).gathered()),
    {
        self.terrain(id, rows, palette);
        self.pack.overlay.set(id as usize, true);
    }

    /// Registers a sprite from art.
    pub fn sprite(&mut self, id: SpriteId, rows: &[&str], palette: u8)
        requires
            old(self).built().wf(),
            id != SpriteId::Count,
            rows@.len() % 8 == 0 && rows@.len() > 0,
            rows@.len() <= 0x7f8,
            art_width(text_of(rows@)) % 8 == 0,
            0 < art_width(text_of(rows@)) <= 0x7f8,
            old(self).gathered().len() + (art_width(text_of(rows@)) / 8) * (rows@.len() / 8) < 0x1_0000,
        ensures
            final(self).built().wf(),
            tiles_kept(old(self).gathered(), final(self).gathered()),
            same_except_sprite(old(self).built(), final(self).built(), sprite_index(id)),
            sprite_made(final(self).built().sprites@[sprite_index(id)], text_of(rows@), palette, final(self).gathered(), 0, 0),
    {
        self.sprite_off(id, rows, palette, 0, 0);
    }

    /// Registers a sprite and shifts where it is drawn relative to its anchor.
    pub fn sprite_off(&mut self, id: SpriteId, rows: &[&str], palette: u8, ox: i8, oy: i8)
        requires
            old(self).built().wf(),
            id != SpriteId::Count,
            rows@.len() % 8 == 0 && rows@.len() > 0,
            rows@.len() <= 0x7f8,
            art_width(text_of(rows@)) % 8 == 0,
            0 < art_width(text_of(rows@)) <= 0x7f8,
            old(self).gathered().len() + (art_width(text_of(rows@)) / 8) * (rows@.len() / 8) < 0x1_0000,
        ensures
            final(self).built().wf(),
            tiles_kept(old(self).gathered(), final(self).gathered()),
            same_except_sprite(old(self).built(), final(self).built(), sprite_index(id)),
            sprite_made(final(self).built().sprites@[sprite_index(id)], text_of(rows@), palette, final(self).gathered(), ox, oy),
    {
        let mut s = self.art(rows, palette);
        s.ox = ox;
        s.oy = oy;
        let i = id.index();
        self.pack.sprites.set(i, s);
    }

    /// Finishes the pack: the built pack holding the gathered tiles.
    pub fn build(self) -> (p: AssetPack)
        ensures
            p.tiles@ == self.gathered(),
            p.name == self.built().name && p.source == self.built().source,
            p.palettes == self.built().palettes && p.metatiles == self.built().metatiles,
            p.overlay == self.built().overlay && p.sprites == self.built().sprites,
    {
        let mut pack = self.pack;
        pack.tiles = self.tiles;
        pack
    }
}

/// The characters of each row of some art.
pub open spec fn text_of(rows: Seq<&str>) -> Seq<Seq<char>> {
    rows.map_values(|r: &str| r@)
}

/// The tiles gathered before are still there, in place.
pub open spec fn tiles_kept(before: Seq<Tile8>, after: Seq<Tile8>) -> bool {
    after.len() >= before.len() && after.subrange(0, before.len() as int) == before
}

/// `after` is `before` with only the terrain at `id` changed, and the
/// overlay flags now `overlay`.
pub open spec fn same_except_terrain(before: AssetPack, after: AssetPack, id: int, overlay: Seq<bool>) -> bool {
    &&& after.name == before.name && after.source == before.source
    &&& after.tiles == before.tiles && after.palettes == before.palettes
    &&& after.sprites == before.sprites
    &&& after.overlay@ == overlay
    &&& after.metatiles@.len() == before.metatiles@.len()
    &&& forall|i: int| 0 <= i < before.metatiles@.len() && i != id ==> #[trigger] after.metatiles@[i] == before.metatiles@[i]
}

/// `after` is `before` with only the sprite at `index` changed.
pub open spec fn same_except_sprite(before: AssetPack, after: AssetPack, index: int) -> bool {
    &&& after.name == before.name && after.source == before.source
    &&& after.tiles == before.tiles && after.palettes == before.palettes
    &&& after.metatiles == before.metatiles && after.overlay == before.overlay
    &&& after.sprites@.len() == before.sprites@.len()
    &&& forall|i: int| 0 <= i < before.sprites@.len() && i != index ==> #[trigger] after.sprites@[i] == before.sprites@[i]
}

/// The four cells of terrain made from 8x8 or 16x16 art: 16x16 art gives
/// its cells in reading order, 8x8 art its one cell four times.
pub open spec fn terrain_made(m: Seq<Cell>, text: Seq<Seq<char>>, palette: u8, tiles: Seq<Tile8>) -> bool {
    &&& m.len() == 4
    &&& if text.len() == 16 {
        forall|k: int| 0 <= k < 4 ==> cell_ok(#[trigger] m[k], cell_pixels(text, k % 2, k / 2), palette, tiles)
    } else {
        m[1] == m[0] && m[2] == m[0] && m[3] == m[0] && cell_ok(m[0], cell_pixels(text, 0, 0), palette, tiles)
    }
}

/// A sprite made from art, drawn at offset `(ox, oy)`; see
/// [`PackBuilder::art`].
pub open spec fn sprite_made(s: Sprite, text: Seq<Seq<char>>, palette: u8, tiles: Seq<Tile8>, ox: i8, oy: i8) -> bool {
    &&& s.cols as int == art_width(text) / 8
    &&& s.rows as int == text.len() / 8
    &&& s.ox == ox && s.oy == oy
    &&& s.cells@.len() == s.cols * s.rows
    &&& forall|k: int| 0 <= k < s.cells@.len() ==> cell_ok(#[trigger] s.cells@[k], cell_pixels(text, k % s.cols as int, k / s.cols as int), palette, tiles)
}

/// The longest of the first `n` rows.
pub open spec fn width_upto(text: Seq<Seq<char>>, n: int) -> int
    decreases n,
{
    if n <= 0 {
        0
    } else {
        let w = width_upto(text, n - 1);
        if text[n - 1].len() > w { text[n - 1].len() as int } else { w }
    }
}

/// The longest row of some art.
pub open spec fn art_width(text: Seq<Seq<char>>) -> int {
    width_upto(text, text.len() as int)
}

/// A cell made for some pixels: blank for an empty tile, otherwise a tile
/// in the list holding those pixels, in the given palette.
pub open spec fn cell_ok(c: Cell, px: Seq<u8>, palette: u8, tiles: Seq<Tile8>) -> bool {
    if px == zeros() {
        c == blank_cell()
    } else {
        &&& c.palette == palette && c.flip == 0
        &&& c.tile < tiles.len()
        &&& tiles[c.tile as int]@ == px
    }
}

/// Adding tiles at the end keeps a cell made.
proof fn lemma_cell_ok_grow(c: Cell, px: Seq<u8>, palette: u8, t0: Seq<Tile8>, t1: Seq<Tile8>)
    requires
        cell_ok(c, px, palette, t0),
        t1.len() >= t0.len(),
        t1.subrange(0, t0.len() as int) == t0,
    ensures
        cell_ok(c, px, palette, t1),
{
    if px != zeros() {
        assert(t1.subrange(0, t0.len() as int)[c.tile as int] == t1[c.tile as int]);
    }
}

/// True when two tiles hold the same pixels.
fn same_tile(a: &Tile8, b: &Tile8) -> (r: bool)
    ensures
        r == (a@ == b@),
{
    let mut i: usize = 0;
    while i < 64
        invariant
            i <= 64,
            forall|j: int| 0 <= j < i ==> a@[j] == b@[j],
        decreases 64 - i,
    {
        if a[i] != b[i] {
            return false;
        }
        i = i + 1;
    }
    proof {
        assert(a@ =~= b@);
    }
    true
}

/// True when every pixel of a tile is 0.
fn is_zero(t: &Tile8) -> (r: bool)
    ensures
        r == (t@ == zeros()),
{
    let mut i: usize = 0;
    while i < 64
        invariant
            i <= 64,
            forall|j: int| 0 <= j < i ==> t@[j] == 0,
        decreases 64 - i,
    {
        if t[i] != 0 {
            proof {
                assert(t@[i as int] != zeros()[i as int]);
            }
            return false;
        }
        i = i + 1;
    }
    proof {
        assert(t@ =~= zeros());
    }
    true
}

/// The pixels of cell `(cx, cy)`; see [`cell_pixels`].
fn cell_tile(chars: &Vec<Vec<char>>, cx: usize, cy: usize) -> (t: Tile8)
    requires
        cy * 8 + 8 <= chars@.len(),
        cx <= 0x100,
    ensures
        t@ == cell_pixels(chars@.map_values(|v: Vec<char>| v@), cx as int, cy as int),
{
    let ghost text = chars@.map_values(|v: Vec<char>| v@);
    let n = chars.len();
    let mut t = blank_tile();
    let mut i: usize = 0;
    while i < 64
        invariant
            n == chars@.len(),
            cy * 8 + 8 <= chars@.len(),
            cx <= 0x100,
            text == chars@.map_values(|v: Vec<char>| v@),
            i <= 64,
            forall|j: int| 0 <= j < i ==> t@[j] == cell_pixels(text, cx as int, cy as int)[j],
        decreases 64 - i,
    {
        let y = i / 8;
        let x = i % 8;
        let row = &chars[cy * 8 + y];
        let at = cx * 8 + x;
        let ch = if at < row.len() { row[at] } else { '.' };
        let v: u8 = if ch == '-' || ch == '1' {
            1
        } else if ch == '+' || ch == '2' {
            2
        } else if ch == '#' || ch == '3' {
            3
        } else {
            0
        };
        t[i] = v;
        i = i + 1;
    }
    proof {
        assert(t@ =~= cell_pixels(text, cx as int, cy as int));
    }
    t
}

} // verus!
