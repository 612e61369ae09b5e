//! Four-colour palettes, in the spirit of the Game Boy Color.
//!
//! Every tile is two bits per pixel, so it can only ever show four colours.
//! Which four is decided by the palette attached to the cell that uses it,
//! which is what lets one grey rock tile be reused as a mossy one.
use vstd::prelude::*;

pub mod pal;

verus! {

/// A colour as `0xRRGGBB`. Alpha is implied: index 0 of a sprite palette is
/// transparent, everything else is opaque.
pub type Rgb = u32;

/// Four colours, indexed by the two bits stored per pixel.
#[derive(Clone, Copy, PartialEq, Eq, Debug)]
pub struct Palette(pub [Rgb; 4]);

/// The little-endian RGBA word for `0xRRGGBB`, fully opaque: red in the low
/// byte, then green, blue, and 0xff alpha on top.
pub open spec fn abgr_spec(c: u32) -> u32 {
    0xff00_0000u32 | ((c & 0xff) << 16u32) | (((c >> 8u32) & 0xff) << 8u32) | ((c >> 16u32) & 0xff)
}

impl Palette {
    pub fn new(a: Rgb, b: Rgb, c: Rgb, d: Rgb) -> (r: Palette)
        ensures
            r.0@ == seq![a, b, c, d],
    {
        let r = Palette([a, b, c, d]);
        assert(r.0@ =~= seq![a, b, c, d]);
        r
    }

    /// The colour for a pixel value; only its low two bits count.
    pub fn color(&self, index: u8) -> (r: Rgb)
        ensures
            r == self.0@[(index % 4) as int],
    {
        let i: u8 = index & 3;
        assert(i == index % 4) by (bit_vector)
            requires
                i == index & 3,
        ;
        self.0[i as usize]
    }

    /// Converts to the 0xAABBGGRR words a browser canvas wants.
    pub fn to_abgr(&self) -> (r: [u32; 4])
        ensures
            forall|i: int| 0 <= i < 4 ==> #[trigger] r@[i] == abgr_spec(self.0@[i]),
    {
        let mut out: [u32; 4] = [0u32; 4];
        let mut i: usize = 0;
        while i < 4
            invariant
                i <= 4,
                forall|k: int| 0 <= k < i ==> #[trigger] out@[k] == abgr_spec(self.0@[k]),
            decreases 4 - i,
        {
            out[i] = rgb_to_abgr(self.0[i]);
            i = i + 1;
        }
        out
    }
}

/// Converts `0xRRGGBB` to the little-endian RGBA word used by `ImageData`.
pub fn rgb_to_abgr(c: Rgb) -> (r: u32)
    ensures
        r == abgr_spec(c),
{
    let r = (c >> 16u32) & 0xff;
    let g = (c >> 8u32) & 0xff;
    let b = c & 0xff;
    0xff00_0000u32 | (b << 16u32) | (g << 8u32) | r
}

/// The first default palette: the overworld's greens.
pub open spec fn grass_colours() -> Seq<Rgb> {
    seq![0xa8d048u32, 0x78b840u32, 0x3c7828u32, 0x183818u32]
}

/// The default palette table, indexed by the names in [`pal`].
pub fn default_palettes() -> (r: Vec<Palette>)
    ensures
        r@.len() == 16,
        forall|i: int| 0 <= i < 16 && i != 0 && i != 1 && i != 2 && i != 3 && i != 4 ==> (#[trigger] r@[i]).0@[0] == 0,
        r@[0].0@ == grass_colours(),
{
    let mut v: Vec<Palette> = Vec::new();
    // GRASS: the overworld's greens.
    v.push(Palette::new(0xa8d048, 0x78b840, 0x3c7828, 0x183818));
    // EARTH: paths, sand and wooden things.
    v.push(Palette::new(0xf0d8a0, 0xd8b070, 0xa07840, 0x503818));
    // WATER.
    v.push(Palette::new(0x98e0f8, 0x50a8e0, 0x2868b8, 0x102848));
    // STONE: cliffs, rocks and walls.
    v.push(Palette::new(0xd8d8c8, 0xa8a898, 0x686860, 0x282828));
    // DUNGEON: cold indoor stone.
    v.push(Palette::new(0xc8c0e0, 0x8880b0, 0x504870, 0x201c30));
    // HERO: index 0 is transparent for sprites.
    v.push(Palette::new(0x000000, 0xf8d8a8, 0x58b048, 0x183018));
    // ENEMY_RED.
    v.push(Palette::new(0x000000, 0xf8b090, 0xd84838, 0x481010));
    // ENEMY_BLUE.
    v.push(Palette::new(0x000000, 0xb0d0f8, 0x4868c8, 0x101838));
    // ENEMY_GREEN.
    v.push(Palette::new(0x000000, 0xc0e878, 0x58a038, 0x143010));
    // BONE: skeletons and skulls.
    v.push(Palette::new(0x000000, 0xf8f8e8, 0xb0b098, 0x383830));
    // GOLD: rupees, keys and chests.
    v.push(Palette::new(0x000000, 0xf8e878, 0xe0a828, 0x604010));
    // HEART.
    v.push(Palette::new(0x000000, 0xf8b0b8, 0xe04048, 0x501018));
    // HUD: the status bar.
    v.push(Palette::new(0x000000, 0xf8f8f8, 0x909090, 0x181818));
    // SHADE: shadows and smoke.
    v.push(Palette::new(0x000000, 0xb8b8b8, 0x606060, 0x202020));
    // FIRE: explosions and fireballs.
    v.push(Palette::new(0x000000, 0xf8e068, 0xf07020, 0x902000));
    // BOSS.
    v.push(Palette::new(0x000000, 0xe0a8f8, 0x9840c0, 0x300848));
    v
}

} // verus!
