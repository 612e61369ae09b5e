//! The software renderer's logic.
//!
//! Everything is drawn into a framebuffer of packed RGBA words, at the Game
//! Boy's resolution, and scaled up by whoever displays it. Drawing by hand
//! keeps the pixel grid exact: no filtering, no half-pixel sprite positions.
pub mod sprites;

use vstd::prelude::*;
use crate::assets::pack::{blank_cell, palette_colours, sprite_index, tile_at, AssetPack, Sprite, SpriteId};
use crate::assets::palette::abgr_spec;
use crate::assets::tile::{pixel, pixel_spec, Cell, FLIP_X, FLIP_Y, NO_TILE};
use crate::entity::Entity;
use crate::level::{SCREEN_H, SCREEN_W};
use crate::world::pstate;

verus! {

/// A packed RGBA pixel buffer.
pub struct Framebuffer {
    pub width: i32,
    pub height: i32,
    /// `width * height` pixels, each `0xAABBGGRR`, row by row.
    pub pixels: Vec<u32>,
}

/// Byte `k` of a pixel word, low byte first.
pub open spec fn byte_of(p: u32, k: int) -> u8 {
    if k == 0 {
        (p % 256) as u8
    } else if k == 1 {
        (p / 256 % 256) as u8
    } else if k == 2 {
        (p / 0x1_0000 % 256) as u8
    } else {
        (p / 0x100_0000) as u8
    }
}

/// Pixel `(x, y)` of a `w`-wide buffer sits at `y * w + x`, inside a
/// `w * h` buffer.
proof fn lemma_index(w: int, h: int, x: int, y: int)
    requires
        0 <= x < w,
        0 <= y < h,
    ensures
        0 <= y * w,
        0 <= y * w + x < w * h,
{
    assert(0 <= y * w) by (nonlinear_arith)
        requires
            0 <= y,
            0 <= w,
    ;
    assert(y * w + x < w * h) by (nonlinear_arith)
        requires
            0 <= x < w,
            0 <= y < h,
    ;
}

/// Distinct pixels sit at distinct places.
proof fn lemma_index_distinct(w: int, x: int, y: int, x2: int, y2: int)
    requires
        0 <= x < w,
        0 <= x2 < w,
        x != x2 || y != y2,
    ensures
        y * w + x != y2 * w + x2,
{
    if y < y2 {
        assert(y2 * w >= y * w + w) by (nonlinear_arith)
            requires
                y2 >= y + 1,
                w >= 0,
        ;
    } else if y > y2 {
        assert(y * w >= y2 * w + w) by (nonlinear_arith)
            requires
                y >= y2 + 1,
                w >= 0,
        ;
    }
}

impl Framebuffer {
    /// The pixels fill the buffer, and every index fits in an `i32`.
    pub open spec fn wf(&self) -> bool {
        &&& 0 <= self.width
        &&& 0 <= self.height
        &&& self.width * self.height <= i32::MAX
        &&& self.pixels@.len() == self.width * self.height
    }

    /// True when `(x, y)` is inside the buffer.
    pub open spec fn on(&self, x: int, y: int) -> bool {
        0 <= x < self.width && 0 <= y < self.height
    }

    /// The pixel at `(x, y)`.
    pub open spec fn at(&self, x: int, y: int) -> u32 {
        self.pixels@[y * self.width + x]
    }

    /// A buffer at the Game Boy's resolution, opaque black.
    pub fn new() -> (fb: Framebuffer)
        ensures
            fb.wf(),
            fb.width == SCREEN_W && fb.height == SCREEN_H,
            forall|x: int, y: int| fb.on(x, y) ==> #[trigger] fb.at(x, y) == 0xff00_0000u32,
    {
        let n = (SCREEN_W * SCREEN_H) as usize;
        let mut pixels: Vec<u32> = Vec::new();
        let mut i: usize = 0;
        while i < n
            invariant
                i <= n,
                n == SCREEN_W * SCREEN_H,
                pixels@.len() == i,
                forall|k: int| 0 <= k < i ==> #[trigger] pixels@[k] == 0xff00_0000u32,
            decreases n - i,
        {
            pixels.push(0xff00_0000);
            i = i + 1;
        }
        let fb = Framebuffer { width: SCREEN_W, height: SCREEN_H, pixels };
        proof {
            assert forall|x: int, y: int| fb.on(x, y) implies #[trigger] fb.at(x, y) == 0xff00_0000u32 by {
                lemma_index(fb.width as int, fb.height as int, x, y);
            }
        }
        fb
    }

    /// Sets every pixel to `color`.
    pub fn clear(&mut self, color: u32)
        requires
            old(self).wf(),
        ensures
            final(self).wf(),
            final(self).width == old(self).width && final(self).height == old(self).height,
            forall|x: int, y: int| final(self).on(x, y) ==> #[trigger] final(self).at(x, y) == color,
    {
        let n = self.pixels.len();
        let mut i: usize = 0;
        while i < n
            invariant
                i <= n,
                n == self.pixels@.len(),
                self.wf(),
                self.width == old(self).width && self.height == old(self).height,
                forall|k: int| 0 <= k < i ==> #[trigger] self.pixels@[k] == color,
            decreases n - i,
        {
            self.pixels.set(i, color);
            i = i + 1;
        }
        proof {
            assert forall|x: int, y: int| self.on(x, y) implies #[trigger] self.at(x, y) == color by {
                lemma_index(self.width as int, self.height as int, x, y);
            }
        }
    }

    /// Sets one pixel; outside the buffer nothing happens.
    pub fn set(&mut self, x: i32, y: i32, color: u32)
        requires
            old(self).wf(),
        ensures
            final(self).wf(),
            final(self).width == old(self).width && final(self).height == old(self).height,
            forall|a: int, b: int|
                final(self).on(a, b) ==> #[trigger] final(self).at(a, b) == if a == x && b == y {
                    color
                } else {
                    old(self).at(a, b)
                },
    {
        if x >= 0 && y >= 0 && x < self.width && y < self.height {
            proof {
                lemma_index(self.width as int, self.height as int, x as int, y as int);
            }
            let i = (y * self.width + x) as usize;
            self.pixels.set(i, color);
            proof {
                assert forall|a: int, b: int| self.on(a, b) implies #[trigger] self.at(a, b) == if a == x && b == y {
                    color
                } else {
                    old(self).at(a, b)
                } by {
                    lemma_index(self.width as int, self.height as int, a, b);
                    if a != x || b != y {
                        lemma_index_distinct(self.width as int, a, b, x as int, y as int);
                    }
                }
            }
        }
    }

    /// The pixel at `(x, y)`, or 0 outside the buffer.
    pub fn get(&self, x: i32, y: i32) -> (r: u32)
        requires
            self.wf(),
        ensures
            r == if self.on(x as int, y as int) { self.at(x as int, y as int) } else { 0 },
    {
        if x >= 0 && y >= 0 && x < self.width && y < self.height {
            proof {
                lemma_index(self.width as int, self.height as int, x as int, y as int);
            }
            self.pixels[(y * self.width + x) as usize]
        } else {
            0
        }
    }

    /// The pixels as bytes, each word low byte first: red, green, blue,
    /// alpha, the order a canvas wants.
    pub fn as_bytes(&self) -> (r: Vec<u8>)
        requires
            self.pixels@.len() * 4 <= usize::MAX,
        ensures
            r@.len() == self.pixels@.len() * 4,
            forall|i: int, k: int|
                0 <= i < self.pixels@.len() && 0 <= k < 4 ==> #[trigger] r@[i * 4 + k] == byte_of(self.pixels@[i], k),
    {
        let n = self.pixels.len();
        let mut out: Vec<u8> = Vec::new();
        let mut i: usize = 0;
        while i < n
            invariant
                n == self.pixels@.len(),
                n * 4 <= usize::MAX,
                i <= n,
                out@.len() == i * 4,
                forall|j: int, k: int| 0 <= j < i && 0 <= k < 4 ==> #[trigger] out@[j * 4 + k] == byte_of(self.pixels@[j], k),
            decreases n - i,
        {
            let p = self.pixels[i];
            let ghost before = out@;
            out.push((p % 256) as u8);
            out.push((p / 256 % 256) as u8);
            out.push((p / 0x1_0000 % 256) as u8);
            out.push((p / 0x100_0000) as u8);
            proof {
                assert forall|j: int, k: int| 0 <= j < i + 1 && 0 <= k < 4 implies #[trigger] out@[j * 4 + k] == byte_of(self.pixels@[j], k) by {
                    if j < i {
                        assert(j * 4 + k < i * 4) by (nonlinear_arith)
                            requires
                                j < i,
                                k < 4,
                        ;
                        assert(out@[j * 4 + k] == before[j * 4 + k]);
                    } else {
                        assert(j * 4 + k == i * 4 + k);
                    }
                }
            }
            i = i + 1;
        }
        out
    }

    /// Fills a `w` by `h` rectangle at `(x, y)`, clipped to the buffer.
    pub fn fill_rect(&mut self, x: i32, y: i32, w: i32, h: i32, color: u32)
        requires
            old(self).wf(),
            i32::MIN <= x + w <= i32::MAX,
            i32::MIN <= y + h <= i32::MAX,
        ensures
            final(self).wf(),
            final(self).width == old(self).width && final(self).height == old(self).height,
            forall|a: int, b: int|
                final(self).on(a, b) ==> #[trigger] final(self).at(a, b) == if x <= a < x + w && y <= b < y + h {
                    color
                } else {
                    old(self).at(a, b)
                },
    {
        let y0 = if y > 0 { y } else { 0 };
        let y1 = if y + h < self.height { y + h } else { self.height };
        let x0 = if x > 0 { x } else { 0 };
        let x1 = if x + w < self.width { x + w } else { self.width };
        let mut py = y0;
        while py < y1
            invariant
                self.wf(),
                self.width == old(self).width && self.height == old(self).height,
                y0 == (if y > 0 { y } else { 0 }),
                y1 <= y + h && y1 <= self.height,
                x0 == (if x > 0 { x } else { 0 }),
                x1 <= x + w && x1 <= self.width,
                x1 == x + w || x1 == self.width,
                y1 == y + h || y1 == self.height,
                y0 <= py,
                forall|a: int, b: int|
                    self.on(a, b) ==> #[trigger] self.at(a, b) == if x <= a < x + w && y <= b < py && b < y + h {
                        color
                    } else {
                        old(self).at(a, b)
                    },
            decreases y1 - py,
        {
            let mut px = x0;
            while px < x1
                invariant
                    self.wf(),
                    self.width == old(self).width && self.height == old(self).height,
                    x0 == (if x > 0 { x } else { 0 }),
                    x1 <= x + w && x1 <= self.width,
                    y <= py < y + h,
                    0 <= py < self.height,
                    x0 <= px,
                    forall|a: int, b: int|
                        self.on(a, b) ==> #[trigger] self.at(a, b) == if (x <= a < x + w && y <= b < py && b < y
                            + h) || (b == py && x <= a < px && a < x + w) {
                            color
                        } else {
                            old(self).at(a, b)
                        },
                decreases x1 - px,
            {
                self.set(px, py, color);
                px = px + 1;
            }
            py = py + 1;
        }
    }
}

/// The pixel value at `(dx, dy)` of a cell, flips applied.
pub open spec fn cell_value(pack: AssetPack, cell: Cell, dx: int, dy: int) -> u8 {
    pixel_spec(tile_at(pack, cell.tile as int), dx, dy, cell.flip)
}

/// True when a cell paints its pixel `(dx, dy)`: a blank cell paints
/// nothing, and with `transparent` colour 0 is a hole.
pub open spec fn cell_paints(pack: AssetPack, cell: Cell, transparent: bool, dx: int, dy: int) -> bool {
    cell.tile != NO_TILE && !(transparent && cell_value(pack, cell, dx, dy) == 0)
}

/// The colour a cell paints at `(dx, dy)`.
pub open spec fn cell_colour(pack: AssetPack, cell: Cell, dx: int, dy: int) -> u32 {
    abgr_spec(palette_colours(pack, cell.palette as int)[cell_value(pack, cell, dx, dy) as int])
}

/// Every pixel of a tile is one of the four palette entries.
pub open spec fn two_bit(t: Seq<u8>) -> bool {
    forall|i: int| 0 <= i < 64 ==> #[trigger] t[i] < 4
}

/// Draws one 8x8 cell with its top-left at `(x, y)`, clipped to the
/// buffer. `transparent` decides whether colour 0 is a hole (sprites) or a
/// real colour (terrain).
pub fn draw_cell(fb: &mut Framebuffer, pack: &AssetPack, cell: Cell, x: i32, y: i32, transparent: bool)
    requires
        old(fb).wf(),
        x + 8 <= i32::MAX,
        y + 8 <= i32::MAX,
        cell.tile != NO_TILE ==> two_bit(tile_at(*pack, cell.tile as int)),
    ensures
        final(fb).wf(),
        final(fb).width == old(fb).width && final(fb).height == old(fb).height,
        forall|a: int, b: int|
            final(fb).on(a, b) ==> #[trigger] final(fb).at(a, b) == if x <= a < x + 8 && y <= b < y + 8
                && cell_paints(*pack, cell, transparent, a - x, b - y) {
                cell_colour(*pack, cell, a - x, b - y)
            } else {
                old(fb).at(a, b)
            },
{
    if cell.is_blank() {
        return;
    }
    if x + 8 <= 0 || y + 8 <= 0 || x >= fb.width || y >= fb.height {
        return;
    }
    let tile = pack.tile(cell.tile);
    let palette = pack.palette(cell.palette);
    let colors = palette.to_abgr();
    let mut py: i32 = 0;
    while py < 8
        invariant
            fb.wf(),
            fb.width == old(fb).width && fb.height == old(fb).height,
            0 <= py <= 8,
            y + 8 <= i32::MAX,
            x + 8 <= i32::MAX,
            cell.tile != NO_TILE,
            tile@ == tile_at(*pack, cell.tile as int),
            two_bit(tile@),
            forall|i: int| 0 <= i < 4 ==> #[trigger] colors@[i] == abgr_spec(palette_colours(*pack, cell.palette as int)[i]),
            forall|a: int, b: int|
                fb.on(a, b) ==> #[trigger] fb.at(a, b) == if x <= a < x + 8 && y <= b < y + py && cell_paints(
                    *pack,
                    cell,
                    transparent,
                    a - x,
                    b - y,
                ) {
                    cell_colour(*pack, cell, a - x, b - y)
                } else {
                    old(fb).at(a, b)
                },
        decreases 8 - py,
    {
        let ty = y + py;
        if ty >= 0 && ty < fb.height {
            let mut px: i32 = 0;
            while px < 8
                invariant
                    fb.wf(),
                    fb.width == old(fb).width && fb.height == old(fb).height,
                    0 <= py < 8,
                    0 <= px <= 8,
                    ty == y + py,
                    0 <= ty < fb.height,
                    x + 8 <= i32::MAX,
                    cell.tile != NO_TILE,
                    tile@ == tile_at(*pack, cell.tile as int),
                    two_bit(tile@),
                    forall|i: int| 0 <= i < 4 ==> #[trigger] colors@[i] == abgr_spec(palette_colours(*pack, cell.palette as int)[i]),
                    forall|a: int, b: int|
                        fb.on(a, b) ==> #[trigger] fb.at(a, b) == if ((x <= a < x + 8 && y <= b < y + py) || (b
                            == ty && x <= a < x + px)) && cell_paints(*pack, cell, transparent, a - x, b - y) {
                            cell_colour(*pack, cell, a - x, b - y)
                        } else {
                            old(fb).at(a, b)
                        },
                decreases 8 - px,
            {
                let tx = x + px;
                let v = pixel(&tile, px as usize, py as usize, cell.flip);
                proof {
                    let sx = if cell.flip & crate::assets::tile::FLIP_X != 0 { 7 - px } else { px as int };
                    let sy = if cell.flip & crate::assets::tile::FLIP_Y != 0 { 7 - py } else { py as int };
                    assert(0 <= sy * 8 + sx < 64);
                }
                if !(transparent && v == 0) {
                    fb.set(tx, ty, colors[v as usize]);
                }
                px = px + 1;
            }
        }
        py = py + 1;
    }
}

/// Cell `(cx, cy)` of a sprite drawn with `flip`: flipping the image both
/// mirrors each cell and swaps which cell sits where.
pub open spec fn placed_cell(s: Sprite, flip: u8, cx: int, cy: int) -> Cell {
    let sx = if flip & FLIP_X != 0 { s.cols - 1 - cx } else { cx };
    let sy = if flip & FLIP_Y != 0 { s.rows - 1 - cy } else { cy };
    let c = if sy * s.cols + sx < s.cells@.len() { s.cells@[sy * s.cols + sx] } else { blank_cell() };
    Cell { tile: c.tile, palette: c.palette, flip: c.flip ^ flip }
}

/// Every tile a sprite uses holds only palette indices.
pub open spec fn sprite_drawable(pack: AssetPack, s: Sprite) -> bool {
    forall|k: int| 0 <= k < s.cells@.len() && (#[trigger] s.cells@[k]).tile != NO_TILE ==> two_bit(tile_at(pack, s.cells@[k].tile as int))
}

/// The positions touched while drawing a sprite at `x` fit in an `i32`.
pub open spec fn sprite_fits(s: Sprite, x: int, y: int) -> bool {
    s.cols > 0 && s.rows > 0 ==> {
        &&& i32::MIN <= x + s.ox && x + s.ox + s.cols * 8 <= i32::MAX
        &&& i32::MIN <= y + s.oy && y + s.oy + s.rows * 8 <= i32::MAX
    }
}

/// What drawing a sprite with its anchor at `(x, y)` leaves at `(a, b)`:
/// the colour of the cell covering it, where that cell paints, else `old`.
pub open spec fn sprite_pixel(pack: AssetPack, s: Sprite, x: int, y: int, flip: u8, a: int, b: int, old: u32) -> u32 {
    let rx = a - (x + s.ox);
    let ry = b - (y + s.oy);
    let c = placed_cell(s, flip, rx / 8, ry / 8);
    if 0 <= rx < s.cols * 8 && 0 <= ry < s.rows * 8 && cell_paints(pack, c, true, rx % 8, ry % 8) {
        cell_colour(pack, c, rx % 8, ry % 8)
    } else {
        old
    }
}

/// Which cell a pixel offset falls in.
proof fn lemma_cell_of(r: int, c: int)
    requires
        0 <= r,
    ensures
        (r / 8 == c) <==> (c * 8 <= r < c * 8 + 8),
        r / 8 == c ==> r % 8 == r - c * 8,
{
    assert(r == (r / 8) * 8 + r % 8 && 0 <= r % 8 < 8) by (nonlinear_arith)
        requires
            0 <= r,
    ;
    if c * 8 <= r < c * 8 + 8 {
        assert(r / 8 == c) by (nonlinear_arith)
            requires
                c * 8 <= r < c * 8 + 8,
                r == (r / 8) * 8 + r % 8,
                0 <= r % 8 < 8,
        ;
    }
}

/// Draws a whole sprite with its anchor at `(x, y)` and an optional flip
/// applied to the whole image; colour 0 is a hole. See [`sprite_pixel`].
pub fn draw_sprite(fb: &mut Framebuffer, pack: &AssetPack, sprite: &Sprite, x: i32, y: i32, flip: u8)
    requires
        old(fb).wf(),
        sprite_drawable(*pack, *sprite),
        sprite_fits(*sprite, x as int, y as int),
    ensures
        final(fb).wf(),
        final(fb).width == old(fb).width && final(fb).height == old(fb).height,
        forall|a: int, b: int|
            final(fb).on(a, b) ==> #[trigger] final(fb).at(a, b) == sprite_pixel(
                *pack,
                *sprite,
                x as int,
                y as int,
                flip,
                a,
                b,
                old(fb).at(a, b),
            ),
{
    let cols = sprite.cols as i32;
    let rows = sprite.rows as i32;
    if cols == 0 || rows == 0 {
        return;
    }
    let bx = x + sprite.ox as i32;
    let by = y + sprite.oy as i32;
    let mut cy: i32 = 0;
    while cy < rows
        invariant
            fb.wf(),
            fb.width == old(fb).width && fb.height == old(fb).height,
            cols == sprite.cols && rows == sprite.rows,
            cols > 0 && rows > 0,
            bx == x + sprite.ox && by == y + sprite.oy,
            i32::MIN <= bx && bx + cols * 8 <= i32::MAX,
            i32::MIN <= by && by + rows * 8 <= i32::MAX,
            sprite_drawable(*pack, *sprite),
            0 <= cy <= rows,
            forall|a: int, b: int|
                fb.on(a, b) ==> #[trigger] fb.at(a, b) == if (b - by) / 8 < cy {
                    sprite_pixel(*pack, *sprite, x as int, y as int, flip, a, b, old(fb).at(a, b))
                } else {
                    old(fb).at(a, b)
                },
        decreases rows - cy,
    {
        let mut cx: i32 = 0;
        while cx < cols
            invariant
                fb.wf(),
                fb.width == old(fb).width && fb.height == old(fb).height,
                cols == sprite.cols && rows == sprite.rows,
                cols > 0 && rows > 0,
                bx == x + sprite.ox && by == y + sprite.oy,
                i32::MIN <= bx && bx + cols * 8 <= i32::MAX,
                i32::MIN <= by && by + rows * 8 <= i32::MAX,
                sprite_drawable(*pack, *sprite),
                0 <= cy < rows,
                0 <= cx <= cols,
                forall|a: int, b: int|
                    fb.on(a, b) ==> #[trigger] fb.at(a, b) == if (b - by) / 8 < cy || ((b - by) / 8 == cy && (a - bx)
                        / 8 < cx) {
                        sprite_pixel(*pack, *sprite, x as int, y as int, flip, a, b, old(fb).at(a, b))
                    } else {
                        old(fb).at(a, b)
                    },
            decreases cols - cx,
        {
            let sx = if flip & FLIP_X != 0 { cols - 1 - cx } else { cx };
            let sy = if flip & FLIP_Y != 0 { rows - 1 - cy } else { cy };
            let mut cell = sprite.cell(sx as usize, sy as usize);
            cell.flip = cell.flip ^ flip;
            let ghost want = placed_cell(*sprite, flip, cx as int, cy as int);
            assert(cell == want);
            proof {
                if cell.tile != NO_TILE {
                    let k = sy * sprite.cols + sx;
                    assert(sprite.cells@[k].tile != NO_TILE);
                }
                assert(cx * 8 + 8 <= cols * 8 && cy * 8 + 8 <= rows * 8) by (nonlinear_arith)
                    requires
                        cx < cols,
                        cy < rows,
                ;
            }
            let ghost prev = *fb;
            let cx8 = bx + cx * 8;
            let cy8 = by + cy * 8;
            draw_cell(fb, pack, cell, cx8, cy8, true);
            proof {
                assert forall|a: int, b: int| fb.on(a, b) implies #[trigger] fb.at(a, b) == if (b - by) / 8 < cy || ((
                b - by) / 8 == cy && (a - bx) / 8 < cx + 1) {
                    sprite_pixel(*pack, *sprite, x as int, y as int, flip, a, b, old(fb).at(a, b))
                } else {
                    old(fb).at(a, b)
                } by {
                    assert(prev.on(a, b));
                    let rx = a - bx;
                    let ry = b - by;
                    if rx >= 0 {
                        lemma_cell_of(rx, cx as int);
                    }
                    if ry >= 0 {
                        lemma_cell_of(ry, cy as int);
                    }
                    if rx < 0 {
                        assert(rx / 8 < 0) by (nonlinear_arith)
                            requires
                                rx < 0,
                        ;
                    }
                    if ry < 0 {
                        assert(ry / 8 < 0) by (nonlinear_arith)
                            requires
                                ry < 0,
                        ;
                    }
                }
            }
            cx = cx + 1;
        }
        proof {
            assert forall|a: int, b: int| fb.on(a, b) implies #[trigger] fb.at(a, b) == if (b - by) / 8 < cy + 1 {
                sprite_pixel(*pack, *sprite, x as int, y as int, flip, a, b, old(fb).at(a, b))
            } else {
                old(fb).at(a, b)
            } by {
                let rx = a - bx;
                if (b - by) / 8 == cy && rx >= 0 && (a - bx) / 8 >= cols {
                    assert(rx >= cols * 8) by (nonlinear_arith)
                        requires
                            rx / 8 >= cols,
                            rx >= 0,
                    ;
                }
                if rx < 0 {
                    assert(rx / 8 < 0) by (nonlinear_arith)
                        requires
                            rx < 0,
                    ;
                }
            }
        }
        cy = cy + 1;
    }
    proof {
        assert forall|a: int, b: int| fb.on(a, b) implies #[trigger] fb.at(a, b) == sprite_pixel(
            *pack,
            *sprite,
            x as int,
            y as int,
            flip,
            a,
            b,
            old(fb).at(a, b),
        ) by {
            let ry = b - by;
            if ry >= 0 && ry / 8 >= rows {
                assert(ry >= rows * 8) by (nonlinear_arith)
                    requires
                        ry / 8 >= rows,
                        ry >= 0,
                ;
            }
        }
    }
}

/// True when a player's own entity is in a state that hides its sprite.
pub fn player_is_hidden(e: &Entity) -> (r: bool)
    ensures
        r == (e.state == pstate::DEAD),
{
    e.state == pstate::DEAD
}

/// Draws a sprite by id; see [`draw_sprite`].
pub fn draw(fb: &mut Framebuffer, pack: &AssetPack, id: SpriteId, x: i32, y: i32, flip: u8)
    requires
        old(fb).wf(),
        pack.wf(),
        id != SpriteId::Count,
        sprite_drawable(*pack, pack.sprites@[sprite_index(id)]),
        sprite_fits(pack.sprites@[sprite_index(id)], x as int, y as int),
    ensures
        final(fb).wf(),
        final(fb).width == old(fb).width && final(fb).height == old(fb).height,
        forall|a: int, b: int|
            final(fb).on(a, b) ==> #[trigger] final(fb).at(a, b) == sprite_pixel(
                *pack,
                pack.sprites@[sprite_index(id)],
                x as int,
                y as int,
                flip,
                a,
                b,
                old(fb).at(a, b),
            ),
{
    let sprite = pack.sprite(id);
    draw_sprite(fb, pack, sprite, x, y, flip);
}


/// Drawing a sprite mirrored left to right puts at each pixel what the
/// plain drawing puts at the pixel mirrored across the sprite's width.
pub proof fn lemma_flip_x_mirrors(pack: AssetPack, s: Sprite, x: int, y: int, rx: int, ry: int, old: u32)
    requires
        0 <= rx < s.cols * 8,
        0 <= ry < s.rows * 8,
    ensures
        sprite_pixel(pack, s, x, y, FLIP_X, x + s.ox + rx, y + s.oy + ry, old) == sprite_pixel(
            pack,
            s,
            x,
            y,
            0,
            x + s.ox + (s.cols * 8 - 1 - rx),
            y + s.oy + ry,
            old,
        ),
{
    let mx = s.cols * 8 - 1 - rx;
    let cx = rx / 8;
    lemma_cell_of(rx, cx);
    lemma_cell_of(mx, s.cols - 1 - cx);
    assert(x + s.ox + rx - (x + s.ox) == rx);
    assert(x + s.ox + mx - (x + s.ox) == mx);
    assert(y + s.oy + ry - (y + s.oy) == ry);
    assert(mx / 8 == s.cols - 1 - cx && mx % 8 == 7 - rx % 8);
    let a = placed_cell(s, FLIP_X, cx, ry / 8);
    let b = placed_cell(s, 0, s.cols - 1 - cx, ry / 8);
    assert(FLIP_X & FLIP_X != 0 && FLIP_X & FLIP_Y == 0) by (bit_vector);
    assert(0u8 & FLIP_X == 0 && 0u8 & FLIP_Y == 0) by (bit_vector);
    let idx = (ry / 8) * s.cols + (s.cols - 1 - cx);
    let c = if idx < s.cells@.len() { s.cells@[idx] } else { blank_cell() };
    assert(a == Cell { tile: c.tile, palette: c.palette, flip: c.flip ^ FLIP_X });
    assert(b == Cell { tile: c.tile, palette: c.palette, flip: c.flip ^ 0u8 });
    let cf = c.flip;
    assert(cf ^ 0u8 == cf) by (bit_vector);
    let f = b.flip;
    assert(a.flip == f ^ FLIP_X);
    assert(((f ^ FLIP_X) & FLIP_X != 0) == (f & FLIP_X == 0)) by (bit_vector);
    assert(((f ^ FLIP_X) & FLIP_Y != 0) == (f & FLIP_Y != 0)) by (bit_vector);
    assert(cell_value(pack, a, rx % 8, ry % 8) == cell_value(pack, b, mx % 8, ry % 8));
}

} // verus!
