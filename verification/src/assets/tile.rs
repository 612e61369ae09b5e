//! Eight by eight pixel tiles, two bits per pixel.
use vstd::prelude::*;

verus! {

/// One 8x8 tile as 64 pixel indices in the range 0..=3.
pub type Tile8 = [u8; 64];

/// Horizontal flip bit for a [`Cell`].
pub const FLIP_X: u8 = 1;
/// Vertical flip bit for a [`Cell`].
pub const FLIP_Y: u8 = 2;

/// The tile number of a cell that draws nothing.
pub const NO_TILE: u16 = 0xffff;

/// An empty tile: every pixel 0.
pub fn blank_tile() -> (t: Tile8)
    ensures
        forall|i: int| 0 <= i < 64 ==> #[trigger] t@[i] == 0,
{
    [0u8; 64]
}

/// One 8x8 cell of a composed image: which tile, in which palette, flipped how.
#[derive(Clone, Copy, PartialEq, Eq, Debug, Default, Structural)]
pub struct Cell {
    pub tile: u16,
    pub palette: u8,
    pub flip: u8,
}

impl Cell {
    pub fn new(tile: u16, palette: u8) -> (c: Cell)
        ensures
            c == (Cell { tile, palette, flip: 0 }),
    {
        Cell { tile, palette, flip: 0 }
    }

    pub fn flipped(tile: u16, palette: u8, flip: u8) -> (c: Cell)
        ensures
            c == (Cell { tile, palette, flip }),
    {
        Cell { tile, palette, flip }
    }

    /// True when the cell refers to no tile at all.
    pub fn is_blank(&self) -> (r: bool)
        ensures
            r == (self.tile == NO_TILE),
    {
        self.tile == NO_TILE
    }

    /// A cell that draws nothing.
    pub fn blank() -> (c: Cell)
        ensures
            c == (Cell { tile: NO_TILE, palette: 0, flip: 0 }),
    {
        Cell { tile: NO_TILE, palette: 0, flip: 0 }
    }
}

/// The pixel at `(x, y)` of a tile drawn with the given flips.
pub open spec fn pixel_spec(t: Seq<u8>, x: int, y: int, flip: u8) -> u8 {
    let sx = if flip & FLIP_X != 0 { 7 - x } else { x };
    let sy = if flip & FLIP_Y != 0 { 7 - y } else { y };
    t[sy * 8 + sx]
}

/// Reads a pixel from a tile, applying flips.
pub fn pixel(t: &Tile8, x: usize, y: usize, flip: u8) -> (r: u8)
    requires
        x < 8,
        y < 8,
    ensures
        r == pixel_spec(t@, x as int, y as int, flip),
{
    let x = if flip & FLIP_X != 0 { 7 - x } else { x };
    let y = if flip & FLIP_Y != 0 { 7 - y } else { y };
    t[y * 8 + x]
}

/// Byte `i` of `b`, or 0 past its end.
pub open spec fn byte_or_zero(b: Seq<u8>, i: int) -> u8 {
    if 0 <= i < b.len() { b[i] } else { 0 }
}

/// The pixel value in column `x` of a row whose low and high bitplanes are
/// `lo` and `hi`: the leftmost pixel is the top bit.
pub open spec fn plane_pixel(lo: u8, hi: u8, x: int) -> u8 {
    ((lo >> ((7 - x) as u8)) & 1) | (((hi >> ((7 - x) as u8)) & 1) << 1u8)
}

/// One bitplane byte of row `y`: bit `b` of each pixel, leftmost pixel in the
/// top bit.
pub open spec fn plane_byte(t: Seq<u8>, y: int, b: u8) -> u8 {
    let r = y * 8;
    (((t[r] >> b) & 1) << 7u8) | (((t[r + 1] >> b) & 1) << 6u8) | (((t[r + 2] >> b) & 1) << 5u8) | ((
    (t[r + 3] >> b) & 1) << 4u8) | (((t[r + 4] >> b) & 1) << 3u8) | (((t[r + 5] >> b) & 1) << 2u8) | ((
    (t[r + 6] >> b) & 1) << 1u8) | ((t[r + 7] >> b) & 1)
}

/// Decodes one Game Boy 2bpp tile: 16 bytes, two bitplanes interleaved by
/// row. Missing bytes count as 0.
pub fn decode_2bpp(bytes: &[u8]) -> (t: Tile8)
    ensures
        forall|y: int, x: int|
            0 <= y < 8 && 0 <= x < 8 ==> #[trigger] t@[y * 8 + x] == plane_pixel(
                byte_or_zero(bytes@, 2 * y),
                byte_or_zero(bytes@, 2 * y + 1),
                x,
            ),
{
    let mut t: Tile8 = [0u8; 64];
    let mut y: usize = 0;
    while y < 8
        invariant
            y <= 8,
            forall|yy: int, x: int|
                0 <= yy < y && 0 <= x < 8 ==> #[trigger] t@[yy * 8 + x] == plane_pixel(
                    byte_or_zero(bytes@, 2 * yy),
                    byte_or_zero(bytes@, 2 * yy + 1),
                    x,
                ),
        decreases 8 - y,
    {
        let lo: u8 = if y * 2 < bytes.len() { bytes[y * 2] } else { 0 };
        let hi: u8 = if y * 2 + 1 < bytes.len() { bytes[y * 2 + 1] } else { 0 };
        let mut x: usize = 0;
        while x < 8
            invariant
                y < 8,
                x <= 8,
                lo == byte_or_zero(bytes@, 2 * y),
                hi == byte_or_zero(bytes@, 2 * y + 1),
                forall|yy: int, xx: int|
                    0 <= yy < y && 0 <= xx < 8 ==> #[trigger] t@[yy * 8 + xx] == plane_pixel(
                        byte_or_zero(bytes@, 2 * yy),
                        byte_or_zero(bytes@, 2 * yy + 1),
                        xx,
                    ),
                forall|xx: int| 0 <= xx < x ==> #[trigger] t@[y * 8 + xx] == plane_pixel(lo, hi, xx),
            decreases 8 - x,
        {
            let bit: u8 = (7 - x) as u8;
            let v: u8 = ((lo >> bit) & 1) | (((hi >> bit) & 1) << 1u8);
            t[y * 8 + x] = v;
            proof {
                assert forall|yy: int, xx: int|
                    0 <= yy < y && 0 <= xx < 8 implies #[trigger] t@[yy * 8 + xx] == plane_pixel(
                    byte_or_zero(bytes@, 2 * yy),
                    byte_or_zero(bytes@, 2 * yy + 1),
                    xx,
                ) by {
                    assert(yy * 8 + xx < y * 8) by (nonlinear_arith)
                        requires
                            0 <= yy < y,
                            0 <= xx < 8,
                    ;
                }
            }
            x = x + 1;
        }
        y = y + 1;
    }
    t
}

/// Encodes a tile back to the Game Boy's 16-byte 2bpp form: for each row,
/// the low bitplane then the high one. Only the low two bits of each pixel
/// count.
pub fn encode_2bpp(t: &Tile8) -> (out: [u8; 16])
    ensures
        forall|y: int| 0 <= y < 8 ==> #[trigger] out@[2 * y] == plane_byte(t@, y, 0),
        forall|y: int| 0 <= y < 8 ==> #[trigger] out@[2 * y + 1] == plane_byte(t@, y, 1),
{
    let mut out: [u8; 16] = [0u8; 16];
    let mut y: usize = 0;
    while y < 8
        invariant
            y <= 8,
            forall|yy: int| 0 <= yy < y ==> #[trigger] out@[2 * yy] == plane_byte(t@, yy, 0),
            forall|yy: int| 0 <= yy < y ==> #[trigger] out@[2 * yy + 1] == plane_byte(t@, yy, 1),
        decreases 8 - y,
    {
        let r = y * 8;
        let lo: u8 = (((t[r] >> 0u8) & 1) << 7u8) | (((t[r + 1] >> 0u8) & 1) << 6u8) | (((
        t[r + 2] >> 0u8) & 1) << 5u8) | (((t[r + 3] >> 0u8) & 1) << 4u8) | (((t[r + 4] >> 0u8)
            & 1) << 3u8) | (((t[r + 5] >> 0u8) & 1) << 2u8) | (((t[r + 6] >> 0u8) & 1) << 1u8) | ((
        t[r + 7] >> 0u8) & 1);
        let hi: u8 = (((t[r] >> 1u8) & 1) << 7u8) | (((t[r + 1] >> 1u8) & 1) << 6u8) | (((
        t[r + 2] >> 1u8) & 1) << 5u8) | (((t[r + 3] >> 1u8) & 1) << 4u8) | (((t[r + 4] >> 1u8)
            & 1) << 3u8) | (((t[r + 5] >> 1u8) & 1) << 2u8) | (((t[r + 6] >> 1u8) & 1) << 1u8) | ((
        t[r + 7] >> 1u8) & 1);
        out[y * 2] = lo;
        out[y * 2 + 1] = hi;
        y = y + 1;
    }
    out
}

/// True when every pixel in the tile is the same. Used when guessing whether a
/// stretch of a ROM holds graphics or something else.
pub fn is_flat(t: &Tile8) -> (r: bool)
    ensures
        r == (forall|i: int| 0 <= i < 64 ==> #[trigger] t@[i] == t@[0]),
{
    let mut i: usize = 0;
    while i < 64
        invariant
            i <= 64,
            forall|k: int| 0 <= k < i ==> #[trigger] t@[k] == t@[0],
        decreases 64 - i,
    {
        if t[i] != t[0] {
            return false;
        }
        i = i + 1;
    }
    true
}

/// Reading back a row's pixels from its two bitplanes gives the pixels'
/// low two bits.
pub proof fn lemma_row_roundtrip(p0: u8, p1: u8, p2: u8, p3: u8, p4: u8, p5: u8, p6: u8, p7: u8)
    ensures
        ({
            let lo = (((p0 >> 0u8) & 1) << 7u8) | (((p1 >> 0u8) & 1) << 6u8) | (((p2 >> 0u8) & 1) << 5u8) | ((
            (p3 >> 0u8) & 1) << 4u8) | (((p4 >> 0u8) & 1) << 3u8) | (((p5 >> 0u8) & 1) << 2u8) | (((
            p6 >> 0u8) & 1) << 1u8) | ((p7 >> 0u8) & 1);
            let hi = (((p0 >> 1u8) & 1) << 7u8) | (((p1 >> 1u8) & 1) << 6u8) | (((p2 >> 1u8) & 1) << 5u8) | ((
            (p3 >> 1u8) & 1) << 4u8) | (((p4 >> 1u8) & 1) << 3u8) | (((p5 >> 1u8) & 1) << 2u8) | (((
            p6 >> 1u8) & 1) << 1u8) | ((p7 >> 1u8) & 1);
            &&& plane_pixel(lo, hi, 0) == p0 & 3
            &&& plane_pixel(lo, hi, 1) == p1 & 3
            &&& plane_pixel(lo, hi, 2) == p2 & 3
            &&& plane_pixel(lo, hi, 3) == p3 & 3
            &&& plane_pixel(lo, hi, 4) == p4 & 3
            &&& plane_pixel(lo, hi, 5) == p5 & 3
            &&& plane_pixel(lo, hi, 6) == p6 & 3
            &&& plane_pixel(lo, hi, 7) == p7 & 3
        }),
{
    let lo = (((p0 >> 0u8) & 1) << 7u8) | (((p1 >> 0u8) & 1) << 6u8) | (((p2 >> 0u8) & 1) << 5u8) | ((
    (p3 >> 0u8) & 1) << 4u8) | (((p4 >> 0u8) & 1) << 3u8) | (((p5 >> 0u8) & 1) << 2u8) | (((
    p6 >> 0u8) & 1) << 1u8) | ((p7 >> 0u8) & 1);
    let hi = (((p0 >> 1u8) & 1) << 7u8) | (((p1 >> 1u8) & 1) << 6u8) | (((p2 >> 1u8) & 1) << 5u8) | ((
    (p3 >> 1u8) & 1) << 4u8) | (((p4 >> 1u8) & 1) << 3u8) | (((p5 >> 1u8) & 1) << 2u8) | (((
    p6 >> 1u8) & 1) << 1u8) | ((p7 >> 1u8) & 1);
    assert(((lo >> 7u8) & 1) | (((hi >> 7u8) & 1) << 1u8) == p0 & 3) by (bit_vector)
        requires lo == (((p0 >> 0u8) & 1) << 7u8) | (((p1 >> 0u8) & 1) << 6u8) | (((p2 >> 0u8) & 1) << 5u8) | ((
            (p3 >> 0u8) & 1) << 4u8) | (((p4 >> 0u8) & 1) << 3u8) | (((p5 >> 0u8) & 1) << 2u8) | (((
            p6 >> 0u8) & 1) << 1u8) | ((p7 >> 0u8) & 1),
            hi == (((p0 >> 1u8) & 1) << 7u8) | (((p1 >> 1u8) & 1) << 6u8) | (((p2 >> 1u8) & 1) << 5u8) | ((
            (p3 >> 1u8) & 1) << 4u8) | (((p4 >> 1u8) & 1) << 3u8) | (((p5 >> 1u8) & 1) << 2u8) | (((
            p6 >> 1u8) & 1) << 1u8) | ((p7 >> 1u8) & 1);
    assert(((lo >> 6u8) & 1) | (((hi >> 6u8) & 1) << 1u8) == p1 & 3) by (bit_vector)
        requires lo == (((p0 >> 0u8) & 1) << 7u8) | (((p1 >> 0u8) & 1) << 6u8) | (((p2 >> 0u8) & 1) << 5u8) | ((
            (p3 >> 0u8) & 1) << 4u8) | (((p4 >> 0u8) & 1) << 3u8) | (((p5 >> 0u8) & 1) << 2u8) | (((
            p6 >> 0u8) & 1) << 1u8) | ((p7 >> 0u8) & 1),
            hi == (((p0 >> 1u8) & 1) << 7u8) | (((p1 >> 1u8) & 1) << 6u8) | (((p2 >> 1u8) & 1) << 5u8) | ((
            (p3 >> 1u8) & 1) << 4u8) | (((p4 >> 1u8) & 1) << 3u8) | (((p5 >> 1u8) & 1) << 2u8) | (((
            p6 >> 1u8) & 1) << 1u8) | ((p7 >> 1u8) & 1);
    assert(((lo >> 5u8) & 1) | (((hi >> 5u8) & 1) << 1u8) == p2 & 3) by (bit_vector)
        requires lo == (((p0 >> 0u8) & 1) << 7u8) | (((p1 >> 0u8) & 1) << 6u8) | (((p2 >> 0u8) & 1) << 5u8) | ((
            (p3 >> 0u8) & 1) << 4u8) | (((p4 >> 0u8) & 1) << 3u8) | (((p5 >> 0u8) & 1) << 2u8) | (((
            p6 >> 0u8) & 1) << 1u8) | ((p7 >> 0u8) & 1),
            hi == (((p0 >> 1u8) & 1) << 7u8) | (((p1 >> 1u8) & 1) << 6u8) | (((p2 >> 1u8) & 1) << 5u8) | ((
            (p3 >> 1u8) & 1) << 4u8) | (((p4 >> 1u8) & 1) << 3u8) | (((p5 >> 1u8) & 1) << 2u8) | (((
            p6 >> 1u8) & 1) << 1u8) | ((p7 >> 1u8) & 1);
    assert(((lo >> 4u8) & 1) | (((hi >> 4u8) & 1) << 1u8) == p3 & 3) by (bit_vector)
        requires lo == (((p0 >> 0u8) & 1) << 7u8) | (((p1 >> 0u8) & 1) << 6u8) | (((p2 >> 0u8) & 1) << 5u8) | ((
            (p3 >> 0u8) & 1) << 4u8) | (((p4 >> 0u8) & 1) << 3u8) | (((p5 >> 0u8) & 1) << 2u8) | (((
            p6 >> 0u8) & 1) << 1u8) | ((p7 >> 0u8) & 1),
            hi == (((p0 >> 1u8) & 1) << 7u8) | (((p1 >> 1u8) & 1) << 6u8) | (((p2 >> 1u8) & 1) << 5u8) | ((
            (p3 >> 1u8) & 1) << 4u8) | (((p4 >> 1u8) & 1) << 3u8) | (((p5 >> 1u8) & 1) << 2u8) | (((
            p6 >> 1u8) & 1) << 1u8) | ((p7 >> 1u8) & 1);
    assert(((lo >> 3u8) & 1) | (((hi >> 3u8) & 1) << 1u8) == p4 & 3) by (bit_vector)
        requires lo == (((p0 >> 0u8) & 1) << 7u8) | (((p1 >> 0u8) & 1) << 6u8) | (((p2 >> 0u8) & 1) << 5u8) | ((
            (p3 >> 0u8) & 1) << 4u8) | (((p4 >> 0u8) & 1) << 3u8) | (((p5 >> 0u8) & 1) << 2u8) | (((
            p6 >> 0u8) & 1) << 1u8) | ((p7 >> 0u8) & 1),
            hi == (((p0 >> 1u8) & 1) << 7u8) | (((p1 >> 1u8) & 1) << 6u8) | (((p2 >> 1u8) & 1) << 5u8) | ((
            (p3 >> 1u8) & 1) << 4u8) | (((p4 >> 1u8) & 1) << 3u8) | (((p5 >> 1u8) & 1) << 2u8) | (((
            p6 >> 1u8) & 1) << 1u8) | ((p7 >> 1u8) & 1);
    assert(((lo >> 2u8) & 1) | (((hi >> 2u8) & 1) << 1u8) == p5 & 3) by (bit_vector)
        requires lo == (((p0 >> 0u8) & 1) << 7u8) | (((p1 >> 0u8) & 1) << 6u8) | (((p2 >> 0u8) & 1) << 5u8) | ((
            (p3 >> 0u8) & 1) << 4u8) | (((p4 >> 0u8) & 1) << 3u8) | (((p5 >> 0u8) & 1) << 2u8) | (((
            p6 >> 0u8) & 1) << 1u8) | ((p7 >> 0u8) & 1),
            hi == (((p0 >> 1u8) & 1) << 7u8) | (((p1 >> 1u8) & 1) << 6u8) | (((p2 >> 1u8) & 1) << 5u8) | ((
            (p3 >> 1u8) & 1) << 4u8) | (((p4 >> 1u8) & 1) << 3u8) | (((p5 >> 1u8) & 1) << 2u8) | (((
            p6 >> 1u8) & 1) << 1u8) | ((p7 >> 1u8) & 1);
    assert(((lo >> 1u8) & 1) | (((hi >> 1u8) & 1) << 1u8) == p6 & 3) by (bit_vector)
        requires lo == (((p0 >> 0u8) & 1) << 7u8) | (((p1 >> 0u8) & 1) << 6u8) | (((p2 >> 0u8) & 1) << 5u8) | ((
            (p3 >> 0u8) & 1) << 4u8) | (((p4 >> 0u8) & 1) << 3u8) | (((p5 >> 0u8) & 1) << 2u8) | (((
            p6 >> 0u8) & 1) << 1u8) | ((p7 >> 0u8) & 1),
            hi == (((p0 >> 1u8) & 1) << 7u8) | (((p1 >> 1u8) & 1) << 6u8) | (((p2 >> 1u8) & 1) << 5u8) | ((
            (p3 >> 1u8) & 1) << 4u8) | (((p4 >> 1u8) & 1) << 3u8) | (((p5 >> 1u8) & 1) << 2u8) | (((
            p6 >> 1u8) & 1) << 1u8) | ((p7 >> 1u8) & 1);
    assert(((lo >> 0u8) & 1) | (((hi >> 0u8) & 1) << 1u8) == p7 & 3) by (bit_vector)
        requires lo == (((p0 >> 0u8) & 1) << 7u8) | (((p1 >> 0u8) & 1) << 6u8) | (((p2 >> 0u8) & 1) << 5u8) | ((
            (p3 >> 0u8) & 1) << 4u8) | (((p4 >> 0u8) & 1) << 3u8) | (((p5 >> 0u8) & 1) << 2u8) | (((
            p6 >> 0u8) & 1) << 1u8) | ((p7 >> 0u8) & 1),
            hi == (((p0 >> 1u8) & 1) << 7u8) | (((p1 >> 1u8) & 1) << 6u8) | (((p2 >> 1u8) & 1) << 5u8) | ((
            (p3 >> 1u8) & 1) << 4u8) | (((p4 >> 1u8) & 1) << 3u8) | (((p5 >> 1u8) & 1) << 2u8) | (((
            p6 >> 1u8) & 1) << 1u8) | ((p7 >> 1u8) & 1);
}

/// Encoding a tile to 2bpp and decoding it again gives back every pixel's
/// low two bits; for a tile of pixel values 0..=3, the tile itself.
pub proof fn lemma_2bpp_roundtrip(t: Seq<u8>, enc: Seq<u8>, dec: Seq<u8>)
    requires
        t.len() == 64,
        enc.len() == 16,
        forall|y: int| 0 <= y < 8 ==> #[trigger] enc[2 * y] == plane_byte(t, y, 0),
        forall|y: int| 0 <= y < 8 ==> #[trigger] enc[2 * y + 1] == plane_byte(t, y, 1),
        dec.len() == 64,
        forall|y: int, x: int|
            0 <= y < 8 && 0 <= x < 8 ==> #[trigger] dec[y * 8 + x] == plane_pixel(
                byte_or_zero(enc, 2 * y),
                byte_or_zero(enc, 2 * y + 1),
                x,
            ),
    ensures
        forall|i: int| 0 <= i < 64 ==> #[trigger] dec[i] == t[i] & 3,
{
    assert forall|i: int| 0 <= i < 64 implies #[trigger] dec[i] == t[i] & 3 by {
        let y = i / 8;
        let x = i % 8;
        assert(i == y * 8 + x);
        let r = y * 8;
        lemma_row_roundtrip(t[r], t[r + 1], t[r + 2], t[r + 3], t[r + 4], t[r + 5], t[r + 6], t[r + 7]);
        assert(dec[y * 8 + x] == plane_pixel(enc[2 * y], enc[2 * y + 1], x));
    }
}

} // verus!
