//! Turning ordinary images into four-colour tiles.
//!
//! Decoded RGBA comes straight from a platform image decoder, so PNG and GIF
//! need nothing here. BMP is handled as well, because it is the one common
//! format that is trivial to read without a decoder.
use vstd::prelude::*;
use crate::save::from_le32;
use super::palette::{Palette, Rgb};
use super::tile::Tile8;

verus! {

/// Decoded pixels, eight bits per channel.
pub struct Image {
    pub width: usize,
    pub height: usize,
    /// `width * height * 4` bytes, RGBA.
    pub rgba: Vec<u8>,
}

impl Image {
    /// The pixel buffer holds four bytes for every pixel, and maybe more.
    pub open spec fn wf(&self) -> bool {
        self.rgba@.len() >= self.width * self.height * 4
    }

    /// The four channels of the pixel at `(x, y)`, all 0 outside the image.
    pub open spec fn pixel_spec(&self, x: int, y: int) -> (u8, u8, u8, u8) {
        if 0 <= x < self.width && 0 <= y < self.height {
            let i = (y * self.width + x) * 4;
            (self.rgba@[i], self.rgba@[i + 1], self.rgba@[i + 2], self.rgba@[i + 3])
        } else {
            (0, 0, 0, 0)
        }
    }

    /// The channels of the pixel at `(x, y)`; outside the image, all zero.
    pub fn pixel(&self, x: usize, y: usize) -> (r: (u8, u8, u8, u8))
        requires
            self.wf(),
        ensures
            r == self.pixel_spec(x as int, y as int),
    {
        if x >= self.width || y >= self.height {
            return (0, 0, 0, 0);
        }
        let len = self.rgba.len();
        proof {
            lemma_pixel_index(x as int, y as int, self.width as int, self.height as int);
        }
        let i = (y * self.width + x) * 4;
        (self.rgba[i], self.rgba[i + 1], self.rgba[i + 2], self.rgba[i + 3])
    }
}

/// A pixel's four bytes lie inside a `w` by `h` RGBA buffer.
pub proof fn lemma_pixel_index(x: int, y: int, w: int, h: int)
    requires
        0 <= x < w,
        0 <= y < h,
    ensures
        0 <= (y * w + x) * 4,
        (y * w + x) * 4 + 3 < w * h * 4,
{
    assert(0 <= y * w + x < w * h) by (nonlinear_arith)
        requires
            0 <= x < w,
            0 <= y < h,
    ;
}

/// The little-endian `u32` at byte `at`.
pub open spec fn u32_at(data: Seq<u8>, at: int) -> u32 {
    from_le32(data.subrange(at, at + 4))
}

fn read_u32(data: &[u8], at: usize) -> (r: u32)
    requires
        at + 4 <= data@.len(),
    ensures
        r == u32_at(data@, at as int),
{
    let ghost s = data@.subrange(at as int, at + 4);
    assert(s[0] == data@[at as int] && s[1] == data@[at + 1] && s[2] == data@[at + 2] && s[3]
        == data@[at + 3]);
    (data[at] as u32) | ((data[at + 1] as u32) << 8u32) | ((data[at + 2] as u32) << 16u32) | ((
    data[at + 3] as u32) << 24u32)
}

/// The fields of a BMP header that decoding looks at.
pub struct BmpHeader {
    pub pixel_offset: u32,
    pub header_size: u32,
    pub width: i32,
    pub height: i32,
    pub bpp: u16,
    pub compression: u32,
}

/// The header fields of `data`, read at their fixed offsets.
pub open spec fn bmp_header(data: Seq<u8>) -> BmpHeader {
    BmpHeader {
        pixel_offset: u32_at(data, 10),
        header_size: u32_at(data, 14),
        width: u32_at(data, 18) as i32,
        height: u32_at(data, 22) as i32,
        bpp: (data[28] as u16) | ((data[29] as u16) << 8u16),
        compression: u32_at(data, 30),
    }
}

/// Bytes per row of a BMP: the pixel bytes padded to a multiple of four.
pub open spec fn bmp_row_bytes(w: int, bytes_per_px: int) -> int {
    (w * bytes_per_px + 3) / 4 * 4
}

/// True when `data` is an uncompressed 24 or 32 bit BMP whose pixel rows all
/// lie within it.
pub open spec fn bmp_ok(data: Seq<u8>) -> bool {
    let hd = bmp_header(data);
    let w = hd.width as int;
    let h = if hd.height < 0 { -(hd.height as int) } else { hd.height as int };
    let bpx = (hd.bpp / 8) as int;
    &&& data.len() >= 54
    &&& data[0] == 66 && data[1] == 77
    &&& hd.header_size >= 40
    &&& hd.compression == 0
    &&& (hd.bpp == 24 || hd.bpp == 32)
    &&& hd.width > 0
    &&& hd.height != 0
    &&& hd.pixel_offset + bmp_row_bytes(w, bpx) * h <= data.len()
}

/// Channel `c` (red, green, blue, alpha) of pixel `(x, y)` of the BMP in
/// `data`: rows are stored bottom to top unless the height is negative,
/// colours as blue, green, red, and alpha only at 32 bits (else opaque).
pub open spec fn bmp_channel(data: Seq<u8>, x: int, y: int, c: int) -> u8 {
    let hd = bmp_header(data);
    let w = hd.width as int;
    let h = if hd.height < 0 { -(hd.height as int) } else { hd.height as int };
    let bpx = (hd.bpp / 8) as int;
    let src_row = if hd.height > 0 { h - 1 - y } else { y };
    let p = hd.pixel_offset + src_row * bmp_row_bytes(w, bpx) + x * bpx;
    if c == 3 {
        if bpx == 4 { data[p + 3] } else { 255 }
    } else {
        data[p + 2 - c]
    }
}

/// The image a bitmap decodes to: its header's size, every pixel's
/// channels read from the data.
pub open spec fn bmp_image(data: Seq<u8>, img: Image) -> bool {
    let hd = bmp_header(data);
    &&& img.wf()
    &&& img.width == hd.width as int
    &&& img.height == (if hd.height < 0 { -(hd.height as int) } else { hd.height as int })
    &&& forall|x: int, y: int, c: int|
        0 <= x < img.width && 0 <= y < img.height && 0 <= c < 4 ==> #[trigger] img.rgba@[(y * img.width + x) * 4 + c]
            == bmp_channel(data, x, y, c)
}

/// Decodes an uncompressed 24 or 32 bit BMP; `None` for anything else, or
/// for one whose pixels run past the end of the data.
pub fn decode_bmp(data: &[u8]) -> (r: Option<Image>)
    requires
        data@.len() <= isize::MAX,
    ensures
        bmp_ok(data@) <==> r.is_some(),
        r matches Some(img) ==> bmp_image(data@, img),
{
    if data.len() < 54 || data[0] != 66 || data[1] != 77 {
        return None;
    }
    let pixel_offset = read_u32(data, 10);
    let header_size = read_u32(data, 14);
    if header_size < 40 {
        return None;
    }
    let width = read_u32(data, 18) as i32;
    let height = read_u32(data, 22) as i32;
    let bpp: u16 = (data[28] as u16) | ((data[29] as u16) << 8u16);
    let compression = read_u32(data, 30);
    if compression != 0 || !(bpp == 24 || bpp == 32) || width <= 0 || height == 0 {
        return None;
    }
    let w: u64 = width as u64;
    let h: u64 = if height < 0 { (-(height as i64)) as u64 } else { height as u64 };
    let bytes_per_px: u64 = (bpp / 8) as u64;
    assert(w <= 0x7fff_ffff && bytes_per_px <= 4);
    assert(w * bytes_per_px <= 0x7fff_ffff * 4) by (nonlinear_arith)
        requires
            w <= 0x7fff_ffff,
            bytes_per_px <= 4,
    ;
    let row_bytes: u64 = (w * bytes_per_px + 3) / 4 * 4;
    // In 128 bits nothing here can overflow, so the test is exact.
    assert(row_bytes <= 0x2_0000_0000);
    assert((row_bytes as u128) * (h as u128) <= 0x2_0000_0000u128 * 0x8000_0000u128) by (nonlinear_arith)
        requires
            row_bytes <= 0x2_0000_0000,
            h <= 0x8000_0000,
    ;
    let dlen = data.len();
    if pixel_offset as u128 + (row_bytes as u128) * (h as u128) > dlen as u128 {
        return None;
    }
    assert(bmp_ok(data@));
    let ghost hd = bmp_header(data@);
    assert(w * h * 3 <= row_bytes * h) by (nonlinear_arith)
        requires
            row_bytes == (w * bytes_per_px + 3) / 4 * 4,
            bytes_per_px >= 3,
            h >= 1,
    ;
    assert(row_bytes <= dlen) by (nonlinear_arith)
        requires
            pixel_offset + row_bytes * h <= dlen,
            h >= 1,
    ;
    assert(w * h * 4 <= usize::MAX) by (nonlinear_arith)
        requires
            w * h * 3 <= row_bytes * h,
            pixel_offset + row_bytes * h <= dlen,
            dlen <= isize::MAX,
            isize::MAX * 4 / 3 <= usize::MAX,
    ;
    let wu = w as usize;
    let hu = h as usize;
    let n: usize = wu * hu * 4;
    let mut rgba: Vec<u8> = Vec::new();
    let mut i: usize = 0;
    while i < n
        invariant
            i <= n,
            rgba@.len() == i,
        decreases n - i,
    {
        rgba.push(0);
        i = i + 1;
    }
    assert(w * bytes_per_px <= row_bytes);
    let rb = row_bytes as usize;
    let bpx = bytes_per_px as usize;
    let off = pixel_offset as usize;
    let flip = height > 0;
    let mut y: usize = 0;
    while y < hu
        invariant
            y <= hu,
            rgba@.len() == n,
            n == wu * hu * 4,
            wu == hd.width as int,
            hu == (if hd.height < 0 { -(hd.height as int) } else { hd.height as int }),
            bpx == (hd.bpp / 8) as int,
            bpx == 3 || bpx == 4,
            rb == bmp_row_bytes(wu as int, bpx as int),
            off == hd.pixel_offset,
            flip == (hd.height > 0),
            off + rb * hu <= data@.len(),
            dlen == data@.len(),
            wu * bpx <= rb,
            hd == bmp_header(data@),
            forall|xx: int, yy: int, c: int|
                0 <= xx < wu && 0 <= yy < y && 0 <= c < 4 ==> #[trigger] rgba@[(yy * wu + xx) * 4 + c]
                    == bmp_channel(data@, xx, yy, c),
        decreases hu - y,
    {
        let src_row = if flip { hu - 1 - y } else { y };
        assert(src_row * rb + rb <= rb * hu) by (nonlinear_arith)
            requires
                0 <= src_row < hu,
                rb >= 0,
        ;
        let base = off + src_row * rb;
        let mut x: usize = 0;
        while x < wu
            invariant
                y < hu,
                x <= wu,
                rgba@.len() == n,
                n == wu * hu * 4,
                wu == hd.width as int,
                hu == (if hd.height < 0 { -(hd.height as int) } else { hd.height as int }),
                bpx == (hd.bpp / 8) as int,
                bpx == 3 || bpx == 4,
                rb == bmp_row_bytes(wu as int, bpx as int),
                off == hd.pixel_offset,
                flip == (hd.height > 0),
                off + rb * hu <= data@.len(),
                dlen == data@.len(),
                src_row == (if flip { hu - 1 - y } else { y as int }),
                base == off + src_row * rb,
                base + rb <= data@.len(),
                wu * bpx <= rb,
                hd == bmp_header(data@),
                forall|xx: int, yy: int, c: int|
                    0 <= xx < wu && 0 <= yy < y && 0 <= c < 4 ==> #[trigger] rgba@[(yy * wu + xx) * 4 + c]
                        == bmp_channel(data@, xx, yy, c),
                forall|xx: int, c: int|
                    0 <= xx < x && 0 <= c < 4 ==> #[trigger] rgba@[(y * wu + xx) * 4 + c] == bmp_channel(
                        data@,
                        xx,
                        y as int,
                        c,
                    ),
            decreases wu - x,
        {
            assert(x * bpx + bpx <= wu * bpx) by (nonlinear_arith)
                requires
                    x < wu,
                    bpx >= 0,
            ;
            let p = base + x * bpx;
            proof {
                lemma_pixel_index(x as int, y as int, wu as int, hu as int);
                assert(y * wu <= y * wu + x);
            }
            let d = (y * wu + x) * 4;
            let ghost before = rgba@;
            rgba.set(d, data[p + 2]);
            rgba.set(d + 1, data[p + 1]);
            rgba.set(d + 2, data[p]);
            rgba.set(d + 3, if bpx == 4 { data[p + 3] } else { 255 });
            proof {
                assert forall|xx: int, yy: int, c: int|
                    0 <= xx < wu && 0 <= yy < y && 0 <= c < 4 implies #[trigger] rgba@[(yy * wu + xx) * 4 + c]
                    == bmp_channel(data@, xx, yy, c) by {
                    lemma_pixel_index(xx, yy, wu as int, hu as int);
                    assert((yy * wu + xx) < y * wu + x) by (nonlinear_arith)
                        requires
                            0 <= xx < wu,
                            0 <= yy < y,
                            0 <= x,
                    ;
                    assert(rgba@[(yy * wu + xx) * 4 + c] == before[(yy * wu + xx) * 4 + c]);
                }
                assert forall|xx: int, c: int|
                    0 <= xx < x + 1 && 0 <= c < 4 implies #[trigger] rgba@[(y * wu + xx) * 4 + c] == bmp_channel(
                    data@,
                    xx,
                    y as int,
                    c,
                ) by {
                    if xx < x {
                        assert(rgba@[(y * wu + xx) * 4 + c] == before[(y * wu + xx) * 4 + c]);
                    }
                }
            }
            x = x + 1;
        }
        y = y + 1;
    }
    Some(Image { width: wu, height: hu, rgba })
}

/// Perceived brightness of a colour, 0..=255.
pub open spec fn luma_spec(r: u8, g: u8, b: u8) -> int {
    (r * 54 + g * 183 + b * 19) / 256
}

/// Perceived brightness of a colour, 0..=255.
fn luma(r: u8, g: u8, b: u8) -> (l: u32)
    ensures
        l == luma_spec(r, g, b),
        l <= 255,
{
    let v: u32 = r as u32 * 54 + g as u32 * 183 + b as u32 * 19;
    assert(v >> 8u32 == v / 256) by (bit_vector);
    v >> 8u32
}

/// The pixel at place `j` of the `w`-wide crop, in reading order.
pub open spec fn crop_px(img: Image, w: int, j: int) -> (u8, u8, u8, u8) {
    img.pixel_spec(j % w, j / w)
}

/// How many opaque pixels of each brightness the first `n` pixels of the
/// `w`-wide crop hold.
pub open spec fn hist_upto(img: Image, w: int, n: int) -> Seq<int>
    decreases n,
{
    if n <= 0 {
        Seq::new(256, |v: int| 0int)
    } else {
        let h = hist_upto(img, w, n - 1);
        let (r, g, b, a) = crop_px(img, w, n - 1);
        if a >= 128 {
            h.update(luma_spec(r, g, b), h[luma_spec(r, g, b)] + 1)
        } else {
            h
        }
    }
}

/// How many of the first `n` pixels of the crop are opaque.
pub open spec fn opaque_upto(img: Image, w: int, n: int) -> int
    decreases n,
{
    if n <= 0 {
        0
    } else {
        opaque_upto(img, w, n - 1) + if crop_px(img, w, n - 1).3 >= 128 { 1int } else { 0int }
    }
}

/// The sum of the first `v` histogram entries.
pub open spec fn hist_sum(h: Seq<int>, v: int) -> int
    decreases v,
{
    if v <= 0 {
        0
    } else {
        hist_sum(h, v - 1) + h[v - 1]
    }
}

/// The quartile cuts after moving past brightness `v` with `seen` pixels at
/// or below it: every cut not yet placed whose quarter is now covered is
/// placed at `v`.
pub open spec fn place_cuts(seen: int, total: int, v: int, next: int, cuts: Seq<int>) -> (int, Seq<int>)
    decreases 3 - next,
{
    if next < 3 && seen * 4 >= total * (next + 1) {
        place_cuts(seen, total, v, next + 1, cuts.update(next, v))
    } else {
        (next, cuts)
    }
}

/// The cuts after looking at the first `v` brightness levels.
pub open spec fn cuts_upto(h: Seq<int>, total: int, v: int) -> (int, Seq<int>)
    decreases v,
{
    if v <= 0 {
        (0, seq![64int, 128int, 192int])
    } else {
        let (next, cuts) = cuts_upto(h, total, v - 1);
        place_cuts(hist_sum(h, v), total, v - 1, next, cuts)
    }
}

/// The brightnesses splitting the opaque pixels of the crop into quarters;
/// with no opaque pixels, even splits.
pub open spec fn quartile_cuts(img: Image, w: int, n: int) -> Seq<int> {
    let h = hist_upto(img, w, n);
    let total = opaque_upto(img, w, n);
    if total > 0 {
        cuts_upto(h, total, 256).1
    } else {
        seq![64int, 128int, 192int]
    }
}

/// The level, 0 to 3, of a brightness under the given cuts.
pub open spec fn level_of(l: int, cuts: Seq<int>) -> u8 {
    if l <= cuts[0] {
        0
    } else if l <= cuts[1] {
        1
    } else if l <= cuts[2] {
        2
    } else {
        3
    }
}

/// The tile pixel an image pixel becomes: 0 when (nearly) transparent, its
/// level otherwise.
pub open spec fn quantised(p: (u8, u8, u8, u8), cuts: Seq<int>) -> u8 {
    if p.3 < 128 {
        0
    } else {
        level_of(luma_spec(p.0, p.1, p.2), cuts)
    }
}

/// Per level, the sums of red, green and blue and the pixel count over the
/// first `n` opaque pixels of the crop.
pub open spec fn sums_upto(img: Image, w: int, n: int, cuts: Seq<int>) -> Seq<(int, int, int, int)>
    decreases n,
{
    if n <= 0 {
        Seq::new(4, |i: int| (0int, 0int, 0int, 0int))
    } else {
        let s = sums_upto(img, w, n - 1, cuts);
        let (r, g, b, a) = crop_px(img, w, n - 1);
        if a >= 128 {
            let l = level_of(luma_spec(r, g, b), cuts) as int;
            s.update(l, (s[l].0 + r, s[l].1 + g, s[l].2 + b, s[l].3 + 1))
        } else {
            s
        }
    }
}

/// The palette colour of level `i` from its sums: the mean colour, or an
/// even grey when no pixel landed there.
pub open spec fn level_color(i: int, s: (int, int, int, int)) -> u32 {
    if s.3 == 0 {
        let v = (i * 85) % 256;
        (v * 65536 + v * 256 + v) as u32
    } else {
        ((s.0 / s.3) * 65536 + (s.1 / s.3) * 256 + s.2 / s.3) as u32
    }
}

/// A histogram of the first `n` pixels has 256 entries, none negative,
/// together counting the opaque pixels.
proof fn lemma_hist(img: Image, w: int, n: int)
    requires
        w >= 1,
        n >= 0,
    ensures
        hist_upto(img, w, n).len() == 256,
        forall|v: int| 0 <= v < 256 ==> 0 <= #[trigger] hist_upto(img, w, n)[v] <= n,
        hist_sum(hist_upto(img, w, n), 256) == opaque_upto(img, w, n),
        0 <= opaque_upto(img, w, n) <= n,
    decreases n,
{
    if n > 0 {
        lemma_hist(img, w, n - 1);
        let h = hist_upto(img, w, n - 1);
        let (r, g, b, a) = crop_px(img, w, n - 1);
        if a >= 128 {
            let l = luma_spec(r, g, b);
            assert(0 <= l < 256) by (nonlinear_arith)
                requires
                    l == (r * 54 + g * 183 + b * 19) / 256,
                    0 <= r <= 255,
                    0 <= g <= 255,
                    0 <= b <= 255,
            ;
            lemma_sum_bump(h, l, 256);
        }
    } else {
        lemma_sum_zero(256);
    }
}

/// Adding one to an entry adds one to every sum that covers it.
proof fn lemma_sum_bump(h: Seq<int>, l: int, v: int)
    requires
        0 <= l < h.len(),
        0 <= v <= h.len(),
    ensures
        hist_sum(h.update(l, h[l] + 1), v) == hist_sum(h, v) + if l < v { 1int } else { 0int },
    decreases v,
{
    if v > 0 {
        lemma_sum_bump(h, l, v - 1);
    }
}

/// The empty histogram sums to zero.
proof fn lemma_sum_zero(v: int)
    requires
        0 <= v <= 256,
    ensures
        hist_sum(Seq::new(256, |i: int| 0int), v) == 0,
    decreases v,
{
    if v > 0 {
        lemma_sum_zero(v - 1);
    }
}

/// Partial sums of a histogram without negative entries grow with `v`.
proof fn lemma_sum_mono(h: Seq<int>, v: int, u: int)
    requires
        0 <= v <= u <= h.len(),
        forall|i: int| 0 <= i < h.len() ==> 0 <= #[trigger] h[i],
    ensures
        0 <= hist_sum(h, v) <= hist_sum(h, u),
    decreases u,
{
    if v < u {
        lemma_sum_mono(h, v, u - 1);
    } else if v > 0 {
        lemma_sum_mono(h, v - 1, v - 1);
    }
}

/// The brightness histogram and opaque-pixel count of the `w` by `hgt` crop.
fn histogram(img: &Image, w: usize, hgt: usize) -> (r: (Vec<u32>, u32))
    requires
        img.wf(),
        1 <= w <= img.width,
        hgt <= img.height,
        img.width * img.height <= 0x1000_0000,
    ensures
        r.0@.len() == 256,
        forall|v: int| 0 <= v < 256 ==> #[trigger] r.0@[v] as int == hist_upto(*img, w as int, (w * hgt) as int)[v],
        r.1 as int == opaque_upto(*img, w as int, (w * hgt) as int),
{
    let mut hist: Vec<u32> = Vec::new();
    let mut k: usize = 0;
    while k < 256
        invariant
            k <= 256,
            hist@.len() == k,
            forall|v: int| 0 <= v < k ==> #[trigger] hist@[v] == 0,
        decreases 256 - k,
    {
        hist.push(0);
        k = k + 1;
    }
    let mut total: u32 = 0;
    assert(w * hgt <= img.width * img.height) by (nonlinear_arith)
        requires
            w <= img.width,
            hgt <= img.height,
    ;
    let mut y: usize = 0;
    while y < hgt
        invariant
            img.wf(),
            1 <= w <= img.width,
            hgt <= img.height,
            w * hgt <= 0x1000_0000,
            y <= hgt,
            hist@.len() == 256,
            forall|v: int| 0 <= v < 256 ==> #[trigger] hist@[v] as int == hist_upto(*img, w as int, y * w)[v],
            total as int == opaque_upto(*img, w as int, y * w),
        decreases hgt - y,
    {
        let mut x: usize = 0;
        while x < w
            invariant
                img.wf(),
                1 <= w <= img.width,
                hgt <= img.height,
                w * hgt <= 0x1000_0000,
                y < hgt,
                x <= w,
                hist@.len() == 256,
                forall|v: int| 0 <= v < 256 ==> #[trigger] hist@[v] as int == hist_upto(*img, w as int, y * w + x)[v],
                total as int == opaque_upto(*img, w as int, y * w + x),
            decreases w - x,
        {
            let ghost j: int = y * w + x;
            proof {
                vstd::arithmetic::div_mod::lemma_fundamental_div_mod_converse(j, w as int, y as int, x as int);
                assert(j < w * hgt) by (nonlinear_arith)
                    requires
                        j == y * w + x,
                        x < w,
                        y < hgt,
                ;
                lemma_hist(*img, w as int, j);
                lemma_hist(*img, w as int, j + 1);
            }
            let (r, g, b, a) = img.pixel(x, y);
            if a >= 128 {
                let l = luma(r, g, b) as usize;
                hist.set(l, hist[l] + 1);
                total = total + 1;
            }
            proof {
                let h0 = hist_upto(*img, w as int, j);
                let h1 = hist_upto(*img, w as int, j + 1);
                assert forall|v: int| 0 <= v < 256 implies #[trigger] hist@[v] as int == h1[v] by {}
            }
            x = x + 1;
        }
        proof {
            assert(y * w + w == (y + 1) * w) by (nonlinear_arith);
        }
        y = y + 1;
    }
    proof {
        assert(hgt * w == w * hgt) by (nonlinear_arith);
    }
    (hist, total)
}

/// The quartile cuts of a histogram with `total` pixels in it.
fn cuts_of(hist: &Vec<u32>, total: u32, ghost_h: Ghost<Seq<int>>) -> (cuts: [u32; 3])
    requires
        hist@.len() == 256,
        ghost_h@.len() == 256,
        forall|v: int| 0 <= v < 256 ==> #[trigger] hist@[v] as int == ghost_h@[v],
        forall|v: int| 0 <= v < 256 ==> 0 <= #[trigger] ghost_h@[v],
        hist_sum(ghost_h@, 256) == total,
        total <= 0x1000_0000,
        total > 0,
    ensures
        forall|i: int| 0 <= i < 3 ==> #[trigger] cuts@[i] as int == cuts_upto(ghost_h@, total as int, 256).1[i],
        cuts_upto(ghost_h@, total as int, 256).1.len() == 3,
{
    let ghost h = ghost_h@;
    let mut cuts: [u32; 3] = [64u32, 128, 192];
    let mut seen: u32 = 0;
    let mut next: usize = 0;
    let mut v: usize = 0;
    while v < 256
        invariant
            v <= 256,
            hist@.len() == 256,
            h.len() == 256,
            forall|u: int| 0 <= u < 256 ==> #[trigger] hist@[u] as int == h[u],
            forall|u: int| 0 <= u < 256 ==> 0 <= #[trigger] h[u],
            hist_sum(h, 256) == total,
            total <= 0x1000_0000,
            seen as int == hist_sum(h, v as int),
            next as int == cuts_upto(h, total as int, v as int).0,
            cuts_upto(h, total as int, v as int).1.len() == 3,
            forall|i: int| 0 <= i < 3 ==> #[trigger] cuts@[i] as int == cuts_upto(h, total as int, v as int).1[i],
            0 <= next <= 3,
        decreases 256 - v,
    {
        proof {
            lemma_sum_mono(h, v + 1, 256);
        }
        seen = seen + hist[v];
        let ghost c0 = cuts_upto(h, total as int, v as int);
        proof {
            assert(seen as int == hist_sum(h, v + 1));
            assert(cuts@.map_values(|c: u32| c as int) =~= c0.1);
        }
        while cut_due(seen, total, next)
            invariant
                0 <= next <= 3,
                v < 256,
                seen <= total,
                total <= 0x1000_0000,
                place_cuts(seen as int, total as int, v as int, next as int, cuts@.map_values(|c: u32| c as int))
                    == place_cuts(seen as int, total as int, v as int, c0.0, c0.1),
            decreases 3 - next,
        {
            let ghost before = cuts@.map_values(|c: u32| c as int);
            cuts[next] = v as u32;
            proof {
                assert(cuts@.map_values(|c: u32| c as int) =~= before.update(next as int, v as int));
            }
            next = next + 1;
        }
        proof {
            let (n1, c1) = cuts_upto(h, total as int, v + 1);
            assert(cuts@.map_values(|c: u32| c as int) =~= c1) by {
                lemma_place_done(seen as int, total as int, v as int, next as int, cuts@.map_values(|c: u32| c as int));
            }
            assert forall|i: int| 0 <= i < 3 implies #[trigger] cuts@[i] as int == c1[i] by {
                assert(cuts@.map_values(|c: u32| c as int)[i] == cuts@[i] as int);
            }
        }
        v = v + 1;
    }
    cuts
}

/// True when cut number `next` is due: a quarter more of the pixels has
/// been seen.
fn cut_due(seen: u32, total: u32, next: usize) -> (r: bool)
    ensures
        r == (next < 3 && seen * 4 >= total * (next + 1)),
{
    if next >= 3 {
        return false;
    }
    let k: u64 = next as u64 + 1;
    let lhs: u64 = seen as u64 * 4;
    assert(total as u64 * k <= 0xffff_ffffu64 * 3) by (nonlinear_arith)
        requires
            total <= 0xffff_ffff,
            k <= 3,
    ;
    let rhs: u64 = total as u64 * k;
    lhs >= rhs
}

/// Once no further cut is due, placing cuts changes nothing.
proof fn lemma_place_done(seen: int, total: int, v: int, next: int, cuts: Seq<int>)
    requires
        !(next < 3 && seen * 4 >= total * (next + 1)),
    ensures
        place_cuts(seen, total, v, next, cuts) == (next, cuts),
{
}

/// The cuts as numbers.
pub open spec fn cut_seq(c: [u32; 3]) -> Seq<int> {
    seq![c[0] as int, c[1] as int, c[2] as int]
}

/// The level, 0 to 3, of a brightness under the given cuts.
fn level(l: u32, cuts: &[u32; 3]) -> (r: u8)
    ensures
        r == level_of(l as int, cut_seq(*cuts)),
{
    if l <= cuts[0] {
        0
    } else if l <= cuts[1] {
        1
    } else if l <= cuts[2] {
        2
    } else {
        3
    }
}

/// Per-level sums stay within what `n` pixels of at most 255 can add up to.
proof fn lemma_sums(img: Image, w: int, n: int, cuts: Seq<int>)
    requires
        w >= 1,
        n >= 0,
    ensures
        sums_upto(img, w, n, cuts).len() == 4,
        forall|i: int|
            0 <= i < 4 ==> {
                let s = #[trigger] sums_upto(img, w, n, cuts)[i];
                &&& 0 <= s.0 <= 255 * s.3
                &&& 0 <= s.1 <= 255 * s.3
                &&& 0 <= s.2 <= 255 * s.3
                &&& 0 <= s.3 <= n
            },
    decreases n,
{
    if n > 0 {
        lemma_sums(img, w, n - 1, cuts);
    }
}

/// Per-level colour sums and counts over the opaque pixels of the `w` by
/// `hgt` crop.
fn level_sums(img: &Image, w: usize, hgt: usize, cuts: &[u32; 3]) -> (r: (Vec<u64>, Vec<u64>, Vec<u64>, Vec<u64>))
    requires
        img.wf(),
        1 <= w <= img.width,
        hgt <= img.height,
        img.width * img.height <= 0x1000_0000,
    ensures
        r.0@.len() == 4 && r.1@.len() == 4 && r.2@.len() == 4 && r.3@.len() == 4,
        forall|i: int|
            0 <= i < 4 ==> (r.0@[i] as int, r.1@[i] as int, r.2@[i] as int, r.3@[i] as int)
                == #[trigger] sums_upto(*img, w as int, (w * hgt) as int, cut_seq(*cuts))[i],
{
    let mut sr: Vec<u64> = vec![0u64, 0, 0, 0];
    let mut sg: Vec<u64> = vec![0u64, 0, 0, 0];
    let mut sb: Vec<u64> = vec![0u64, 0, 0, 0];
    let mut cnt: Vec<u64> = vec![0u64, 0, 0, 0];
    let ghost cs = cut_seq(*cuts);
    assert(w * hgt <= img.width * img.height) by (nonlinear_arith)
        requires
            w <= img.width,
            hgt <= img.height,
    ;
    let mut y: usize = 0;
    while y < hgt
        invariant
            img.wf(),
            1 <= w <= img.width,
            hgt <= img.height,
            w * hgt <= 0x1000_0000,
            y <= hgt,
            cs == cut_seq(*cuts),
            sr@.len() == 4 && sg@.len() == 4 && sb@.len() == 4 && cnt@.len() == 4,
            forall|i: int|
                0 <= i < 4 ==> (sr@[i] as int, sg@[i] as int, sb@[i] as int, cnt@[i] as int)
                    == #[trigger] sums_upto(*img, w as int, y * w, cs)[i],
        decreases hgt - y,
    {
        let mut x: usize = 0;
        while x < w
            invariant
                img.wf(),
                1 <= w <= img.width,
                hgt <= img.height,
                w * hgt <= 0x1000_0000,
                y < hgt,
                x <= w,
                cs == cut_seq(*cuts),
                sr@.len() == 4 && sg@.len() == 4 && sb@.len() == 4 && cnt@.len() == 4,
                forall|i: int|
                    0 <= i < 4 ==> (sr@[i] as int, sg@[i] as int, sb@[i] as int, cnt@[i] as int)
                        == #[trigger] sums_upto(*img, w as int, y * w + x, cs)[i],
            decreases w - x,
        {
            let ghost j: int = y * w + x;
            proof {
                vstd::arithmetic::div_mod::lemma_fundamental_div_mod_converse(j, w as int, y as int, x as int);
                assert(j < w * hgt) by (nonlinear_arith)
                    requires
                        j == y * w + x,
                        x < w,
                        y < hgt,
                ;
                lemma_sums(*img, w as int, j, cs);
                assert(255 * j <= 255 * 0x1000_0000);
            }
            let (r, g, b, a) = img.pixel(x, y);
            if a >= 128 {
                let l = level(luma(r, g, b), cuts) as usize;
                proof {
                    let s = sums_upto(*img, w as int, j, cs)[l as int];
                    assert(s.3 <= j);
                    assert(255 * s.3 <= 255 * j);
                }
                sr.set(l, sr[l] + r as u64);
                sg.set(l, sg[l] + g as u64);
                sb.set(l, sb[l] + b as u64);
                cnt.set(l, cnt[l] + 1);
            }
            proof {
                let s1 = sums_upto(*img, w as int, j + 1, cs);
                assert forall|i: int| 0 <= i < 4 implies (sr@[i] as int, sg@[i] as int, sb@[i] as int, cnt@[i] as int)
                    == #[trigger] s1[i] by {}
            }
            x = x + 1;
        }
        proof {
            assert(y * w + w == (y + 1) * w) by (nonlinear_arith);
        }
        y = y + 1;
    }
    proof {
        assert(hgt * w == w * hgt) by (nonlinear_arith);
    }
    (sr, sg, sb, cnt)
}

/// Packs three channels of at most 255 into `0xRRGGBB`.
fn pack_rgb(r: u32, g: u32, b: u32) -> (c: u32)
    requires
        r <= 255,
        g <= 255,
        b <= 255,
    ensures
        c == r * 65536 + g * 256 + b,
{
    let c = (r << 16u32) | (g << 8u32) | b;
    assert(c == r * 65536 + g * 256 + b) by (bit_vector)
        requires
            c == (r << 16u32) | (g << 8u32) | b,
            r <= 255,
            g <= 255,
            b <= 255,
    ;
    c
}

/// The colour of level `i` from its sums and count.
fn level_colour(i: u32, r: u64, g: u64, b: u64, n: u64) -> (c: Rgb)
    requires
        i < 4,
        r <= 255 * n,
        g <= 255 * n,
        b <= 255 * n,
    ensures
        c == level_color(i as int, (r as int, g as int, b as int, n as int)),
{
    if n == 0 {
        let m: u32 = i * 85;
        let v: u32 = m & 0xff;
        assert(v == m % 256) by (bit_vector)
            requires
                v == m & 0xff,
        ;
        pack_rgb(v, v, v)
    } else {
        assert(r / n <= 255 && g / n <= 255 && b / n <= 255) by (nonlinear_arith)
            requires
                r <= 255 * n,
                g <= 255 * n,
                b <= 255 * n,
                n >= 1,
        ;
        pack_rgb((r / n) as u32, (g / n) as u32, (b / n) as u32)
    }
}

/// The tiles and palette an image quantises to; see [`tiles_from_image`].
pub open spec fn image_tiles(img: Image, tiles: Seq<Tile8>, pal: Palette) -> bool {
    let cols = img.width / 8;
    let rows = img.height / 8;
    let w = cols * 8;
    let n = w * (rows * 8);
    let cuts = quartile_cuts(img, w as int, n as int);
    let sums = sums_upto(img, w as int, n as int, cuts);
    &&& (cols == 0 || rows == 0) ==> tiles.len() == 0 && pal.0@ == seq![0u32, 0x555555u32, 0xaaaaaau32, 0xffffffu32]
    &&& (cols > 0 && rows > 0) ==> {
        &&& tiles.len() == cols * rows
        &&& forall|k: int, y: int, x: int|
            0 <= k < cols * rows && 0 <= y < 8 && 0 <= x < 8 ==> #[trigger] tiles[k]@[y * 8 + x]
                == quantised(img.pixel_spec((k % cols as int) * 8 + x, (k / cols as int) * 8 + y), cuts)
        &&& forall|i: int| 0 <= i < 4 ==> #[trigger] pal.0@[i] == level_color(i, sums[i])
    }
}

/// Quantises an image to four brightness levels and slices it into 8x8
/// tiles, in reading order. Only whole tiles are taken; the levels split the
/// crop's opaque pixels into brightness quarters, (nearly) transparent pixels
/// become colour 0, and each palette entry is the mean colour of its level,
/// so the result keeps the source's hues.
pub fn tiles_from_image(img: &Image) -> (r: (Vec<Tile8>, Palette))
    requires
        img.wf(),
        img.width * img.height <= 0x1000_0000,
    ensures
        image_tiles(*img, r.0@, r.1),
{
    let cols = img.width / 8;
    let rows = img.height / 8;
    if cols == 0 || rows == 0 {
        return (Vec::new(), Palette::new(0, 0x555555, 0xaaaaaa, 0xffffff));
    }
    let w = cols * 8;
    let hgt = rows * 8;
    let ghost n = w * hgt;
    // Split the brightness range into quartiles so that flat, low-contrast
    // source art still uses all four colours.
    let (hist, total) = histogram(img, w, hgt);
    proof {
        lemma_hist(*img, w as int, n as int);
        assert(n <= img.width * img.height) by (nonlinear_arith)
            requires
                n == w * hgt,
                w <= img.width,
                hgt <= img.height,
        ;
    }
    let cuts: [u32; 3] = if total > 0 {
        cuts_of(&hist, total, Ghost(hist_upto(*img, w as int, n as int)))
    } else {
        [64u32, 128, 192]
    };
    let ghost cs = quartile_cuts(*img, w as int, n as int);
    proof {
        if total > 0 {
            assert(cut_seq(cuts) =~= cuts_upto(hist_upto(*img, w as int, n as int), total as int, 256).1);
        } else {
            assert(cut_seq(cuts) =~= seq![64int, 128int, 192int]);
        }
        assert(cut_seq(cuts) == cs);
    }
    // Average the colours that land in each level to build the palette.
    let (sr, sg, sb, cnt) = level_sums(img, w, hgt, &cuts);
    proof {
        lemma_sums(*img, w as int, n as int, cs);
        assert(n == (w * hgt) as int);
        let ss = sums_upto(*img, w as int, n as int, cs);
        assert((sr@[0] as int, sg@[0] as int, sb@[0] as int, cnt@[0] as int) == ss[0]);
        assert((sr@[1] as int, sg@[1] as int, sb@[1] as int, cnt@[1] as int) == ss[1]);
        assert((sr@[2] as int, sg@[2] as int, sb@[2] as int, cnt@[2] as int) == ss[2]);
        assert((sr@[3] as int, sg@[3] as int, sb@[3] as int, cnt@[3] as int) == ss[3]);
    }
    let c0 = level_colour(0, sr[0], sg[0], sb[0], cnt[0]);
    let c1 = level_colour(1, sr[1], sg[1], sb[1], cnt[1]);
    let c2 = level_colour(2, sr[2], sg[2], sb[2], cnt[2]);
    let c3 = level_colour(3, sr[3], sg[3], sb[3], cnt[3]);
    let pal = Palette::new(c0, c1, c2, c3);
    let tiles = cut_tiles(img, cols, rows, &cuts);
    (tiles, pal)
}

/// The `cols` by `rows` tiles of the image, in reading order, each pixel
/// quantised under the cuts.
fn cut_tiles(img: &Image, cols: usize, rows: usize, cuts: &[u32; 3]) -> (tiles: Vec<Tile8>)
    requires
        img.wf(),
        cols * 8 <= img.width,
        rows * 8 <= img.height,
        cols >= 1,
        img.width * img.height <= 0x1000_0000,
    ensures
        tiles@.len() == cols * rows,
        forall|k: int, y: int, x: int|
            0 <= k < cols * rows && 0 <= y < 8 && 0 <= x < 8 ==> #[trigger] tiles@[k]@[y * 8 + x]
                == quantised(img.pixel_spec((k % cols as int) * 8 + x, (k / cols as int) * 8 + y), cut_seq(*cuts)),
{
    let mut tiles: Vec<Tile8> = Vec::new();
    let ghost cs = cut_seq(*cuts);
    let mut ty: usize = 0;
    while ty < rows
        invariant
            img.wf(),
            cols * 8 <= img.width,
            rows * 8 <= img.height,
            cols >= 1,
            img.width * img.height <= 0x1000_0000,
            ty <= rows,
            cs == cut_seq(*cuts),
            tiles@.len() == ty * cols,
            forall|k: int, y: int, x: int|
                0 <= k < tiles@.len() && 0 <= y < 8 && 0 <= x < 8 ==> #[trigger] tiles@[k]@[y * 8 + x]
                    == quantised(img.pixel_spec((k % cols as int) * 8 + x, (k / cols as int) * 8 + y), cs),
        decreases rows - ty,
    {
        let mut tx: usize = 0;
        while tx < cols
            invariant
                img.wf(),
                cols * 8 <= img.width,
                rows * 8 <= img.height,
                cols >= 1,
                ty < rows,
                tx <= cols,
                cs == cut_seq(*cuts),
                tiles@.len() == ty * cols + tx,
                forall|k: int, y: int, x: int|
                    0 <= k < tiles@.len() && 0 <= y < 8 && 0 <= x < 8 ==> #[trigger] tiles@[k]@[y * 8 + x]
                        == quantised(img.pixel_spec((k % cols as int) * 8 + x, (k / cols as int) * 8 + y), cs),
            decreases cols - tx,
        {
            let t = quantise_tile(img, tx, ty, cuts);
            proof {
                vstd::arithmetic::div_mod::lemma_fundamental_div_mod_converse(
                    tiles@.len() as int,
                    cols as int,
                    ty as int,
                    tx as int,
                );
            }
            tiles.push(t);
            tx = tx + 1;
        }
        proof {
            assert(ty * cols + cols == (ty + 1) * cols) by (nonlinear_arith);
        }
        ty = ty + 1;
    }
    tiles
}

/// The tile at tile coordinates `(tx, ty)`, each pixel quantised.
fn quantise_tile(img: &Image, tx: usize, ty: usize, cuts: &[u32; 3]) -> (t: Tile8)
    requires
        img.wf(),
        tx * 8 + 8 <= img.width,
        ty * 8 + 8 <= img.height,
    ensures
        forall|y: int, x: int|
            0 <= y < 8 && 0 <= x < 8 ==> #[trigger] t@[y * 8 + x] == quantised(
                img.pixel_spec(tx * 8 + x, ty * 8 + y),
                cut_seq(*cuts),
            ),
{
    let mut t: Tile8 = [0u8; 64];
    let mut y: usize = 0;
    while y < 8
        invariant
            img.wf(),
            tx * 8 + 8 <= img.width,
            ty * 8 + 8 <= img.height,
            y <= 8,
            forall|yy: int, x: int|
                0 <= yy < y && 0 <= x < 8 ==> #[trigger] t@[yy * 8 + x] == quantised(
                    img.pixel_spec(tx * 8 + x, ty * 8 + yy),
                    cut_seq(*cuts),
                ),
        decreases 8 - y,
    {
        let mut x: usize = 0;
        while x < 8
            invariant
                img.wf(),
                tx * 8 + 8 <= img.width,
                ty * 8 + 8 <= img.height,
                y < 8,
                x <= 8,
                forall|yy: int, xx: int|
                    0 <= yy < y && 0 <= xx < 8 ==> #[trigger] t@[yy * 8 + xx] == quantised(
                        img.pixel_spec(tx * 8 + xx, ty * 8 + yy),
                        cut_seq(*cuts),
                    ),
                forall|xx: int|
                    0 <= xx < x ==> #[trigger] t@[y * 8 + xx] == quantised(
                        img.pixel_spec(tx * 8 + xx, ty * 8 + y),
                        cut_seq(*cuts),
                    ),
            decreases 8 - x,
        {
            let (r, g, b, a) = img.pixel(tx * 8 + x, ty * 8 + y);
            // Fully transparent pixels become colour 0, which sprites
            // treat as see-through.
            let v: u8 = if a < 128 { 0 } else { level(luma(r, g, b), cuts) };
            t[y * 8 + x] = v;
            proof {
                assert forall|yy: int, xx: int|
                    0 <= yy < y && 0 <= xx < 8 implies #[trigger] t@[yy * 8 + xx] == quantised(
                    img.pixel_spec(tx * 8 + xx, ty * 8 + yy),
                    cut_seq(*cuts),
                ) by {
                    assert(yy * 8 + xx < y * 8) by (nonlinear_arith)
                        requires
                            0 <= yy < y,
                            0 <= xx < 8,
                    ;
                }
            }
            x = x + 1;
        }
        y = y + 1;
    }
    t
}

} // verus!
