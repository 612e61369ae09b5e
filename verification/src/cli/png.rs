//! A minimal PNG writer.
//!
//! Only enough to look at what the renderer produced: 8-bit RGBA, and deflate
//! "stored" blocks so no compressor is needed. Files are bigger than they need
//! to be, which does not matter for screenshots.
use vstd::prelude::*;

verus! {

/// One bit of the CRC-32 (reflected, polynomial `0xEDB88320`) shift.
pub open spec fn crc_bit(c: u32) -> u32 {
    if c % 2 == 1 {
        0xedb8_8320u32 ^ (c / 2)
    } else {
        c / 2
    }
}

/// `k` bit shifts of the CRC register.
pub open spec fn crc_bits(c: u32, k: nat) -> u32
    decreases k,
{
    if k == 0 {
        c
    } else {
        crc_bit(crc_bits(c, (k - 1) as nat))
    }
}

/// The CRC table entry for a byte value.
pub open spec fn crc_table(i: u32) -> u32 {
    crc_bits(i, 8)
}

/// The CRC register after the first `n` bytes, starting from all ones.
pub open spec fn crc_upto(data: Seq<u8>, n: int) -> u32
    decreases n,
{
    if n <= 0 {
        0xffff_ffffu32
    } else {
        let c = crc_upto(data, n - 1);
        crc_table((c ^ (data[n - 1] as u32)) % 256) ^ (c / 256)
    }
}

/// The CRC-32 of some bytes, as PNG chunks carry it.
pub open spec fn crc32_spec(data: Seq<u8>) -> u32 {
    crc_upto(data, data.len() as int) ^ 0xffff_ffffu32
}

/// The CRC-32 of some bytes; see [`crc32_spec`].
pub fn crc32(data: &[u8]) -> (r: u32)
    ensures
        r == crc32_spec(data@),
{
    let mut table: Vec<u32> = Vec::new();
    let mut i: u32 = 0;
    while i < 256
        invariant
            i <= 256,
            table@.len() == i,
            forall|k: int| 0 <= k < i ==> #[trigger] table@[k] == crc_table(k as u32),
        decreases 256 - i,
    {
        let mut c = i;
        let mut k: u32 = 0;
        while k < 8
            invariant
                k <= 8,
                c == crc_bits(i, k as nat),
            decreases 8 - k,
        {
            c = if c % 2 == 1 { 0xedb8_8320 ^ (c / 2) } else { c / 2 };
            k = k + 1;
        }
        table.push(c);
        i = i + 1;
    }
    let mut c: u32 = 0xffff_ffff;
    let mut n: usize = 0;
    while n < data.len()
        invariant
            n <= data@.len(),
            table@.len() == 256,
            forall|k: int| 0 <= k < 256 ==> #[trigger] table@[k] == crc_table(k as u32),
            c == crc_upto(data@, n as int),
        decreases data@.len() - n,
    {
        let idx = (c ^ data[n] as u32) % 256;
        c = table[idx as usize] ^ (c / 256);
        n = n + 1;
    }
    c ^ 0xffff_ffff
}

/// The two Adler-32 sums after the first `n` bytes.
pub open spec fn adler_upto(data: Seq<u8>, n: int) -> (u32, u32)
    decreases n,
{
    if n <= 0 {
        (1, 0)
    } else {
        let (a, b) = adler_upto(data, n - 1);
        let a2 = ((a + data[n - 1]) % 65521) as u32;
        (a2, ((b + a2) % 65521) as u32)
    }
}

/// The Adler-32 checksum zlib ends a stream with.
pub open spec fn adler32_spec(data: Seq<u8>) -> u32 {
    let (a, b) = adler_upto(data, data.len() as int);
    (b * 65536 + a) as u32
}

/// Both sums stay below the modulus.
proof fn lemma_adler_small(data: Seq<u8>, n: int)
    ensures
        adler_upto(data, n).0 < 65521 && adler_upto(data, n).1 < 65521,
    decreases n,
{
    if n > 0 {
        lemma_adler_small(data, n - 1);
    }
}

/// The Adler-32 checksum of some bytes; see [`adler32_spec`].
pub fn adler32(data: &[u8]) -> (r: u32)
    ensures
        r == adler32_spec(data@),
{
    let mut a: u32 = 1;
    let mut b: u32 = 0;
    let mut n: usize = 0;
    while n < data.len()
        invariant
            n <= data@.len(),
            (a, b) == adler_upto(data@, n as int),
            a < 65521 && b < 65521,
        decreases data@.len() - n,
    {
        a = (a + data[n] as u32) % 65521;
        b = (b + a) % 65521;
        n = n + 1;
    }
    b * 65536 + a
}

/// The four big-endian bytes of a 32-bit value.
pub open spec fn be32(v: u32) -> Seq<u8> {
    seq![(v / 0x100_0000) as u8, (v / 0x1_0000 % 256) as u8, (v / 256 % 256) as u8, (v % 256) as u8]
}

/// The two little-endian bytes of a value below 65536.
pub open spec fn le16(v: int) -> Seq<u8> {
    seq![(v % 256) as u8, (v / 256) as u8]
}

/// A PNG chunk: the data's length, the kind, the data and the CRC of kind
/// and data.
pub open spec fn chunk_spec(kind: Seq<u8>, data: Seq<u8>) -> Seq<u8> {
    be32(data.len() as u32) + kind + data + be32(crc32_spec(kind + data))
}

/// Appends the big-endian bytes of a 32-bit value.
fn push_be32(out: &mut Vec<u8>, v: u32)
    ensures
        final(out)@ == old(out)@ + be32(v),
{
    let ghost start = out@;
    out.push((v / 0x100_0000) as u8);
    out.push((v / 0x1_0000 % 256) as u8);
    out.push((v / 256 % 256) as u8);
    out.push((v % 256) as u8);
    proof {
        assert(out@ =~= start + be32(v));
    }
}

/// Appends bytes.
fn push_all(out: &mut Vec<u8>, b: &[u8])
    ensures
        final(out)@ == old(out)@ + b@,
{
    let ghost start = out@;
    let mut i: usize = 0;
    while i < b.len()
        invariant
            i <= b@.len(),
            out@ == start + b@.take(i as int),
        decreases b@.len() - i,
    {
        out.push(b[i]);
        proof {
            assert(b@.take(i + 1) =~= b@.take(i as int).push(b@[i as int]));
        }
        i = i + 1;
    }
    proof {
        assert(b@.take(b@.len() as int) =~= b@);
    }
}

/// Appends one chunk; see [`chunk_spec`].
fn chunk(out: &mut Vec<u8>, kind: &[u8; 4], data: &[u8])
    ensures
        final(out)@ == old(out)@ + chunk_spec(kind@, data@),
{
    let ghost start = out@;
    push_be32(out, data.len() as u32);
    push_all(out, kind);
    push_all(out, data);
    let mut crc_input: Vec<u8> = Vec::new();
    push_all(&mut crc_input, kind);
    push_all(&mut crc_input, data);
    push_be32(out, crc32(crc_input.as_slice()));
    proof {
        assert(out@ =~= start + chunk_spec(kind@, data@));
    }
}

/// The four bytes of a packed `0xAABBGGRR` pixel, red first.
pub open spec fn pixel_bytes(p: u32) -> Seq<u8> {
    seq![(p % 256) as u8, (p / 256 % 256) as u8, (p / 0x1_0000 % 256) as u8, (p / 0x100_0000) as u8]
}

/// The first `n` pixels of row `y` of the scaled image.
pub open spec fn row_upto(pixels: Seq<u32>, width: int, s: int, y: int, n: int) -> Seq<u8>
    decreases n,
{
    if n <= 0 {
        Seq::empty()
    } else {
        row_upto(pixels, width, s, y, n - 1) + pixel_bytes(pixels[(y / s) * width + (n - 1) / s])
    }
}

/// The first `n` scanlines, each a zero filter byte and its pixels.
pub open spec fn raw_upto(pixels: Seq<u32>, width: int, s: int, w: int, n: int) -> Seq<u8>
    decreases n,
{
    if n <= 0 {
        Seq::empty()
    } else {
        raw_upto(pixels, width, s, w, n - 1) + seq![0u8] + row_upto(pixels, width, s, n - 1, w)
    }
}

/// Deflate stored blocks for the bytes from `off` on, at most 65535 each,
/// the last one marked final.
pub open spec fn stored(raw: Seq<u8>, off: int) -> Seq<u8>
    decreases raw.len() - off,
{
    if off < 0 || off >= raw.len() {
        Seq::empty()
    } else {
        let n = if raw.len() - off < 65535 { raw.len() - off } else { 65535 };
        block_spec(raw, off, n) + stored(raw, off + n)
    }
}

/// One step of [`stored`]: the block at `off` followed by the rest.
proof fn lemma_stored_step(raw: Seq<u8>, off: int, n: int)
    requires
        0 <= off < raw.len(),
        n == (if raw.len() - off < 65535 { raw.len() - off } else { 65535 }),
    ensures
        stored(raw, off) == block_spec(raw, off, n) + stored(raw, off + n),
{
}

/// The scale actually used: at least one.
pub open spec fn scale_of(scale: usize) -> int {
    if scale >= 1 { scale as int } else { 1 }
}

/// The PNG of `width` by `height` packed pixels, each drawn as a square of
/// `scale` (at least one) pixels: the signature, a header chunk (size,
/// 8-bit RGBA, no interlace), the scanlines as a zlib stream of stored
/// blocks, and the end chunk.
pub open spec fn encode_spec(pixels: Seq<u32>, width: usize, height: usize, scale: usize) -> Seq<u8> {
    let s = scale_of(scale);
    let w = width * s;
    let h = height * s;
    let raw = raw_upto(pixels, width as int, s, w, h);
    let z = zlib_spec(raw);
    let ihdr = be32(w as u32) + be32(h as u32) + seq![8u8, 6u8, 0u8, 0u8, 0u8];
    seq![0x89u8, 0x50u8, 0x4eu8, 0x47u8, 0x0du8, 0x0au8, 0x1au8, 0x0au8] + chunk_spec(
        seq![0x49u8, 0x48u8, 0x44u8, 0x52u8],
        ihdr,
    ) + chunk_spec(seq![0x49u8, 0x44u8, 0x41u8, 0x54u8], z) + chunk_spec(
        seq![0x49u8, 0x45u8, 0x4eu8, 0x44u8],
        Seq::empty(),
    )
}

/// The scanlines of the scaled image; see [`raw_upto`].
fn scanlines(pixels: &[u32], width: usize, s: usize, w: usize, h: usize) -> (raw: Vec<u8>)
    requires
        s >= 1,
        w == width * s,
        h % s == 0,
        pixels@.len() >= width * (h / s),
    ensures
        raw@ == raw_upto(pixels@, width as int, s as int, w as int, h as int),
{
    let np = pixels.len();
    let height = h / s;
    proof {
        assert(h == height * s) by (nonlinear_arith)
            requires
                h % s == 0,
                height == h / s,
                s >= 1,
        ;
    }
    let mut raw: Vec<u8> = Vec::new();
    let mut y: usize = 0;
    while y < h
        invariant
            s >= 1,
            w == width * s,
            h == height * s,
            np == pixels@.len(),
            np >= width * height,
            y <= h,
            raw@ == raw_upto(pixels@, width as int, s as int, w as int, y as int),
        decreases h - y,
    {
        let ghost before = raw@;
        raw.push(0);
        let mut x: usize = 0;
        while x < w
            invariant
                s >= 1,
                w == width * s,
                h == height * s,
                np == pixels@.len(),
                np >= width * height,
                y < h,
                x <= w,
                raw@ == before + seq![0u8] + row_upto(pixels@, width as int, s as int, y as int, x as int),
            decreases w - x,
        {
            proof {
                assert(y / s < height && x / s < width) by (nonlinear_arith)
                    requires
                        y < height * s,
                        x < width * s,
                        s >= 1,
                ;
                assert((y / s) * width + x / s < width * height) by (nonlinear_arith)
                    requires
                        y / s < height,
                        x / s < width,
                ;
            }
            let p = pixels[(y / s) * width + (x / s)];
            let ghost mid = raw@;
            raw.push((p % 256) as u8);
            raw.push((p / 256 % 256) as u8);
            raw.push((p / 0x1_0000 % 256) as u8);
            raw.push((p / 0x100_0000) as u8);
            proof {
                assert(raw@ =~= mid + pixel_bytes(p));
            }
            x = x + 1;
        }
        y = y + 1;
    }
    raw
}

/// The zlib stream of stored blocks for some bytes: the header, the blocks
/// and the Adler-32 checksum.
pub open spec fn zlib_spec(raw: Seq<u8>) -> Seq<u8> {
    seq![0x78u8, 0x01u8] + stored(raw, 0) + be32(adler32_spec(raw))
}

/// The stored block of `n` bytes at `off`: final when it reaches the end.
pub open spec fn block_spec(raw: Seq<u8>, off: int, n: int) -> Seq<u8> {
    seq![if off + n >= raw.len() { 1u8 } else { 0u8 }] + le16(n) + le16(65535 - n) + raw.subrange(off, off + n)
}

/// Appends one stored block; see [`block_spec`].
fn push_block(z: &mut Vec<u8>, raw: &[u8], offset: usize, n: usize)
    requires
        offset + n <= raw@.len(),
        n <= 65535,
    ensures
        final(z)@ == old(z)@ + block_spec(raw@, offset as int, n as int),
{
    let len = raw.len();
    let last = n >= len - offset;
    let ghost before = z@;
    z.push(if last { 1 } else { 0 });
    z.push((n % 256) as u8);
    z.push((n / 256) as u8);
    z.push(((65535 - n) % 256) as u8);
    z.push(((65535 - n) / 256) as u8);
    let mut k: usize = 0;
    while k < n
        invariant
            len == raw@.len(),
            offset + n <= len,
            k <= n,
            z@ == before + seq![if last { 1u8 } else { 0u8 }] + le16(n as int) + le16(65535 - n) + raw@.subrange(
                offset as int,
                offset + k,
            ),
        decreases n - k,
    {
        z.push(raw[offset + k]);
        proof {
            assert(raw@.subrange(offset as int, offset + k + 1) =~= raw@.subrange(offset as int, offset + k).push(
                raw@[offset + k],
            ));
        }
        k = k + 1;
    }
    proof {
        assert(z@ =~= before + block_spec(raw@, offset as int, n as int));
    }
}

/// See [`zlib_spec`].
fn zlib_stored(raw: &[u8]) -> (z: Vec<u8>)
    ensures
        z@ == zlib_spec(raw@),
{
    let mut z: Vec<u8> = Vec::new();
    z.push(0x78);
    z.push(0x01);
    let ghost zhead = z@;
    let len = raw.len();
    let mut offset: usize = 0;
    while offset < len
        invariant
            len == raw@.len(),
            offset <= len,
            z@ + stored(raw@, offset as int) == zhead + stored(raw@, 0),
        decreases len - offset,
    {
        let n = if len - offset < 65535 { len - offset } else { 65535 };
        let ghost before = z@;
        push_block(&mut z, raw, offset, n);
        proof {
            lemma_stored_step(raw@, offset as int, n as int);
            assert(z@ + stored(raw@, offset + n) =~= before + stored(raw@, offset as int));
        }
        offset = offset + n;
    }
    proof {
        assert(z@ =~= zhead + stored(raw@, 0));
    }
    push_be32(&mut z, adler32(raw));
    z
}

/// Encodes RGBA pixels as a PNG; see [`encode_spec`].
///
/// `pixels` is `width * height` packed `0xAABBGGRR` words, the same layout the
/// renderer produces.
pub fn encode(pixels: &[u32], width: usize, height: usize, scale: usize) -> (r: Vec<u8>)
    requires
        pixels@.len() >= width * height,
        width * scale_of(scale) <= usize::MAX,
        height * scale_of(scale) <= usize::MAX,
    ensures
        r@ == encode_spec(pixels@, width, height, scale),
{
    let s = if scale >= 1 { scale } else { 1 };
    let w = width * s;
    let h = height * s;
    proof {
        assert(h % s == 0 && h / s == height) by (nonlinear_arith)
            requires
                h == height * s,
                s >= 1,
        ;
    }
    let raw = scanlines(pixels, width, s, w, h);
    let z = zlib_stored(raw.as_slice());
    let mut out: Vec<u8> = Vec::new();
    out.push(0x89);
    out.push(0x50);
    out.push(0x4e);
    out.push(0x47);
    out.push(0x0d);
    out.push(0x0a);
    out.push(0x1a);
    out.push(0x0a);
    let mut ihdr: Vec<u8> = Vec::new();
    push_be32(&mut ihdr, w as u32);
    push_be32(&mut ihdr, h as u32);
    ihdr.push(8);
    ihdr.push(6);
    ihdr.push(0);
    ihdr.push(0);
    ihdr.push(0);
    let kind_ihdr: [u8; 4] = [0x49, 0x48, 0x44, 0x52];
    let kind_idat: [u8; 4] = [0x49, 0x44, 0x41, 0x54];
    let kind_iend: [u8; 4] = [0x49, 0x45, 0x4e, 0x44];
    let empty: [u8; 0] = [];
    let ghost sig = out@;
    chunk(&mut out, &kind_ihdr, ihdr.as_slice());
    chunk(&mut out, &kind_idat, z.as_slice());
    chunk(&mut out, &kind_iend, &empty);
    proof {
        assert(kind_ihdr@ =~= seq![0x49u8, 0x48u8, 0x44u8, 0x52u8]);
        assert(kind_idat@ =~= seq![0x49u8, 0x44u8, 0x41u8, 0x54u8]);
        assert(kind_iend@ =~= seq![0x49u8, 0x45u8, 0x4eu8, 0x44u8]);
        assert(empty@ =~= Seq::<u8>::empty());
        assert(ihdr@ =~= be32(w as u32) + be32(h as u32) + seq![8u8, 6u8, 0u8, 0u8, 0u8]);
        assert(sig =~= seq![0x89u8, 0x50u8, 0x4eu8, 0x47u8, 0x0du8, 0x0au8, 0x1au8, 0x0au8]);
        assert(out@ == sig + chunk_spec(kind_ihdr@, ihdr@) + chunk_spec(kind_idat@, z@) + chunk_spec(
            kind_iend@,
            empty@,
        ));
    }
    out
}

} // verus!
