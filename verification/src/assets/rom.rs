//! Reading graphics out of a Game Boy ROM the player supplies.
//!
//! No game data ships with this engine. A cartridge image is parsed only as a
//! container: the header is read to identify it, and stretches of the ROM are
//! decoded as 2bpp tiles so they can be dropped into an asset pack. Which
//! stretches hold graphics is not recorded anywhere in a ROM, so the scanner
//! scores candidate regions and lets the player pick.
use vstd::prelude::*;
use super::tile::{decode_2bpp, is_flat, Tile8, plane_pixel, byte_or_zero};

verus! {

/// Bytes per 2bpp tile.
pub const TILE_BYTES: usize = 16;
/// Bytes in one ROM bank.
pub const BANK_BYTES: usize = 16384;

/// The Nintendo logo bitmap every real cartridge carries at 0x104 (its first
/// sixteen bytes).
pub open spec fn logo_spec() -> Seq<u8> {
    seq![0xceu8, 0xed, 0x66, 0x66, 0xcc, 0x0d, 0x00, 0x0b, 0x03, 0x73, 0x00, 0x83, 0x00, 0x0c, 0x00, 0x0d]
}

/// The first sixteen bytes of the Nintendo logo.
pub fn logo() -> (r: [u8; 16])
    ensures
        r@ == logo_spec(),
{
    let r: [u8; 16] = [0xce, 0xed, 0x66, 0x66, 0xcc, 0x0d, 0x00, 0x0b, 0x03, 0x73, 0x00, 0x83, 0x00, 0x0c, 0x00, 0x0d];
    assert(r@ =~= logo_spec());
    r
}

/// What the cartridge header says about a ROM.
#[derive(Clone, Debug)]
pub struct RomInfo {
    /// The internal title, trimmed of padding.
    pub title: String,
    /// True when the first bytes of the logo area match a real cartridge.
    pub has_logo: bool,
    /// True when the header declares Game Boy Color support.
    pub color: bool,
    /// Cartridge type byte, which implies the mapper.
    pub cart_type: u8,
    /// ROM size in bytes as declared by the header.
    pub declared_size: usize,
    /// Actual size of the data handed in.
    pub actual_size: usize,
    /// True when the header checksum matches.
    pub header_checksum_ok: bool,
    /// Number of 16 KiB banks in the data.
    pub banks: usize,
}

impl RomInfo {
    /// True when this really looks like a Game Boy ROM rather than some other
    /// file that happened to be dropped on the page.
    pub fn looks_like_gameboy(&self) -> (r: bool)
        ensures
            r == (self.has_logo && self.header_checksum_ok && self.actual_size >= 32768),
    {
        self.has_logo && self.header_checksum_ok && self.actual_size >= 32 * 1024
    }
}

/// The bytes of `s` before its first zero.
pub open spec fn before_zero(s: Seq<u8>) -> Seq<u8>
    decreases s.len(),
{
    if s.len() == 0 || s[0] == 0 {
        Seq::empty()
    } else {
        seq![s[0]] + before_zero(s.drop_first())
    }
}

/// True for the printable ASCII characters and space.
pub open spec fn printable(b: u8) -> bool {
    0x20 <= b <= 0x7e
}

/// `s` without leading spaces.
pub open spec fn trim_front(s: Seq<u8>) -> Seq<u8>
    decreases s.len(),
{
    if s.len() > 0 && s[0] == 0x20 {
        trim_front(s.drop_first())
    } else {
        s
    }
}

/// `s` without trailing spaces.
pub open spec fn trim_back(s: Seq<u8>) -> Seq<u8>
    decreases s.len(),
{
    if s.len() > 0 && s.last() == 0x20 {
        trim_back(s.drop_last())
    } else {
        s
    }
}

/// The title bytes a header holds: the sixteen at 0x134 up to the first zero,
/// keeping printable ones, without surrounding spaces.
pub open spec fn title_spec(data: Seq<u8>) -> Seq<u8> {
    let raw = if data.len() >= 0x144 { data.subrange(0x134, 0x144) } else { Seq::empty() };
    trim_back(trim_front(before_zero(raw).filter(|b: u8| printable(b))))
}

/// The header checksum over `s`: starting from 0, each byte and one more
/// subtracted, wrapping.
pub open spec fn header_sum(s: Seq<u8>) -> u8
    decreases s.len(),
{
    if s.len() == 0 {
        0
    } else {
        header_sum(s.drop_last()).wrapping_sub(s.last()).wrapping_sub(1)
    }
}

/// Byte `i` of `data`, if there is one.
pub open spec fn byte_at(data: Seq<u8>, i: int) -> Option<u8> {
    if 0 <= i < data.len() { Some(data[i]) } else { None }
}

/// What the header of `data` says.
pub open spec fn info_spec(data: Seq<u8>, r: RomInfo) -> bool {
    let size_code = match byte_at(data, 0x148) { Some(c) => c, None => 0 };
    let sum = if data.len() >= 0x14d { header_sum(data.subrange(0x134, 0x14d)) } else { 0 };
    &&& r.title@ == title_spec(data).map_values(|b: u8| b as char)
    &&& r.has_logo == (data.len() >= 0x114 && data.subrange(0x104, 0x114) == logo_spec())
    &&& r.color == (byte_at(data, 0x143) == Some(0x80u8) || byte_at(data, 0x143) == Some(0xc0u8))
    &&& r.cart_type == (match byte_at(data, 0x147) { Some(c) => c, None => 0 })
    &&& r.declared_size == (if size_code <= 8 { 32768 * pow2(size_code as nat) } else { 0 })
    &&& r.actual_size == data.len()
    &&& r.header_checksum_ok == (byte_at(data, 0x14d) == Some(sum))
    &&& r.banks == data.len() / 16384
}

/// Two to the `n`.
pub open spec fn pow2(n: nat) -> int
    decreases n,
{
    if n == 0 { 1 } else { 2 * pow2((n - 1) as nat) }
}

/// The bytes of `s` before its first zero, in a fresh vector.
fn title_bytes(s: &[u8]) -> (r: Vec<u8>)
    ensures
        r@ == before_zero(s@).filter(|b: u8| printable(b)),
{
    let mut out: Vec<u8> = Vec::new();
    let mut i: usize = 0;
    proof {
        reveal_with_fuel(Seq::filter, 1);
        assert(s@.skip(0) =~= s@);
        assert(s@.take(0).filter(|b: u8| b != 0) =~= Seq::<u8>::empty());
        assert(s@.take(0).filter(|b: u8| printable(b)) =~= Seq::<u8>::empty());
    }
    while i < s.len()
        invariant
            i <= s@.len(),
            before_zero(s@) == s@.take(i as int).filter(|b: u8| b != 0) + before_zero(s@.skip(i as int)),
            forall|k: int| 0 <= k < i ==> #[trigger] s@[k] != 0,
            out@ == s@.take(i as int).filter(|b: u8| printable(b)),
        ensures
            i <= s@.len(),
            before_zero(s@) == s@.take(i as int).filter(|b: u8| b != 0) + before_zero(s@.skip(i as int)),
            forall|k: int| 0 <= k < i ==> #[trigger] s@[k] != 0,
            out@ == s@.take(i as int).filter(|b: u8| printable(b)),
            i == s@.len() || s@[i as int] == 0,
        decreases s@.len() - i,
    {
        let b = s[i];
        if b == 0 {
            break;
        }
        proof {
            reveal_with_fuel(Seq::filter, 1);
            assert(s@.take(i + 1).drop_last() =~= s@.take(i as int));
            let t = s@.skip(i as int);
            assert(t.len() > 0);
            assert(t[0] == b);
            assert(t.drop_first() =~= s@.skip(i + 1));
            assert(before_zero(t) == seq![t[0]] + before_zero(t.drop_first()));
            assert(s@.take(i + 1).filter(|c: u8| c != 0) =~= s@.take(i as int).filter(|c: u8| c != 0).push(b));
        }
        if b >= 0x20 && b <= 0x7e {
            out.push(b);
        }
        i = i + 1;
    }
    proof {
        let t = s@.take(i as int);
        assert(t.filter(|b: u8| b != 0) =~= t) by {
            lemma_filter_all(t);
        }
        if i < s@.len() {
            assert(s@.skip(i as int)[0] == 0);
            assert(before_zero(s@.skip(i as int)) =~= Seq::<u8>::empty());
        } else {
            assert(s@.skip(i as int) =~= Seq::<u8>::empty());
        }
        assert(before_zero(s@) =~= t);
    }
    out
}

/// Filtering out zeros from bytes that hold none keeps them all.
proof fn lemma_filter_all(t: Seq<u8>)
    requires
        forall|k: int| 0 <= k < t.len() ==> #[trigger] t[k] != 0,
    ensures
        t.filter(|b: u8| b != 0) =~= t,
    decreases t.len(),
{
    reveal_with_fuel(Seq::filter, 1);
    if t.len() > 0 {
        lemma_filter_all(t.drop_last());
        assert(t.drop_last().push(t.last()) =~= t);
    }
}

/// The bytes without surrounding spaces, as a string.
fn trimmed_string(v: &Vec<u8>) -> (r: String)
    ensures
        r@ == trim_back(trim_front(v@)).map_values(|b: u8| b as char),
{
    let n = v.len();
    let mut lo: usize = 0;
    proof {
        assert(v@.skip(0) =~= v@);
    }
    while lo < n && v[lo] == 0x20
        invariant
            n == v@.len(),
            lo <= n,
            trim_front(v@) == trim_front(v@.skip(lo as int)),
        decreases n - lo,
    {
        proof {
            assert(v@.skip(lo as int).drop_first() =~= v@.skip(lo + 1));
        }
        lo = lo + 1;
    }
    let ghost u = v@.skip(lo as int);
    assert(trim_front(u) == u);
    let mut hi: usize = n - lo;
    proof {
        assert(u.take(hi as int) =~= u);
    }
    while hi > 0 && v[lo + hi - 1] == 0x20
        invariant
            n == v@.len(),
            lo <= n,
            u == v@.skip(lo as int),
            hi <= n - lo,
            trim_back(u) == trim_back(u.take(hi as int)),
        decreases hi,
    {
        proof {
            assert(u.take(hi as int).drop_last() =~= u.take(hi - 1));
            assert(u.take(hi as int).last() == v@[lo + hi - 1]);
        }
        hi = hi - 1;
    }
    let ghost keep = u.take(hi as int);
    assert(trim_back(keep) == keep);
    let mut out = String::new();
    let mut i: usize = 0;
    while i < hi
        invariant
            n == v@.len(),
            lo + hi <= n,
            keep == v@.skip(lo as int).take(hi as int),
            i <= hi,
            out@ == keep.take(i as int).map_values(|b: u8| b as char),
        decreases hi - i,
    {
        crate::text::push_char(&mut out, v[lo + i] as char);
        proof {
            assert(keep.take(i + 1).map_values(|b: u8| b as char) =~= keep.take(i as int).map_values(
                |b: u8| b as char,
            ).push(v@[lo + i] as char));
        }
        i = i + 1;
    }
    proof {
        assert(keep.take(hi as int) =~= keep);
    }
    out
}

/// Reads the cartridge header. Anything missing from a short file reads as
/// absent: no title, no logo, zero bytes, a failed checksum.
pub fn info(data: &[u8]) -> (r: RomInfo)
    ensures
        info_spec(data@, r),
{
    let len = data.len();
    let raw: &[u8] = if len >= 0x144 {
        vstd::slice::slice_subrange(data, 0x134, 0x144)
    } else {
        &[]
    };
    proof {
        if len < 0x144 {
            assert(raw@ =~= Seq::<u8>::empty());
        }
    }
    let kept = title_bytes(raw);
    let title = trimmed_string(&kept);
    let mut has_logo = false;
    if len >= 0x114 {
        let lg = logo();
        let mut ok = true;
        let mut i: usize = 0;
        while i < 16
            invariant
                len == data@.len(),
                len >= 0x114,
                lg@ == logo_spec(),
                i <= 16,
                ok == (forall|k: int| 0 <= k < i ==> #[trigger] data@[0x104 + k] == lg@[k]),
            decreases 16 - i,
        {
            if data[0x104 + i] != lg[i] {
                ok = false;
            }
            i = i + 1;
        }
        proof {
            if ok {
                assert forall|k: int| 0 <= k < 16 implies data@.subrange(0x104, 0x114)[k] == logo_spec()[k] by {
                    assert(data@[0x104 + k] == lg@[k]);
                }
                assert(data@.subrange(0x104, 0x114) =~= logo_spec());
            } else {
                let k = choose|k: int| 0 <= k < 16 && #[trigger] data@[0x104 + k] != lg@[k];
                assert(data@.subrange(0x104, 0x114)[k] != logo_spec()[k]);
            }
        }
        has_logo = ok;
    }
    let color = len > 0x143 && (data[0x143] == 0x80 || data[0x143] == 0xc0);
    let cart_type: u8 = if len > 0x147 { data[0x147] } else { 0 };
    let size_code: u8 = if len > 0x148 { data[0x148] } else { 0 };
    let declared_size: usize = if size_code <= 8 {
        proof {
            lemma_pow2_bound(size_code as nat);
        }
        shl_size(size_code)
    } else {
        0
    };
    // The header checksum covers 0x134..=0x14c.
    let mut sum: u8 = 0;
    if len >= 0x14d {
        let mut i: usize = 0x134;
        while i < 0x14d
            invariant
                len == data@.len(),
                len >= 0x14d,
                0x134 <= i <= 0x14d,
                sum == header_sum(data@.subrange(0x134, i as int)),
            decreases 0x14d - i,
        {
            proof {
                assert(data@.subrange(0x134, i + 1).drop_last() =~= data@.subrange(0x134, i as int));
            }
            sum = sum.wrapping_sub(data[i]).wrapping_sub(1);
            i = i + 1;
        }
    }
    let header_checksum_ok = len > 0x14d && data[0x14d] == sum;
    RomInfo {
        title,
        has_logo,
        color,
        cart_type,
        declared_size,
        actual_size: len,
        header_checksum_ok,
        banks: len / BANK_BYTES,
    }
}

/// Powers of two up to the eighth stay small.
proof fn lemma_pow2_bound(n: nat)
    requires
        n <= 8,
    ensures
        1 <= pow2(n) <= 256,
{
    reveal_with_fuel(pow2, 10);
    assert(n == 0 || n == 1 || n == 2 || n == 3 || n == 4 || n == 5 || n == 6 || n == 7 || n == 8);
}

/// 32 KiB shifted left by a size code of at most 8.
fn shl_size(code: u8) -> (r: usize)
    requires
        code <= 8,
    ensures
        r == 32768 * pow2(code as nat),
{
    let mut r: usize = 32768;
    let mut i: u8 = 0;
    while i < code
        invariant
            i <= code <= 8,
            r == 32768 * pow2(i as nat),
        decreases code - i,
    {
        proof {
            lemma_pow2_bound(i as nat);
            lemma_pow2_bound((i + 1) as nat);
        }
        r = r * 2;
        i = i + 1;
    }
    r
}

/// True when `t` is the tile whose 2bpp bytes start at `start` in `data`.
pub open spec fn tile_at_bytes(t: Seq<u8>, data: Seq<u8>, start: int) -> bool {
    &&& t.len() == 64
    &&& forall|y: int, x: int|
        0 <= y < 8 && 0 <= x < 8 ==> #[trigger] t[y * 8 + x] == plane_pixel(
            data[start + 2 * y],
            data[start + 2 * y + 1],
            x,
        )
}

/// How many whole tiles `data` holds from byte `offset` on.
pub open spec fn tiles_fitting(len: int, offset: int) -> int {
    if offset > len { 0 } else { (len - offset) / 16 }
}

/// Decodes `count` tiles starting at a byte offset, stopping early at the end
/// of the data.
pub fn decode_tiles(data: &[u8], offset: usize, count: usize) -> (out: Vec<Tile8>)
    requires
        data@.len() <= isize::MAX,
    ensures
        out@.len() == (if count <= tiles_fitting(data@.len() as int, offset as int) {
            count as int
        } else {
            tiles_fitting(data@.len() as int, offset as int)
        }),
        forall|k: int| 0 <= k < out@.len() ==> tile_at_bytes(#[trigger] out@[k]@, data@, offset + 16 * k),
{
    let len = data.len();
    let mut out: Vec<Tile8> = Vec::new();
    if offset > len {
        return out;
    }
    let avail = len - offset;
    let mut i: usize = 0;
    while i < count
        invariant
            len == data@.len(),
            len <= isize::MAX,
            offset <= len,
            avail == len - offset,
            i <= count,
            i * 16 <= avail,
            out@.len() == i,
            forall|k: int| 0 <= k < out@.len() ==> tile_at_bytes(#[trigger] out@[k]@, data@, offset + 16 * k),
        ensures
            out@.len() == i,
            i == count || (i + 1) * 16 > avail,
            i * 16 <= avail,
            forall|k: int| 0 <= k < out@.len() ==> tile_at_bytes(#[trigger] out@[k]@, data@, offset + 16 * k),
        decreases count - i,
    {
        if (i + 1) * TILE_BYTES > avail {
            break;
        }
        let start = offset + i * TILE_BYTES;
        let bytes = vstd::slice::slice_subrange(data, start, start + TILE_BYTES);
        let t = decode_2bpp(bytes);
        proof {
            assert forall|y: int, x: int| 0 <= y < 8 && 0 <= x < 8 implies #[trigger] t@[y * 8 + x] == plane_pixel(
                data@[start + 2 * y],
                data@[start + 2 * y + 1],
                x,
            ) by {
                assert(byte_or_zero(bytes@, 2 * y) == data@[start + 2 * y]);
                assert(byte_or_zero(bytes@, 2 * y + 1) == data@[start + 2 * y + 1]);
            }
        }
        out.push(t);
        i = i + 1;
    }
    proof {
        let f = tiles_fitting(len as int, offset as int);
        if i < count {
            assert(i == f) by (nonlinear_arith)
                requires
                    i * 16 <= avail,
                    (i + 1) * 16 > avail,
                    f == avail / 16,
                    avail >= 0,
            ;
        } else {
            assert(i <= f) by (nonlinear_arith)
                requires
                    i * 16 <= avail,
                    f == avail / 16,
                    avail >= 0,
            ;
        }
    }
    out
}

/// Horizontal neighbours among the first `p` pixel places that agree.
pub open spec fn hpairs(t: Seq<u8>, p: int) -> int
    decreases p,
{
    if p <= 0 {
        0
    } else {
        hpairs(t, p - 1) + if (p - 1) % 8 < 7 && t[p - 1] == t[p] { 1int } else { 0int }
    }
}

/// Vertical neighbours among the first `p` pixel places that agree.
pub open spec fn vpairs(t: Seq<u8>, p: int) -> int
    decreases p,
{
    if p <= 0 {
        0
    } else {
        vpairs(t, p - 1) + if t[p - 1] == t[p + 7] { 1int } else { 0int }
    }
}

/// True when every pixel equals the first.
pub open spec fn flat_spec(t: Seq<u8>) -> bool {
    forall|i: int| 0 <= i < 64 ==> #[trigger] t[i] == t[0]
}

/// Over the first `n` tiles: how many are flat, and over the others the
/// agreeing horizontal and vertical neighbours and the horizontal pairs
/// looked at.
pub open spec fn block_counts(ts: Seq<Seq<u8>>, n: int) -> (int, int, int, int)
    decreases n,
{
    if n <= 0 {
        (0, 0, 0, 0)
    } else {
        let (f, r, v, s) = block_counts(ts, n - 1);
        let t = ts[n - 1];
        if flat_spec(t) {
            (f + 1, r, v, s)
        } else {
            (f, r + hpairs(t, 64), v + vpairs(t, 56), s + 56)
        }
    }
}

/// The graphics score of tiles decoded from a block, as `score_block`
/// computes it from their counts.
pub open spec fn block_score(ts: Seq<Seq<u8>>, wanted: int) -> u32 {
    let (f, r, v, s) = block_counts(ts, ts.len() as int);
    if ts.len() < wanted / 2 || ts.len() == 0 || s == 0 {
        0
    } else {
        let h = r * 500 / s;
        let vv = v * 500 / (s + 1);
        let pen = f * 1000 / (ts.len() as int);
        if h + vv >= pen { (h + vv - pen) as u32 } else { 0 }
    }
}

/// The agreeing horizontal and vertical neighbour pairs of a tile.
fn tile_pairs(t: &Tile8) -> (r: (u64, u64))
    ensures
        r.0 as int == hpairs(t@, 64),
        r.1 as int == vpairs(t@, 56),
        hpairs(t@, 64) <= 64,
        vpairs(t@, 56) <= 56,
{
    let mut runs: u64 = 0;
    let mut y: usize = 0;
    while y < 8
        invariant
            y <= 8,
            runs as int == hpairs(t@, (y * 8) as int),
            runs <= y * 8,
        decreases 8 - y,
    {
        let mut x: usize = 0;
        while x < 7
            invariant
                y < 8,
                x <= 7,
                runs as int == hpairs(t@, (y * 8 + x) as int),
                runs <= y * 8 + x,
            decreases 7 - x,
        {
            if t[y * 8 + x] == t[y * 8 + x + 1] {
                runs = runs + 1;
            }
            x = x + 1;
        }
        assert(hpairs(t@, (y * 8 + 8) as int) == hpairs(t@, (y * 8 + 7) as int));
        y = y + 1;
    }
    let mut vertical: u64 = 0;
    let mut y: usize = 0;
    while y < 7
        invariant
            y <= 7,
            vertical as int == vpairs(t@, (y * 8) as int),
            vertical <= y * 8,
        decreases 7 - y,
    {
        let mut x: usize = 0;
        while x < 8
            invariant
                y < 7,
                x <= 8,
                vertical as int == vpairs(t@, (y * 8 + x) as int),
                vertical <= y * 8 + x,
            decreases 8 - x,
        {
            if t[y * 8 + x] == t[(y + 1) * 8 + x] {
                vertical = vertical + 1;
            }
            x = x + 1;
        }
        y = y + 1;
    }
    (runs, vertical)
}

/// The tile decoded from the 2bpp bytes at `start`.
pub open spec fn tile_spec(data: Seq<u8>, start: int) -> Seq<u8> {
    Seq::new(64, |i: int| plane_pixel(data[start + 2 * (i / 8)], data[start + 2 * (i / 8) + 1], i % 8))
}

/// The tiles `decode_tiles` gives for `count` tiles from `offset`.
pub open spec fn tiles_spec(data: Seq<u8>, offset: int, count: int) -> Seq<Seq<u8>> {
    let f = tiles_fitting(data.len() as int, offset);
    let m = if count <= f { count } else { f };
    Seq::new(m as nat, |k: int| tile_spec(data, offset + 16 * k))
}

/// A decoded tile is the tile spelled by its bytes.
proof fn lemma_tile_spec(t: Seq<u8>, data: Seq<u8>, start: int)
    requires
        tile_at_bytes(t, data, start),
    ensures
        t == tile_spec(data, start),
{
    assert forall|i: int| 0 <= i < 64 implies t[i] == tile_spec(data, start)[i] by {
        let y = i / 8;
        let x = i % 8;
        assert(i == y * 8 + x);
    }
    assert(t =~= tile_spec(data, start));
}

/// Scores how much a block of tiles looks like artwork rather than code.
///
/// Graphics have a lot of structure: neighbouring pixels agree, rows repeat
/// vertically, and few tiles are completely flat. Code and tables look like
/// noise under the same measurements. Blocks where fewer than half the
/// tiles are there score 0.
pub fn score_block(data: &[u8], offset: usize, tiles: usize) -> (r: u32)
    requires
        data@.len() <= isize::MAX,
        data@.len() <= 0x10_0000_0000_0000,
    ensures
        r == block_score(tiles_spec(data@, offset as int, tiles as int), tiles as int),
{
    let decoded = decode_tiles(data, offset, tiles);
    let ghost ts = tiles_spec(data@, offset as int, tiles as int);
    proof {
        assert forall|k: int| 0 <= k < decoded@.len() implies #[trigger] decoded@[k]@ == ts[k] by {
            lemma_tile_spec(decoded@[k]@, data@, offset + 16 * k);
        }
        assert(decoded@.len() <= (data@.len() as int) / 16);
    }
    if decoded.len() < tiles / 2 || decoded.len() == 0 {
        return 0;
    }
    let mut flat: u64 = 0;
    let mut runs: u64 = 0;
    let mut vertical: u64 = 0;
    let mut samples: u64 = 0;
    let mut k: usize = 0;
    while k < decoded.len()
        invariant
            decoded@.len() == ts.len(),
            decoded@.len() <= 0x1_0000_0000_0000,
            forall|j: int| 0 <= j < decoded@.len() ==> #[trigger] decoded@[j]@ == ts[j],
            k <= decoded@.len(),
            (flat as int, runs as int, vertical as int, samples as int) == block_counts(ts, k as int),
            flat <= k,
            runs <= 64 * (k - flat),
            vertical <= 56 * (k - flat),
            samples == 56 * (k - flat),
        decreases decoded@.len() - k,
    {
        let t = &decoded[k];
        proof {
            assert(t@ == ts[k as int]);
        }
        if is_flat(t) {
            flat = flat + 1;
        } else {
            let (h, v) = tile_pairs(t);
            runs = runs + h;
            vertical = vertical + v;
            samples = samples + 56;
        }
        k = k + 1;
    }
    if samples == 0 {
        return 0;
    }
    assert(runs * 500 <= 0x1_0000_0000_0000 * 64 * 500) by (nonlinear_arith)
        requires
            runs <= 64 * (k - flat),
            flat <= k,
            k <= 0x1_0000_0000_0000,
    ;
    assert(vertical * 500 <= 0x1_0000_0000_0000 * 56 * 500) by (nonlinear_arith)
        requires
            vertical <= 56 * (k - flat),
            flat <= k,
            k <= 0x1_0000_0000_0000,
    ;
    assert(flat * 1000 <= 0x1_0000_0000_0000 * 1000) by (nonlinear_arith)
        requires
            flat <= k,
            k <= 0x1_0000_0000_0000,
    ;
    let horizontal_ratio = runs * 500 / samples;
    let vertical_ratio = vertical * 500 / (samples + 1);
    let flat_penalty = flat * 1000 / (decoded.len() as u64);
    assert(horizontal_ratio <= runs * 500 && vertical_ratio <= vertical * 500) by (nonlinear_arith)
        requires
            horizontal_ratio == (runs * 500) / (samples as int),
            vertical_ratio == (vertical * 500) / (samples + 1),
            samples >= 1,
    ;
    let total = horizontal_ratio + vertical_ratio;
    if total >= flat_penalty {
        (total - flat_penalty) as u32
    } else {
        0
    }
}

/// A stretch of ROM that looks like it holds tile graphics.
#[derive(Clone, Copy, Debug, PartialEq, Eq, Structural)]
pub struct Region {
    pub offset: usize,
    pub len: usize,
    /// Higher is more likely to be graphics. Roughly 0..1000.
    pub score: u32,
}

/// True when `a` ranks ahead of `b`: a higher score, or an equal score
/// earlier in the ROM.
pub open spec fn ranks_before(a: Region, b: Region) -> bool {
    a.score > b.score || (a.score == b.score && a.offset < b.offset)
}

fn ranks_before_exec(a: &Region, b: &Region) -> (r: bool)
    ensures
        r == ranks_before(*a, *b),
{
    a.score > b.score || (a.score == b.score && a.offset < b.offset)
}

/// The candidate windows of `data`, in ROM order: back to back from the
/// start, each `window_tiles` tiles long, with their scores.
pub open spec fn candidates(data: Seq<u8>, window_tiles: int) -> Seq<Region> {
    let window = window_tiles * 16;
    Seq::new(
        (data.len() / (window as nat)) as nat,
        |k: int|
            Region {
                offset: (k * window) as usize,
                len: window as usize,
                score: block_score(tiles_spec(data, k * window, window_tiles), window_tiles),
            },
    )
}

/// Finds the stretches of a ROM most likely to hold tile graphics.
///
/// Returns the best 64 candidate windows (fewer if there are fewer), best
/// first: higher scores first, ties in ROM order. `window_tiles` is how many
/// tiles each candidate covers; 128 tiles is one 2 KiB block, about the size
/// of one set of character graphics.
pub fn scan(data: &[u8], window_tiles: usize) -> (out: Vec<Region>)
    requires
        window_tiles >= 1,
        window_tiles * 16 <= usize::MAX,
        data@.len() <= isize::MAX,
        data@.len() <= 0x10_0000_0000_0000,
    ensures
        ({
            let cand = candidates(data@, window_tiles as int);
            &&& out@.len() == (if cand.len() <= 64 { cand.len() as int } else { 64 })
            &&& forall|i: int, j: int| 0 <= i < j < out@.len() ==> ranks_before(#[trigger] out@[i], #[trigger] out@[j])
            &&& forall|i: int| 0 <= i < out@.len() ==> cand.contains(#[trigger] out@[i])
            &&& forall|c: int|
                0 <= c < cand.len() ==> out@.contains(#[trigger] cand[c]) || forall|i: int|
                    0 <= i < out@.len() ==> ranks_before(#[trigger] out@[i], cand[c])
        }),
{
    let window = window_tiles * TILE_BYTES;
    let ghost cand = candidates(data@, window_tiles as int);
    let len = data.len();
    let mut all: Vec<Region> = Vec::new();
    if len < window {
        proof {
            assert(cand.len() == 0) by (nonlinear_arith)
                requires
                    cand.len() == (len as int) / (window as int),
                    len < window,
            ;
        }
        return all;
    }
    let mut offset: usize = 0;
    while offset + window <= len
        invariant
            window == window_tiles * 16,
            window >= 16,
            window <= len,
            len == data@.len(),
            len <= isize::MAX,
            len <= 0x10_0000_0000_0000,
            cand == candidates(data@, window_tiles as int),
            offset == all@.len() * window,
            offset <= len,
            forall|k: int| 0 <= k < all@.len() ==> #[trigger] all@[k] == cand[k],
            all@.len() <= cand.len(),
        decreases len - offset,
    {
        let score = score_block(data, offset, window_tiles);
        proof {
            assert(all@.len() < cand.len()) by (nonlinear_arith)
                requires
                    offset == all@.len() * window,
                    offset + window <= len,
                    cand.len() == (len as int) / (window as int),
                    window >= 1,
            ;
        }
        all.push(Region { offset, len: window, score });
        proof {
            assert(offset + window == all@.len() * window) by (nonlinear_arith)
                requires
                    offset == (all@.len() - 1) * window,
            ;
        }
        offset = offset + window;
    }
    proof {
        assert(all@.len() == cand.len()) by (nonlinear_arith)
            requires
                offset == all@.len() * window,
                offset + window > len,
                offset <= len,
                cand.len() == (len as int) / (window as int),
                all@.len() <= cand.len(),
                window >= 1,
        ;
        assert(all@ =~= cand);
    }
    let n = all.len();
    proof {
        assert forall|a: int, b: int| 0 <= a < b < n implies (#[trigger] all@[a]).offset < (#[trigger] all@[b]).offset by {
            assert(all@[a] == cand[a]);
            assert(all@[b] == cand[b]);
            assert(a * window < b * window) by (nonlinear_arith)
                requires
                    a < b,
                    window >= 1,
            ;
            assert(b * window <= len) by (nonlinear_arith)
                requires
                    b < n,
                    n == (len as int) / (window as int),
                    window >= 1,
                    len >= 0,
            ;
        }
    }
    let mut used: Vec<bool> = Vec::new();
    let mut i: usize = 0;
    while i < n
        invariant
            i <= n,
            used@.len() == i,
            forall|k: int| 0 <= k < i ==> !#[trigger] used@[k],
        decreases n - i,
    {
        used.push(false);
        i = i + 1;
    }
    let mut out: Vec<Region> = Vec::new();
    proof {
        lemma_none_used(used@, n as int);
    }
    while out.len() < 64 && out.len() < n
        invariant
            n == all@.len(),
            all@ == cand,
            used@.len() == n,
            forall|a: int, b: int| 0 <= a < b < n ==> (#[trigger] all@[a]).offset < (#[trigger] all@[b]).offset,
            out@.len() <= n,
            out@.len() <= 64,
            forall|c: int| 0 <= c < n ==> (#[trigger] used@[c] <==> out@.contains(all@[c])),
            forall|i: int, j: int| 0 <= i < j < out@.len() ==> ranks_before(#[trigger] out@[i], #[trigger] out@[j]),
            forall|i: int| 0 <= i < out@.len() ==> cand.contains(#[trigger] out@[i]),
            forall|c: int|
                0 <= c < n && !used@[c] ==> forall|i: int|
                    0 <= i < out@.len() ==> ranks_before(#[trigger] out@[i], #[trigger] all@[c]),
            out@.len() == number_used(used@, n as int),
        decreases n - out@.len(),
    {
        let mut best: usize = n;
        let mut j: usize = 0;
        while j < n
            invariant
                n == all@.len(),
                used@.len() == n,
                forall|a: int, b: int| 0 <= a < b < n ==> (#[trigger] all@[a]).offset < (#[trigger] all@[b]).offset,
                j <= n,
                best == n || (best < j && !used@[best as int]),
                forall|k: int|
                    0 <= k < j && !used@[k] && k != best ==> ranks_before(all@[best as int], #[trigger] all@[k]),
                best == n ==> forall|k: int| 0 <= k < j ==> #[trigger] used@[k],
            decreases n - j,
        {
            if !used[j] && (best == n || ranks_before_exec(&all[j], &all[best])) {
                proof {
                    if best != n {
                        assert forall|k: int|
                            0 <= k < j + 1 && !used@[k] && k != j implies ranks_before(all@[j as int], #[trigger] all@[k]) by {
                            if k != best {
                                assert(ranks_before(all@[best as int], all@[k]));
                            }
                        }
                    }
                }
                best = j;
            } else {
                proof {
                    if !used@[j as int] && best != n {
                        assert(!ranks_before(all@[j as int], all@[best as int]));
                        if best < j {
                            assert(all@[best as int].offset < all@[j as int].offset);
                        }
                    }
                }
            }
            j = j + 1;
        }
        proof {
            if best == n {
                lemma_all_used(used@, n as int);
            }
        }
        let pick = all[best];
        let ghost before_out = out@;
        let ghost before_used = used@;
        used.set(best, true);
        out.push(pick);
        proof {
            lemma_one_more_used(before_used, best as int, n as int);
            assert(cand.contains(pick)) by {
                assert(cand[best as int] == pick);
            }
            assert forall|c: int| 0 <= c < n implies (#[trigger] used@[c] <==> out@.contains(all@[c])) by {
                if c == best {
                    assert(out@[out@.len() - 1] == all@[c]);
                } else {
                    if out@.contains(all@[c]) {
                        let k = choose|k: int| 0 <= k < out@.len() && out@[k] == all@[c];
                        if k < before_out.len() {
                            assert(before_out.contains(all@[c]));
                        } else {
                            assert(all@[c] == all@[best as int]);
                            assert(all@[c].offset == all@[best as int].offset);
                        }
                    }
                    if before_out.contains(all@[c]) {
                        let k = choose|k: int| 0 <= k < before_out.len() && before_out[k] == all@[c];
                        assert(out@[k] == all@[c]);
                    }
                }
            }
        }
    }
    proof {
        let cl = cand.len();
        if out@.len() < 64 {
            assert(out@.len() == n);
        }
        assert forall|c: int| 0 <= c < cl implies out@.contains(#[trigger] cand[c]) || forall|i: int|
            0 <= i < out@.len() ==> ranks_before(#[trigger] out@[i], cand[c]) by {
            if !used@[c] {
                assert(cand[c] == all@[c]);
            }
        }
    }
    out
}

/// How many of the first `n` flags are set.
pub open spec fn number_used(used: Seq<bool>, n: int) -> int
    decreases n,
{
    if n <= 0 {
        0
    } else {
        number_used(used, n - 1) + if used[n - 1] { 1int } else { 0int }
    }
}

/// Setting one more flag counts one more.
proof fn lemma_one_more_used(used: Seq<bool>, b: int, n: int)
    requires
        0 <= b < n <= used.len(),
        !used[b],
    ensures
        number_used(used.update(b, true), n) == number_used(used, n) + 1,
    decreases n,
{
    if n - 1 > b {
        lemma_one_more_used(used, b, n - 1);
    } else {
        assert forall|k: int| 0 <= k < n - 1 implies used.update(b, true)[k] == used[k] by {}
        lemma_same_used(used.update(b, true), used, n - 1);
    }
}

/// Flags that agree on the first `n` count the same.
proof fn lemma_same_used(a: Seq<bool>, b: Seq<bool>, n: int)
    requires
        0 <= n <= a.len(),
        n <= b.len(),
        forall|k: int| 0 <= k < n ==> a[k] == b[k],
    ensures
        number_used(a, n) == number_used(b, n),
    decreases n,
{
    if n > 0 {
        lemma_same_used(a, b, n - 1);
    }
}

/// With no flag set, none count.
proof fn lemma_none_used(used: Seq<bool>, n: int)
    requires
        0 <= n <= used.len(),
        forall|k: int| 0 <= k < n ==> !#[trigger] used[k],
    ensures
        number_used(used, n) == 0,
    decreases n,
{
    if n > 0 {
        lemma_none_used(used, n - 1);
    }
}

/// With every flag set, all `n` count.
proof fn lemma_all_used(used: Seq<bool>, n: int)
    requires
        0 <= n <= used.len(),
        forall|k: int| 0 <= k < n ==> #[trigger] used[k],
    ensures
        number_used(used, n) == n,
    decreases n,
{
    if n > 0 {
        lemma_all_used(used, n - 1);
    }
}

} // verus!
