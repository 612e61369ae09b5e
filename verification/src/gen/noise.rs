//! Integer value noise.
//!
//! Terrain has to come out identical on every machine, so this is plain
//! integer hashing and interpolation rather than anything floating point.
use vstd::prelude::*;
use crate::level::div_floor;

verus! {

/// A lattice point hashed to a value in `0..=1023`.
pub open spec fn hash_spec(seed: u64, x: i32, y: i32) -> i32 {
    let h0 = seed ^ ((x as i64) as u64).wrapping_mul(0x9e37_79b9_7f4a_7c15u64) ^ ((
    y as i64) as u64).wrapping_mul(0xc2b2_ae3d_27d4_eb4fu64);
    let h1 = h0 ^ (h0 >> 33u64);
    let h2 = h1.wrapping_mul(0xff51_afd7_ed55_8ccdu64);
    let h3 = h2 ^ (h2 >> 29u64);
    let h4 = h3.wrapping_mul(0xc4ce_b9fe_1a85_ec53u64);
    let h5 = h4 ^ (h4 >> 32u64);
    (h5 & 1023u64) as i32
}

/// Hashes a lattice point to a value in `0..=1023`.
fn hash(seed: u64, x: i32, y: i32) -> (r: i32)
    ensures
        r == hash_spec(seed, x, y),
        0 <= r <= 1023,
{
    let mut h: u64 = seed ^ (x as i64 as u64).wrapping_mul(0x9e37_79b9_7f4a_7c15u64) ^ (
    y as i64 as u64).wrapping_mul(0xc2b2_ae3d_27d4_eb4fu64);
    h = h ^ (h >> 33u64);
    h = h.wrapping_mul(0xff51_afd7_ed55_8ccdu64);
    h = h ^ (h >> 29u64);
    h = h.wrapping_mul(0xc4ce_b9fe_1a85_ec53u64);
    h = h ^ (h >> 32u64);
    let m: u64 = h & 1023u64;
    assert(m <= 1023) by (bit_vector)
        requires
            m == h & 1023u64,
    ;
    m as i32
}

/// `v` kept within `lo..=hi`.
pub open spec fn clamp_int(v: int, lo: int, hi: int) -> int {
    if v < lo { lo } else if v > hi { hi } else { v }
}

/// Smooth step on a fraction of 1024: 3t^2 - 2t^3 in fixed point.
pub open spec fn smooth_spec(t: int) -> int {
    let t2 = t * t / 1024;
    let t3 = t2 * t / 1024;
    clamp_int(3 * t2 - 2 * t3, 0, 1024)
}

/// Smooth step on a 0..=1024 fraction, so cells blend without visible seams.
fn smooth(t: i32) -> (r: i32)
    requires
        0 <= t <= 1024,
    ensures
        r == smooth_spec(t as int),
        0 <= r <= 1024,
{
    assert(0 <= t * t <= 1024 * 1024) by (nonlinear_arith)
        requires
            0 <= t <= 1024,
    ;
    let t2 = (t * t) / 1024;
    assert(0 <= t2 * t <= 1024 * 1024) by (nonlinear_arith)
        requires
            0 <= t <= 1024,
            0 <= t2 <= 1024,
    ;
    let t3 = (t2 * t) / 1024;
    let v = 3 * t2 - 2 * t3;
    if v < 0 {
        0
    } else if v > 1024 {
        1024
    } else {
        v
    }
}

/// Linear blend from `a` towards `b` by `t` parts in 1024, rounding down.
pub open spec fn lerp1024(a: int, b: int, t: int) -> int {
    a + (b - a) * t / 1024
}

/// The lattice a coordinate falls in and the 1024ths of the way across it.
pub open spec fn cell_of(v: int, scale: int) -> (int, int) {
    (v / scale, (v % scale) * 1024 / scale)
}

/// Value noise at `(x, y)` on a lattice of `scale` tiles (at least one).
pub open spec fn value_spec(seed: u64, x: i32, y: i32, scale: i32) -> int {
    let s = if scale >= 1 { scale as int } else { 1 };
    let (gx, fx) = cell_of(x as int, s);
    let (gy, fy) = cell_of(y as int, s);
    let tx = smooth_spec(fx);
    let ty = smooth_spec(fy);
    let a = hash_spec(seed, gx as i32, gy as i32) as int;
    let b = hash_spec(seed, (gx + 1) as i32, gy as i32) as int;
    let c = hash_spec(seed, gx as i32, (gy + 1) as i32) as int;
    let d = hash_spec(seed, (gx + 1) as i32, (gy + 1) as i32) as int;
    let top = lerp1024(a, b, tx);
    let bottom = lerp1024(c, d, tx);
    clamp_int(lerp1024(top, bottom, ty), 0, 1023)
}

/// The inputs `value` takes: a lattice no larger than 2^21 and coordinates
/// whose next lattice point is representable.
pub open spec fn value_ok(x: i32, y: i32, scale: i32) -> bool {
    let s = if scale >= 1 { scale as int } else { 1 };
    &&& s <= 0x20_0000
    &&& (x as int) / s < i32::MAX
    &&& (y as int) / s < i32::MAX
}

fn blend(a: i32, b: i32, t: i32) -> (r: i32)
    requires
        0 <= a <= 1023,
        0 <= b <= 1023,
        0 <= t <= 1024,
    ensures
        r == lerp1024(a as int, b as int, t as int),
        0 <= r <= 1023,
{
    assert(-1023 * 1024 <= (b - a) * t <= 1023 * 1024) by (nonlinear_arith)
        requires
            -1023 <= b - a <= 1023,
            0 <= t <= 1024,
    ;
    assert(a + (b - a) * t / 1024 <= 1023 && a + (b - a) * t / 1024 >= 0) by (nonlinear_arith)
        requires
            0 <= a <= 1023,
            0 <= b <= 1023,
            0 <= t <= 1024,
    ;
    a + div_floor((b - a) * t, 1024)
}

/// Value noise at `(x, y)`, sampled on a lattice of `scale` tiles.
///
/// Returns 0..=1023.
pub fn value(seed: u64, x: i32, y: i32, scale: i32) -> (r: i32)
    requires
        value_ok(x, y, scale),
    ensures
        r == value_spec(seed, x, y, scale),
        0 <= r <= 1023,
{
    let s: i32 = if scale >= 1 { scale } else { 1 };
    let gx = div_floor(x, s);
    let gy = div_floor(y, s);
    let fx = rem_floor(x, s);
    let fy = rem_floor(y, s);
    assert(0 <= fx * 1024 < s * 1024) by (nonlinear_arith)
        requires
            0 <= fx < s,
    ;
    assert(0 <= fy * 1024 < s * 1024) by (nonlinear_arith)
        requires
            0 <= fy < s,
    ;
    assert((fx * 1024) / (s as int) <= 1024 && (fy * 1024) / (s as int) <= 1024) by (nonlinear_arith)
        requires
            0 <= fx < s,
            0 <= fy < s,
            s >= 1,
    ;
    let tx = smooth(fx * 1024 / s);
    let ty = smooth(fy * 1024 / s);
    let a = hash(seed, gx, gy);
    let b = hash(seed, gx + 1, gy);
    let c = hash(seed, gx, gy + 1);
    let d = hash(seed, gx + 1, gy + 1);
    let top = blend(a, b, tx);
    let bottom = blend(c, d, tx);
    blend(top, bottom, ty)
}

/// Euclidean remainder by a positive divisor.
fn rem_floor(v: i32, d: i32) -> (r: i32)
    requires
        d > 0,
    ensures
        r == v % d,
        0 <= r < d,
{
    match v.checked_rem_euclid(d) {
        Some(m) => m,
        None => 0,
    }
}

/// The smaller lattice `fractal` blends in: a third of `scale`, at least 2.
pub open spec fn fine_scale(scale: i32) -> i32 {
    let t = if scale >= 0 { scale / 3 } else { -((-scale) / 3) };
    if t >= 2 { t as i32 } else { 2 }
}

/// The two-octave noise [`fractal`] gives.
pub open spec fn fractal_spec(seed: u64, x: i32, y: i32, scale: i32) -> int {
    clamp_int((value_spec(seed, x, y, scale) * 3 + value_spec(seed ^ 0x5ad5_ad5a, x, y, fine_scale(scale))) / 4, 0, 1023)
}

/// Two octaves of value noise: three parts of the coarse lattice to one part
/// of a lattice a third as large, which gives large shapes with some detail.
pub fn fractal(seed: u64, x: i32, y: i32, scale: i32) -> (r: i32)
    requires
        value_ok(x, y, scale),
    ensures
        r == clamp_int(
            (value_spec(seed, x, y, scale) * 3 + value_spec(seed ^ 0x5ad5_ad5a, x, y, fine_scale(scale))) / 4,
            0,
            1023,
        ),
        0 <= r <= 1023,
{
    let a = value(seed, x, y, scale);
    let third: i32 = scale / 3;
    let fine: i32 = if third >= 2 { third } else { 2 };
    assert(fine == fine_scale(scale));
    assert((x as int) / (fine as int) < i32::MAX) by (nonlinear_arith)
        requires
            fine >= 2,
            x <= i32::MAX,
    {
        if x >= 0 {
            assert(x / fine <= x / 2);
        }
    }
    assert((y as int) / (fine as int) < i32::MAX) by (nonlinear_arith)
        requires
            fine >= 2,
            y <= i32::MAX,
    {
        if y >= 0 {
            assert(y / fine <= y / 2);
        }
    }
    let b = value(seed ^ 0x5ad5_ad5au64, x, y, fine);
    (a * 3 + b) / 4
}

} // verus!
