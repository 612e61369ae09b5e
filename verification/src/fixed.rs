//! Fixed-point math.
//!
//! The simulation never uses floating point: every player in a multiplayer
//! session must reach bit-identical state from the same inputs. Positions are
//! 24.8 fixed point, i.e. one pixel is [`ONE`] units.
use vstd::prelude::*;

verus! {

/// Number of fractional bits in a [`Fx`] value.
pub const SHIFT: u32 = 8;
/// One whole pixel in fixed-point units.
pub const ONE: i32 = 256;
/// Half a pixel.
pub const HALF: i32 = 128;

/// A 24.8 fixed-point scalar, measured in pixels.
pub type Fx = i32;

/// Rust's truncating division, as a mathematical function.
pub open spec fn tdiv(a: int, b: int) -> int {
    if a >= 0 {
        if b > 0 { a / b } else { -(a / (-b)) }
    } else {
        if b > 0 { -((-a) / b) } else { (-a) / (-b) }
    }
}

/// The integer nearest to `v / 256` from below: what an arithmetic shift by
/// [`SHIFT`] computes.
pub open spec fn floor_px(v: int) -> int {
    v / 256
}

/// Rust's `/` on signed integers, which rounds towards zero.
pub fn div_trunc(a: i64, b: i64) -> (r: i64)
    requires
        b != 0,
        a > i64::MIN,
        b > i64::MIN,
    ensures
        r == tdiv(a as int, b as int),
{
    let ua: u64 = if a >= 0 { a as u64 } else { (-a) as u64 };
    let ub: u64 = if b >= 0 { b as u64 } else { (-b) as u64 };
    let m: u64 = ua / ub;
    assert(m <= ua) by (nonlinear_arith)
        requires
            m == ua / ub,
            ub >= 1,
    ;
    if (a >= 0) == (b > 0) {
        m as i64
    } else {
        -(m as i64)
    }
}

/// Converts whole pixels to fixed point.
pub fn px(v: i32) -> (r: Fx)
    ensures
        r == #[verifier::truncate] ((v * 256) as i32),
        -0x80_0000 <= v < 0x80_0000 ==> r == v * 256,
{
    let r = v << 8u32;
    assert(r == #[verifier::truncate] ((v * 256) as i32)) by (bit_vector)
        requires
            r == v << 8u32,
    ;
    r
}

/// Truncates fixed point to whole pixels, rounding towards negative infinity.
pub fn to_px(v: Fx) -> (r: i32)
    ensures
        r == floor_px(v as int),
{
    let r = v >> 8u32;
    assert(r == v / 256) by (bit_vector)
        requires
            r == v >> 8u32,
    ;
    r
}

/// Rounds fixed point to the nearest whole pixel.
pub fn round_px(v: Fx) -> (r: i32)
    requires
        v + HALF <= i32::MAX,
    ensures
        r == floor_px(v + HALF),
{
    to_px(v + HALF)
}

/// Multiplies two fixed-point values.
pub fn fmul(a: Fx, b: Fx) -> (r: Fx)
    ensures
        r == #[verifier::truncate] (floor_px(a * b) as i32),
{
    assert(-0x4000_0000_0000_0000 <= a * b <= 0x4000_0000_0000_0000) by (nonlinear_arith)
        requires
            -0x8000_0000 <= a <= 0x7fff_ffff,
            -0x8000_0000 <= b <= 0x7fff_ffff,
    ;
    let p: i64 = a as i64 * b as i64;
    let q: i64 = p >> 8u32;
    assert(q == p / 256) by (bit_vector)
        requires
            q == p >> 8u32,
    ;
    #[verifier::truncate]
    (q as i32)
}

/// Divides two fixed-point values. Returns 0 when `b` is 0.
pub fn fdiv(a: Fx, b: Fx) -> (r: Fx)
    ensures
        b == 0 ==> r == 0,
        b != 0 ==> r == #[verifier::truncate] (tdiv(a * 256, b as int) as i32),
{
    if b == 0 {
        0
    } else {
        let n: i64 = (a as i64) * 256;
        let q: i64 = div_trunc(n, b as i64);
        #[verifier::truncate]
        (q as i32)
    }
}

/// Moves `v` towards `target` by at most `step`.
pub fn approach(v: Fx, target: Fx, step: Fx) -> (r: Fx)
    requires
        v < target ==> i32::MIN <= v + step <= i32::MAX,
        v >= target ==> i32::MIN <= v - step <= i32::MAX,
    ensures
        v < target ==> r == (if v + step < target { v + step } else { target as int }),
        v >= target ==> r == (if v - step > target { v - step } else { target as int }),
{
    if v < target {
        let n = v + step;
        if n < target { n } else { target }
    } else {
        let n = v - step;
        if n > target { n } else { target }
    }
}

/// True when `r` is the whole part of the square root of `v`.
pub open spec fn is_floor_sqrt(v: int, r: int) -> bool {
    0 <= r && r * r <= v && v < (r + 1) * (r + 1)
}

/// The whole part of the square root of a non-negative number.
pub open spec fn floor_sqrt(v: int) -> int {
    choose|r: int| is_floor_sqrt(v, r)
}

/// Any floor square root of `v` is the one [`floor_sqrt`] names.
pub proof fn lemma_floor_sqrt_is(v: int, r: int)
    requires
        is_floor_sqrt(v, r),
    ensures
        floor_sqrt(v) == r,
{
    let c = choose|r: int| is_floor_sqrt(v, r);
    lemma_floor_sqrt_unique(v, c, r);
}

/// A floor square root is unique.
pub proof fn lemma_floor_sqrt_unique(v: int, a: int, b: int)
    requires
        is_floor_sqrt(v, a),
        is_floor_sqrt(v, b),
    ensures
        a == b,
{
    if a < b {
        assert((a + 1) * (a + 1) <= b * b) by (nonlinear_arith)
            requires
                0 <= a < b,
        ;
    } else if b < a {
        assert((b + 1) * (b + 1) <= a * a) by (nonlinear_arith)
            requires
                0 <= b < a,
        ;
    }
}

/// Quotient bounds for division of a non-negative number.
proof fn lemma_div_bounds(v: int, x: int)
    requires
        v >= 0,
        x >= 1,
    ensures
        x * (v / x) <= v < x * (v / x + 1),
        v / x >= 0,
{
    vstd::arithmetic::div_mod::lemma_fundamental_div_mod(v, x);
    vstd::arithmetic::div_mod::lemma_mod_bound(v, x);
    vstd::arithmetic::div_mod::lemma_div_pos_is_pos(v, x);
    assert(x * (v / x + 1) == x * (v / x) + x) by (nonlinear_arith);
}

/// One Newton step never lands below the floor square root.
proof fn lemma_newton_step(v: int, x: int, q: int, y: int)
    requires
        v >= 1,
        x >= 1,
        x * q <= v < x * (q + 1),
        q >= 0,
        y == (x + q) / 2,
    ensures
        v < (y + 1) * (y + 1),
{
    assert(2 * y >= x + q - 1);
    assert((2 * y + 2) * (2 * y + 2) >= (x + q + 1) * (x + q + 1)) by (nonlinear_arith)
        requires
            2 * y + 2 >= x + q + 1,
            x + q + 1 >= 0,
    ;
    assert((x + q + 1) * (x + q + 1) >= 4 * x * (q + 1)) by (nonlinear_arith);
    assert(4 * x * (q + 1) == 4 * (x * (q + 1))) by (nonlinear_arith);
    assert((2 * y + 2) * (2 * y + 2) == 4 * ((y + 1) * (y + 1))) by (nonlinear_arith);
}

/// Integer square root, used for distance comparisons in AI code.
pub fn isqrt(v: i64) -> (r: i64)
    requires
        v < i64::MAX,
    ensures
        v <= 0 ==> r == 0,
        v > 0 ==> is_floor_sqrt(v as int, r as int),
        v >= 0 ==> r == floor_sqrt(v as int),
{
    if v <= 0 {
        proof {
            if v == 0 {
                lemma_floor_sqrt_is(0, 0);
            }
        }
        return 0;
    }
    let mut x: i64 = v;
    let mut y: i64 = (x + 1) / 2;
    assert(v / v == 1) by (nonlinear_arith)
        requires
            v > 0,
    ;
    assert(v < (v + 1) * (v + 1)) by (nonlinear_arith)
        requires
            v > 0,
    ;
    while y < x
        invariant
            1 <= x <= v,
            v < i64::MAX,
            y == (x + v / x) / 2,
            v < (x + 1) * (x + 1),
        decreases x,
    {
        proof {
            lemma_div_bounds(v as int, x as int);
            lemma_newton_step(v as int, x as int, v / x, y as int);
            let q0 = v / x;
            assert(y >= 1) by (nonlinear_arith)
                requires
                    x >= 1,
                    v >= 1,
                    x * q0 <= v,
                    v < x * (q0 + 1),
                    y == (x + q0) / 2,
            ;
        }
        x = y;
        let q: i64 = v / x;
        proof {
            lemma_div_bounds(v as int, x as int);
            assert(x + q <= v + 1) by (nonlinear_arith)
                requires
                    x * q <= v,
                    1 <= x <= v,
                    q >= 0,
            ;
        }
        y = (x + q) / 2;
    }
    proof {
        let q = v / x;
        lemma_div_bounds(v as int, x as int);
        assert(x <= q);
        assert(x * x <= x * q) by (nonlinear_arith)
            requires
                x <= q,
                x >= 1,
        ;
        lemma_floor_sqrt_is(v as int, x as int);
    }
    x
}


/// Length of a fixed-point vector.
pub fn length(x: Fx, y: Fx) -> (r: Fx)
    requires
        x * x + y * y < i64::MAX,
    ensures
        r == #[verifier::truncate] (floor_sqrt(x * x + y * y) as i32),
{
    assert(x * x >= 0 && y * y >= 0) by (nonlinear_arith);
    let n: i64 = x as i64 * x as i64 + y as i64 * y as i64;
    let s: i64 = isqrt(n);
    #[verifier::truncate]
    (s as i32)
}

/// One entry of the sine table: the Bhaskara approximation of the sine of
/// `i / 256` of a turn, scaled so that one is [`ONE`].
pub open spec fn sin_entry(i: int) -> int {
    let deg = i * 360_000 / 256;
    let d = if deg <= 180_000 { deg } else { deg - 180_000 };
    let dd = d / 1000;
    let num = 4 * dd * (180 - dd);
    let den = 40500 - dd * (180 - dd);
    let mag = if den == 0 { 0 } else { num * 256 / den };
    if deg <= 180_000 { mag } else { -mag }
}

/// Computes one entry of the sine table.
fn sin_entry_exec(i: i64) -> (r: i16)
    requires
        0 <= i < 256,
    ensures
        r == sin_entry(i as int),
{
    // Map i to degrees * 1000 to stay in integers.
    let deg: i64 = i * 360_000 / 256;
    let (d, negative): (i64, bool) = if deg <= 180_000 {
        (deg, false)
    } else {
        (deg - 180_000, true)
    };
    // Bhaskara I: sin(d) ~= 4d(180-d) / (40500 - d(180-d)) for d in degrees.
    let dd: i64 = d / 1000;
    assert(0 <= dd <= 180);
    assert(0 <= dd * (180 - dd) <= 8100) by (nonlinear_arith)
        requires
            0 <= dd <= 180,
    ;
    assert(4 * dd * (180 - dd) == 4 * (dd * (180 - dd))) by (nonlinear_arith);
    let num: i64 = 4 * dd * (180 - dd);
    let den: i64 = 40500 - dd * (180 - dd);
    let mag: i64 = num * 256 / den;
    proof {
        let n: int = num * 256;
        let dn: int = den as int;
        assert(0 <= n / dn <= 256) by (nonlinear_arith)
            requires
                0 <= n <= 32400 * 256,
                dn >= 32400,
        ;
    }
    if negative {
        (-mag) as i16
    } else {
        mag as i16
    }
}

/// A 256-entry sine table in fixed point (one turn = 256 units).
pub fn build_sin_table() -> (t: Vec<i16>)
    ensures
        t.len() == 256,
        forall|i: int| 0 <= i < 256 ==> t[i] == sin_entry(i),
{
    let mut t: Vec<i16> = Vec::new();
    let mut i: i64 = 0;
    while i < 256
        invariant
            0 <= i <= 256,
            t.len() == i,
            forall|k: int| 0 <= k < i ==> t[k] == sin_entry(k),
        decreases 256 - i,
    {
        let v = sin_entry_exec(i);
        t.push(v);
        i += 1;
    }
    t
}

/// Sine of an angle where a full turn is 256 units. Result is fixed point.
pub fn sin(angle: i32) -> (r: Fx)
    ensures
        r == sin_entry((angle % 256) as int),
{
    let i: i32 = angle & 0xff;
    assert(i == angle % 256) by (bit_vector)
        requires
            i == angle & 0xff,
    ;
    sin_entry_exec(i as i64) as i32
}

/// Cosine of an angle where a full turn is 256 units. Result is fixed point.
pub fn cos(angle: i32) -> (r: Fx)
    requires
        angle + 64 <= i32::MAX,
    ensures
        r == sin_entry(((angle + 64) % 256) as int),
{
    sin(angle + 64)
}

/// Half a turn on, the sine table gives the same value negated.
pub proof fn lemma_sin_half_turn(j: int)
    requires
        0 <= j < 256,
    ensures
        sin_entry((j + 128) % 256) == -sin_entry(j),
{
    if j < 128 {
        assert((j + 128) % 256 == j + 128);
        lemma_sin_half_low(j);
    } else {
        let i = j - 128;
        assert((j + 128) % 256 == i);
        lemma_sin_half_low(i);
    }
}

proof fn lemma_sin_half_low(j: int)
    requires
        0 <= j < 128,
    ensures
        sin_entry(j + 128) == -sin_entry(j),
{
    let deg = j * 360_000 / 256;
    let deg2 = (j + 128) * 360_000 / 256;
    assert(deg2 == deg + 180_000);
    assert(deg <= 178_594);
    if j == 0 {
        assert(deg == 0);
        let dd0 = deg / 1000;
        assert(dd0 == 0);
        assert(4 * dd0 * (180 - dd0) == 0);
        assert(sin_entry(j) == 0);
        let dd1 = deg2 / 1000;
        assert(dd1 == 180);
        assert(4 * dd1 * (180 - dd1) == 0);
        assert(sin_entry(j + 128) == 0);
    } else {
        assert(deg >= 1406);
        let d = deg;
        let dd = d / 1000;
        let num = 4 * dd * (180 - dd);
        let den = 40500 - dd * (180 - dd);
        let mag = if den == 0 { 0 } else { num * 256 / den };
        assert(sin_entry(j) == mag);
        assert(sin_entry(j + 128) == -mag);
    }
}

/// Truncating division treats a negated dividend symmetrically.
pub proof fn lemma_tdiv_neg(a: int, b: int)
    requires
        b > 0,
    ensures
        tdiv(-a, b) == -tdiv(a, b),
{
}

/// Sine repeats every turn.
pub proof fn lemma_sin_periodic(angle: int)
    ensures
        sin_entry((angle + 256) % 256) == sin_entry(angle % 256),
{
    vstd::arithmetic::div_mod::lemma_mod_add_multiples_vanish(angle, 256);
}

/// Every sine value is at most one in magnitude.
pub proof fn lemma_sin_bounded(i: int)
    requires
        0 <= i < 256,
    ensures
        -ONE <= sin_entry(i) <= ONE,
{
    let deg = i * 360_000 / 256;
    let d = if deg <= 180_000 { deg } else { deg - 180_000 };
    let dd = d / 1000;
    assert(0 <= deg <= 360_000 - 1) by (nonlinear_arith)
        requires
            0 <= i < 256,
            deg == i * 360_000 / 256,
    ;
    assert(0 <= dd <= 180);
    assert(0 <= dd * (180 - dd) <= 8100) by (nonlinear_arith)
        requires
            0 <= dd <= 180,
    ;
    let num = 4 * dd * (180 - dd);
    let den = 40500 - dd * (180 - dd);
    assert(4 * dd * (180 - dd) == 4 * (dd * (180 - dd))) by (nonlinear_arith);
    assert(num * 256 / den <= 256 && num * 256 / den >= 0) by (nonlinear_arith)
        requires
            0 <= num <= 32400,
            den >= 32400,
    ;
}

} // verus!
