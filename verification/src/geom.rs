//! Vectors, directions and axis-aligned boxes in fixed-point pixels.
use vstd::prelude::*;
use crate::fixed::{px, to_px, tdiv, floor_px, floor_sqrt, Fx, ONE};

verus! {

/// True when `v` fits in an `i32`.
pub open spec fn fits_i32(v: int) -> bool {
    i32::MIN <= v <= i32::MAX
}

/// A 2D fixed-point vector.
#[derive(Clone, Copy, PartialEq, Eq, Debug, Default, Structural)]
pub struct V2 {
    pub x: Fx,
    pub y: Fx,
}

impl V2 {
    /// The zero vector.
    pub fn zero() -> (r: V2)
        ensures
            r == (V2 { x: 0, y: 0 }),
    {
        V2 { x: 0, y: 0 }
    }

    pub fn new(x: Fx, y: Fx) -> (r: V2)
        ensures
            r.x == x,
            r.y == y,
    {
        V2 { x, y }
    }

    /// Builds a vector from whole pixel coordinates.
    pub fn from_px(x: i32, y: i32) -> (r: V2)
        ensures
            r.x == #[verifier::truncate] ((x * 256) as i32),
            r.y == #[verifier::truncate] ((y * 256) as i32),
            -0x80_0000 <= x < 0x80_0000 ==> r.x == x * 256,
            -0x80_0000 <= y < 0x80_0000 ==> r.y == y * 256,
    {
        V2 { x: px(x), y: px(y) }
    }

    /// Sum of two vectors.
    pub fn add(self, o: V2) -> (r: V2)
        requires
            fits_i32(self.x + o.x),
            fits_i32(self.y + o.y),
        ensures
            r.x == self.x + o.x,
            r.y == self.y + o.y,
    {
        V2::new(self.x + o.x, self.y + o.y)
    }

    /// Difference of two vectors.
    pub fn sub(self, o: V2) -> (r: V2)
        requires
            fits_i32(self.x - o.x),
            fits_i32(self.y - o.y),
        ensures
            r.x == self.x - o.x,
            r.y == self.y - o.y,
    {
        V2::new(self.x - o.x, self.y - o.y)
    }

    /// Scales by `n / d`, rounding towards zero; the zero vector when `d` is 0.
    pub fn scale(self, n: i32, d: i32) -> (r: V2)
        ensures
            d == 0 ==> r == (V2 { x: 0, y: 0 }),
            d != 0 ==> r.x == #[verifier::truncate] (tdiv(self.x * n, d as int) as i32),
            d != 0 ==> r.y == #[verifier::truncate] (tdiv(self.y * n, d as int) as i32),
    {
        if d == 0 {
            return V2::zero();
        }
        assert(-0x4000_0000_0000_0000 <= self.x * n <= 0x4000_0000_0000_0000) by (nonlinear_arith)
            requires
                fits_i32(self.x as int),
                fits_i32(n as int),
        ;
        assert(-0x4000_0000_0000_0000 <= self.y * n <= 0x4000_0000_0000_0000) by (nonlinear_arith)
            requires
                fits_i32(self.y as int),
                fits_i32(n as int),
        ;
        let qx: i64 = crate::fixed::div_trunc(self.x as i64 * n as i64, d as i64);
        let qy: i64 = crate::fixed::div_trunc(self.y as i64 * n as i64, d as i64);
        V2::new(#[verifier::truncate] (qx as Fx), #[verifier::truncate] (qy as Fx))
    }

    /// The squared length, as a plain number.
    pub open spec fn norm2(self) -> int {
        self.x * self.x + self.y * self.y
    }

    /// Length of the vector, in fixed point.
    pub fn length(self) -> (r: Fx)
        requires
            self.norm2() < i64::MAX,
        ensures
            r == #[verifier::truncate] (floor_sqrt(self.norm2()) as i32),
    {
        crate::fixed::length(self.x, self.y)
    }

    /// Returns the vector rescaled to `len`, or zero if it has no direction.
    pub fn with_length(self, len: Fx) -> (r: V2)
        requires
            self.norm2() < i64::MAX,
        ensures
            ({
                let l = #[verifier::truncate] (floor_sqrt(self.norm2()) as i32);
                &&& l == 0 ==> r == (V2 { x: 0, y: 0 })
                &&& l != 0 ==> r.x == #[verifier::truncate] (tdiv(self.x * len, l as int) as i32)
                &&& l != 0 ==> r.y == #[verifier::truncate] (tdiv(self.y * len, l as int) as i32)
            }),
    {
        let l = self.length();
        if l == 0 {
            V2::zero()
        } else {
            self.scale(len, l)
        }
    }

    /// The x coordinate in whole pixels.
    pub fn px_x(self) -> (r: i32)
        ensures
            r == floor_px(self.x as int),
    {
        to_px(self.x)
    }

    /// The y coordinate in whole pixels.
    pub fn px_y(self) -> (r: i32)
        ensures
            r == floor_px(self.y as int),
    {
        to_px(self.y)
    }
}

/// One of the four facings. The order is part of the wire format for
/// animation, so it must stay stable.
#[derive(Clone, Copy, PartialEq, Eq, Debug, Default, Structural)]
pub enum Dir {
    #[default]
    Down,
    Up,
    Left,
    Right,
}

/// The number a facing is stored as.
pub open spec fn dir_code(d: Dir) -> u8 {
    match d {
        Dir::Down => 0,
        Dir::Up => 1,
        Dir::Left => 2,
        Dir::Right => 3,
    }
}

/// The whole-pixel step a facing points along.
pub open spec fn dir_step(d: Dir) -> (int, int) {
    match d {
        Dir::Down => (0, 1),
        Dir::Up => (0, -1),
        Dir::Left => (-1, 0),
        Dir::Right => (1, 0),
    }
}

/// The facing pointing the other way.
pub open spec fn dir_opposite(d: Dir) -> Dir {
    match d {
        Dir::Down => Dir::Up,
        Dir::Up => Dir::Down,
        Dir::Left => Dir::Right,
        Dir::Right => Dir::Left,
    }
}

impl Dir {
    /// Every facing, in stored order.
    pub fn all() -> (r: [Dir; 4])
        ensures
            r@ == seq![Dir::Down, Dir::Up, Dir::Left, Dir::Right],
    {
        [Dir::Down, Dir::Up, Dir::Left, Dir::Right]
    }

    /// Unit vector for this direction, one pixel long.
    pub fn unit(self) -> (r: V2)
        ensures
            r.x == dir_step(self).0 * ONE,
            r.y == dir_step(self).1 * ONE,
    {
        match self {
            Dir::Down => V2::new(0, ONE),
            Dir::Up => V2::new(0, -ONE),
            Dir::Left => V2::new(-ONE, 0),
            Dir::Right => V2::new(ONE, 0),
        }
    }

    /// Whole-pixel step for this direction.
    pub fn step(self) -> (r: (i32, i32))
        ensures
            r.0 == dir_step(self).0,
            r.1 == dir_step(self).1,
    {
        match self {
            Dir::Down => (0, 1),
            Dir::Up => (0, -1),
            Dir::Left => (-1, 0),
            Dir::Right => (1, 0),
        }
    }

    /// The facing pointing the other way.
    pub fn opposite(self) -> (r: Dir)
        ensures
            r == dir_opposite(self),
    {
        match self {
            Dir::Down => Dir::Up,
            Dir::Up => Dir::Down,
            Dir::Left => Dir::Right,
            Dir::Right => Dir::Left,
        }
    }

    /// The number this facing is stored as.
    pub fn to_u8(self) -> (r: u8)
        ensures
            r == dir_code(self),
    {
        match self {
            Dir::Down => 0,
            Dir::Up => 1,
            Dir::Left => 2,
            Dir::Right => 3,
        }
    }

    /// Reads a facing back from its number; only the low two bits count.
    pub fn from_u8(v: u8) -> (r: Dir)
        ensures
            dir_code(r) == v % 4,
    {
        let low: u8 = v & 3;
        assert(low == v % 4) by (bit_vector)
            requires
                low == v & 3,
        ;
        match low {
            0 => Dir::Down,
            1 => Dir::Up,
            2 => Dir::Left,
            _ => Dir::Right,
        }
    }

    /// Picks the facing that best matches a delta, preferring the dominant axis.
    pub fn from_delta(dx: Fx, dy: Fx) -> (r: Dir)
        requires
            dx > i32::MIN,
            dy > i32::MIN,
        ensures
            r == dir_from_delta(dx as int, dy as int),
    {
        let ax: i32 = if dx < 0 { -dx } else { dx };
        let ay: i32 = if dy < 0 { -dy } else { dy };
        if ax > ay {
            if dx < 0 {
                Dir::Left
            } else {
                Dir::Right
            }
        } else if dy < 0 {
            Dir::Up
        } else {
            Dir::Down
        }
    }
}

/// Absolute value.
pub open spec fn abs(v: int) -> int {
    if v < 0 { -v } else { v }
}

/// The facing that best matches a delta, preferring the dominant axis.
pub open spec fn dir_from_delta(dx: int, dy: int) -> Dir {
    if abs(dx) > abs(dy) {
        if dx < 0 { Dir::Left } else { Dir::Right }
    } else if dy < 0 {
        Dir::Up
    } else {
        Dir::Down
    }
}

/// Turning round twice faces the way you started.
pub proof fn lemma_opposite_involutive(d: Dir)
    ensures
        dir_opposite(dir_opposite(d)) == d,
{
}

/// A facing survives being stored as a number and read back.
pub proof fn lemma_dir_code_roundtrip(d: Dir, r: Dir)
    requires
        dir_code(r) == dir_code(d) % 4,
    ensures
        r == d,
{
}

/// An axis-aligned box in fixed-point world space, anchored at its top-left.
#[derive(Clone, Copy, PartialEq, Eq, Debug, Default, Structural)]
pub struct Rect {
    pub x: Fx,
    pub y: Fx,
    pub w: Fx,
    pub h: Fx,
}

impl Rect {
    pub open spec fn right_spec(self) -> int {
        self.x + self.w
    }

    pub open spec fn bottom_spec(self) -> int {
        self.y + self.h
    }

    /// Every edge of the box is representable.
    pub open spec fn edges_fit(self) -> bool {
        fits_i32(self.right_spec()) && fits_i32(self.bottom_spec())
    }

    /// True when the two boxes share any area.
    pub open spec fn overlaps_spec(self, o: Rect) -> bool {
        self.x < o.right_spec() && o.x < self.right_spec() && self.y < o.bottom_spec() && o.y
            < self.bottom_spec()
    }

    pub fn new(x: Fx, y: Fx, w: Fx, h: Fx) -> (r: Rect)
        ensures
            r == (Rect { x, y, w, h }),
    {
        Rect { x, y, w, h }
    }

    /// Builds a box centred on `c` with the given pixel size.
    pub fn centered(c: V2, w_px: i32, h_px: i32) -> (r: Rect)
        requires
            -0x80_0000 <= w_px < 0x80_0000,
            -0x80_0000 <= h_px < 0x80_0000,
            fits_i32(c.x - tdiv(w_px * 256, 2)),
            fits_i32(c.y - tdiv(h_px * 256, 2)),
        ensures
            r.x == c.x - tdiv(w_px * 256, 2),
            r.y == c.y - tdiv(h_px * 256, 2),
            r.w == w_px * 256,
            r.h == h_px * 256,
    {
        let pw = px(w_px);
        let ph = px(h_px);
        Rect::new(c.x - pw / 2, c.y - ph / 2, pw, ph)
    }

    pub fn right(&self) -> (r: Fx)
        requires
            fits_i32(self.right_spec()),
        ensures
            r == self.right_spec(),
    {
        self.x + self.w
    }

    pub fn bottom(&self) -> (r: Fx)
        requires
            fits_i32(self.bottom_spec()),
        ensures
            r == self.bottom_spec(),
    {
        self.y + self.h
    }

    /// The point halfway across and down the box.
    pub fn center(&self) -> (r: V2)
        requires
            fits_i32(self.x + tdiv(self.w as int, 2)),
            fits_i32(self.y + tdiv(self.h as int, 2)),
        ensures
            r.x == self.x + tdiv(self.w as int, 2),
            r.y == self.y + tdiv(self.h as int, 2),
    {
        V2::new(self.x + self.w / 2, self.y + self.h / 2)
    }

    /// True when the two boxes share any area.
    pub fn overlaps(&self, o: &Rect) -> (r: bool)
        requires
            self.edges_fit(),
            o.edges_fit(),
        ensures
            r == self.overlaps_spec(*o),
    {
        self.x < o.right() && o.x < self.right() && self.y < o.bottom() && o.y < self.bottom()
    }

    /// True when the point lies inside the box.
    pub fn contains(&self, p: V2) -> (r: bool)
        requires
            self.edges_fit(),
        ensures
            r == (self.x <= p.x < self.right_spec() && self.y <= p.y < self.bottom_spec()),
    {
        p.x >= self.x && p.x < self.right() && p.y >= self.y && p.y < self.bottom()
    }

    /// Grows the box by `n` pixels on every side.
    pub fn inflate(&self, n_px: i32) -> (r: Rect)
        requires
            -0x80_0000 <= n_px < 0x80_0000,
            fits_i32(self.x - n_px * 256),
            fits_i32(self.y - n_px * 256),
            fits_i32(self.w + n_px * 512),
            fits_i32(self.h + n_px * 512),
            fits_i32(n_px * 512),
        ensures
            r.x == self.x - n_px * 256,
            r.y == self.y - n_px * 256,
            r.w == self.w + n_px * 512,
            r.h == self.h + n_px * 512,
    {
        let d = px(n_px);
        Rect::new(self.x - d, self.y - d, self.w + d * 2, self.h + d * 2)
    }

    /// The same box moved by `d`.
    pub fn offset(&self, d: V2) -> (r: Rect)
        requires
            fits_i32(self.x + d.x),
            fits_i32(self.y + d.y),
        ensures
            r.x == self.x + d.x,
            r.y == self.y + d.y,
            r.w == self.w,
            r.h == self.h,
    {
        Rect::new(self.x + d.x, self.y + d.y, self.w, self.h)
    }
}

/// Overlap is symmetric: if one box overlaps another, the other overlaps it.
pub proof fn lemma_overlap_symmetric(a: Rect, b: Rect)
    ensures
        a.overlaps_spec(b) == b.overlaps_spec(a),
{
}

/// Boxes that only touch along an edge do not overlap.
pub proof fn lemma_touching_is_not_overlapping(a: Rect, b: Rect)
    requires
        b.x == a.right_spec(),
    ensures
        !a.overlaps_spec(b),
{
}

} // verus!
