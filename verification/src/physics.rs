//! Movement against terrain.
//!
//! Movement is resolved one axis at a time in small steps: that keeps fast
//! projectiles from tunnelling through walls, and gives the classic feel where
//! walking diagonally into a wall slides you along it.
use vstd::prelude::*;
use crate::entity::eflag::{AIRBORNE, FLYING, GHOST};
use crate::entity::Entity;
use crate::fixed::{px, to_px, floor_px, tdiv, Fx, ONE};
use crate::geom::{Rect, V2, fits_i32, abs};
use crate::level::{TileMap, TILE_PX, tile_lo, tile_hi, div_floor};
use crate::tiles::{self, Tile, blocks_walk_spec, blocks_flight_spec};

verus! {

/// Which axes a move was blocked on.
#[derive(Clone, Copy, PartialEq, Eq, Debug, Default, Structural)]
pub struct Hit {
    pub x: bool,
    pub y: bool,
}

impl Hit {
    pub fn any(self) -> (r: bool)
        ensures
            r == (self.x || self.y),
    {
        self.x || self.y
    }
}

/// True when the entity flies or is in the air, so only tall terrain stops it.
pub open spec fn is_aloft(e: Entity) -> bool {
    e.flags & FLYING != 0 || e.flags & AIRBORNE != 0
}

/// True when this entity is stopped by the given terrain.
pub open spec fn blocks_spec(e: Entity, t: Tile) -> bool {
    if e.flags & GHOST != 0 {
        false
    } else if is_aloft(e) {
        blocks_flight_spec(t)
    } else {
        blocks_walk_spec(t)
    }
}

/// True when this entity is stopped by the given terrain.
pub fn blocks(e: &Entity, t: Tile) -> (r: bool)
    ensures
        r == blocks_spec(*e, t),
{
    if e.has(GHOST) {
        false
    } else if e.has(FLYING) || e.has(AIRBORNE) {
        tiles::blocks_flight(t)
    } else {
        tiles::blocks_walk(t)
    }
}

/// A body of a size that keeps all its pixel arithmetic small.
pub open spec fn sane_body(e: Entity) -> bool {
    0 <= e.body_w <= 4096 && 0 <= e.body_h <= 4096
}

/// A position well inside the representable world.
pub open spec fn near_origin(p: V2, limit: int) -> bool {
    -limit <= p.x <= limit && -limit <= p.y <= limit
}

/// The entity's collision body if its centre were at `pos`.
pub open spec fn body_at(e: Entity, pos: V2) -> Rect {
    Rect {
        x: (pos.x - tdiv(e.body_w * 256, 2)) as i32,
        y: (pos.y - tdiv(e.body_h * 256, 2)) as i32,
        w: (e.body_w * 256) as i32,
        h: (e.body_h * 256) as i32,
    }
}

/// True when no tile under the entity's body at `pos` stops it.
pub open spec fn fits_spec(m: TileMap, e: Entity, pos: V2) -> bool {
    let r = body_at(e, pos);
    forall|tx: int, ty: int|
        tile_lo(r.x as int) <= tx <= tile_hi(r.right_spec()) && tile_lo(r.y as int) <= ty
            <= tile_hi(r.bottom_spec()) ==> !blocks_spec(e, #[trigger] m.tile_at(tx, ty))
}

/// The box bounds that keep a body at `pos` within `i32`.
pub proof fn lemma_body_in_range(e: Entity, pos: V2)
    requires
        sane_body(e),
        near_origin(pos, 0x4000_0000),
    ensures
        TileMap::rect_in_range(body_at(e, pos)),
        fits_i32(pos.x - tdiv(e.body_w * 256, 2)),
        fits_i32(pos.y - tdiv(e.body_h * 256, 2)),
        body_at(e, pos).x == pos.x - tdiv(e.body_w * 256, 2),
        body_at(e, pos).y == pos.y - tdiv(e.body_h * 256, 2),
        body_at(e, pos).w == e.body_w * 256,
        body_at(e, pos).h == e.body_h * 256,
{
}

/// True when the entity's body would be clear at `pos`.
pub fn fits_at(map: &TileMap, e: &Entity, pos: V2) -> (r: bool)
    requires
        map.wf(),
        sane_body(*e),
        near_origin(pos, 0x4000_0000),
    ensures
        r == fits_spec(*map, *e, pos),
{
    proof {
        lemma_body_in_range(*e, pos);
    }
    let r = Rect::centered(pos, e.body_w, e.body_h);
    let stops = |t: Tile| -> (b: bool) ensures b == blocks_spec(*e, t) { blocks(e, t) };
    let ok = map.rect_is_clear(&r, stops);
    proof {
        if !ok {
            let (tx, ty) = choose|tx: int, ty: int|
                tile_lo(r.x as int) <= tx <= tile_hi(r.right_spec()) && tile_lo(r.y as int) <= ty
                    <= tile_hi(r.bottom_spec()) && #[trigger] map.tile_at(tx, ty) == map.tile_at(
                    tx,
                    ty,
                ) && blocks_spec(*e, map.tile_at(tx, ty));
        }
    }
    ok
}

/// Tile coordinates under a world position.
pub fn tile_coords(p: V2) -> (r: (i32, i32))
    ensures
        r.0 == tile_lo(p.x as int),
        r.1 == tile_lo(p.y as int),
{
    (div_floor(to_px(p.x), TILE_PX), div_floor(to_px(p.y), TILE_PX))
}

/// Boxes whose coordinates and sizes are small enough for `separate`.
pub open spec fn small_rect(r: Rect) -> bool {
    &&& -0x1000_0000 <= r.x <= 0x1000_0000
    &&& -0x1000_0000 <= r.y <= 0x1000_0000
    &&& -0x1000_0000 <= r.w <= 0x1000_0000
    &&& -0x1000_0000 <= r.h <= 0x1000_0000
}

/// The push `separate` gives `a` away from `b`.
pub open spec fn separate_spec(a: Rect, b: Rect, strength: int) -> (int, int) {
    if !a.overlaps_spec(b) {
        (0, 0)
    } else {
        let dx = (a.x + tdiv(a.w as int, 2)) - (b.x + tdiv(b.w as int, 2));
        let dy = (a.y + tdiv(a.h as int, 2)) - (b.y + tdiv(b.h as int, 2));
        let overlap_x = tdiv(a.w + b.w, 2) - abs(dx);
        let overlap_y = tdiv(a.h + b.h, 2) - abs(dy);
        if overlap_x <= 0 || overlap_y <= 0 {
            (0, 0)
        } else if overlap_x < overlap_y {
            (if dx < 0 { -strength } else { strength }, 0)
        } else {
            (0, if dy < 0 { -strength } else { strength })
        }
    }
}

/// Separates two overlapping solid bodies by pushing them apart along the
/// shallower axis. Returns the offset applied to `a` (the other body takes the
/// opposite offset).
pub fn separate(a: &Rect, b: &Rect, strength: Fx) -> (r: V2)
    requires
        small_rect(*a),
        small_rect(*b),
        strength > i32::MIN,
    ensures
        (r.x as int, r.y as int) == separate_spec(*a, *b, strength as int),
{
    if !a.overlaps(b) {
        return V2::zero();
    }
    let ac = a.center();
    let bc = b.center();
    let dx = ac.x - bc.x;
    let dy = ac.y - bc.y;
    let adx: i32 = if dx < 0 { -dx } else { dx };
    let ady: i32 = if dy < 0 { -dy } else { dy };
    let overlap_x = (a.w + b.w) / 2 - adx;
    let overlap_y = (a.h + b.h) / 2 - ady;
    if overlap_x <= 0 || overlap_y <= 0 {
        return V2::zero();
    }
    if overlap_x < overlap_y {
        V2::new(if dx < 0 { -strength } else { strength }, 0)
    } else {
        V2::new(0, if dy < 0 { -strength } else { strength })
    }
}

/// The pushes `separate` gives two bodies are opposite, unless their centres
/// line up on the axis the push is along (then both go the same way).
pub proof fn lemma_separate_opposite(a: Rect, b: Rect, strength: int)
    requires
        a.x + tdiv(a.w as int, 2) != b.x + tdiv(b.w as int, 2),
        a.y + tdiv(a.h as int, 2) != b.y + tdiv(b.h as int, 2),
    ensures
        separate_spec(b, a, strength).0 == -separate_spec(a, b, strength).0,
        separate_spec(b, a, strength).1 == -separate_spec(a, b, strength).1,
{
}

/// The spot `slide` tries at offset `off` (in fixed point) on side `sign`:
/// across the move for a horizontal one, along x for a vertical one.
pub open spec fn nudged(want: V2, horizontal: bool, off: int, sign: int) -> V2 {
    if horizontal {
        V2 { x: want.x, y: (want.y + off * sign) as i32 }
    } else {
        V2 { x: (want.x + off * sign) as i32, y: want.y }
    }
}

/// The first nudge, from `k` pixels out to five, that fits: at each distance
/// the negative side first.
pub open spec fn slide_from(m: TileMap, e: Entity, want: V2, horizontal: bool, k: int) -> Option<V2>
    decreases 6 - k,
{
    if k < 1 || k > 5 {
        None
    } else if fits_spec(m, e, nudged(want, horizontal, k * 256, -1)) {
        Some(nudged(want, horizontal, k * 256, -1))
    } else if fits_spec(m, e, nudged(want, horizontal, k * 256, 1)) {
        Some(nudged(want, horizontal, k * 256, 1))
    } else {
        slide_from(m, e, want, horizontal, k + 1)
    }
}

/// Where corner assistance puts a walking entity that clipped a corner on
/// its way to `want`, if anywhere. Flying and airborne entities get none.
pub open spec fn slide_spec(m: TileMap, e: Entity, want: V2, horizontal: bool) -> Option<V2> {
    if is_aloft(e) {
        None
    } else {
        slide_from(m, e, want, horizontal, 1)
    }
}

/// Nudges an entity around a corner it has clipped, the way Link slips past
/// the edge of a wall instead of catching on it.
fn slide(map: &TileMap, e: &Entity, want: V2, horizontal: bool) -> (r: Option<V2>)
    requires
        map.wf(),
        sane_body(*e),
        near_origin(want, 0x3000_0000),
    ensures
        r == slide_spec(*map, *e, want, horizontal),
{
    // Only walking entities get corner assistance.
    if e.has(FLYING) || e.has(AIRBORNE) {
        return None;
    }
    let max = px(5);
    let mut off: Fx = ONE;
    while off <= max
        invariant
            map.wf(),
            sane_body(*e),
            near_origin(want, 0x3000_0000),
            max == 1280,
            off % 256 == 0,
            256 <= off <= 1536,
            !is_aloft(*e),
            slide_from(*map, *e, want, horizontal, off / 256) == slide_from(
                *map,
                *e,
                want,
                horizontal,
                1,
            ),
        decreases 1536 - off,
    {
        let p0 = if horizontal {
            V2::new(want.x, want.y - off)
        } else {
            V2::new(want.x - off, want.y)
        };
        assert(p0 == nudged(want, horizontal, off as int, -1));
        if fits_at(map, e, p0) {
            return Some(p0);
        }
        let p1 = if horizontal {
            V2::new(want.x, want.y + off)
        } else {
            V2::new(want.x + off, want.y)
        };
        assert(p1 == nudged(want, horizontal, off as int, 1));
        if fits_at(map, e, p1) {
            return Some(p1);
        }
        off = off + ONE;
    }
    None
}

/// One axis of one step: go to `want` if the body fits there, else let
/// corner assistance have a go, else stay put and report a hit.
pub open spec fn axis_move(m: TileMap, e: Entity, pos: V2, want: V2, horizontal: bool) -> (V2, bool) {
    if fits_spec(m, e, want) {
        (want, false)
    } else {
        match slide_spec(m, e, want, horizontal) {
            Some(p) => (p, false),
            None => (pos, true),
        }
    }
}

/// One step of `s`: the x part first, then the y part; each reports whether
/// it was blocked.
pub open spec fn step_once(m: TileMap, e: Entity, pos: V2, s: V2) -> (V2, bool, bool) {
    let (p1, hx) = if s.x != 0 {
        axis_move(m, e, pos, V2 { x: (pos.x + s.x) as i32, y: pos.y }, true)
    } else {
        (pos, false)
    };
    let (p2, hy) = if s.y != 0 {
        axis_move(m, e, p1, V2 { x: p1.x, y: (p1.y + s.y) as i32 }, false)
    } else {
        (p1, false)
    };
    (p2, hx, hy)
}

/// Steps `i` up to `steps` of a move, starting at `pos` with the hits so far.
/// Every step is `step`; the last one also carries the remainder `rem`.
pub open spec fn run_steps(
    m: TileMap,
    e: Entity,
    pos: V2,
    step: V2,
    rem: V2,
    steps: int,
    i: int,
    hx: bool,
    hy: bool,
) -> (V2, bool, bool)
    decreases steps - i,
{
    if i >= steps {
        (pos, hx, hy)
    } else {
        let s = if i == steps - 1 {
            V2 { x: (step.x + rem.x) as i32, y: (step.y + rem.y) as i32 }
        } else {
            step
        };
        let (p, sx, sy) = step_once(m, e, pos, s);
        run_steps(m, e, p, step, rem, steps, i + 1, hx || sx, hy || sy)
    }
}

/// How many slices a move of `delta` is cut into: enough that none is longer
/// than half a tile, and at least one.
pub open spec fn step_count(delta: V2) -> int {
    let m = if abs(delta.x as int) >= abs(delta.y as int) {
        abs(delta.x as int)
    } else {
        abs(delta.y as int)
    };
    let n = (m + 2047) / 2048;
    if n >= 1 { n } else { 1 }
}

/// Where a move of `delta` leaves an entity, and which axes it hit.
pub open spec fn move_spec(m: TileMap, e: Entity, delta: V2) -> (V2, Hit) {
    if e.flags & GHOST != 0 {
        (V2 { x: (e.pos.x + delta.x) as i32, y: (e.pos.y + delta.y) as i32 }, Hit { x: false, y: false })
    } else {
        let n = step_count(delta);
        let step = V2 { x: tdiv(delta.x as int, n) as i32, y: tdiv(delta.y as int, n) as i32 };
        let rem = V2 {
            x: (delta.x - tdiv(delta.x as int, n) * n) as i32,
            y: (delta.y - tdiv(delta.y as int, n) * n) as i32,
        };
        let (p, hx, hy) = run_steps(m, e, e.pos, step, rem, n, 0, false, false);
        (p, Hit { x: hx, y: hy })
    }
}

/// Corner assistance moves a body at most five pixels, across the move.
pub proof fn lemma_slide_near(m: TileMap, e: Entity, want: V2, horizontal: bool, k: int)
    requires
        near_origin(want, 0x3000_0000),
    ensures
        slide_from(m, e, want, horizontal, k) matches Some(p) ==> {
            &&& horizontal ==> p.x == want.x && abs(p.y - want.y) <= 1280
            &&& !horizontal ==> p.y == want.y && abs(p.x - want.x) <= 1280
        },
    decreases 6 - k,
{
    if 1 <= k <= 5 {
        lemma_slide_near(m, e, want, horizontal, k + 1);
    }
}

/// One step moves each coordinate by at most the step plus a corner nudge.
pub proof fn lemma_step_near(m: TileMap, e: Entity, pos: V2, s: V2)
    requires
        near_origin(pos, 0x2c00_0000),
        abs(s.x as int) <= 0x10_0000,
        abs(s.y as int) <= 0x10_0000,
    ensures
        abs(step_once(m, e, pos, s).0.x - pos.x) <= abs(s.x as int) + 1280,
        abs(step_once(m, e, pos, s).0.y - pos.y) <= abs(s.y as int) + 1280,
{
    if s.x != 0 {
        let want = V2 { x: (pos.x + s.x) as i32, y: pos.y };
        lemma_slide_near(m, e, want, true, 1);
    }
    let p1 = if s.x != 0 {
        axis_move(m, e, pos, V2 { x: (pos.x + s.x) as i32, y: pos.y }, true)
    } else {
        (pos, false)
    }.0;
    if s.y != 0 {
        let want = V2 { x: p1.x, y: (p1.y + s.y) as i32 };
        lemma_slide_near(m, e, want, false, 1);
    }
}

/// The slicing arithmetic of a move: at least one slice, no more than 2^17,
/// each no longer than half a tile, and a remainder shorter than the slice
/// count, which together add up to the whole move.
pub proof fn lemma_slices(d: int, n: int)
    requires
        1 <= n,
        abs(d) <= n * 2048,
    ensures
        abs(tdiv(d, n)) <= 2048,
        abs(d - tdiv(d, n) * n) < n,
        tdiv(d, n) * n + (d - tdiv(d, n) * n) == d,
        abs(tdiv(d, n) * n) <= abs(d),
{
    if d >= 0 {
        assert(d / n <= 2048) by (nonlinear_arith)
            requires
                0 <= d <= n * 2048,
                n >= 1,
        ;
        assert(0 <= d - (d / n) * n < n) by (nonlinear_arith)
            requires
                d >= 0,
                n >= 1,
        ;
        assert(0 <= (d / n) * n <= d) by (nonlinear_arith)
            requires
                d >= 0,
                n >= 1,
        ;
    } else {
        let a = -d;
        assert(a / n <= 2048) by (nonlinear_arith)
            requires
                0 <= a <= n * 2048,
                n >= 1,
        ;
        assert(0 <= a - (a / n) * n < n) by (nonlinear_arith)
            requires
                a >= 0,
                n >= 1,
        ;
        assert(0 <= (a / n) * n <= a) by (nonlinear_arith)
            requires
                a >= 0,
                n >= 1,
        ;
        assert(-(a / n) * n == -((a / n) * n)) by (nonlinear_arith);
    }
}

/// The slice count of a move no longer than 2^28 is at most 2^17 and covers
/// each axis.
pub proof fn lemma_step_count(delta: V2)
    requires
        near_origin(delta, 0x1000_0000),
    ensures
        1 <= step_count(delta) <= 0x2_0000,
        abs(delta.x as int) <= step_count(delta) * 2048,
        abs(delta.y as int) <= step_count(delta) * 2048,
{
    let mm = if abs(delta.x as int) >= abs(delta.y as int) {
        abs(delta.x as int)
    } else {
        abs(delta.y as int)
    };
    let n = (mm + 2047) / 2048;
    assert(n * 2048 >= mm) by (nonlinear_arith)
        requires
            n == (mm + 2047) / 2048,
            mm >= 0,
    ;
    assert(n <= 0x2_0000) by (nonlinear_arith)
        requires
            n == (mm + 2047) / 2048,
            0 <= mm <= 0x1000_0000,
    ;
}

/// Entities that differ only in position meet terrain the same way.
pub proof fn lemma_same_mover(m: TileMap, e1: Entity, e2: Entity, pos: V2, s: V2)
    requires
        e1.flags == e2.flags,
        e1.body_w == e2.body_w,
        e1.body_h == e2.body_h,
    ensures
        step_once(m, e1, pos, s) == step_once(m, e2, pos, s),
{
    assert forall|p: V2| fits_spec(m, e1, p) == fits_spec(m, e2, p) by {
        assert(body_at(e1, p) == body_at(e2, p));
        assert forall|t: Tile| blocks_spec(e1, t) == blocks_spec(e2, t) by {}
    }
    assert forall|want: V2, h: bool, k: int| slide_from(m, e1, want, h, k) == slide_from(m, e2, want, h, k) by {
        lemma_same_slide(m, e1, e2, want, h, k);
    }
}

proof fn lemma_same_slide(m: TileMap, e1: Entity, e2: Entity, want: V2, h: bool, k: int)
    requires
        e1.flags == e2.flags,
        e1.body_w == e2.body_w,
        e1.body_h == e2.body_h,
    ensures
        slide_from(m, e1, want, h, k) == slide_from(m, e2, want, h, k),
    decreases 6 - k,
{
    assert forall|p: V2| fits_spec(m, e1, p) == fits_spec(m, e2, p) by {
        assert(body_at(e1, p) == body_at(e2, p));
        assert forall|t: Tile| blocks_spec(e1, t) == blocks_spec(e2, t) by {}
    }
    if 1 <= k <= 5 {
        lemma_same_slide(m, e1, e2, want, h, k + 1);
    }
}

/// One slice of a move: the x part, then the y part.
fn move_slice(map: &TileMap, e: &mut Entity, s: V2, hit: &mut Hit)
    requires
        map.wf(),
        sane_body(*old(e)),
        near_origin(old(e).pos, 0x2c00_0000),
        abs(s.x as int) <= 0x4_0000,
        abs(s.y as int) <= 0x4_0000,
    ensures
        ({
            let (q, qx, qy) = step_once(*map, *old(e), old(e).pos, s);
            &&& final(e).pos == q
            &&& final(hit).x == (old(hit).x || qx)
            &&& final(hit).y == (old(hit).y || qy)
        }),
        *final(e) == (Entity { pos: final(e).pos, ..*old(e) }),
        abs(final(e).pos.x - old(e).pos.x) <= abs(s.x as int) + 1280,
        abs(final(e).pos.y - old(e).pos.y) <= abs(s.y as int) + 1280,
{
    let ghost e0 = *e;
    proof {
        lemma_step_near(*map, e0, e0.pos, s);
    }
    if s.x != 0 {
        let want = V2::new(e.pos.x + s.x, e.pos.y);
        proof {
            lemma_slide_near(*map, e0, want, true, 1);
        }
        if fits_at(map, e, want) {
            e.pos = want;
        } else {
            match slide(map, e, want, true) {
                Some(p) => {
                    e.pos = p;
                },
                None => {
                    hit.x = true;
                },
            }
        }
    }
    let ghost e1 = *e;
    proof {
        lemma_same_mover(*map, e0, e1, e1.pos, s);
    }
    if s.y != 0 {
        let want = V2::new(e.pos.x, e.pos.y + s.y);
        proof {
            lemma_slide_near(*map, e0, want, false, 1);
            assert forall|p: V2| fits_spec(*map, e1, p) == fits_spec(*map, e0, p) by {
                assert(body_at(e1, p) == body_at(e0, p));
                assert forall|t: Tile| blocks_spec(e1, t) == blocks_spec(e0, t) by {}
            }
            lemma_same_slide(*map, e1, e0, want, false, 1);
        }
        if fits_at(map, e, want) {
            e.pos = want;
        } else {
            match slide(map, e, want, false) {
                Some(p) => {
                    e.pos = p;
                },
                None => {
                    hit.y = true;
                },
            }
        }
    }
}

/// Moves an entity by `delta`, stopping against terrain.
///
/// The move is cut into slices no longer than half a tile so nothing tunnels
/// through a wall; each slice moves along x and then along y, and an axis that
/// is blocked gets corner assistance before it counts as a hit. Returns which
/// axes were blocked. Only the entity's position changes; a ghost simply moves
/// the whole way.
pub fn move_by(map: &TileMap, e: &mut Entity, delta: V2) -> (hit: Hit)
    requires
        map.wf(),
        sane_body(*old(e)),
        near_origin(old(e).pos, 0x1000_0000),
        near_origin(delta, 0x1000_0000),
    ensures
        (final(e).pos, hit) == move_spec(*map, *old(e), delta),
        *final(e) == (Entity { pos: final(e).pos, ..*old(e) }),
{
    let mut hit = Hit { x: false, y: false };
    if e.has(GHOST) {
        e.pos = e.pos.add(delta);
        return hit;
    }
    proof {
        lemma_step_count(delta);
    }
    let max_step = px(TILE_PX / 2);
    let adx: i32 = if delta.x < 0 { -delta.x } else { delta.x };
    let ady: i32 = if delta.y < 0 { -delta.y } else { delta.y };
    let longest: i32 = if adx >= ady { adx } else { ady };
    let mut steps: i32 = (longest + max_step - 1) / max_step;
    if steps < 1 {
        steps = 1;
    }
    assert(steps == step_count(delta));
    proof {
        lemma_slices(delta.x as int, steps as int);
        lemma_slices(delta.y as int, steps as int);
    }
    let sx = crate::fixed::div_trunc(delta.x as i64, steps as i64) as i32;
    let sy = crate::fixed::div_trunc(delta.y as i64, steps as i64) as i32;
    let step = V2::new(sx, sy);
    let rem = V2::new(delta.x - step.x * steps, delta.y - step.y * steps);
    let ghost e0 = *e;
    let mut i: i32 = 0;
    while i < steps
        invariant
            map.wf(),
            sane_body(e0),
            e0.flags & GHOST == 0,
            near_origin(e0.pos, 0x1000_0000),
            1 <= steps <= 0x2_0000,
            0 <= i <= steps,
            abs(step.x as int) <= 2048,
            abs(step.y as int) <= 2048,
            abs(rem.x as int) < steps,
            abs(rem.y as int) < steps,
            *e == (Entity { pos: e.pos, ..e0 }),
            abs(e.pos.x - e0.pos.x) <= i * 3328 + (if i == steps { steps as int } else { 0 }),
            abs(e.pos.y - e0.pos.y) <= i * 3328 + (if i == steps { steps as int } else { 0 }),
            run_steps(*map, e0, e.pos, step, rem, steps as int, i as int, hit.x, hit.y)
                == run_steps(*map, e0, e0.pos, step, rem, steps as int, 0, false, false),
        decreases steps - i,
    {
        assert(i * 3328 <= 0x2_0000 * 3328) by (nonlinear_arith)
            requires
                0 <= i <= 0x2_0000,
        ;
        let ghost before = *e;
        let mut s = step;
        if i == steps - 1 {
            s = s.add(rem);
        }
        move_slice(map, e, s, &mut hit);
        proof {
            lemma_same_mover(*map, before, e0, before.pos, s);
        }
        i = i + 1;
    }
    hit
}

} // verus!
