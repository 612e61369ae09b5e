use lib::event::{Events, Sfx};
use lib::fixed::{cos, fmul, isqrt, px, round_px, sin, to_px, HALF, ONE};
use lib::geom::{Dir, Rect, V2};
use lib::input::{button, Input};
use lib::tiles::{any, blocks_flight, blocks_walk, destroyed, flag, flags, tile};

#[test]
fn px_roundtrip() {
    assert_eq!(to_px(px(7)), 7);
    assert_eq!(to_px(px(-7)), -7);
    assert_eq!(round_px(px(3) + HALF), 4);
}

#[test]
fn fmul_is_pixel_scaled() {
    assert_eq!(fmul(px(3), px(4)), px(12));
    assert_eq!(fmul(px(3), HALF), px(1) + HALF);
}

#[test]
fn isqrt_matches() {
    for n in [0i64, 1, 2, 3, 4, 15, 16, 17, 100, 12345, 1 << 30] {
        let r = isqrt(n);
        assert!(r * r <= n, "{n}");
        assert!((r + 1) * (r + 1) > n, "{n}");
    }
}

#[test]
fn trig_is_bounded_and_periodic() {
    for a in 0..256 {
        assert!(sin(a).abs() <= ONE + 2, "sin({a}) = {}", sin(a));
        assert_eq!(sin(a), sin(a + 256));
    }
    assert!((sin(0)).abs() <= 2);
    assert!((sin(64) - ONE).abs() <= 6);
    assert!((sin(192) + ONE).abs() <= 6);
}

#[test]
fn cos_is_a_quarter_turn_ahead() {
    assert_eq!(cos(0), sin(64));
    assert_eq!(cos(-64), sin(0));
    assert_eq!(sin(-64), sin(192));
}

#[test]
fn rect_overlap() {
    let a = Rect::new(px(0), px(0), px(16), px(16));
    let b = Rect::new(px(8), px(8), px(16), px(16));
    let c = Rect::new(px(16), px(0), px(16), px(16));
    assert!(a.overlaps(&b));
    assert!(!a.overlaps(&c), "edge contact is not an overlap");
    assert!(b.overlaps(&a));
}

#[test]
fn dir_roundtrip() {
    for d in Dir::all() {
        assert_eq!(d.opposite().opposite(), d);
        assert_eq!(Dir::from_u8(d.to_u8()), d);
    }
}

#[test]
fn dir_from_delta_prefers_dominant_axis() {
    assert_eq!(Dir::from_delta(px(-10), px(3)), Dir::Left);
    assert_eq!(Dir::from_delta(px(2), px(-9)), Dir::Up);
}

#[test]
fn with_length_normalises() {
    let v = V2::from_px(3, 4).with_length(px(10));
    assert!((v.length() - px(10)).abs() < px(1), "{v:?}");
}

#[test]
fn edges() {
    let mut i = Input::default();
    i.advance(button::A);
    assert!(i.pressed(button::A));
    assert!(i.held(button::A));
    i.advance(button::A);
    assert!(!i.pressed(button::A));
    i.advance(0);
    assert!(i.released(button::A));
}

#[test]
fn axes_cancel() {
    let i = Input::new(button::LEFT | button::RIGHT);
    assert_eq!(i.axis_x(), 0);
    let i = Input::new(button::UP);
    assert_eq!(i.axis_y(), -1);
}

#[test]
fn queue_is_bounded() {
    let mut q = Events::new();
    for _ in 0..1000 {
        q.sound(Sfx::EnemyHit);
    }
    assert_eq!(q.len(), 256);
}

#[test]
fn has_sound_finds_it() {
    let mut q = Events::new();
    q.sound(Sfx::Rupee);
    assert!(q.has_sound(Sfx::Rupee));
    assert!(!q.has_sound(Sfx::Explosion));
    q.clear();
    assert!(q.is_empty());
}

#[test]
fn grass_is_walkable_and_walls_are_not() {
    assert!(!blocks_walk(tile::GRASS));
    assert!(blocks_walk(tile::WALL));
    assert!(blocks_flight(tile::WALL));
    assert!(!blocks_flight(tile::BUSH), "arrows fly over bushes");
}

#[test]
fn cutting_a_bush_leaves_grass() {
    assert_eq!(destroyed(tile::BUSH), tile::GRASS);
    assert_eq!(destroyed(tile::GRASS), tile::GRASS);
}

#[test]
fn flags_never_index_out_of_bounds() {
    for t in 0..=255u8 {
        let _ = flags(t);
    }
}

#[test]
fn locked_doors_are_solid() {
    assert!(blocks_walk(tile::DOOR_LOCKED));
    assert!(any(tile::DOOR_LOCKED, flag::LOCKED));
}
