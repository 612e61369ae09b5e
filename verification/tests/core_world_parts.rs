use lib::entity::{eflag, info, Entities, Entity, EntityId, Kind};
use lib::fixed::{px, to_px};
use lib::geom::{Rect, V2};
use lib::items::{Inventory, Item};
use lib::level::{Level, LevelKind, TileMap, ROOM_PX_H, ROOM_PX_W};
use lib::physics::{move_by, separate};
use lib::rng::Rng;
use lib::tiles::{self, tile};

#[test]
fn starts_with_a_sword_equipped() {
    let inv = Inventory::default();
    assert!(inv.has(Item::Sword));
    assert_eq!(inv.equipped[0], Item::Sword);
    assert!(!inv.has(Item::Bombs));
}

#[test]
fn bombs_need_ammo() {
    let mut inv = Inventory::default();
    inv.give(Item::Bombs);
    assert!(inv.has(Item::Bombs));
    assert!(!inv.can_use(Item::Bombs), "no bombs in the bag yet");
    inv.add_bombs(3);
    assert!(inv.can_use(Item::Bombs));
    assert!(inv.spend(Item::Bombs));
    assert_eq!(inv.bombs, 2);
}

#[test]
fn a_new_item_auto_equips_to_the_free_button() {
    let mut inv = Inventory::default();
    inv.give(Item::Bombs);
    assert_eq!(inv.equipped[1], Item::Bombs);
    inv.give(Item::Bow);
    assert_eq!(inv.equipped[1], Item::Bombs, "the button is taken now");
}

#[test]
fn cycling_never_equips_the_same_item_twice() {
    let mut inv = Inventory::default();
    inv.give(Item::Bombs);
    inv.give(Item::Bow);
    inv.give(Item::Boomerang);
    for _ in 0..12 {
        inv.cycle_equipped(1);
        assert_ne!(inv.equipped[0], inv.equipped[1]);
    }
}

#[test]
fn passive_items_are_never_equipped() {
    let mut inv = Inventory::default();
    inv.equipped[1] = Item::Nothing;
    inv.give(Item::Flippers);
    assert_eq!(inv.equipped[1], Item::Nothing);
    assert!(inv.has(Item::Flippers));
}

#[test]
fn rupees_cap_at_999() {
    let mut inv = Inventory::default();
    inv.add_rupees(60000);
    assert_eq!(inv.rupees, 999);
}

#[test]
fn a_key_is_spent_once() {
    let mut inv = Inventory::default();
    assert!(!inv.use_key());
    inv.keys = 1;
    assert!(inv.use_key());
    assert_eq!(inv.keys, 0);
    assert!(!inv.use_key());
}

#[test]
fn stale_handles_do_not_resolve() {
    let mut es = Entities::new();
    let a = es.spawn(Kind::Octorok, 0, V2::from_px(10, 10));
    es.despawn(a);
    es.collect_dead();
    let b = es.spawn(Kind::Moblin, 0, V2::from_px(20, 20));
    assert_eq!(a.idx, b.idx, "the slot should be reused");
    assert!(es.get(a).is_none(), "the old handle must not resolve");
    assert!(es.get(b).is_some());
}

#[test]
fn spawn_applies_kind_defaults() {
    let mut es = Entities::new();
    let id = es.spawn(Kind::Moblin, 0, V2::from_px(5, 5));
    let e = es.get(id).unwrap();
    assert_eq!(e.hp, info(Kind::Moblin).hp);
    assert!(e.has(eflag::VULNERABLE));
    assert!(e.kind.is_enemy());
}

#[test]
fn len_tracks_live_entities() {
    let mut es = Entities::new();
    assert!(es.is_empty());
    let a = es.spawn(Kind::Rupee, 0, V2::zero());
    let _b = es.spawn(Kind::Heart, 0, V2::zero());
    assert_eq!(es.len(), 2);
    es.despawn(a);
    assert_eq!(es.len(), 1);
    es.collect_dead();
    assert_eq!(es.len(), 1);
}

#[test]
fn kind_roundtrips_through_u8() {
    for k in [Kind::Player, Kind::Octorok, Kind::Boss, Kind::Chest] {
        assert_eq!(Kind::from_u8(k.to_u8()), k);
    }
}

#[test]
fn hurt_box_sits_above_the_feet() {
    let mut es = Entities::new();
    let id = es.spawn(Kind::Octorok, 0, V2::from_px(100, 100));
    let e = es.get(id).unwrap();
    assert!(e.hurt_box().y < e.body().y);
    assert!(e.hurt_box().bottom() >= e.body().bottom() - px(1));
}

#[test]
fn the_none_handle_never_resolves() {
    let mut es = Entities::new();
    let _a = es.spawn(Kind::Rupee, 0, V2::zero());
    assert!(EntityId::none().is_none());
    assert!(es.get(EntityId::none()).is_none());
}

#[test]
fn out_of_bounds_reads_as_void() {
    let m = TileMap::new(2, 2, tile::GRASS);
    assert_eq!(m.get(-1, 0), tile::VOID);
    assert_eq!(m.get(0, -1), tile::VOID);
    assert_eq!(m.get(m.w(), 0), tile::VOID);
    assert!(tiles::blocks_walk(m.get(-1, -1)));
}

#[test]
fn map_size_is_rooms_times_room_size() {
    let m = TileMap::new(3, 4, tile::GRASS);
    assert_eq!(m.w(), 30);
    assert_eq!(m.h(), 32);
    assert_eq!(m.raw().len(), 30 * 32);
}

#[test]
fn body_fits_respects_walls() {
    let mut m = TileMap::new(1, 1, tile::GRASS);
    m.set(2, 2, tile::WALL);
    // Tile (2,2) covers pixels 32..48.
    assert!(!m.body_fits(V2::from_px(40, 40), 12, 12));
    assert!(m.body_fits(V2::from_px(8, 8), 12, 12));
}

#[test]
fn a_body_touching_the_edge_of_a_wall_still_fits() {
    let mut m = TileMap::new(1, 1, tile::GRASS);
    m.set(2, 0, tile::WALL);
    // Wall starts at x=32; a 12 wide body centred at 26 ends exactly at 32.
    assert!(m.body_fits(V2::from_px(26, 8), 12, 12));
    assert!(!m.body_fits(V2::from_px(27, 8), 12, 12));
}

#[test]
fn room_lookup_matches_position() {
    let l = Level::new(LevelKind::Overworld, 4, 4, tile::GRASS);
    assert_eq!(l.room_at(V2::from_px(0, 0)), (0, 0));
    assert_eq!(l.room_at(V2::from_px(ROOM_PX_W, ROOM_PX_H)), (1, 1));
    assert_eq!(l.room_at(V2::from_px(ROOM_PX_W - 1, 0)), (0, 0));
    assert_eq!(l.room_index(4, 0), None);
}

#[test]
fn find_free_near_skips_water() {
    let mut l = Level::new(LevelKind::Overworld, 1, 1, tile::WATER);
    l.map.set(5, 5, tile::GRASS);
    assert_eq!(l.find_free_near(3, 3, 8), Some((5, 5)));
}

#[test]
fn stroke_rect_leaves_the_inside_alone() {
    let mut m = TileMap::new(1, 1, tile::GRASS);
    m.stroke_rect(1, 1, 4, 4, tile::WALL);
    assert_eq!(m.get(1, 1), tile::WALL);
    assert_eq!(m.get(4, 4), tile::WALL);
    assert_eq!(m.get(2, 2), tile::GRASS);
    assert_eq!(m.get(5, 5), tile::GRASS);
}

fn octorok_at(x: i32, y: i32) -> Entity {
    let mut es = Entities::new();
    let id = es.spawn(Kind::Octorok, 0, V2::from_px(x, y));
    es.get(id).unwrap().clone()
}

#[test]
fn walking_into_a_wall_stops() {
    let mut m = TileMap::new(1, 1, tile::GRASS);
    m.fill_rect(4, 0, 1, 8, tile::WALL);
    let mut e = octorok_at(40, 40);
    let hit = move_by(&mut m.clone(), &mut e, V2::new(px(40), 0));
    assert!(hit.x, "should be blocked by the wall");
    assert!(to_px(e.pos.x) <= 64 - 6, "stopped short of x=64: {}", to_px(e.pos.x));
}

#[test]
fn fast_projectiles_do_not_tunnel() {
    let mut m = TileMap::new(2, 1, tile::GRASS);
    m.fill_rect(6, 0, 1, 8, tile::WALL);
    let mut e = octorok_at(16, 40);
    e.flags |= eflag::FLYING;
    let hit = move_by(&m, &mut e, V2::new(px(200), 0));
    assert!(hit.x, "a 200px step must still notice the wall");
    assert!(to_px(e.pos.x) < 96);
}

#[test]
fn ghosts_pass_through_everything() {
    let m = TileMap::new(1, 1, tile::WALL);
    let mut e = octorok_at(8, 8);
    e.flags |= eflag::GHOST;
    let hit = move_by(&m, &mut e, V2::new(px(50), px(50)));
    assert!(!hit.any());
    assert_eq!(to_px(e.pos.x), 58);
}

#[test]
fn small_moves_are_not_lost_to_rounding() {
    let m = TileMap::new(1, 1, tile::GRASS);
    let mut e = octorok_at(40, 40);
    let before = e.pos.x;
    move_by(&m, &mut e, V2::new(3, 0));
    assert_eq!(e.pos.x - before, 3, "a sub-pixel step must still apply");
}

#[test]
fn corner_slide_slips_past_an_edge() {
    let mut m = TileMap::new(1, 1, tile::GRASS);
    // A wall in tile column 3 (pixels 48..64). A body at x=68 clips its
    // right edge by two pixels, which should be nudged clear rather than
    // catching.
    m.fill_rect(3, 0, 1, 4, tile::WALL);
    let mut e = octorok_at(68, 40);
    move_by(&m, &mut e, V2::new(0, px(6)));
    assert!(to_px(e.pos.y) > 40, "the body should have slipped past");
    assert!(to_px(e.pos.x) >= 70, "and been nudged clear of the corner");
}

#[test]
fn open_ground_moves_the_whole_way() {
    let m = TileMap::new(2, 2, tile::GRASS);
    let mut e = octorok_at(60, 60);
    let hit = move_by(&m, &mut e, V2::new(px(25), px(-13)));
    assert!(!hit.any());
    assert_eq!(e.pos, V2::from_px(85, 47));
}

#[test]
fn separate_pushes_along_the_shallow_axis() {
    let a = Rect::centered(V2::from_px(10, 10), 12, 12);
    let b = Rect::centered(V2::from_px(12, 18), 12, 12);
    let d = separate(&a, &b, px(1));
    assert_eq!(d.x, 0, "vertical overlap is shallower");
    assert!(d.y < 0, "a is above b so it is pushed up");
}

#[test]
fn separate_ignores_non_overlapping() {
    let a = Rect::centered(V2::from_px(0, 0), 8, 8);
    let b = Rect::centered(V2::from_px(100, 100), 8, 8);
    assert_eq!(separate(&a, &b, px(1)), V2::zero());
}

#[test]
fn same_seed_same_sequence() {
    let mut a = Rng::new(42);
    let mut b = Rng::new(42);
    for _ in 0..1000 {
        assert_eq!(a.next_u64(), b.next_u64());
    }
}

#[test]
fn different_seeds_diverge() {
    let mut a = Rng::new(1);
    let mut b = Rng::new(2);
    assert_ne!(a.next_u64(), b.next_u64());
}

#[test]
fn below_is_in_range() {
    let mut r = Rng::new(7);
    for n in 1..64u32 {
        for _ in 0..64 {
            assert!(r.below(n) < n);
        }
    }
    assert_eq!(r.below(0), 0);
}

#[test]
fn shuffle_keeps_elements() {
    let mut r = Rng::new(9);
    let mut v: Vec<i32> = (0..32).collect();
    r.shuffle(&mut v);
    v.sort();
    assert_eq!(v, (0..32).collect::<Vec<_>>());
}

#[test]
fn state_roundtrips() {
    let mut a = Rng::new(123);
    a.next_u64();
    let mut b = Rng::from_state(a.state());
    assert_eq!(a.next_u64(), b.next_u64());
}

#[test]
fn range_is_inclusive() {
    let mut r = Rng::new(5);
    let mut seen_lo = false;
    let mut seen_hi = false;
    for _ in 0..200 {
        let v = r.range(-2, 2);
        assert!((-2..=2).contains(&v));
        seen_lo |= v == -2;
        seen_hi |= v == 2;
    }
    assert!(seen_lo && seen_hi);
}
