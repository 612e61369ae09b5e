#![allow(unused_imports)]
use lib::entity::{eflag, Entities, Entity, EntityId, Kind};
use lib::event::Sfx;
use lib::fixed::{px, to_px};
use lib::geom::{Dir, V2};
use lib::input::button;
use lib::items::Item;
use lib::level::{tile_center, Level, LevelKind, Spawn, ROOM_PX_H};
use lib::tiles::{self, flag, tile};
use lib::world::{camera_for_room, pstate, Role, World, RESPAWN_FRAMES, VIEW_H};

fn world_with(fill: u8) -> World {
    let mut lv = Level::new(LevelKind::Overworld, 2, 2, fill);
    lv.entrance = V2::from_px(80, 64);
    let mut w = World::new(7, vec![lv], 1);
    w.join(0);
    w
}

#[test]
fn walking_right_moves_right() {
    let mut w = world_with(tile::GRASS);
    let x0 = w.player_entity(0).unwrap().pos.x;
    for _ in 0..10 {
        w.set_input(0, button::RIGHT);
        w.step();
    }
    let e = w.player_entity(0).unwrap();
    assert!(e.pos.x > x0);
    assert_eq!(e.dir, Dir::Right);
}

#[test]
fn diagonal_is_not_faster_than_straight() {
    let mut straight = world_with(tile::GRASS);
    let mut diag = world_with(tile::GRASS);
    for _ in 0..30 {
        straight.set_input(0, button::RIGHT);
        straight.step();
        diag.set_input(0, button::RIGHT | button::DOWN);
        diag.step();
    }
    let a = straight.player_entity(0).unwrap().pos;
    let b = diag.player_entity(0).unwrap().pos;
    let da = a.sub(V2::from_px(80, 64)).length();
    let db = b.sub(V2::from_px(80, 64)).length();
    assert!((da - db).abs() < px(3), "{da} vs {db}");
}

#[test]
fn swinging_the_sword_spawns_a_blade() {
    let mut w = world_with(tile::GRASS);
    w.set_input(0, button::A);
    w.step();
    assert!(w.entities.iter().into_iter().any(|(_, e)| e.kind == Kind::SwordSwing));
    assert!(w.events.has_sound(Sfx::SwordSwing));
    assert_eq!(w.player_entity(0).unwrap().state, pstate::ATTACK);
}

#[test]
fn a_full_health_swing_throws_a_beam() {
    let mut w = world_with(tile::GRASS);
    w.set_input(0, button::A);
    w.step();
    assert!(w.entities.iter().into_iter().any(|(_, e)| e.kind == Kind::SwordBeam));
}

#[test]
fn a_wounded_swing_throws_no_beam() {
    let mut w = world_with(tile::GRASS);
    w.hurt_player(0, 2, V2::from_px(0, 0));
    for _ in 0..60 {
        w.set_input(0, 0);
        w.step();
    }
    w.set_input(0, button::A);
    w.step();
    assert!(!w.entities.iter().into_iter().any(|(_, e)| e.kind == Kind::SwordBeam));
}

#[test]
fn walking_into_deep_water_pushes_you_back_and_hurts() {
    let mut w = world_with(tile::GRASS);
    w.levels[0].map.fill_rect(6, 0, 4, 8, tile::WATER);
    let hp0 = w.player_entity(0).unwrap().hp;
    for _ in 0..40 {
        w.set_input(0, button::RIGHT);
        w.step();
    }
    let e = w.player_entity(0).unwrap();
    assert!(e.hp < hp0, "should have been hurt by the water");
    assert!(
        !tiles::any(w.levels[0].map.at_world(e.pos), flag::WATER),
        "should be back on dry land"
    );
}

#[test]
fn flippers_let_you_swim() {
    let mut w = world_with(tile::GRASS);
    w.levels[0].map.fill_rect(6, 0, 4, 8, tile::WATER);
    w.players[0].inv.give(Item::Flippers);
    for _ in 0..40 {
        w.set_input(0, button::RIGHT);
        w.step();
    }
    let e = w.player_entity(0).unwrap();
    assert_eq!(e.hp, 12);
    assert_eq!(e.state, pstate::SWIM);
}

#[test]
fn falling_in_a_pit_costs_health_and_moves_you_back() {
    let mut w = world_with(tile::FLOOR);
    w.levels[0].map.fill_rect(6, 0, 3, 8, tile::PIT);
    // Long enough to walk in, short enough that repeated falls do not kill
    // and respawn the player.
    for _ in 0..20 {
        w.set_input(0, button::RIGHT);
        w.step();
    }
    // Let the fall finish without walking straight back in.
    for _ in 0..40 {
        w.set_input(0, 0);
        w.step();
    }
    let e = w.player_entity(0).unwrap();
    assert!(e.hp < 12);
    assert!(
        !tiles::any(w.levels[0].map.at_world(e.pos), flag::PIT),
        "should have been placed back on solid ground"
    );
}

/// Stands the player in the middle of a tile so that walking into the
/// next one along cannot slip past its corner.
fn center_player_on_tile(w: &mut World, tx: i32, ty: i32) {
    let eid = w.players[0].entity;
    let c = tile_center(tx, ty);
    let e = w.entities.get_mut(eid).unwrap();
    e.pos = c;
    e.data[0] = c.x;
    e.data[1] = c.y;
}

#[test]
fn lifting_a_bush_removes_it_and_gives_you_something_to_throw() {
    let mut w = world_with(tile::GRASS);
    center_player_on_tile(&mut w, 5, 4);
    // Put a bush directly to the right of the player.
    let (tx, ty) = (6, 4);
    w.levels[0].map.set(tx, ty, tile::BUSH);
    w.players[0].inv.equipped[0] = Item::Bracelet;
    w.players[0].inv.give(Item::Bracelet);
    for _ in 0..20 {
        w.set_input(0, button::RIGHT);
        w.step();
    }
    w.set_input(0, button::RIGHT | button::A);
    w.step();
    assert_eq!(w.levels[0].map.get(tx, ty), tile::GRASS);
    assert!(!w.players[0].carrying.is_none());
    // Throwing it sends it flying.
    w.set_input(0, 0);
    w.step();
    w.set_input(0, button::A);
    w.step();
    assert!(
        w.players[0].carrying.is_none(),
        "it should have been thrown"
    );
}

#[test]
fn a_locked_door_consumes_a_key() {
    let mut w = world_with(tile::FLOOR);
    center_player_on_tile(&mut w, 5, 4);
    let (tx, ty) = (6, 4);
    w.levels[0].map.set(tx, ty, tile::DOOR_LOCKED);
    w.players[0].inv.keys = 1;
    // Walk up against the door first: you have to be next to it.
    for _ in 0..20 {
        w.set_input(0, button::RIGHT);
        w.step();
    }
    w.set_input(0, button::RIGHT | button::A);
    w.step();
    assert_eq!(w.levels[0].map.get(tx, ty), tile::DOOR_OPEN);
    assert_eq!(w.players[0].inv.keys, 0);
}

#[test]
fn crossing_a_room_boundary_scrolls_the_camera() {
    let mut w = world_with(tile::GRASS);
    assert_eq!(w.players[0].room, (0, 0));
    for _ in 0..200 {
        w.set_input(0, button::RIGHT);
        w.step();
        if w.players[0].room == (1, 0) {
            break;
        }
    }
    assert_eq!(w.players[0].room, (1, 0));
    assert!(w.players[0].camera.target_x > 0);
}

#[test]
fn bombs_need_ammunition() {
    let mut w = world_with(tile::GRASS);
    w.players[0].inv.give(Item::Bombs);
    w.players[0].inv.equipped[1] = Item::Bombs;
    w.set_input(0, button::B);
    w.step();
    assert!(!w.entities.iter().into_iter().any(|(_, e)| e.kind == Kind::Bomb));
    w.players[0].inv.add_bombs(1);
    w.set_input(0, 0);
    w.step();
    w.set_input(0, button::B);
    w.step();
    assert!(w.entities.iter().into_iter().any(|(_, e)| e.kind == Kind::Bomb));
    assert_eq!(w.players[0].inv.bombs, 0);
}
