#![allow(unused_imports)]
use lib::entity::{eflag, Entities, Entity, EntityId, Kind};
use lib::event::Sfx;
use lib::fixed::{px, to_px};
use lib::geom::{Dir, V2};
use lib::input::button;
use lib::items::Item;
use lib::level::{tile_center, Level, LevelKind, Spawn, ROOM_PX_H};
use lib::tiles::{self, flag, tile};
use lib::world::{camera_for_room, pstate, Role, World, RESPAWN_FRAMES, VIEW_H};

fn arena(fill: u8) -> World {
    arena_sized(fill, 2, 2)
}

fn arena_sized(fill: u8, w: i32, h: i32) -> World {
    let mut lv = Level::new(LevelKind::Overworld, w, h, fill);
    lv.entrance = V2::from_px(80, 64);
    let mut w = World::new(31, vec![lv], 1);
    w.join(0);
    w
}

#[test]
fn an_octorok_wanders() {
    let mut w = arena(tile::GRASS);
    let id = w.spawn(Kind::Octorok, 0, V2::from_px(100, 64));
    let start = w.entities.get(id).unwrap().pos;
    for _ in 0..180 {
        w.step();
    }
    let now = w.entities.get(id).unwrap().pos;
    assert_ne!(start, now, "the octorok should have moved");
}

#[test]
fn monsters_stay_out_of_the_water() {
    let mut w = arena(tile::GRASS);
    w.levels[0].map.fill_rect(0, 0, 20, 8, tile::WATER);
    w.levels[0].map.fill_rect(5, 3, 3, 3, tile::GRASS);
    let id = w.spawn(Kind::Octorok, 0, tile_center(6, 4));
    for _ in 0..300 {
        w.step();
        let Some(e) = w.entities.get(id) else { break };
        let t = w.levels[0].map.at_world(e.pos);
        assert!(
            !tiles::any(t, flag::WATER),
            "walked into water at {:?}",
            e.pos
        );
    }
}

#[test]
fn an_octorok_spits_rocks_at_a_hero() {
    let mut w = arena(tile::GRASS);
    let pos = w.player_entity(0).unwrap().pos;
    w.spawn(Kind::Octorok, 0, V2::new(pos.x + px(48), pos.y));
    let mut saw_rock = false;
    for _ in 0..600 {
        w.step();
        if w.entities.iter().into_iter().any(|(_, e)| e.kind == Kind::Rock) {
            saw_rock = true;
            break;
        }
    }
    assert!(saw_rock, "an aligned octorok should eventually shoot");
}

#[test]
fn a_boss_throws_fireballs() {
    let mut w = arena(tile::FLOOR);
    let pos = w.player_entity(0).unwrap().pos;
    let id = w.spawn(Kind::Boss, 0, V2::new(pos.x + px(40), pos.y));
    w.entities.get_mut(id).unwrap().state = 1;
    w.entities.get_mut(id).unwrap().timer = 1;
    let mut saw = false;
    for _ in 0..400 {
        w.step();
        if w.entities.iter().into_iter().any(|(_, e)| e.kind == Kind::Fireball) {
            saw = true;
            break;
        }
    }
    assert!(saw);
}

#[test]
fn distant_monsters_do_not_move() {
    let mut w = arena_sized(tile::GRASS, 4, 4);
    // Three rooms away, well outside the active window.
    let id = w.spawn(Kind::Octorok, 0, V2::from_px(500, 400));
    let start = w.entities.get(id).unwrap().pos;
    for _ in 0..60 {
        w.step();
    }
    // It is culled or asleep, but it must not have wandered.
    if let Some(e) = w.entities.get(id) {
        assert_eq!(e.pos, start);
    }
}
