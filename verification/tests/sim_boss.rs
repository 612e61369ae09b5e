#![allow(unused_imports)]
use lib::entity::{eflag, Entities, Entity, EntityId, Kind};
use lib::event::Sfx;
use lib::fixed::{px, to_px};
use lib::geom::{Dir, V2};
use lib::input::button;
use lib::items::Item;
use lib::level::{tile_center, Level, LevelKind, Spawn, ROOM_PX_H};
use lib::tiles::{self, flag, tile};
use lib::world::{camera_for_room, pstate, Role, World, RESPAWN_FRAMES, VIEW_H};

fn dungeon_world() -> World {
    let mut lv = Level::new(LevelKind::Dungeon, 2, 2, tile::FLOOR);
    lv.entrance = V2::from_px(80, 64);
    lv.spawns.push(Spawn {
        room: 3,
        kind: Kind::Boss.to_u8(),
        tx: 15,
        ty: 12,
        param: 0,
    });
    let mut w = World::new(5150, vec![lv], 2);
    w.join(0);
    w
}

#[test]
fn a_player_can_take_over_a_boss() {
    let mut w = dungeon_world();
    assert!(w.possess_boss(1));
    assert_eq!(w.players[1].role, Role::Boss);
    let e = w.player_entity(1).unwrap();
    assert_eq!(e.kind, Kind::Boss);
    assert!(e.has(eflag::POSSESSED));
}

#[test]
fn a_possessed_boss_moves_on_command_not_on_its_own() {
    let mut w = dungeon_world();
    w.possess_boss(1);
    let start = w.player_entity(1).unwrap().pos;
    for _ in 0..30 {
        w.set_input(1, 0);
        w.step();
    }
    assert_eq!(
        w.player_entity(1).unwrap().pos,
        start,
        "a boss with no input should stand still"
    );
    for _ in 0..30 {
        w.set_input(1, button::LEFT);
        w.step();
    }
    assert!(w.player_entity(1).unwrap().pos.x < start.x);
}

#[test]
fn a_boss_slam_hurts_a_hero_standing_next_to_it() {
    let mut w = dungeon_world();
    w.possess_boss(1);
    let boss_pos = w.player_entity(1).unwrap().pos;
    if let Some(hero) = w.entities.get_mut(w.players[0].entity) {
        hero.pos = V2::new(boss_pos.x + px(14), boss_pos.y);
        hero.level = w.players[1].level;
        hero.iframes = 0;
    }
    w.players[0].level = w.players[1].level;
    let hp0 = w.player_entity(0).unwrap().hp;
    w.set_input(1, button::A);
    w.step();
    assert!(w.player_entity(0).unwrap().hp < hp0);
}

#[test]
fn a_boss_can_throw_a_ring_of_fire() {
    let mut w = dungeon_world();
    w.possess_boss(1);
    w.set_input(1, button::B);
    w.step();
    let fireballs = w
        .entities.iter().into_iter()
        .filter(|(_, e)| e.kind == Kind::Fireball)
        .count();
    assert_eq!(fireballs, 8);
}

#[test]
fn heroes_can_still_hurt_a_player_driven_boss() {
    let mut w = dungeon_world();
    w.possess_boss(1);
    let boss = w.players[1].entity;
    let hp0 = w.entities.get(boss).unwrap().hp;
    let at = w.entities.get(boss).unwrap().pos;
    w.damage(boss, 3, V2::new(at.x - px(20), at.y), 4);
    assert!(w.entities.get(boss).unwrap().hp < hp0);
}

#[test]
fn killing_a_possessed_boss_returns_that_player_to_being_a_hero() {
    let mut w = dungeon_world();
    w.possess_boss(1);
    let boss = w.players[1].entity;
    w.kill(boss);
    w.set_input(1, 0);
    w.step();
    assert_eq!(w.players[1].role, Role::Hero);
    let e = w.player_entity(1).expect("should be a hero again");
    assert_eq!(e.kind, Kind::Player);
}

#[test]
fn a_world_with_no_boss_refuses_possession() {
    let lv = Level::new(LevelKind::Overworld, 1, 1, tile::GRASS);
    let mut w = World::new(1, vec![lv], 1);
    w.join(0);
    assert!(!w.possess_boss(0));
    assert_eq!(w.players[0].role, Role::Hero);
}

#[test]
fn possession_is_deterministic() {
    let mut a = dungeon_world();
    let mut b = dungeon_world();
    a.possess_boss(1);
    b.possess_boss(1);
    for f in 0..200u16 {
        let buttons = (f * 7) & 0x3f;
        a.set_input(1, buttons);
        b.set_input(1, buttons);
        a.set_input(0, button::RIGHT);
        b.set_input(0, button::RIGHT);
        a.step();
        b.step();
    }
    assert_eq!(a.checksum(), b.checksum());
}
