#![allow(unused_imports)]
use lib::entity::{eflag, Entities, Entity, EntityId, Kind};
use lib::event::Sfx;
use lib::fixed::{px, to_px};
use lib::geom::{Dir, V2};
use lib::input::button;
use lib::items::Item;
use lib::level::{tile_center, Level, LevelKind, Spawn, ROOM_PX_H};
use lib::tiles::{self, flag, tile};
use lib::world::{camera_for_room, pstate, Role, World, RESPAWN_FRAMES, VIEW_H};

fn test_world() -> World {
    let mut lv = Level::new(LevelKind::Overworld, 2, 2, tile::GRASS);
    lv.entrance = V2::from_px(80, 64);
    let mut w = World::new(1234, vec![lv], 2);
    w.join(0);
    w
}

#[test]
fn joining_places_a_player() {
    let w = test_world();
    assert!(w.players[0].is_alive());
    let e = w.player_entity(0).unwrap();
    assert_eq!(e.kind, Kind::Player);
    assert_eq!(e.pos, V2::from_px(80, 64));
}

#[test]
fn stepping_is_deterministic() {
    let mut a = test_world();
    let mut b = test_world();
    for f in 0..300u16 {
        let buttons = (f as u16 * 37) & 0x3f;
        a.set_input(0, buttons);
        b.set_input(0, buttons);
        a.step();
        b.step();
    }
    let ea = a.player_entity(0).unwrap();
    let eb = b.player_entity(0).unwrap();
    assert_eq!(ea.pos, eb.pos);
    assert_eq!(a.rng.state(), b.rng.state());
    assert_eq!(a.entities.len(), b.entities.len());
}

#[test]
fn damage_kills_and_drops() {
    let mut w = test_world();
    let id = w.spawn(Kind::Octorok, 0, V2::from_px(100, 64));
    assert!(w.damage(id, 99, V2::from_px(90, 64), 4));
    assert!(w.entities.get(id).is_none(), "the octorok should be dead");
    assert!(w.events.has_sound(Sfx::EnemyDie));
}

#[test]
fn iframes_block_repeat_damage() {
    let mut w = test_world();
    let id = w.spawn(Kind::Moblin, 0, V2::from_px(100, 64));
    assert!(w.damage(id, 1, V2::from_px(90, 64), 0));
    assert!(!w.damage(id, 1, V2::from_px(90, 64), 0), "still invulnerable");
    assert_eq!(w.entities.get(id).unwrap().hp, 2);
}

#[test]
fn a_dying_player_respawns_at_the_entrance() {
    let mut w = test_world();
    let eid = w.players[0].entity;
    w.entities.get_mut(eid).unwrap().pos = V2::from_px(200, 200);
    w.hurt_player(0, 99, V2::from_px(190, 200));
    assert_eq!(w.players[0].deaths, 1);
    assert!(!w.players[0].is_alive());
    for _ in 0..RESPAWN_FRAMES + 2 {
        w.set_input(0, 0);
        w.step();
    }
    assert!(w.players[0].is_alive());
    assert_eq!(w.player_entity(0).unwrap().pos, V2::from_px(80, 64));
}

#[test]
fn explosions_break_bombable_walls() {
    let mut w = test_world();
    w.levels[0].map.set(6, 4, tile::WALL_CRACKED);
    w.explode(0, tile_center(6, 5));
    assert_eq!(w.levels[0].map.get(6, 4), tile::FLOOR);
}

#[test]
fn explosions_hurt_the_player_who_set_them() {
    let mut w = test_world();
    let pos = w.player_entity(0).unwrap().pos;
    w.explode(0, pos);
    assert!(w.player_entity(0).unwrap().hp < 12);
}

#[test]
fn room_spawns_populate_once_a_player_is_near() {
    let mut lv = Level::new(LevelKind::Overworld, 2, 1, tile::GRASS);
    lv.entrance = V2::from_px(80, 64);
    let room = lv.room_index(0, 0).unwrap() as u16;
    lv.spawns.push(Spawn {
        room,
        kind: Kind::Octorok.to_u8(),
        tx: 3,
        ty: 3,
        param: 0,
    });
    let mut w = World::new(9, vec![lv], 1);
    w.join(0);
    w.step();
    assert!(
        w.entities.iter().into_iter().any(|(_, e)| e.kind == Kind::Octorok),
        "the room's octorok should have spawned"
    );
}

#[test]
fn camera_stays_inside_the_level() {
    let lv = Level::new(LevelKind::Overworld, 1, 1, tile::GRASS);
    let (x, y) = camera_for_room(&lv, (0, 0));
    assert_eq!((x, y), (0, 0));
    let (x, y) = camera_for_room(&lv, (5, 5));
    assert_eq!(to_px(x), 0, "a one-room level cannot scroll");
    assert_eq!(to_px(y), ROOM_PX_H - VIEW_H);
}

#[test]
fn leaving_removes_the_player_entity() {
    let mut w = test_world();
    let id = w.players[0].entity;
    w.leave(0);
    assert!(w.entities.get(id).is_none());
    assert!(!w.players[0].active);
}

#[test]
fn an_explosion_sounds_and_shakes_before_anything_else() {
    let mut w = test_world();
    w.events.clear();
    w.explode(0, tile_center(1, 1));
    let evs = w.events.iter();
    assert!(evs.len() >= 2);
    assert!(matches!(evs[0], lib::event::Event::Sound(Sfx::Explosion)));
    assert!(matches!(evs[1], lib::event::Event::Shake { frames: 12 }));
}

#[test]
fn killing_a_pickup_leaves_a_short_puff_and_no_sound() {
    let mut w = test_world();
    let id = w.spawn(Kind::Rupee, 0, tile_center(1, 1));
    w.events.clear();
    w.kill(id);
    assert!(w.entities.get(id).is_none());
    let mut puffs = 0;
    for i in 0..w.entities.capacity() {
        if let Some(e) = w.entities.at(i) {
            if e.kind == Kind::Poof {
                assert_eq!(e.timer, 18);
                assert_eq!(e.pos, tile_center(1, 1));
                puffs += 1;
            }
        }
    }
    assert_eq!(puffs, 1);
    assert!(w.events.is_empty());
}

#[test]
fn killing_a_monster_sounds_its_death() {
    let mut w = test_world();
    let id = w.spawn(Kind::Octorok, 0, tile_center(1, 1));
    w.events.clear();
    w.kill(id);
    assert!(w.entities.get(id).is_none());
    assert_eq!(w.events.len(), 1);
    assert!(matches!(w.events.iter()[0], lib::event::Event::Sound(Sfx::EnemyDie)));
}
