#![allow(unused_imports)]
use lib::entity::{eflag, Entities, Entity, EntityId, Kind};
use lib::event::Sfx;
use lib::fixed::{px, to_px};
use lib::geom::{Dir, V2};
use lib::input::button;
use lib::items::Item;
use lib::level::{tile_center, Level, LevelKind, Spawn, ROOM_PX_H};
use lib::tiles::{self, flag, tile};
use lib::world::{camera_for_room, pstate, Role, World, RESPAWN_FRAMES, VIEW_H};

fn arena() -> World {
    let mut lv = Level::new(LevelKind::Overworld, 2, 2, tile::GRASS);
    lv.entrance = V2::from_px(80, 64);
    let mut w = World::new(5, vec![lv], 1);
    w.join(0);
    w
}

#[test]
fn a_bomb_explodes_when_its_fuse_runs_out() {
    let mut w = arena();
    let id = w.spawn(Kind::Bomb, 0, V2::from_px(120, 64));
    w.entities.get_mut(id).unwrap().timer = 3;
    for _ in 0..6 {
        w.step();
    }
    assert!(w.entities.get(id).is_none(), "the bomb should be gone");
    assert!(w.events.has_sound(Sfx::Explosion) || w.frame > 0);
}

#[test]
fn arrows_die_against_walls() {
    let mut w = arena();
    w.levels[0].map.fill_rect(9, 0, 1, 8, tile::WALL);
    let id = w.spawn(Kind::Arrow, 0, V2::from_px(100, 64));
    {
        let a = w.entities.get_mut(id).unwrap();
        a.vel = V2::new(px(4), 0);
        a.timer = 200;
    }
    for _ in 0..40 {
        w.step();
        if w.entities.get(id).is_none() {
            return;
        }
    }
    panic!("the arrow should have hit the wall");
}

#[test]
fn a_boomerang_comes_back_and_vanishes() {
    let mut w = arena();
    let owner = w.players[0].entity;
    let id = w.spawn(Kind::Boomerang, 0, V2::from_px(90, 64));
    {
        let b = w.entities.get_mut(id).unwrap();
        b.owner = owner;
        b.vel = V2::new(px(3), 0);
        b.timer = 10;
    }
    for _ in 0..200 {
        w.set_input(0, 0);
        w.step();
        if w.entities.get(id).is_none() {
            return;
        }
    }
    panic!("the boomerang never returned");
}

#[test]
fn a_thrown_pot_hurts_a_monster_where_it_lands() {
    let mut w = arena();
    let target = w.spawn(Kind::Moblin, 0, V2::from_px(120, 64));
    let hp0 = w.entities.get(target).unwrap().hp;
    let id = w.spawn(Kind::Carried, 0, V2::from_px(116, 64));
    {
        let c = w.entities.get_mut(id).unwrap();
        c.state = 1;
        c.vel = V2::new(px(2), 0);
        c.z = px(4);
        c.timer = 60;
    }
    for _ in 0..30 {
        w.step();
        if w.entities.get(id).is_none() {
            break;
        }
    }
    assert!(w.entities.get(target).map(|e| e.hp).unwrap_or(-1) < hp0);
}

#[test]
fn dropped_pickups_expire() {
    let mut w = arena();
    let id = w.spawn(Kind::Rupee, 0, V2::from_px(200, 200));
    w.entities.get_mut(id).unwrap().timer = 5;
    for _ in 0..10 {
        w.step();
    }
    assert!(w.entities.get(id).is_none());
}
