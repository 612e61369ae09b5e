#![allow(unused_imports)]
use lib::entity::{eflag, Entities, Entity, EntityId, Kind};
use lib::event::Sfx;
use lib::fixed::{px, to_px};
use lib::geom::{Dir, V2};
use lib::input::button;
use lib::items::Item;
use lib::level::{tile_center, Level, LevelKind, Spawn, ROOM_PX_H};
use lib::tiles::{self, flag, tile};
use lib::world::{camera_for_room, pstate, Role, World, RESPAWN_FRAMES, VIEW_H};

fn arena() -> World {
    let mut lv = Level::new(LevelKind::Overworld, 2, 2, tile::GRASS);
    lv.entrance = V2::from_px(80, 64);
    let mut w = World::new(11, vec![lv], 2);
    w.join(0);
    w
}

#[test]
fn a_sword_swing_hurts_a_monster_in_front() {
    let mut w = arena();
    let pos = w.player_entity(0).unwrap().pos;
    let mob = w.spawn(Kind::Moblin, 0, V2::new(pos.x + px(14), pos.y));
    let hp0 = w.entities.get(mob).unwrap().hp;
    w.set_input(0, button::RIGHT);
    w.step();
    w.set_input(0, button::RIGHT | button::A);
    w.step();
    w.step();
    assert!(w.entities.get(mob).map(|e| e.hp).unwrap_or(-9) < hp0);
}

#[test]
fn a_sword_swing_misses_behind_you() {
    let mut w = arena();
    let pos = w.player_entity(0).unwrap().pos;
    let mob = w.spawn(Kind::Moblin, 0, V2::new(pos.x - px(20), pos.y));
    let hp0 = w.entities.get(mob).unwrap().hp;
    w.set_input(0, button::RIGHT);
    w.step();
    w.set_input(0, button::RIGHT | button::A);
    for _ in 0..4 {
        w.step();
    }
    assert_eq!(w.entities.get(mob).unwrap().hp, hp0);
}

#[test]
fn a_monster_hurts_a_hero_it_touches() {
    let mut w = arena();
    let pos = w.player_entity(0).unwrap().pos;
    w.spawn(Kind::Octorok, 0, pos);
    w.step();
    assert!(w.player_entity(0).unwrap().hp < 12);
}

#[test]
fn a_raised_shield_stops_a_hit() {
    let mut w = arena();
    let pos = w.player_entity(0).unwrap().pos;
    w.players[0].inv.give(Item::Shield);
    w.players[0].inv.equipped[1] = Item::Shield;
    // A rock flying in from the right, straight at a raised shield.
    let rock = w.spawn(Kind::Rock, 0, V2::new(pos.x + px(20), pos.y));
    {
        let r = w.entities.get_mut(rock).unwrap();
        r.vel = V2::new(-px(2), 0);
        r.timer = 60;
    }
    w.set_input(0, button::RIGHT | button::B);
    for _ in 0..12 {
        w.step();
        if w.entities.get(rock).is_none() {
            break;
        }
    }
    assert!(w.entities.get(rock).is_none(), "the rock should be spent");
    assert_eq!(w.player_entity(0).unwrap().hp, 12, "the shield should hold");
    assert!(w.events.has_sound(Sfx::Shield));
}

#[test]
fn an_unshielded_hero_takes_that_same_rock() {
    let mut w = arena();
    let pos = w.player_entity(0).unwrap().pos;
    let rock = w.spawn(Kind::Rock, 0, V2::new(pos.x + px(20), pos.y));
    {
        let r = w.entities.get_mut(rock).unwrap();
        r.vel = V2::new(-px(2), 0);
        r.timer = 60;
    }
    for _ in 0..12 {
        w.set_input(0, button::RIGHT);
        w.step();
    }
    assert!(w.player_entity(0).unwrap().hp < 12);
}

#[test]
fn hearts_are_picked_up_and_heal() {
    let mut w = arena();
    w.hurt_player(0, 4, V2::from_px(0, 0));
    let hp0 = w.player_entity(0).unwrap().hp;
    let pos = w.player_entity(0).unwrap().pos;
    w.spawn(Kind::Heart, 0, pos);
    w.step();
    assert!(w.player_entity(0).unwrap().hp > hp0);
    assert!(w.events.has_sound(Sfx::Heart));
}

#[test]
fn one_rupee_cannot_be_taken_by_two_heroes() {
    let mut w = arena();
    w.join(1);
    let pos = w.player_entity(0).unwrap().pos;
    if let Some(e) = w.entities.get_mut(w.players[1].entity) {
        e.pos = pos;
    }
    w.spawn(Kind::Rupee, 0, pos);
    w.step();
    let total = w.players[0].inv.rupees + w.players[1].inv.rupees;
    assert_eq!(total, 1, "the rupee must be counted exactly once");
}

#[test]
fn a_hero_arrow_does_not_hurt_its_owner() {
    let mut w = arena();
    let pos = w.player_entity(0).unwrap().pos;
    let owner = w.players[0].entity;
    let id = w.spawn(Kind::Arrow, 0, pos);
    {
        let a = w.entities.get_mut(id).unwrap();
        a.owner = owner;
        a.flags |= eflag::PLAYER_OWNED;
        a.timer = 30;
    }
    w.step();
    assert_eq!(w.player_entity(0).unwrap().hp, 12);
}

#[test]
fn killing_a_monster_credits_the_hero() {
    let mut w = arena();
    let pos = w.player_entity(0).unwrap().pos;
    let mob = w.spawn(Kind::Keese, 0, V2::new(pos.x + px(14), pos.y));
    w.entities.get_mut(mob).unwrap().hp = 1;
    w.set_input(0, button::RIGHT);
    w.step();
    w.set_input(0, button::RIGHT | button::A);
    for _ in 0..4 {
        w.step();
    }
    assert_eq!(w.players[0].kills, 1);
}

#[test]
fn a_tough_monster_far_out_still_takes_damage() {
    let mut w = arena();
    let mob = w.spawn(Kind::Moblin, 0, V2::new(0x2000_0000, 0x2000_0000));
    w.entities.get_mut(mob).unwrap().hp = 0x5000;
    assert!(w.damage(mob, 1, V2::new(0x2000_0000 - px(4), 0x2000_0000), 6));
    let e = w.entities.get(mob).unwrap();
    assert_eq!(e.hp, 0x4fff);
    assert_eq!(e.iframes, 16);
    assert!(!w.damage(mob, 1, V2::new(0, 0), 6), "still flashing from the first hit");
}

#[test]
fn a_killing_blow_leaves_the_hero_dead_and_flashing() {
    let mut w = arena();
    let hp = w.player_entity(0).unwrap().hp;
    let from = w.player_entity(0).unwrap().pos;
    assert!(w.hurt_player_with(0, hp, from, 0));
    let e = w.player_entity(0).unwrap();
    assert_eq!(e.hp, 0);
    assert_eq!(e.iframes, 48);
    assert_eq!(e.state, pstate::DEAD);
    assert!(!w.players[0].is_alive());
    assert_eq!(w.players[0].respawn, RESPAWN_FRAMES);
}
