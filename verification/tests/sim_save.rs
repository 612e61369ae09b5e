#![allow(unused_imports)]
use lib::entity::{eflag, Entities, Entity, EntityId, Kind};
use lib::geom::{Dir, V2};
use lib::input::button;
use lib::items::Item;
use lib::level::{tile_center, Level, LevelKind, Spawn};
use lib::tiles::tile;
use lib::world::World;

fn played_world() -> World {
    let mut lv = Level::new(LevelKind::Overworld, 3, 3, tile::GRASS);
    lv.entrance = V2::from_px(80, 64);
    lv.spawns.push(Spawn {
        room: 0,
        kind: Kind::Octorok.to_u8(),
        tx: 3,
        ty: 3,
        param: 0,
    });
    let mut w = World::new(0xfeed_face, vec![lv], 2);
    w.join(0);
    w.join(1);
    for f in 0..200u16 {
        w.set_input(0, if f % 40 < 20 { button::RIGHT } else { button::A });
        w.set_input(1, button::DOWN);
        w.step();
    }
    w
}

#[test]
fn a_snapshot_restores_an_identical_world() {
    let a = played_world();
    let data = a.save();
    let b = World::load(&data).expect("should load");
    assert_eq!(a.checksum(), b.checksum());
    assert_eq!(a.frame, b.frame);
    assert_eq!(a.entities.len(), b.entities.len());
    assert_eq!(
        a.player_entity(0).unwrap().pos,
        b.player_entity(0).unwrap().pos
    );
}

#[test]
fn a_restored_world_keeps_simulating_identically() {
    let mut a = played_world();
    let mut b = World::load(&a.save()).unwrap();
    for f in 0..300u16 {
        let buttons = (f * 13) & 0x3f;
        a.set_input(0, buttons);
        b.set_input(0, buttons);
        a.set_input(1, button::LEFT);
        b.set_input(1, button::LEFT);
        a.step();
        b.step();
    }
    assert_eq!(
        a.checksum(),
        b.checksum(),
        "a world restored from a snapshot must stay in step"
    );
}

#[test]
fn entity_handles_survive_a_round_trip() {
    let mut a = played_world();
    let id = a.spawn(Kind::Chest, 0, V2::from_px(100, 100));
    a.entities.get_mut(id).unwrap().data[0] = 5;
    let b = World::load(&a.save()).unwrap();
    let kept = b.entities.get(id).expect("the handle should still resolve");
    assert_eq!(kept.kind, Kind::Chest);
    assert_eq!(kept.data[0], 5);
}

#[test]
fn the_checksum_notices_a_difference() {
    let a = played_world();
    let mut b = World::load(&a.save()).unwrap();
    assert_eq!(a.checksum(), b.checksum());
    b.entities
        .at_mut(1)
        .map(|e| e.pos = e.pos.add(V2::from_px(1, 0)));
    assert_ne!(a.checksum(), b.checksum());
}

#[test]
fn map_changes_are_part_of_the_snapshot() {
    let mut a = played_world();
    a.levels[0].map.set(4, 4, tile::WALL_CRACKED);
    let b = World::load(&a.save()).unwrap();
    assert_eq!(b.levels[0].map.get(4, 4), tile::WALL_CRACKED);
    assert_eq!(a.checksum(), b.checksum());
}

#[test]
fn inventories_come_back_intact() {
    let mut a = played_world();
    a.players[0].inv.give(Item::Bombs);
    a.players[0].inv.add_bombs(7);
    a.players[0].inv.keys = 3;
    a.players[0].inv.add_rupees(42);
    let b = World::load(&a.save()).unwrap();
    assert!(b.players[0].inv.has(Item::Bombs));
    assert_eq!(b.players[0].inv.bombs, 7);
    assert_eq!(b.players[0].inv.keys, 3);
    assert_eq!(b.players[0].inv.rupees, 42);
}

#[test]
fn rubbish_is_rejected_rather_than_trusted() {
    assert!(World::load(&[]).is_none());
    assert!(World::load(b"not a snapshot at all").is_none());
    // A truncated but well-headed snapshot must not panic.
    let good = played_world().save();
    for cut in [8usize, 32, 100, good.len() / 2, good.len() - 1] {
        assert!(World::load(&good[..cut]).is_none(), "cut at {cut}");
    }
}

#[test]
fn a_snapshot_is_a_sensible_size() {
    let w = played_world();
    let data = w.save();
    // Three screens square of overworld, so a few kilobytes.
    assert!(data.len() < 64 * 1024, "{} bytes", data.len());
    assert!(data.len() > 500);
}
