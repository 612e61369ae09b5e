use lib::assets::pack::SpriteId;
use lib::assets::tile::{FLIP_X, FLIP_Y};
use lib::entity::{eflag, Kind};
use lib::geom::{Dir, V2};
use lib::items::Item;
use lib::level::{Level, LevelKind};
use lib::render::sprites::{for_entity, is_floor_layer, item_icon};
use lib::tiles::tile;
use lib::world::{pstate, World};

fn world() -> World {
    let mut lv = Level::new(LevelKind::Overworld, 2, 2, tile::GRASS);
    lv.entrance = V2::from_px(80, 64);
    let mut w = World::new(3, vec![lv], 1);
    w.join(0);
    w
}

#[test]
fn every_live_kind_has_an_image() {
    let mut w = world();
    for kind in [
        Kind::Octorok,
        Kind::Moblin,
        Kind::Zol,
        Kind::Keese,
        Kind::Tektite,
        Kind::Stalfos,
        Kind::Boss,
        Kind::Rock,
        Kind::Arrow,
        Kind::Bomb,
        Kind::Rupee,
        Kind::Heart,
        Kind::Chest,
    ] {
        let id = w.spawn(kind, 0, V2::from_px(40, 40));
        let e = w.entities.get(id).unwrap();
        assert!(for_entity(&w, e).is_some(), "{kind:?} has no sprite");
    }
}

#[test]
fn the_hero_faces_left_by_mirroring() {
    let mut w = world();
    let eid = w.players[0].entity;
    w.entities.get_mut(eid).unwrap().dir = Dir::Left;
    let e = w.entities.get(eid).unwrap();
    let (id, flip) = for_entity(&w, e).unwrap();
    assert_eq!(id, SpriteId::HeroSide0);
    assert_eq!(flip, FLIP_X);
}

#[test]
fn swimming_and_attacking_change_the_pose() {
    let mut w = world();
    let eid = w.players[0].entity;
    w.entities.get_mut(eid).unwrap().state = pstate::SWIM;
    let e = w.entities.get(eid).unwrap();
    assert_eq!(for_entity(&w, e).unwrap().0, SpriteId::HeroSwim);
    w.entities.get_mut(eid).unwrap().state = pstate::ATTACK;
    let e = w.entities.get(eid).unwrap();
    assert_eq!(for_entity(&w, e).unwrap().0, SpriteId::HeroAttackDown);
}

#[test]
fn a_dead_hero_is_not_drawn() {
    let mut w = world();
    let eid = w.players[0].entity;
    w.entities.get_mut(eid).unwrap().state = pstate::DEAD;
    let e = w.entities.get(eid).unwrap();
    assert!(for_entity(&w, e).is_none());
}

#[test]
fn arrows_and_swings_point_where_they_fly() {
    let mut w = world();
    let id = w.spawn(Kind::Arrow, 0, V2::from_px(40, 40));
    w.entities.get_mut(id).unwrap().dir = Dir::Down;
    let e = w.entities.get(id).unwrap();
    assert_eq!(for_entity(&w, e), Some((SpriteId::ArrowVert, FLIP_Y)));
    let id = w.spawn(Kind::SwordSwing, 0, V2::from_px(40, 40));
    w.entities.get_mut(id).unwrap().dir = Dir::Left;
    let e = w.entities.get(id).unwrap();
    assert_eq!(for_entity(&w, e), Some((SpriteId::SwordSide, FLIP_X)));
}

#[test]
fn walking_alternates_the_step() {
    let mut w = world();
    let eid = w.players[0].entity;
    w.entities.get_mut(eid).unwrap().anim = 3;
    let e = w.entities.get(eid).unwrap();
    assert_eq!(for_entity(&w, e), Some((SpriteId::HeroDown1, 0)));
    w.entities.get_mut(eid).unwrap().state = pstate::FALL;
    let e = w.entities.get(eid).unwrap();
    assert_eq!(for_entity(&w, e), Some((SpriteId::HeroFall, 0)));
}

#[test]
fn icons_and_floor_layer() {
    assert_eq!(item_icon(Item::Bow), SpriteId::IconBow);
    assert_eq!(item_icon(Item::Nothing), SpriteId::Sparkle);
    let mut w = world();
    let id = w.spawn(Kind::Rupee, 0, V2::from_px(40, 40));
    let e = w.entities.get(id).unwrap();
    let floor = e.flags & eflag::FLOOR_LAYER != 0;
    assert_eq!(is_floor_layer(e), floor);
}
