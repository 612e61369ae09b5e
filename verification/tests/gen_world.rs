use lib::entity::Kind;
use lib::gen::dungeon::{self, reachable_without_keys};
use lib::gen::overworld::{self, reachable, room_center_tile};
use lib::gen::{generate, new_world, Config};
use lib::input::button;
use lib::level::{LevelKind, ROOM_H, ROOM_W};
use lib::tiles::{self, flag, tile};

// ---- dungeons ----

#[test]
fn rooms_are_walled_and_hollow() {
    let d = dungeon::generate(1, 0, 4, 3);
    // The very corner of a room is always wall.
    assert!(tiles::blocks_walk(d.level.map.get(0, 0)));
    // The middle of a room is always floor.
    let c = (ROOM_W / 2, ROOM_H / 2);
    assert!(!tiles::blocks_walk(d.level.map.get(c.0, c.1)));
}

#[test]
fn the_key_can_always_be_got_before_the_lock() {
    for seed in 0..30u64 {
        let d = dungeon::generate(seed, 0, 4, 4);
        let has_lock = d.level.map.raw().iter().any(|t| *t == tile::DOOR_LOCKED);
        if !has_lock {
            continue;
        }
        let seen = reachable_without_keys(&d.level, d.exit);
        let w = d.level.map.w();
        let key = d
            .level
            .spawns
            .iter()
            .find(|s| s.kind == Kind::Chest.to_u8() && s.param == 9);
        let key = key.unwrap_or_else(|| panic!("seed {seed}: a locked door with no key"));
        assert!(
            seen[(key.ty * w + key.tx) as usize],
            "seed {seed}: the key is behind its own lock"
        );
    }
}

#[test]
fn there_is_exactly_one_boss() {
    let d = dungeon::generate(5, 1, 4, 4);
    let bosses: Vec<_> = d
        .level
        .spawns
        .iter()
        .filter(|s| s.kind == Kind::Boss.to_u8())
        .collect();
    assert_eq!(bosses.len(), 1);
}

#[test]
fn the_boss_door_is_locked() {
    let mut found = 0;
    for seed in 0..10u64 {
        let d = dungeon::generate(seed, 0, 4, 4);
        if d.level.map.raw().iter().any(|t| *t == tile::DOOR_BOSS) {
            found += 1;
        }
    }
    assert!(found >= 8, "most dungeons should gate their boss: {found}/10");
}

#[test]
fn the_way_out_is_a_staircase() {
    let d = dungeon::generate(2, 0, 3, 3);
    assert_eq!(d.level.map.get(d.exit.0, d.exit.1), tile::STAIRS_UP);
    assert!(!tiles::blocks_walk(d.level.map.at_world(d.arrival)));
}

#[test]
fn nothing_spawns_inside_a_wall() {
    for seed in 0..10u64 {
        let d = dungeon::generate(seed, 0, 4, 4);
        for s in &d.level.spawns {
            assert!(
                !tiles::blocks_walk(d.level.map.get(s.tx, s.ty)),
                "seed {seed}: spawn inside a wall at {},{}",
                s.tx,
                s.ty
            );
        }
    }
}

#[test]
fn every_room_is_reachable_once_you_hold_the_keys() {
    for seed in 0..10u64 {
        let mut d = dungeon::generate(seed, 0, 4, 4);
        // Unlock every door, then check the whole floor opens up.
        let (w, h) = (d.level.map.w(), d.level.map.h());
        for ty in 0..h {
            for tx in 0..w {
                let t = d.level.map.get(tx, ty);
                if t == tile::DOOR_LOCKED || t == tile::DOOR_BOSS {
                    d.level.map.set(tx, ty, tile::FLOOR);
                }
            }
        }
        let seen = reachable_without_keys(&d.level, d.exit);
        for ry in 0..d.level.rooms_h() {
            for rx in 0..d.level.rooms_w() {
                let c = (rx * ROOM_W + ROOM_W / 2, ry * ROOM_H + ROOM_H / 2);
                assert!(
                    seen[(c.1 * w + c.0) as usize],
                    "seed {seed}: room {rx},{ry} is walled off"
                );
            }
        }
    }
}

#[test]
fn dungeons_differ_from_one_another() {
    let a = dungeon::generate(3, 0, 4, 4);
    let b = dungeon::generate(3, 1, 4, 4);
    assert_ne!(a.level.map.raw(), b.level.map.raw());
}

#[test]
fn a_flood_from_off_the_map_marks_nothing() {
    let d = dungeon::generate(4, 0, 2, 2);
    let seen = reachable_without_keys(&d.level, (-1, 3));
    assert_eq!(seen.len(), (d.level.map.w() * d.level.map.h()) as usize);
    assert!(seen.iter().all(|s| !*s));
}

#[test]
fn a_flood_from_a_wall_still_marks_its_start() {
    let d = dungeon::generate(4, 0, 2, 2);
    // The corner of a dungeon room is wall.
    let seen = reachable_without_keys(&d.level, (0, 0));
    assert!(seen[0]);
    assert_eq!(seen.iter().filter(|s| **s).count(), 1);
}

// ---- the overworld ----

#[test]
fn every_room_can_be_walked_to() {
    for seed in [1u64, 2, 3, 17, 4242] {
        let ow = overworld::generate(seed, 6, 5, 2);
        let start = room_center_tile(ow.graph.start_at());
        let seen = reachable(&ow.level, start);
        let w = ow.level.map.w();
        for ry in 0..ow.level.rooms_h() {
            for rx in 0..ow.level.rooms_w() {
                let c = room_center_tile((rx, ry));
                assert!(seen[(c.1 * w + c.0) as usize], "seed {seed}: room {rx},{ry} is cut off");
            }
        }
    }
}

#[test]
fn the_hero_does_not_start_in_water_or_a_wall() {
    for seed in 0..20u64 {
        let ow = overworld::generate(seed, 5, 5, 1);
        let t = ow.level.map.at_world(ow.level.entrance);
        assert!(
            !tiles::blocks_walk(t) && !tiles::any(t, flag::WATER | flag::PIT | flag::HARMFUL),
            "seed {seed}: started on tile {t}"
        );
    }
}

#[test]
fn staircases_are_reachable() {
    for seed in [5u64, 6, 7] {
        let ow = overworld::generate(seed, 6, 5, 3);
        assert_eq!(ow.dungeon_entrances.len(), 3);
        let seen = reachable(&ow.level, room_center_tile(ow.graph.start_at()));
        let w = ow.level.map.w();
        for e in &ow.dungeon_entrances {
            assert_eq!(ow.level.map.get(e.tx, e.ty), tile::STAIRS_DOWN);
            // The staircase tile itself is walkable, so it must be in the
            // flood fill.
            assert!(seen[(e.ty * w + e.tx) as usize], "seed {seed}: a staircase is unreachable");
        }
    }
}

#[test]
fn generation_is_deterministic() {
    let a = overworld::generate(12345, 5, 4, 2);
    let b = overworld::generate(12345, 5, 4, 2);
    assert_eq!(a.level.map.raw(), b.level.map.raw());
    assert_eq!(a.level.spawns.len(), b.level.spawns.len());
    assert_eq!(a.level.entrance, b.level.entrance);
}

#[test]
fn different_seeds_make_different_worlds() {
    let a = overworld::generate(1, 5, 4, 1);
    let b = overworld::generate(2, 5, 4, 1);
    assert_ne!(a.level.map.raw(), b.level.map.raw());
}

#[test]
fn monsters_are_not_spawned_inside_walls() {
    let ow = overworld::generate(77, 6, 5, 2);
    assert!(!ow.level.spawns.is_empty());
    for s in &ow.level.spawns {
        let t = ow.level.map.get(s.tx, s.ty);
        assert!(!tiles::blocks_walk(t), "spawn at {},{} is inside tile {t}", s.tx, s.ty);
    }
}

#[test]
fn the_world_has_a_shoreline_at_its_edge() {
    let ow = overworld::generate(3, 6, 5, 1);
    let w = ow.level.map.w();
    let h = ow.level.map.h();
    let mut water = 0;
    for x in 0..w {
        if ow.level.map.get(x, 0) == tile::WATER {
            water += 1;
        }
        if ow.level.map.get(x, h - 1) == tile::WATER {
            water += 1;
        }
    }
    assert!(water > w, "the map should be ringed by water, saw {water}");
}

#[test]
fn the_map_holds_a_mix_of_terrain() {
    let ow = overworld::generate(9, 6, 5, 1);
    let mut kinds = std::collections::HashSet::new();
    for t in ow.level.map.raw() {
        kinds.insert(*t);
    }
    assert!(kinds.len() >= 6, "expected varied terrain, got {:?}", kinds);
}

#[test]
fn the_hero_arrives_at_the_middle_screen() {
    let ow = overworld::generate(11, 5, 3, 0);
    assert_eq!(ow.graph.start_at(), (2, 1));
    // Centre tile (25, 12), its centre pixel (408, 200), in fixed point.
    assert_eq!(ow.level.entrance.x, 408 * 256);
    assert_eq!(ow.level.entrance.y, 200 * 256);
    assert!(ow.dungeon_entrances.is_empty());
    assert_eq!(ow.level.kind, LevelKind::Overworld);
}

#[test]
fn room_centres_sit_in_the_middle_of_their_screen() {
    assert_eq!(room_center_tile((0, 0)), (5, 4));
    assert_eq!(room_center_tile((3, 2)), (35, 20));
}

// ---- whole worlds ----

#[test]
fn a_world_has_an_overworld_and_its_dungeons() {
    let levels = generate(Config::from_seed(42));
    assert_eq!(levels.len(), 4);
    assert_eq!(levels[0].kind, LevelKind::Overworld);
    assert!(levels[1..].iter().all(|l| l.kind == LevelKind::Dungeon));
}

#[test]
fn staircases_lead_both_ways() {
    let levels = generate(Config::from_seed(7));
    assert_eq!(levels[0].links.len(), 3);
    for link in &levels[0].links {
        let to = &levels[link.to_level as usize];
        assert_eq!(levels[0].map.get(link.from.0, link.from.1), tile::STAIRS_DOWN);
        assert!(to.links.iter().any(|back| back.to_level == 0), "a dungeon with no way out");
    }
}

#[test]
fn a_world_is_reproducible_from_its_seed() {
    let a = generate(Config::from_seed(1234));
    let b = generate(Config::from_seed(1234));
    for (x, y) in a.iter().zip(b.iter()) {
        assert_eq!(x.map.raw(), y.map.raw());
        assert_eq!(x.spawns.len(), y.spawns.len());
    }
}

#[test]
fn a_world_can_be_stepped() {
    let mut w = new_world(Config::from_seed(5), 2);
    w.join(0);
    for _ in 0..240 {
        w.set_input(0, button::RIGHT);
        w.step();
    }
    assert!(w.players[0].is_alive() || w.players[0].respawn > 0);
}

#[test]
fn asking_for_no_dungeons_is_allowed() {
    let levels = generate(Config { dungeons: 0, ..Config::from_seed(3) });
    assert_eq!(levels.len(), 1);
    assert!(levels[0].links.is_empty());
}

#[test]
fn a_tiny_world_still_generates() {
    let levels = generate(Config { overworld: (1, 1), dungeons: 1, dungeon_size: (1, 1), seed: 9 });
    assert_eq!(levels.len(), 2);
}

#[test]
fn at_most_eight_dungeons_are_built() {
    let levels = generate(Config { dungeons: 20, overworld: (8, 6), dungeon_size: (2, 2), seed: 3 });
    assert_eq!(levels.len(), 9);
}

#[test]
fn the_default_config_is_a_small_world() {
    let c = Config::default();
    assert_eq!(c.seed, 1);
    assert_eq!(c.overworld, (8, 6));
    assert_eq!(c.dungeons, 3);
    assert_eq!(c.dungeon_size, (4, 4));
    assert_eq!(Config::from_seed(99).seed, 99);
}
