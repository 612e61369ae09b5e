//! World generation: room graphs, noise, dungeons and the overworld, all
//! drawn from one seed so that a seed is a shareable world.
pub mod noise;
pub mod graph;
pub mod dungeon;
pub mod overworld;

use vstd::prelude::*;
use crate::geom::{Dir, V2};
use crate::level::{Level, LevelKind, Link, tile_center};
use crate::tiles::tile;
use crate::world::{World, playable};
use crate::gen::dungeon::{Dungeon, MAX_ROOMS};
use crate::gen::overworld::Overworld;

verus! {

/// How big a world to build.
#[derive(Clone, Copy, Debug)]
pub struct Config {
    pub seed: u64,
    /// Overworld size in screens.
    pub overworld: (i32, i32),
    /// How many dungeons to build.
    pub dungeons: usize,
    /// Dungeon size in rooms.
    pub dungeon_size: (i32, i32),
}

impl Default for Config {
    fn default() -> (c: Config)
        ensures
            c == (Config { seed: 1, overworld: (8, 6), dungeons: 3, dungeon_size: (4, 4) }),
    {
        Config { seed: 1, overworld: (8, 6), dungeons: 3, dungeon_size: (4, 4) }
    }
}

impl Config {
    /// A world of the given seed at default size.
    pub fn from_seed(seed: u64) -> (c: Config)
        ensures
            c == (Config { seed, overworld: (8, 6), dungeons: 3, dungeon_size: (4, 4) }),
    {
        Config { seed, overworld: (8, 6), dungeons: 3, dungeon_size: (4, 4) }
    }

    /// Sizes the generator can build: one to 256 rooms each way.
    pub open spec fn buildable(&self) -> bool {
        &&& 1 <= self.overworld.0 <= MAX_ROOMS
        &&& 1 <= self.overworld.1 <= MAX_ROOMS
        &&& 1 <= self.dungeon_size.0 <= MAX_ROOMS
        &&& 1 <= self.dungeon_size.1 <= MAX_ROOMS
    }
}

/// How many dungeons a config gets: at most eight.
pub open spec fn dungeons_built(cfg: Config) -> int {
    if cfg.dungeons < 8 { cfg.dungeons as int } else { 8 }
}

/// The overworld's `k`th staircase leads to dungeon `k + 1`, standing on a
/// staircase tile, and that dungeon has one way out, back to the overworld.
pub open spec fn stairs_both_ways(levels: Seq<Level>, k: int) -> bool {
    let there = levels[0].links@[k];
    &&& there.to_level == k + 1
    &&& there.to_dir == Dir::Up
    &&& levels[0].map.tile_at(there.from.0 as int, there.from.1 as int) == tile::STAIRS_DOWN
    &&& levels[k + 1].links@.len() == 1
    &&& levels[k + 1].links@[0].to_level == 0
    &&& levels[k + 1].links@[0].to_dir == Dir::Down
    &&& levels[k + 1].links@[0].to_pos == (V2 {
        x: ((there.from.0 * 16 + 8) * 256) as i32,
        y: (((there.from.1 + 1) * 16 + 8) * 256) as i32,
    })
}

/// Builds a complete world: level 0 the overworld, then up to eight
/// dungeons (as many as asked), each joined to its staircase and back.
pub fn generate(cfg: Config) -> (levels: Vec<Level>)
    requires
        cfg.buildable(),
    ensures
        levels@.len() == 1 + dungeons_built(cfg),
        levels@[0].kind == LevelKind::Overworld,
        forall|i: int| 1 <= i < levels@.len() ==> (#[trigger] levels@[i]).kind == LevelKind::Dungeon,
        forall|i: int| 0 <= i < levels@.len() ==> playable(#[trigger] levels@[i]),
        levels@[0].links@.len() <= dungeons_built(cfg),
        forall|k: int| 0 <= k < levels@[0].links@.len() ==> #[trigger] stairs_both_ways(levels@, k),
        forall|i: int| 1 + levels@[0].links@.len() <= i < levels@.len() ==> (#[trigger] levels@[i]).links@.len() == 0,
{
    let wanted: usize = if cfg.dungeons < 8 { cfg.dungeons } else { 8 };
    let mut ow = overworld::generate(cfg.seed, cfg.overworld.0, cfg.overworld.1, wanted);
    let mut dungeons: Vec<Dungeon> = Vec::new();
    let mut i: usize = 0;
    while i < wanted
        invariant
            cfg.buildable(),
            wanted <= 8,
            i <= wanted,
            dungeons@.len() == i,
            forall|k: int| 0 <= k < i ==> {
                let d = #[trigger] dungeons@[k];
                &&& playable(d.level)
                &&& d.level.kind == LevelKind::Dungeon
                &&& d.level.links@.len() == 0
                &&& d.level.map.in_bounds_spec(d.exit.0 as int, d.exit.1 as int)
            },
        decreases wanted - i,
    {
        let d = dungeon::generate(cfg.seed, i as u8, cfg.dungeon_size.0, cfg.dungeon_size.1);
        proof {
            assert(d.level.map.in_bounds_spec(d.exit.0 as int, d.exit.1 as int)) by (nonlinear_arith)
                requires
                    d.level.map.tw() == cfg.dungeon_size.0 * 10,
                    d.level.map.th() == cfg.dungeon_size.1 * 8,
                    d.exit.0 == cfg.dungeon_size.0 / 2 * 10 + 5,
                    d.exit.1 == (cfg.dungeon_size.1 - 1) * 8 + 2,
                    1 <= cfg.dungeon_size.0 <= MAX_ROOMS,
                    1 <= cfg.dungeon_size.1 <= MAX_ROOMS,
            ;
        }
        dungeons.push(d);
        i = i + 1;
    }
    // Join each staircase to its dungeon and back again.
    let n_links: usize = if ow.dungeon_entrances.len() < wanted { ow.dungeon_entrances.len() } else { wanted };
    let mut k: usize = 0;
    while k < n_links
        invariant
            wanted <= 8,
            n_links <= wanted,
            n_links <= ow.dungeon_entrances@.len(),
            dungeons@.len() == wanted,
            k <= n_links,
            ow.level.links@.len() == k,
            fits_level(ow),
            forall|j: int| 0 <= j < ow.dungeon_entrances@.len() ==> {
                let e = #[trigger] ow.dungeon_entrances@[j];
                &&& ow.level.map.in_bounds_spec(e.tx as int, e.ty as int)
                &&& ow.level.map.tile_at(e.tx as int, e.ty as int) == tile::STAIRS_DOWN
            },
            forall|j: int| 0 <= j < wanted ==> {
                let d = #[trigger] dungeons@[j];
                &&& playable(d.level)
                &&& d.level.kind == LevelKind::Dungeon
                &&& d.level.links@.len() == (if j < k { 1int } else { 0int })
            },
            forall|j: int| 0 <= j < k ==> {
                let there = #[trigger] ow.level.links@[j];
                let back = dungeons@[j].level.links@[0];
                &&& there.from == (ow.dungeon_entrances@[j].tx, ow.dungeon_entrances@[j].ty)
                &&& there.to_level == j + 1
                &&& there.to_dir == Dir::Up
                &&& back.to_level == 0
                &&& back.to_dir == Dir::Down
                &&& back.to_pos == (V2 {
                    x: ((there.from.0 * 16 + 8) * 256) as i32,
                    y: (((there.from.1 + 1) * 16 + 8) * 256) as i32,
                })
            },
        decreases n_links - k,
    {
        let e = ow.dungeon_entrances[k];
        assert(ow.level.map.in_bounds_spec(e.tx as int, e.ty as int));
        proof {
            ow.level.map.lemma_dims();
        }
        let arrival = dungeons[k].arrival;
        let exit = dungeons[k].exit;
        ow.level.links.push(Link { from: (e.tx, e.ty), to_level: (k + 1) as u16, to_pos: arrival, to_dir: Dir::Up });
        // Arriving back on the overworld puts you just below the staircase,
        // so you do not immediately step back into it.
        let back = tile_center(e.tx, e.ty + 1);
        let mut d = dungeons.remove(k);
        d.level.links.push(Link { from: exit, to_level: 0, to_pos: back, to_dir: Dir::Down });
        dungeons.insert(k, d);
        k = k + 1;
    }
    let ghost built = dungeons@;
    let ghost ow_level = ow.level;
    let mut levels: Vec<Level> = Vec::new();
    levels.push(ow.level);
    let mut j: usize = 0;
    while j < wanted
        invariant
            built.len() == wanted,
            dungeons@ == built.skip(j as int),
            j <= wanted,
            levels@.len() == 1 + j,
            levels@[0] == ow_level,
            forall|i: int| 0 <= i < j ==> #[trigger] levels@[i + 1] == built[i].level,
        decreases wanted - j,
    {
        let d = dungeons.remove(0);
        levels.push(d.level);
        proof {
            assert(dungeons@ =~= built.skip(j + 1));
            assert(levels@[j + 1] == built[j as int].level);
        }
        j = j + 1;
    }
    proof {
        assert forall|i: int| 1 <= i < levels@.len() implies (#[trigger] levels@[i]).kind == LevelKind::Dungeon
            && playable(levels@[i]) by {
            assert(levels@[(i - 1) + 1] == built[i - 1].level);
        }
        assert forall|k: int| 0 <= k < levels@[0].links@.len() implies #[trigger] stairs_both_ways(levels@, k) by {
            assert(levels@[k + 1] == built[k].level);
            let e = ow.dungeon_entrances@[k];
            assert(ow_level.map.tile_at(e.tx as int, e.ty as int) == tile::STAIRS_DOWN);
        }
        assert forall|i: int| 1 + levels@[0].links@.len() <= i < levels@.len() implies (#[trigger] levels@[i]).links@.len()
            == 0 by {
            assert(levels@[(i - 1) + 1] == built[i - 1].level);
        }
    }
    levels
}

/// The overworld's level is playable and still overworld.
pub open spec fn fits_level(ow: Overworld) -> bool {
    &&& playable(ow.level)
    &&& ow.level.kind == LevelKind::Overworld
}

/// Builds a world and wraps it in a ready-to-run [`World`] for `players`
/// players.
pub fn new_world(cfg: Config, players: usize) -> (w: World)
    requires
        cfg.buildable(),
        players <= 255,
    ensures
        w.wf(),
        w.seed == cfg.seed,
        w.frame == 0,
        w.levels@.len() == 1 + dungeons_built(cfg),
        w.players@.len() == (if players >= 1 { players } else { 1 }),
{
    let levels = generate(cfg);
    World::new(cfg.seed, levels, players)
}

} // verus!
