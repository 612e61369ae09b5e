//! The names profiles use for sprites and terrain, and matching them
//! without regard to ASCII case.
use vstd::prelude::*;
use crate::assets::pack::{sprite_at, sprite_index, SpriteId};
use crate::text::chars_of;

verus! {

broadcast use vstd::string::group_string_axioms;

/// A character's code with ASCII capitals made small.
pub open spec fn lower_code(c: char) -> u32 {
    if 'A' <= c && c <= 'Z' { (c as u32 + 32) as u32 } else { c as u32 }
}

/// Two texts that are equal ignoring ASCII case, as `eq_ignore_ascii_case`.
pub open spec fn eq_ic(a: Seq<char>, b: Seq<char>) -> bool {
    a.len() == b.len() && forall|i: int| 0 <= i < a.len() ==> #[trigger] lower_code(a[i]) == lower_code(b[i])
}

fn low(c: char) -> (r: u32)
    ensures
        r == lower_code(c),
{
    if 'A' <= c && c <= 'Z' { c as u32 + 32 } else { c as u32 }
}

/// See [`eq_ic`].
pub fn same_ignoring_case(a: &Vec<char>, b: &str) -> (r: bool)
    ensures
        r == eq_ic(a@, b@),
{
    let bs = chars_of(b);
    if a.len() != bs.len() {
        return false;
    }
    let mut i: usize = 0;
    while i < a.len()
        invariant
            bs@ == b@,
            a@.len() == bs@.len(),
            i <= a@.len(),
            forall|k: int| 0 <= k < i ==> #[trigger] lower_code(a@[k]) == lower_code(b@[k]),
        decreases a@.len() - i,
    {
        if low(a[i]) != low(bs[i]) {
            return false;
        }
        i = i + 1;
    }
    true
}

/// How many sprites have a name: one per sprite.
pub const SPRITE_NAME_COUNT: usize = 67;

/// The name of the sprite kept at index `i`: its identifier.
pub open spec fn sprite_name_spec(i: usize) -> Seq<char> {
    match i {
        0 => "HeroDown0"@,
        1 => "HeroDown1"@,
        2 => "HeroUp0"@,
        3 => "HeroUp1"@,
        4 => "HeroSide0"@,
        5 => "HeroSide1"@,
        6 => "HeroAttackDown"@,
        7 => "HeroAttackUp"@,
        8 => "HeroAttackSide"@,
        9 => "HeroCarryDown"@,
        10 => "HeroCarryUp"@,
        11 => "HeroCarrySide"@,
        12 => "HeroSwim"@,
        13 => "HeroFall"@,
        14 => "SwordUp"@,
        15 => "SwordSide"@,
        16 => "Octorok0"@,
        17 => "Octorok1"@,
        18 => "Moblin0"@,
        19 => "Moblin1"@,
        20 => "Zol0"@,
        21 => "Zol1"@,
        22 => "Keese0"@,
        23 => "Keese1"@,
        24 => "Tektite0"@,
        25 => "Tektite1"@,
        26 => "Stalfos0"@,
        27 => "Stalfos1"@,
        28 => "Boss0"@,
        29 => "Boss1"@,
        30 => "Rock"@,
        31 => "ArrowVert"@,
        32 => "ArrowSide"@,
        33 => "BeamVert"@,
        34 => "BeamSide"@,
        35 => "Boomerang"@,
        36 => "Bomb"@,
        37 => "Explosion"@,
        38 => "Fireball"@,
        39 => "Rupee"@,
        40 => "Heart"@,
        41 => "Key"@,
        42 => "BombPickup"@,
        43 => "ArrowPickup"@,
        44 => "Fairy"@,
        45 => "HeartPiece"@,
        46 => "Triforce"@,
        47 => "ChestClosed"@,
        48 => "ChestOpen"@,
        49 => "Poof"@,
        50 => "Sparkle"@,
        51 => "Shadow"@,
        52 => "HudHeart4"@,
        53 => "HudHeart2"@,
        54 => "HudHeart1"@,
        55 => "HudHeart0"@,
        56 => "IconSword"@,
        57 => "IconShield"@,
        58 => "IconBomb"@,
        59 => "IconBow"@,
        60 => "IconBoomerang"@,
        61 => "IconFeather"@,
        62 => "IconBracelet"@,
        63 => "IconBoots"@,
        64 => "IconFlippers"@,
        65 => "IconKey"@,
        66 => "IconRupee"@,
        _ => Seq::empty(),
    }
}

/// The name of the sprite kept at index `i`.
pub fn sprite_name(i: usize) -> (r: &'static str)
    requires
        i < SPRITE_NAME_COUNT,
    ensures
        r@ == sprite_name_spec(i as usize),
{
    match i {
        0 => "HeroDown0",
        1 => "HeroDown1",
        2 => "HeroUp0",
        3 => "HeroUp1",
        4 => "HeroSide0",
        5 => "HeroSide1",
        6 => "HeroAttackDown",
        7 => "HeroAttackUp",
        8 => "HeroAttackSide",
        9 => "HeroCarryDown",
        10 => "HeroCarryUp",
        11 => "HeroCarrySide",
        12 => "HeroSwim",
        13 => "HeroFall",
        14 => "SwordUp",
        15 => "SwordSide",
        16 => "Octorok0",
        17 => "Octorok1",
        18 => "Moblin0",
        19 => "Moblin1",
        20 => "Zol0",
        21 => "Zol1",
        22 => "Keese0",
        23 => "Keese1",
        24 => "Tektite0",
        25 => "Tektite1",
        26 => "Stalfos0",
        27 => "Stalfos1",
        28 => "Boss0",
        29 => "Boss1",
        30 => "Rock",
        31 => "ArrowVert",
        32 => "ArrowSide",
        33 => "BeamVert",
        34 => "BeamSide",
        35 => "Boomerang",
        36 => "Bomb",
        37 => "Explosion",
        38 => "Fireball",
        39 => "Rupee",
        40 => "Heart",
        41 => "Key",
        42 => "BombPickup",
        43 => "ArrowPickup",
        44 => "Fairy",
        45 => "HeartPiece",
        46 => "Triforce",
        47 => "ChestClosed",
        48 => "ChestOpen",
        49 => "Poof",
        50 => "Sparkle",
        51 => "Shadow",
        52 => "HudHeart4",
        53 => "HudHeart2",
        54 => "HudHeart1",
        55 => "HudHeart0",
        56 => "IconSword",
        57 => "IconShield",
        58 => "IconBomb",
        59 => "IconBow",
        60 => "IconBoomerang",
        61 => "IconFeather",
        62 => "IconBracelet",
        63 => "IconBoots",
        64 => "IconFlippers",
        65 => "IconKey",
        66 => "IconRupee",
        _ => "IconRupee",
    }
}

/// How many terrain tiles have a name.
pub const TILE_NAME_COUNT: usize = 35;

/// The name of the `i`th named terrain tile: its constant's name.
pub open spec fn tile_name_spec(i: usize) -> Seq<char> {
    match i {
        0 => "VOID"@,
        1 => "GRASS"@,
        2 => "GRASS_TALL"@,
        3 => "FLOWERS"@,
        4 => "SAND"@,
        5 => "PATH"@,
        6 => "FLOOR"@,
        7 => "CARPET"@,
        8 => "BRIDGE"@,
        9 => "WATER"@,
        10 => "WATER_SHALLOW"@,
        11 => "LAVA"@,
        12 => "PIT"@,
        13 => "BUSH"@,
        14 => "ROCK"@,
        15 => "TREE"@,
        16 => "WALL"@,
        17 => "CLIFF"@,
        18 => "WALL_DUNGEON"@,
        19 => "WALL_CRACKED"@,
        20 => "BLOCK"@,
        21 => "STATUE"@,
        22 => "POT"@,
        23 => "SIGN"@,
        24 => "DOOR_OPEN"@,
        25 => "DOOR_SHUT"@,
        26 => "DOOR_LOCKED"@,
        27 => "DOOR_BOSS"@,
        28 => "STAIRS_DOWN"@,
        29 => "STAIRS_UP"@,
        30 => "WARP"@,
        31 => "LEDGE_DOWN"@,
        32 => "LEDGE_UP"@,
        33 => "LEDGE_LEFT"@,
        34 => "LEDGE_RIGHT"@,
        _ => Seq::empty(),
    }
}

/// The id of the `i`th named terrain tile.
pub open spec fn tile_id_spec(i: usize) -> u8 {
    match i {
        0 => 0u8,
        1 => 1u8,
        2 => 2u8,
        3 => 3u8,
        4 => 4u8,
        5 => 5u8,
        6 => 6u8,
        7 => 7u8,
        8 => 8u8,
        9 => 16u8,
        10 => 17u8,
        11 => 18u8,
        12 => 19u8,
        13 => 32u8,
        14 => 33u8,
        15 => 34u8,
        16 => 35u8,
        17 => 36u8,
        18 => 37u8,
        19 => 38u8,
        20 => 39u8,
        21 => 40u8,
        22 => 41u8,
        23 => 42u8,
        24 => 48u8,
        25 => 49u8,
        26 => 50u8,
        27 => 51u8,
        28 => 52u8,
        29 => 53u8,
        30 => 54u8,
        31 => 64u8,
        32 => 65u8,
        33 => 66u8,
        34 => 67u8,
        _ => 0u8,
    }
}

/// The `i`th named terrain tile: its name and id.
pub fn tile_entry(i: usize) -> (r: (&'static str, u8))
    requires
        i < TILE_NAME_COUNT,
    ensures
        r.0@ == tile_name_spec(i as usize),
        r.1 == tile_id_spec(i as usize),
{
    match i {
        0 => ("VOID", 0),
        1 => ("GRASS", 1),
        2 => ("GRASS_TALL", 2),
        3 => ("FLOWERS", 3),
        4 => ("SAND", 4),
        5 => ("PATH", 5),
        6 => ("FLOOR", 6),
        7 => ("CARPET", 7),
        8 => ("BRIDGE", 8),
        9 => ("WATER", 16),
        10 => ("WATER_SHALLOW", 17),
        11 => ("LAVA", 18),
        12 => ("PIT", 19),
        13 => ("BUSH", 32),
        14 => ("ROCK", 33),
        15 => ("TREE", 34),
        16 => ("WALL", 35),
        17 => ("CLIFF", 36),
        18 => ("WALL_DUNGEON", 37),
        19 => ("WALL_CRACKED", 38),
        20 => ("BLOCK", 39),
        21 => ("STATUE", 40),
        22 => ("POT", 41),
        23 => ("SIGN", 42),
        24 => ("DOOR_OPEN", 48),
        25 => ("DOOR_SHUT", 49),
        26 => ("DOOR_LOCKED", 50),
        27 => ("DOOR_BOSS", 51),
        28 => ("STAIRS_DOWN", 52),
        29 => ("STAIRS_UP", 53),
        30 => ("WARP", 54),
        31 => ("LEDGE_DOWN", 64),
        32 => ("LEDGE_UP", 65),
        33 => ("LEDGE_LEFT", 66),
        34 => ("LEDGE_RIGHT", 67),
        _ => ("LEDGE_RIGHT", 67),
    }
}

/// The index of the first sprite from `i` on named `name`, ignoring case.
pub open spec fn first_sprite(name: Seq<char>, i: int) -> Option<int>
    decreases SPRITE_NAME_COUNT - i,
{
    if i < 0 || i >= SPRITE_NAME_COUNT {
        None
    } else if eq_ic(sprite_name_spec(i as usize), name) {
        Some(i)
    } else {
        first_sprite(name, i + 1)
    }
}

/// The index of the first terrain tile from `i` on named `name`, ignoring
/// case.
pub open spec fn first_tile(name: Seq<char>, i: int) -> Option<int>
    decreases TILE_NAME_COUNT - i,
{
    if i < 0 || i >= TILE_NAME_COUNT {
        None
    } else if eq_ic(tile_name_spec(i as usize), name) {
        Some(i)
    } else {
        first_tile(name, i + 1)
    }
}

/// Looks up a sprite by the name used in profiles, ignoring case.
pub fn sprite_by_name(name: &str) -> (r: Option<SpriteId>)
    ensures
        match first_sprite(name@, 0) {
            Some(i) => r is Some && sprite_index(r->0) == i,
            None => r is None,
        },
{
    let cs = chars_of(name);
    sprite_named(&cs)
}

/// See [`sprite_by_name`].
pub fn sprite_named(cs: &Vec<char>) -> (r: Option<SpriteId>)
    ensures
        match first_sprite(cs@, 0) {
            Some(i) => r is Some && sprite_index(r->0) == i,
            None => r is None,
        },
{
    let ghost name = cs@;
    let mut i: usize = 0;
    while i < SPRITE_NAME_COUNT
        invariant
            cs@ == name,
            i <= SPRITE_NAME_COUNT,
            first_sprite(name, 0) == first_sprite(name, i as int),
        decreases SPRITE_NAME_COUNT - i,
    {
        let n = sprite_name(i);
        if same_ignoring_case(&cs, n) {
            proof {
                assert(eq_ic(sprite_name_spec(i as usize), name)) by {
                    assert forall|k: int| 0 <= k < name.len() implies #[trigger] lower_code(sprite_name_spec(i as usize)[k])
                        == lower_code(name[k]) by {
                        assert(lower_code(cs@[k]) == lower_code(n@[k]));
                    }
                }
            }
            return Some(sprite_at(i));
        }
        proof {
            assert(!eq_ic(sprite_name_spec(i as usize), name)) by {
                if eq_ic(sprite_name_spec(i as usize), name) {
                    assert forall|k: int| 0 <= k < cs@.len() implies #[trigger] lower_code(cs@[k]) == lower_code(n@[k]) by {
                        assert(lower_code(sprite_name_spec(i as usize)[k]) == lower_code(name[k]));
                    }
                }
            }
        }
        i = i + 1;
    }
    None
}

/// Looks up a terrain tile id by name, ignoring case.
pub fn tile_by_name(name: &str) -> (r: Option<u8>)
    ensures
        match first_tile(name@, 0) {
            Some(i) => r == Some(tile_id_spec(i as usize)),
            None => r is None,
        },
{
    let cs = chars_of(name);
    tile_named(&cs)
}

/// See [`tile_by_name`].
pub fn tile_named(cs: &Vec<char>) -> (r: Option<u8>)
    ensures
        match first_tile(cs@, 0) {
            Some(i) => r == Some(tile_id_spec(i as usize)),
            None => r is None,
        },
{
    let ghost name = cs@;
    let mut i: usize = 0;
    while i < TILE_NAME_COUNT
        invariant
            cs@ == name,
            i <= TILE_NAME_COUNT,
            first_tile(name, 0) == first_tile(name, i as int),
        decreases TILE_NAME_COUNT - i,
    {
        let (n, id) = tile_entry(i);
        if same_ignoring_case(&cs, n) {
            proof {
                assert(eq_ic(tile_name_spec(i as usize), name)) by {
                    assert forall|k: int| 0 <= k < name.len() implies #[trigger] lower_code(tile_name_spec(i as usize)[k])
                        == lower_code(name[k]) by {
                        assert(lower_code(cs@[k]) == lower_code(n@[k]));
                    }
                }
            }
            return Some(id);
        }
        proof {
            assert(!eq_ic(tile_name_spec(i as usize), name)) by {
                if eq_ic(tile_name_spec(i as usize), name) {
                    assert forall|k: int| 0 <= k < cs@.len() implies #[trigger] lower_code(cs@[k]) == lower_code(n@[k]) by {
                        assert(lower_code(tile_name_spec(i as usize)[k]) == lower_code(name[k]));
                    }
                }
            }
        }
        i = i + 1;
    }
    None
}

/// A sprite name found from `i` on is one of the sprites.
pub proof fn lemma_first_sprite_small(name: Seq<char>, i: int)
    ensures
        first_sprite(name, i) matches Some(j) ==> 0 <= j < SPRITE_NAME_COUNT,
    decreases SPRITE_NAME_COUNT - i,
{
    if 0 <= i < SPRITE_NAME_COUNT && !eq_ic(sprite_name_spec(i as usize), name) {
        lemma_first_sprite_small(name, i + 1);
    }
}

} // verus!
