use lib::assets::pack::{sprite_at, SpriteId, SPRITE_COUNT};
use lib::assets::palette::pal;
use lib::assets::profile::names::{sprite_name, SPRITE_NAME_COUNT};
use lib::assets::profile::{palette_by_name, parse, sprite_by_name, tile_by_name, Directive, AUTO_PALETTE};
use lib::assets::tile::{FLIP_X, FLIP_Y};
use lib::tiles::tile;

#[test]
fn names_resolve_both_ways() {
    assert_eq!(tile_by_name("BUSH"), Some(tile::BUSH));
    assert_eq!(tile_by_name("bush"), Some(tile::BUSH));
    assert_eq!(tile_by_name("nope"), None);
    assert_eq!(sprite_by_name("HeroDown0"), Some(SpriteId::HeroDown0));
    assert_eq!(palette_by_name("HERO"), Some(pal::HERO));
    assert_eq!(palette_by_name("7"), Some(7));
}

#[test]
fn every_sprite_has_a_name() {
    assert_eq!(SPRITE_NAME_COUNT, SpriteId::N);
    assert_eq!(SPRITE_COUNT, SpriteId::N);
    for i in 0..SPRITE_NAME_COUNT {
        assert_eq!(sprite_by_name(sprite_name(i)), Some(sprite_at(i)), "sprite names must stay in enum order");
    }
}

#[test]
fn parses_a_whole_profile() {
    let p = parse(
        r#"
        # a comment, ignored
        name       Test Cartridge
        palette    GRASS 0f380f 306230 8bac0f 9bbc0f
        import     0x30000 256
        terrain    GRASS 12 13 14 15 pal=GRASS
        sprite     HeroDown0 2 2  40 41 48 49 pal=HERO
        "#,
    );
    assert_eq!(p.name, "Test Cartridge");
    assert_eq!(p.palettes.len(), 1);
    assert_eq!(
        p.imports[0],
        Directive::Import {
            offset: 0x30000,
            count: 256,
            base: 0
        }
    );
    assert_eq!(p.terrain[0].0, tile::GRASS);
    assert_eq!(p.terrain[0].1[0].tile, 12);
    assert_eq!(p.sprites[0].1.cells.len(), 4);
    assert!(p.errors.is_empty(), "{:?}", p.errors);
}

#[test]
fn flips_and_blanks_are_understood() {
    let p = parse("terrain GRASS 5:x 5:y 5:xy - pal=GRASS");
    let cells = p.terrain[0].1;
    assert_eq!(cells[0].flip, FLIP_X);
    assert_eq!(cells[1].flip, FLIP_Y);
    assert_eq!(cells[2].flip, FLIP_X | FLIP_Y);
    assert!(cells[3].is_blank());
}

#[test]
fn a_bad_line_does_not_sink_the_file() {
    let p = parse("name Good\nwobble 1 2 3\nterrain BUSH 1 1 1 1");
    assert_eq!(p.name, "Good");
    assert_eq!(p.terrain.len(), 1);
    assert_eq!(p.errors.len(), 1);
    assert_eq!(p.errors[0].0, 2);
}

#[test]
fn each_error_names_its_line_and_cause() {
    let p = parse("palette NOPE 1 2 3 4\r\nimport -1 3\n\nterrain WALL 1 2\nsprite Nobody 1 1 5\nterrain 300 1 2 3 x pal=WHAT\nmystery");
    let got: Vec<(usize, &str)> = p.errors.iter().map(|(n, m)| (*n, m.as_str())).collect();
    assert_eq!(
        got,
        vec![
            (1, "palette needs a slot and 4 colours"),
            (2, "import needs an offset and a count"),
            (4, "terrain needs 4 cells"),
            (5, "unknown sprite Nobody"),
            (6, "unknown palette WHAT"),
            (6, "bad cell"),
            (7, "unknown keyword mystery"),
        ]
    );
}

#[test]
fn numbers_colours_and_palettes_are_read_as_std_reads_them() {
    let p = parse("palette 3 ff0000 00FF00 +0000ff 123456 pal=hud\nimport 0X10 +4 -7\nTERRAIN 300 7 0x8 9:yx . ");
    assert!(p.errors.is_empty(), "{:?}", p.errors);
    assert_eq!(p.palettes[0].0, 3);
    assert_eq!(p.palettes[0].1 .0, [0xff0000, 0x00ff00, 0x0000ff, 0x123456]);
    assert_eq!(p.imports[0], Directive::Import { offset: 16, count: 4, base: 0 });
    assert_eq!(p.terrain[0].0, 300u32 as u8);
    let cells = p.terrain[0].1;
    assert_eq!((cells[0].tile, cells[0].palette), (7, AUTO_PALETTE));
    assert_eq!(cells[1].tile, 8);
    assert_eq!(cells[2].flip, FLIP_X | FLIP_Y);
    assert!(cells[3].is_blank());
    assert_eq!(palette_by_name("enemy_blue"), Some(pal::ENEMY_BLUE));
    assert_eq!(palette_by_name("256"), None);
    assert_eq!(palette_by_name("+12"), Some(12));
    let q = parse("palette 4 #ff0000 1 2 3");
    assert_eq!(q.errors[0].1, "palette needs a slot and 4 colours", "a # starts a comment");
}

#[test]
fn a_keyword_without_arguments_is_reported() {
    let p = parse("terrain\nsprite\npal=GRASS\nname Kept");
    assert!(p.terrain.is_empty());
    assert!(p.sprites.is_empty());
    assert_eq!(p.name, "Kept");
    let got: Vec<(usize, &str)> = p.errors.iter().map(|(n, m)| (*n, m.as_str())).collect();
    assert_eq!(got, vec![(1, "unknown terrain "), (2, "unknown sprite "), (3, "unknown keyword ")]);
}
