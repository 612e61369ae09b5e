use lib::assets::pack::{blank, AssetPack, PackBuilder, SpriteId, SPRITE_COUNT};
use lib::cli::harness::sprite_id;
use lib::tiles::tile;

#[test]
fn art_interns_identical_tiles_once() {
    let mut b = PackBuilder::new("t");
    let rows = [
        "--------", "--------", "--------", "--------", "--------", "--------", "--------",
        "--------",
    ];
    let a = b.art(&rows, 0);
    let c = b.art(&rows, 1);
    assert_eq!(a.cells[0].tile, c.cells[0].tile, "same pixels, same tile");
    assert_ne!(a.cells[0].palette, c.cells[0].palette);
}

#[test]
fn art_maps_characters_to_colours() {
    let mut b = PackBuilder::new("t");
    let rows = [
        ".-+#....", "........", "........", "........", "........", "........", "........",
        "........",
    ];
    let s = b.art(&rows, 0);
    let pack = b.build();
    let t = pack.tile(s.cells[0].tile);
    assert_eq!(&t[0..4], &[0, 1, 2, 3]);
}

#[test]
fn blank_art_produces_no_cell() {
    let mut b = PackBuilder::new("t");
    let rows = ["........"; 8];
    let s = b.art(&rows, 0);
    assert!(s.cells[0].is_blank());
}

#[test]
fn eight_by_eight_terrain_is_repeated() {
    let mut b = PackBuilder::new("t");
    let rows = ["-------#"; 8];
    b.terrain(tile::GRASS, &rows, 0);
    let pack = b.build();
    let m = pack.metatile(tile::GRASS);
    assert_eq!(m[0], m[3], "one tile fills all four cells");
}

#[test]
fn importing_tiles_keeps_structure() {
    let mut b = PackBuilder::new("t");
    let rows = ["########"; 8];
    b.terrain(tile::GRASS, &rows, 0);
    let mut pack = b.build();
    let idx = pack.metatile(tile::GRASS)[0].tile;
    let mut replacement = blank();
    replacement[0] = 2;
    pack.import_tiles(idx as usize, &[replacement]);
    assert_eq!(pack.metatile(tile::GRASS)[0].tile, idx, "structure held");
    assert_eq!(pack.tile(idx)[0], 2, "pixels changed");
}

#[test]
fn importing_past_the_end_grows_the_array() {
    let mut pack = AssetPack::empty();
    pack.import_tiles(40, &[blank(); 4]);
    assert_eq!(pack.tile_count(), 44);
}

#[test]
fn unknown_tiles_and_sprites_are_safe_to_ask_for() {
    let pack = AssetPack::empty();
    assert!(pack.metatile(255)[0].is_blank());
    assert_eq!(pack.tile(9999), blank());
}

#[test]
fn sprite_ids_are_listed_in_order() {
    assert_eq!(sprite_id(0), SpriteId::HeroDown0);
    assert_eq!(SPRITE_COUNT, SpriteId::N);
}

#[test]
fn sixteen_square_terrain_keeps_reading_order() {
    let mut b = PackBuilder::new("t");
    let mut rows: Vec<&str> = Vec::new();
    for _ in 0..8 {
        rows.push("--------########");
    }
    for _ in 0..8 {
        rows.push("++++++++........");
    }
    b.object(tile::GRASS, &rows, 3);
    let pack = b.build();
    let m = pack.metatile(tile::GRASS);
    assert_eq!(pack.tile(m[0].tile)[0], 1);
    assert_eq!(pack.tile(m[1].tile)[0], 3);
    assert_eq!(pack.tile(m[2].tile)[0], 2);
    assert!(m[3].is_blank());
    assert_eq!(m[0].palette, 3);
    assert!(pack.is_overlay(tile::GRASS));
    assert!(!pack.is_overlay(tile::GRASS + 1));
}

#[test]
fn a_sprite_lands_in_its_slot_with_its_offset() {
    let mut b = PackBuilder::new("t");
    let rows = ["#-------"; 8];
    b.sprite_off(SpriteId::HeroDown1, &rows, 2, -3, 4);
    let pack = b.build();
    let s = pack.sprite(SpriteId::HeroDown1);
    assert_eq!((s.cols, s.rows, s.ox, s.oy), (1, 1, -3, 4));
    assert_eq!(s.cells[0].palette, 2);
    assert!(pack.sprite(SpriteId::HeroDown0).cells.is_empty());
}
