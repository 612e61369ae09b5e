use lib::assets::pack::{AssetPack, Source};
use lib::assets::profile::parse;
use lib::assets::{apply_profile_imports, load, FileKind};
use lib::tiles::tile;

#[test]
fn loading_raw_tiles_replaces_pixels_but_not_structure() {
    let mut pack = AssetPack::empty();
    let before = pack.metatile(tile::BUSH);
    // 64 tiles of solid colour 3.
    let data = vec![0xffu8; 64 * 16];
    let report = load(&mut pack, "ripped.chr", &data, FileKind::RawTiles);
    assert_eq!(report.tiles_imported, 64);
    assert_eq!(report.kind, "tiles");
    assert_eq!(report.detail, "64 tiles from ripped.chr");
    assert_eq!(pack.metatile(tile::BUSH), before);
    assert!(pack.tile(1).iter().all(|p| *p == 3));
    assert!(matches!(pack.source, Source::File { ref name } if name == "ripped.chr"));
}

#[test]
fn loading_a_profile_reports_its_mistakes() {
    let mut pack = AssetPack::empty();
    let report = load(
        &mut pack,
        "x.zprofile",
        b"terrain BUSH 1 1 1 1\nnonsense here",
        FileKind::Profile,
    );
    assert_eq!(report.warnings.len(), 1);
    assert!(report.warnings[0].contains("line 2"));
    assert_eq!(report.warnings[0], "line 2: unknown keyword nonsense");
    assert_eq!(report.detail, "1 bindings from x.zprofile");
    assert_eq!(pack.metatile(tile::BUSH)[0].tile, 1);
    assert_eq!(pack.metatile(tile::BUSH)[0].palette, 0);
}

#[test]
fn a_profile_import_pulls_tiles_out_of_a_rom() {
    let mut pack = AssetPack::empty();
    let p = parse("import 0x10 4 0");
    let mut data = vec![0u8; 0x100];
    for b in data[0x10..0x50].iter_mut() {
        *b = 0xff;
    }
    let n = apply_profile_imports(&mut pack, &p, &data);
    assert_eq!(n, 4);
    assert!(pack.tile(0).iter().all(|v| *v == 3));
    assert_eq!(pack.tile_count(), 4);
}

#[test]
fn applying_a_profile_changes_the_pack() {
    let mut pack = AssetPack::empty();
    let before = pack.metatile(tile::BUSH);
    let p = parse("terrain BUSH 3 3 3 3 pal=STONE\nname Renamed\npalette 9 010203 040506 070809 0a0b0c\nsprite HeroUp0 1 1 - ");
    p.apply(&mut pack);
    assert_ne!(pack.metatile(tile::BUSH), before);
    assert_eq!(pack.metatile(tile::BUSH)[0].tile, 3);
    assert_eq!(pack.name, "Renamed");
    assert_eq!(pack.palette(9).0, [0x010203, 0x040506, 0x070809, 0x0a0b0c]);
    let s = pack.sprite(lib::assets::pack::SpriteId::HeroUp0);
    assert_eq!((s.cols, s.rows, s.cells.len()), (1, 1, 1));
    assert!(s.cells[0].is_blank());
    assert_eq!(s.cells[0].palette, 0, "a blank cell left to choose gets palette 0");
}

#[test]
fn a_broken_bitmap_is_reported() {
    let mut pack = AssetPack::empty();
    let report = load(&mut pack, "bad.bmp", b"BM\0\0", FileKind::Bmp);
    assert_eq!(report.kind, "bmp");
    assert_eq!(report.tiles_imported, 0);
    assert_eq!(report.detail, "could not decode this bitmap");
    assert_eq!(report.warnings, vec!["only uncompressed 24 or 32 bit BMP is supported".to_string()]);
}

#[test]
fn an_rgba_image_becomes_tiles_and_a_palette() {
    let mut pack = AssetPack::empty();
    let mut data = vec![0u8; 16 * 8 * 4];
    for (i, px) in data.chunks_mut(4).enumerate() {
        let v = if i % 16 < 8 { 0 } else { 255 };
        px.copy_from_slice(&[v, v, v, 255]);
    }
    let report = load(&mut pack, "shot.png", &data, FileKind::Rgba { width: 16, height: 8 });
    assert_eq!(report.kind, "image");
    assert_eq!(report.tiles_imported, 2);
    assert_eq!(report.detail, "16x8 image, 2 tiles");
    assert_ne!(pack.tile(0), pack.tile(1));
}

#[test]
fn a_small_rom_names_itself_and_warns() {
    let mut pack = AssetPack::empty();
    let mut data = vec![0u8; 0x8000];
    data[0x134..0x138].copy_from_slice(b"ZELD");
    let report = load(&mut pack, "game.gb", &data, FileKind::Rom);
    assert_eq!(report.kind, "rom");
    assert_eq!(pack.name, "ZELD");
    assert_eq!(report.detail, "ZELD (32 KiB, 2 banks) tiles from 0x00000");
    assert_eq!(report.warnings, vec!["this does not look like a Game Boy ROM".to_string()]);
    assert_eq!(report.tiles_imported, 1);
}
