use lib::cli::harness::{glyph, run_world, walk_script, Options};
use lib::cli::png::{adler32, crc32, encode};
use lib::input::button;
use lib::tiles::tile;

#[test]
fn crc_matches_a_known_value() {
    // The CRC of "IEND" with no data, as it appears in every PNG.
    assert_eq!(crc32(b"IEND"), 0xae42_6082);
}

#[test]
fn adler_of_empty_is_one() {
    assert_eq!(adler32(&[]), 1);
}

#[test]
fn adler_of_a_word_is_known() {
    // The example from the zlib documentation.
    assert_eq!(adler32(b"Wikipedia"), 0x11e6_0398);
}

#[test]
fn output_starts_with_the_png_signature() {
    let png = encode(&[0xff00_00ff; 4], 2, 2, 1);
    assert_eq!(&png[0..8], &[0x89, b'P', b'N', b'G', 0x0d, 0x0a, 0x1a, 0x0a]);
    assert_eq!(&png[12..16], b"IHDR");
    assert!(png.ends_with(&crc32(b"IEND").to_be_bytes()));
}

#[test]
fn scaling_multiplies_the_declared_size() {
    let png = encode(&[0; 4], 2, 2, 3);
    let w = u32::from_be_bytes([png[16], png[17], png[18], png[19]]);
    let h = u32::from_be_bytes([png[20], png[21], png[22], png[23]]);
    assert_eq!((w, h), (6, 6));
}

#[test]
fn large_images_are_split_into_several_blocks() {
    // 400x400 RGBA is far more than one 65535 byte stored block.
    let px = vec![0u32; 400 * 400];
    let png = encode(&px, 400, 400, 1);
    assert!(png.len() > 65535);
}

#[test]
fn a_one_pixel_image_is_laid_out_exactly() {
    let png = encode(&[0x4433_2211], 1, 1, 0);
    // Header chunk: length 13.
    assert_eq!(&png[8..12], &[0, 0, 0, 13]);
    // Data chunk: zlib header, one final stored block of 5 bytes, then the
    // filter byte and the pixel red first.
    let idat = 8 + 25;
    assert_eq!(&png[idat + 4..idat + 8], b"IDAT");
    assert_eq!(&png[idat + 8..idat + 10], &[0x78, 0x01]);
    assert_eq!(&png[idat + 10..idat + 15], &[1, 5, 0, 0xfa, 0xff]);
    assert_eq!(&png[idat + 15..idat + 20], &[0, 0x11, 0x22, 0x33, 0x44]);
}

#[test]
fn options_take_their_defaults() {
    let o = Options::parse(&[]);
    assert_eq!(o.seed, 1);
    assert_eq!(o.scale, 4);
    assert_eq!(o.out, "zelduh.png");
}

#[test]
fn options_parse_flags() {
    let args: Vec<String> = "--seed 9 --frames 30 --out x.png --walk rrd".split(' ').map(String::from).collect();
    let o = Options::parse(&args);
    assert_eq!(o.seed, 9);
    assert_eq!(o.frames, 30);
    assert_eq!(o.out, "x.png");
    assert_eq!(o.walk, "rrd");
}

#[test]
fn bad_numbers_keep_their_defaults() {
    let args: Vec<String> = "--seed x --level 70000 --scale +2 map.txt --what --frames".split(' ').map(String::from).collect();
    let o = Options::parse(&args);
    assert_eq!(o.seed, 1);
    assert_eq!(o.level, 0);
    assert_eq!(o.scale, 2);
    assert_eq!(o.frames, 1);
    assert_eq!(o.path.as_deref(), Some("map.txt"));
}

#[test]
fn a_walk_script_becomes_button_masks() {
    assert_eq!(walk_script("rda"), vec![button::RIGHT, button::DOWN, button::A]);
    assert!(walk_script("").is_empty());
    assert_eq!(walk_script("lubx"), vec![button::LEFT, button::UP, button::B, 0]);
}

#[test]
fn every_tile_has_a_glyph() {
    for t in 0..=255u8 {
        let g = glyph(t);
        assert!(g.is_ascii());
    }
    assert_eq!(glyph(tile::WATER), '~');
    assert_eq!(glyph(tile::STAIRS_DOWN), '>');
    assert_eq!(glyph(200), '?');
}

#[test]
fn a_short_run_produces_a_live_world() {
    let o = Options {
        seed: 3,
        level: 0,
        frames: 30,
        scale: 1,
        out: String::new(),
        walk: "r".to_string(),
        rom: None,
        path: None,
    };
    let w = run_world(&o);
    assert_eq!(w.frame, 30);
    assert!(w.players[0].active);
}
