use lib::assets::{sniff, FileKind};
use lib::assets::image::{decode_bmp, tiles_from_image, Image};
use lib::assets::palette::{default_palettes, pal, rgb_to_abgr};
use lib::assets::rom::{decode_tiles, info, logo, scan, score_block, TILE_BYTES};
use lib::assets::tile::{blank_tile, decode_2bpp, encode_2bpp, is_flat, pixel, FLIP_X, FLIP_Y};
use lib::gen::graph::carve;
use lib::gen::noise::{fractal, value};
use lib::rng::Rng;

#[test]
fn noise_is_in_range() {
    for y in -50..50 {
        for x in -50..50 {
            let v = fractal(7, x, y, 16);
            assert!((0..1024).contains(&v), "{v}");
        }
    }
}

#[test]
fn noise_is_deterministic() {
    assert_eq!(value(1, 5, 9, 16), value(1, 5, 9, 16));
    assert_ne!(value(1, 5, 9, 16), value(2, 5, 9, 16));
}

#[test]
fn noise_is_smooth_between_neighbours() {
    // Adjacent samples on a coarse lattice should not jump the full range.
    let mut worst = 0;
    for x in 0..200 {
        let a = value(3, x, 0, 32);
        let b = value(3, x + 1, 0, 32);
        worst = worst.max((a - b).abs());
    }
    assert!(worst < 200, "noise jumped by {worst}");
}

#[test]
fn negative_coordinates_work() {
    let a = value(9, -33, -17, 16);
    assert!((0..1024).contains(&a));
}

#[test]
fn a_scale_of_zero_does_not_divide_by_zero() {
    let _ = value(1, 3, 3, 0);
}

#[test]
fn carving_connects_every_room() {
    for seed in 0..25u64 {
        let mut rng = Rng::new(seed);
        let g = carve(&mut rng, 6, 5, (0, 0), 3);
        assert!(g.is_fully_connected(), "seed {seed} left a room stranded");
    }
}

#[test]
fn links_are_symmetric() {
    let mut rng = Rng::new(4);
    let g = carve(&mut rng, 4, 4, (1, 1), 2);
    for y in 0..g.h {
        for x in 0..g.w {
            for d in g.exits(x, y) {
                let (dx, dy) = d.step();
                assert!(g.linked(x + dx, y + dy, d.opposite()), "one-way link at {x},{y}");
            }
        }
    }
}

#[test]
fn the_deepest_room_is_far_from_the_start() {
    let mut rng = Rng::new(11);
    let g = carve(&mut rng, 5, 5, (0, 0), 0);
    let deep = g.deepest();
    assert!(g.depth_at(deep.0, deep.1) >= 4, "a 5x5 maze should be deep");
}

#[test]
fn a_path_runs_from_the_start_to_its_target() {
    let mut rng = Rng::new(21);
    let g = carve(&mut rng, 5, 4, (2, 2), 1);
    let target = g.deepest();
    let path = g.path_to(target);
    assert_eq!(path.first(), Some(&g.start));
    assert_eq!(path.last(), Some(&target));
    // Consecutive rooms must be neighbours.
    for w in path.windows(2) {
        let d = (w[0].0 - w[1].0).abs() + (w[0].1 - w[1].1).abs();
        assert_eq!(d, 1);
    }
}

#[test]
fn a_single_room_graph_is_valid() {
    let mut rng = Rng::new(1);
    let g = carve(&mut rng, 1, 1, (0, 0), 5);
    assert!(g.is_fully_connected());
    assert_eq!(g.deepest(), (0, 0));
}

#[test]
fn carving_is_deterministic() {
    let a = carve(&mut Rng::new(99), 6, 6, (0, 0), 4);
    let b = carve(&mut Rng::new(99), 6, 6, (0, 0), 4);
    assert_eq!(a.depth, b.depth);
}

#[test]
fn abgr_conversion_puts_red_first() {
    assert_eq!(rgb_to_abgr(0xff0000), 0xff0000ff);
    assert_eq!(rgb_to_abgr(0x0000ff), 0xffff0000);
    assert_eq!(rgb_to_abgr(0x000000), 0xff000000);
}

#[test]
fn palette_indices_wrap() {
    let p = default_palettes()[pal::GRASS as usize];
    assert_eq!(p.color(4), p.color(0));
}

#[test]
fn sprite_palettes_reserve_index_zero() {
    let pals = default_palettes();
    for i in [pal::HERO, pal::ENEMY_RED, pal::GOLD, pal::HEART] {
        assert_eq!(
            pals[i as usize].0[0],
            0,
            "sprite palette {i} must keep index 0 for transparency"
        );
    }
}

#[test]
fn two_bpp_roundtrips() {
    let mut t = blank_tile();
    for (i, px) in t.iter_mut().enumerate() {
        *px = (i % 4) as u8;
    }
    assert_eq!(decode_2bpp(&encode_2bpp(&t)), t);
}

#[test]
fn two_bpp_decodes_a_known_pattern() {
    // Low plane all set, high plane clear: every pixel is colour 1.
    let bytes = [0xff, 0x00].repeat(8);
    let t = decode_2bpp(&bytes);
    assert!(t.iter().all(|p| *p == 1));
    // Both planes set: colour 3.
    let bytes = [0xff, 0xff].repeat(8);
    assert!(decode_2bpp(&bytes).iter().all(|p| *p == 3));
}

#[test]
fn decode_tolerates_short_input() {
    let t = decode_2bpp(&[0xff, 0xff]);
    assert_eq!(t[0], 3);
    assert_eq!(t[63], 0);
}

#[test]
fn flips_mirror_pixels() {
    let mut t = blank_tile();
    t[0] = 3;
    assert_eq!(pixel(&t, 0, 0, 0), 3);
    assert_eq!(pixel(&t, 7, 0, FLIP_X), 3);
    assert_eq!(pixel(&t, 0, 7, FLIP_Y), 3);
    assert_eq!(pixel(&t, 7, 7, FLIP_X | FLIP_Y), 3);
}

#[test]
fn flat_detection() {
    assert!(is_flat(&blank_tile()));
    let mut t = blank_tile();
    t[5] = 1;
    assert!(!is_flat(&t));
}

fn gradient(w: usize, h: usize) -> Image {
    let mut rgba = vec![0u8; w * h * 4];
    for y in 0..h {
        for x in 0..w {
            let v = ((x * 255) / w.max(1)) as u8;
            let i = (y * w + x) * 4;
            rgba[i] = v;
            rgba[i + 1] = v;
            rgba[i + 2] = v;
            rgba[i + 3] = 255;
        }
    }
    Image { width: w, height: h, rgba }
}

#[test]
fn a_gradient_uses_all_four_levels() {
    let (tiles, pal) = tiles_from_image(&gradient(64, 8));
    assert_eq!(tiles.len(), 8);
    let mut seen = [false; 4];
    for t in &tiles {
        for p in t.iter() {
            seen[*p as usize] = true;
        }
    }
    assert!(seen.iter().all(|s| *s), "all four levels should be used");
    assert!(pal.0[3] > pal.0[0], "palette should run dark to light");
}

#[test]
fn transparent_pixels_become_colour_zero() {
    let mut img = gradient(8, 8);
    for i in 0..8 {
        img.rgba[i * 4 + 3] = 0;
    }
    let (tiles, _) = tiles_from_image(&img);
    assert_eq!(&tiles[0][0..8], &[0u8; 8]);
}

#[test]
fn images_smaller_than_a_tile_produce_nothing() {
    let (tiles, _) = tiles_from_image(&gradient(4, 4));
    assert!(tiles.is_empty());
}

#[test]
fn bmp_roundtrip() {
    // A 2x2 24-bit BMP: red, green / blue, white.
    let w = 2usize;
    let h = 2usize;
    let row = (w * 3 + 3) & !3;
    let mut data = vec![0u8; 54 + row * h];
    data[0..2].copy_from_slice(b"BM");
    data[10..14].copy_from_slice(&54u32.to_le_bytes());
    data[14..18].copy_from_slice(&40u32.to_le_bytes());
    data[18..22].copy_from_slice(&(w as i32).to_le_bytes());
    data[22..26].copy_from_slice(&(h as i32).to_le_bytes());
    data[28..30].copy_from_slice(&24u16.to_le_bytes());
    // Bottom row first: blue, white.
    data[54..57].copy_from_slice(&[255, 0, 0]);
    data[57..60].copy_from_slice(&[255, 255, 255]);
    // Top row: red, green.
    data[54 + row..54 + row + 3].copy_from_slice(&[0, 0, 255]);
    data[54 + row + 3..54 + row + 6].copy_from_slice(&[0, 255, 0]);

    let img = decode_bmp(&data).expect("should decode");
    assert_eq!((img.width, img.height), (2, 2));
    assert_eq!(img.pixel(0, 0), (255, 0, 0, 255), "top left is red");
    assert_eq!(img.pixel(0, 1), (0, 0, 255, 255), "bottom left is blue");
    assert_eq!(img.pixel(1, 1), (255, 255, 255, 255), "bottom right is white");
}

#[test]
fn rubbish_is_not_a_bmp() {
    assert!(decode_bmp(b"not a bitmap at all, honestly, no").is_none());
    assert!(decode_bmp(&[]).is_none());
}

/// Builds a minimal but valid-looking ROM image.
fn fake_rom(title: &str) -> Vec<u8> {
    let mut rom = vec![0u8; 32 * 1024];
    let l = logo();
    rom[0x104..0x104 + l.len()].copy_from_slice(&l);
    for (i, b) in title.bytes().take(15).enumerate() {
        rom[0x134 + i] = b;
    }
    rom[0x143] = 0x80; // Game Boy Color aware.
    rom[0x147] = 0x1b;
    rom[0x148] = 0x00; // 32 KiB.
    let mut sum: u8 = 0;
    for b in &rom[0x134..=0x14c] {
        sum = sum.wrapping_sub(*b).wrapping_sub(1);
    }
    rom[0x14d] = sum;
    rom
}

#[test]
fn reads_the_header() {
    let rom = fake_rom("ZELDUH");
    let i = info(&rom);
    assert_eq!(i.title, "ZELDUH");
    assert!(i.has_logo);
    assert!(i.color);
    assert!(i.header_checksum_ok);
    assert_eq!(i.declared_size, 32 * 1024);
    assert_eq!(i.banks, 2);
    assert!(i.looks_like_gameboy());
}

#[test]
fn rejects_a_file_that_is_not_a_rom() {
    let junk = b"this is a text file, not a cartridge".repeat(100);
    let i = info(&junk);
    assert!(!i.looks_like_gameboy());
}

#[test]
fn a_truncated_file_does_not_panic() {
    for n in [0usize, 1, 16, 0x140, 0x14d] {
        let _ = info(&vec![0u8; n]);
    }
}

#[test]
fn decoding_stops_at_the_end_of_the_data() {
    let data = vec![0xffu8; TILE_BYTES * 3 + 4];
    let tiles = decode_tiles(&data, 0, 10);
    assert_eq!(tiles.len(), 3);
}

#[test]
fn graphics_score_higher_than_noise() {
    // A block of smooth, structured tiles.
    let mut art = Vec::new();
    for n in 0..128 {
        let mut t = [0u8; 64];
        for y in 0..8 {
            for x in 0..8 {
                t[y * 8 + x] = if (x + n / 16) % 8 < 4 { 1 } else { 2 };
            }
        }
        art.extend_from_slice(&encode_2bpp(&t));
    }
    // A block of pseudo-random bytes standing in for code.
    let mut noise = Vec::new();
    let mut state = 12345u32;
    for _ in 0..128 * TILE_BYTES {
        state = state.wrapping_mul(1103515245).wrapping_add(12345);
        noise.push((state >> 16) as u8);
    }
    let art_score = score_block(&art, 0, 128);
    let noise_score = score_block(&noise, 0, 128);
    assert!(art_score > noise_score, "art {art_score} should beat noise {noise_score}");
}

#[test]
fn flat_blocks_score_nothing() {
    let empty = vec![0u8; 128 * TILE_BYTES];
    assert_eq!(score_block(&empty, 0, 128), 0);
}

#[test]
fn scan_returns_regions_best_first() {
    let mut rom = fake_rom("ART");
    // Drop recognisable graphics in the middle of the ROM.
    let mut t = [0u8; 64];
    for y in 0..8 {
        for x in 0..8 {
            t[y * 8 + x] = if x < 4 { 3 } else { 1 };
        }
    }
    let enc = encode_2bpp(&t);
    for i in 0..128 {
        let at = 0x4000 + i * TILE_BYTES;
        rom[at..at + TILE_BYTES].copy_from_slice(&enc);
    }
    let regions = scan(&rom, 128);
    assert!(!regions.is_empty());
    assert!(regions.windows(2).all(|w| w[0].score >= w[1].score));
    assert_eq!(regions[0].offset, 0x4000);
}

#[test]
fn sniffing_common_files() {
    assert_eq!(sniff("game.gb", &[0u8; 64]), Some(FileKind::Rom));
    assert_eq!(sniff("tiles.chr", &[0u8; 64]), Some(FileKind::RawTiles));
    assert_eq!(sniff("art.bmp", b"BM\0\0"), Some(FileKind::Bmp));
    assert_eq!(sniff("map.zprofile", b"name x"), Some(FileKind::Profile));
    assert_eq!(sniff("notes", b"terrain BUSH 1 1 1 1"), Some(FileKind::Profile));
}

#[test]
fn binary_rubbish_is_not_mistaken_for_text() {
    assert_eq!(sniff("mystery", &[0u8, 1, 2, 3]), None);
    assert_eq!(sniff("mystery", &[]), None);
}

#[test]
fn names_are_read_without_regard_to_case() {
    assert_eq!(sniff("GAME.GBC", &[0u8; 4]), Some(FileKind::Rom));
    assert_eq!(sniff("Notes.TXT", &[0u8; 4]), Some(FileKind::Profile));
    assert_eq!(sniff("x", b"1234"), None);
}
