use lib::assets::pack::{AssetPack, PackBuilder, SpriteId};
use lib::assets::palette::pal;
use lib::assets::tile::{Cell, FLIP_X};
use lib::render::{draw, draw_cell, player_is_hidden, Framebuffer};
use lib::entity::Entity;
use lib::world::pstate;

fn hero_pack() -> AssetPack {
    let mut b = PackBuilder::new("t");
    let mut rows: Vec<&str> = Vec::new();
    for _ in 0..8 {
        rows.push("#-......++++....");
    }
    for _ in 0..8 {
        rows.push("......##......-+");
    }
    b.sprite(SpriteId::HeroSide0, &rows, pal::HERO);
    b.sprite(SpriteId::HeroDown0, &rows, pal::HERO);
    b.build()
}

#[test]
fn the_framebuffer_is_a_game_boy_screen() {
    let fb = Framebuffer::new();
    assert_eq!((fb.width, fb.height), (160, 144));
    assert_eq!(fb.pixels.len(), 160 * 144);
    assert_eq!(fb.as_bytes().len(), 160 * 144 * 4);
}

#[test]
fn bytes_come_low_byte_first() {
    let mut fb = Framebuffer::new();
    fb.set(0, 0, 0x4433_2211);
    let bytes = fb.as_bytes();
    assert_eq!(&bytes[0..8], &[0x11, 0x22, 0x33, 0x44, 0x00, 0x00, 0x00, 0xff]);
}

#[test]
fn pixels_outside_are_ignored_and_read_as_zero() {
    let mut fb = Framebuffer::new();
    fb.clear(7);
    fb.set(-1, 3, 9);
    fb.set(160, 3, 9);
    fb.set(5, 144, 9);
    assert!(fb.pixels.iter().all(|p| *p == 7));
    assert_eq!(fb.get(-1, 0), 0);
    assert_eq!(fb.get(3, 4), 7);
    fb.set(3, 4, 1);
    assert_eq!(fb.get(3, 4), 1);
    assert_eq!(fb.pixels[4 * 160 + 3], 1);
}

#[test]
fn rectangles_are_clipped() {
    let mut fb = Framebuffer::new();
    fb.clear(0);
    fb.fill_rect(-5, -5, 10, 10, 3);
    assert_eq!(fb.get(0, 0), 3);
    assert_eq!(fb.get(4, 4), 3);
    assert_eq!(fb.get(5, 4), 0);
    assert_eq!(fb.get(4, 5), 0);
    fb.fill_rect(150, 140, 100, 100, 4);
    assert_eq!(fb.get(159, 143), 4);
    assert_eq!(fb.get(149, 143), 0);
    let n = fb.pixels.iter().filter(|p| **p != 0).count();
    assert_eq!(n, 25 + 10 * 4);
}

#[test]
fn terrain_cells_paint_colour_zero_and_sprites_do_not() {
    let pack = hero_pack();
    let s = pack.sprite(SpriteId::HeroSide0);
    let cell = s.cells[0];
    let mut fb = Framebuffer::new();
    fb.clear(0);
    draw_cell(&mut fb, &pack, cell, 0, 0, true);
    assert_eq!(fb.get(2, 0), 0, "colour 0 is a hole in a sprite");
    assert_ne!(fb.get(0, 0), 0);
    draw_cell(&mut fb, &pack, cell, 0, 0, false);
    assert_ne!(fb.get(2, 0), 0, "terrain paints colour 0");
    let mut g = Framebuffer::new();
    g.clear(0);
    draw_cell(&mut g, &pack, Cell::blank(), 0, 0, false);
    assert!(g.pixels.iter().all(|p| *p == 0), "a blank cell draws nothing");
}

#[test]
fn drawing_off_screen_is_harmless() {
    let pack = hero_pack();
    let mut fb = Framebuffer::new();
    for (x, y) in [(-100, -100), (500, 500), (-4, 70), (158, 2)] {
        draw(&mut fb, &pack, SpriteId::HeroDown0, x, y, 0);
    }
}

#[test]
fn a_flipped_sprite_mirrors() {
    let pack = hero_pack();
    let mut a = Framebuffer::new();
    let mut b = Framebuffer::new();
    a.clear(0);
    b.clear(0);
    draw(&mut a, &pack, SpriteId::HeroSide0, 0, 0, 0);
    draw(&mut b, &pack, SpriteId::HeroSide0, 0, 0, FLIP_X);
    let w = pack.sprite(SpriteId::HeroSide0).width();
    assert_eq!(w, 16);
    for y in 0..16 {
        for x in 0..w {
            assert_eq!(a.get(x, y), b.get(w - 1 - x, y), "mismatch at {x},{y}");
        }
    }
    assert_ne!(a.get(0, 0), a.get(15, 0));
}

#[test]
fn only_the_dead_are_hidden() {
    let mut e = Entity::default();
    assert!(!player_is_hidden(&e));
    e.state = pstate::DEAD;
    assert!(player_is_hidden(&e));
}
