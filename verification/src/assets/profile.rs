//! Profiles: text files that say where a ROM keeps its graphics.
//!
//! Nothing in a cartridge says "the bushes live here", so pointing the engine
//! at a ROM alone gives a remix rather than a faithful tileset. A profile is
//! how that knowledge gets written down and shared: a few lines of text that
//! import tiles from an offset and then bind them to terrain and sprites.
//!
//! ```text
//! name       My Cartridge
//! palette    GRASS 0f380f 306230 8bac0f 9bbc0f
//! import     0x30000 256          # 256 tiles from this offset
//! terrain    GRASS 12 12 12 12 pal=GRASS
//! sprite     HeroDown0 2 2  40 41 48 49 pal=HERO
//! ```
pub mod scan;
pub mod names;

use vstd::prelude::*;
use crate::assets::pack::{sprite_index, AssetPack, Sprite, SpriteId, SPRITE_COUNT};
use crate::assets::palette::grass_colours;
use crate::assets::palette::{pal, Palette};
use crate::assets::tile::{Cell, NO_TILE};
use crate::text::chars_of;
use scan::{
    colour, colour_spec, copy_range, int_of, int_spec, join_from, join_words, lower, number, number_spec,
    split_lines, split_words, text_is, text_then, to_lower, to_upper, upper, lines_of, words_of, append_chars,
};
pub use names::{first_sprite, first_tile, sprite_by_name, sprite_named, tile_by_name, tile_id_spec, tile_named};

verus! {

broadcast use vstd::string::group_string_axioms;

/// The palette slot a name stands for, ignoring ASCII case: one of the
/// named slots, or a number from 0 to 255.
pub open spec fn palette_slot(name: Seq<char>) -> Option<u8> {
    let u = upper(name);
    if u == "GRASS"@ {
        Some(pal::GRASS)
    } else if u == "EARTH"@ {
        Some(pal::EARTH)
    } else if u == "WATER"@ {
        Some(pal::WATER)
    } else if u == "STONE"@ {
        Some(pal::STONE)
    } else if u == "DUNGEON"@ {
        Some(pal::DUNGEON)
    } else if u == "HERO"@ {
        Some(pal::HERO)
    } else if u == "ENEMY_RED"@ {
        Some(pal::ENEMY_RED)
    } else if u == "ENEMY_BLUE"@ {
        Some(pal::ENEMY_BLUE)
    } else if u == "ENEMY_GREEN"@ {
        Some(pal::ENEMY_GREEN)
    } else if u == "BONE"@ {
        Some(pal::BONE)
    } else if u == "GOLD"@ {
        Some(pal::GOLD)
    } else if u == "HEART"@ {
        Some(pal::HEART)
    } else if u == "HUD"@ {
        Some(pal::HUD)
    } else if u == "SHADE"@ {
        Some(pal::SHADE)
    } else if u == "FIRE"@ {
        Some(pal::FIRE)
    } else if u == "BOSS"@ {
        Some(pal::BOSS)
    } else {
        match int_spec(u, 10, 0, 255) {
            Some(v) => Some(v as u8),
            None => None,
        }
    }
}

/// See [`palette_slot`].
fn slot_of(w: &Vec<char>) -> (r: Option<u8>)
    ensures
        r == palette_slot(w@),
{
    let u = to_upper(w);
    if text_is(&u, "GRASS") {
        Some(pal::GRASS)
    } else if text_is(&u, "EARTH") {
        Some(pal::EARTH)
    } else if text_is(&u, "WATER") {
        Some(pal::WATER)
    } else if text_is(&u, "STONE") {
        Some(pal::STONE)
    } else if text_is(&u, "DUNGEON") {
        Some(pal::DUNGEON)
    } else if text_is(&u, "HERO") {
        Some(pal::HERO)
    } else if text_is(&u, "ENEMY_RED") {
        Some(pal::ENEMY_RED)
    } else if text_is(&u, "ENEMY_BLUE") {
        Some(pal::ENEMY_BLUE)
    } else if text_is(&u, "ENEMY_GREEN") {
        Some(pal::ENEMY_GREEN)
    } else if text_is(&u, "BONE") {
        Some(pal::BONE)
    } else if text_is(&u, "GOLD") {
        Some(pal::GOLD)
    } else if text_is(&u, "HEART") {
        Some(pal::HEART)
    } else if text_is(&u, "HUD") {
        Some(pal::HUD)
    } else if text_is(&u, "SHADE") {
        Some(pal::SHADE)
    } else if text_is(&u, "FIRE") {
        Some(pal::FIRE)
    } else if text_is(&u, "BOSS") {
        Some(pal::BOSS)
    } else {
        proof {
            assert(u@.subrange(0, u@.len() as int) =~= u@);
        }
        match int_of(&u, 0, u.len(), 10, 0, 255) {
            Some(v) => Some(v as u8),
            None => None,
        }
    }
}

/// Looks up a palette slot by name; see [`palette_slot`].
pub fn palette_by_name(name: &str) -> (r: Option<u8>)
    ensures
        r == palette_slot(name@),
{
    let cs = chars_of(name);
    slot_of(&cs)
}

/// The first `:` from `i` on, or the end.
pub open spec fn colon_at(t: Seq<char>, i: int) -> int
    decreases t.len() - i,
{
    if i >= t.len() {
        t.len() as int
    } else if t[i] == ':' {
        i
    } else {
        colon_at(t, i + 1)
    }
}

/// A cell written as `12`, `12:x` (flipped horizontally), `12:y`, `12:xy`,
/// or `-` or `.` for nothing; the tile number keeps its low 16 bits.
pub open spec fn cell_spec(t: Seq<char>, palette: u8) -> Option<Cell> {
    if t == seq!['-'] || t == seq!['.'] {
        Some(Cell { tile: NO_TILE, palette: 0, flip: 0 })
    } else {
        let c = colon_at(t, 0);
        let flips = if c < t.len() { t.skip(c + 1) } else { Seq::empty() };
        match number_spec(t.subrange(0, c)) {
            Some(v) => Some(
                Cell {
                    tile: v as u16,
                    palette,
                    flip: ((if flips.contains('x') { 1int } else { 0 }) + (if flips.contains('y') { 2int } else { 0 })) as u8,
                },
            ),
            None => None,
        }
    }
}

/// Reads a cell; see [`cell_spec`].
fn cell(t: &Vec<char>, palette: u8) -> (r: Option<Cell>)
    ensures
        r == cell_spec(t@, palette),
{
    if t.len() == 1 && (t[0] == '-' || t[0] == '.') {
        proof {
            if t@[0] == '-' {
                assert(t@ =~= seq!['-']);
            } else {
                assert(t@ =~= seq!['.']);
            }
        }
        return Some(Cell::blank());
    }
    proof {
        assert(t@ != seq!['-'] && t@ != seq!['.']) by {
            if t@ == seq!['-'] || t@ == seq!['.'] {
                assert(t@.len() == 1 && t@[0] == seq!['-'][0] || t@[0] == seq!['.'][0]);
            }
        }
    }
    let n = t.len();
    let mut c: usize = 0;
    while c < n && t[c] != ':'
        invariant
            n == t@.len(),
            c <= n,
            colon_at(t@, 0) == colon_at(t@, c as int),
        decreases n - c,
    {
        c = c + 1;
    }
    let ghost flips = if c < t@.len() { t@.skip(c + 1) } else { Seq::<char>::empty() };
    let mut fx = false;
    let mut fy = false;
    let mut k: usize = if c < n { c + 1 } else { n };
    while k < n
        invariant
            n == t@.len(),
            c <= n,
            flips == (if c < t@.len() { t@.skip(c + 1) } else { Seq::<char>::empty() }),
            c < n ==> c + 1 <= k <= n,
            c >= n ==> k == n,
            fx == (exists|j: int| c + 1 <= j < k && t@[j] == 'x'),
            fy == (exists|j: int| c + 1 <= j < k && t@[j] == 'y'),
        decreases n - k,
    {
        if t[k] == 'x' {
            fx = true;
        }
        if t[k] == 'y' {
            fy = true;
        }
        k = k + 1;
    }
    proof {
        if c < n {
            assert(fx == flips.contains('x')) by {
                if fx {
                    let j = choose|j: int| c + 1 <= j < k && t@[j] == 'x';
                    assert(flips[j - c - 1] == 'x');
                }
                if flips.contains('x') {
                    let j = choose|j: int| 0 <= j < flips.len() && flips[j] == 'x';
                    assert(t@[j + c + 1] == 'x');
                }
            }
            assert(fy == flips.contains('y')) by {
                if fy {
                    let j = choose|j: int| c + 1 <= j < k && t@[j] == 'y';
                    assert(flips[j - c - 1] == 'y');
                }
                if flips.contains('y') {
                    let j = choose|j: int| 0 <= j < flips.len() && flips[j] == 'y';
                    assert(t@[j + c + 1] == 'y');
                }
            }
        } else {
            assert(!fx && !fy);
            assert(!flips.contains('x') && !flips.contains('y'));
        }
    }
    let num = copy_range(t, 0, c);
    match number(&num) {
        Some(v) => {
            let flip: u8 = (if fx { 1u8 } else { 0u8 }) + (if fy { 2u8 } else { 0u8 });
            Some(Cell::flipped(v as u16, palette, flip))
        },
        None => None,
    }
}


/// Something a profile asks for that the loader has to carry out.
#[derive(Clone, Copy, Debug, PartialEq, Eq, Structural)]
pub enum Directive {
    /// Import `count` tiles from a ROM offset into the pack at `base`.
    Import { offset: usize, count: usize, base: usize },
}

/// The palette a cell gets when its line does not name one: whichever the
/// quantiser fitted that tile to when its image was imported.
pub const AUTO_PALETTE: u8 = 255;

/// The result of reading a profile.
#[derive(Clone, Debug, Default)]
pub struct Profile {
    pub name: String,
    pub imports: Vec<Directive>,
    pub palettes: Vec<(u8, Palette)>,
    pub terrain: Vec<(u8, [Cell; 4])>,
    pub sprites: Vec<(SpriteId, Sprite)>,
    /// Lines that could not be understood, with their line numbers.
    pub errors: Vec<(usize, String)>,
}

/// A sprite as plain values: columns, rows, cells and offset.
pub type SpriteView = (u8, u8, Seq<Cell>, i8, i8);

/// A profile as plain values; a sprite is named by where its art is kept.
pub struct ProfileView {
    pub name: Seq<char>,
    pub imports: Seq<Directive>,
    pub palettes: Seq<(u8, Seq<u32>)>,
    pub terrain: Seq<(u8, Seq<Cell>)>,
    pub sprites: Seq<(int, SpriteView)>,
    pub errors: Seq<(usize, Seq<char>)>,
}

/// A sprite as plain values.
pub open spec fn sprite_view(s: Sprite) -> SpriteView {
    (s.cols, s.rows, s.cells@, s.ox, s.oy)
}

impl Profile {
    /// The profile as plain values.
    pub open spec fn model(&self) -> ProfileView {
        ProfileView {
            name: self.name@,
            imports: self.imports@,
            palettes: self.palettes@.map_values(|e: (u8, Palette)| (e.0, e.1.0@)),
            terrain: self.terrain@.map_values(|e: (u8, [Cell; 4])| (e.0, e.1@)),
            sprites: self.sprites@.map_values(|e: (SpriteId, Sprite)| (sprite_index(e.0), sprite_view(e.1))),
            errors: self.errors@.map_values(|e: (usize, String)| (e.0, e.1@)),
        }
    }
}

/// A profile with nothing in it.
pub open spec fn empty_view() -> ProfileView {
    ProfileView {
        name: Seq::empty(),
        imports: Seq::empty(),
        palettes: Seq::empty(),
        terrain: Seq::empty(),
        sprites: Seq::empty(),
        errors: Seq::empty(),
    }
}

/// The texts of some character vectors.
pub open spec fn vtexts(v: Seq<Vec<char>>) -> Seq<Seq<char>> {
    v.map_values(|w: Vec<char>| w@)
}

/// `p` with one more error, on line `n + 1`.
pub open spec fn with_error(p: ProfileView, n: int, msg: Seq<char>) -> ProfileView {
    ProfileView { errors: p.errors.push(((n + 1) as usize, msg)), ..p }
}

/// What a `palette` line does: a slot and four hex colours.
pub open spec fn palette_line(p: ProfileView, n: int, args: Seq<Seq<char>>) -> ProfileView {
    let slot = if args.len() > 0 { palette_slot(args[0]) } else { None };
    if slot is Some && args.len() >= 5 {
        let cs = seq![colour_spec(args[1]), colour_spec(args[2]), colour_spec(args[3]), colour_spec(args[4])];
        if cs[0] is Some && cs[1] is Some && cs[2] is Some && cs[3] is Some {
            ProfileView {
                palettes: p.palettes.push(
                    (slot->0, seq![cs[0]->0 as u32, cs[1]->0 as u32, cs[2]->0 as u32, cs[3]->0 as u32]),
                ),
                ..p
            }
        } else {
            with_error(p, n, "bad colour"@)
        }
    } else {
        with_error(p, n, "palette needs a slot and 4 colours"@)
    }
}

/// What an `import` line does: an offset, a count and an optional base.
pub open spec fn import_line(p: ProfileView, n: int, args: Seq<Seq<char>>) -> ProfileView {
    let off = if args.len() > 0 { number_spec(args[0]) } else { None };
    let cnt = if args.len() > 1 { number_spec(args[1]) } else { None };
    let base = if args.len() > 2 {
        match number_spec(args[2]) {
            Some(b) => b,
            None => 0,
        }
    } else {
        0
    };
    if off is Some && cnt is Some && off->0 >= 0 && cnt->0 > 0 {
        ProfileView {
            imports: p.imports.push(
                Directive::Import {
                    offset: off->0 as usize,
                    count: cnt->0 as usize,
                    base: (if base > 0 { base } else { 0 }) as usize,
                },
            ),
            ..p
        }
    } else {
        with_error(p, n, "import needs an offset and a count"@)
    }
}

/// The terrain id a word names: a tile's name, else a number's low byte.
pub open spec fn terrain_id(w: Seq<char>) -> Option<u8> {
    match first_tile(w, 0) {
        Some(i) => Some(tile_id_spec(i as usize)),
        None => match number_spec(w) {
            Some(v) => Some(v as u8),
            None => None,
        },
    }
}

/// What a `terrain` line does: an id and four cells.
pub open spec fn terrain_line(p: ProfileView, n: int, args: Seq<Seq<char>>, palette: u8) -> ProfileView {
    let id = if args.len() > 0 { terrain_id(args[0]) } else { None };
    match id {
        Some(t) => if args.len() >= 5 {
            let cs = seq![cell_spec(args[1], palette), cell_spec(args[2], palette), cell_spec(args[3], palette), cell_spec(args[4], palette)];
            if cs[0] is Some && cs[1] is Some && cs[2] is Some && cs[3] is Some {
                ProfileView { terrain: p.terrain.push((t, seq![cs[0]->0, cs[1]->0, cs[2]->0, cs[3]->0])), ..p }
            } else {
                with_error(p, n, "bad cell"@)
            }
        } else {
            with_error(p, n, "terrain needs 4 cells"@)
        },
        None => with_error(p, n, "unknown terrain "@ + first_word(args)),
    }
}

/// A number word, or 0.
pub open spec fn number_or_zero(args: Seq<Seq<char>>, i: int) -> int {
    if i < args.len() {
        match number_spec(args[i]) {
            Some(v) => v,
            None => 0,
        }
    } else {
        0
    }
}

/// The first word, or nothing.
pub open spec fn first_word(args: Seq<Seq<char>>) -> Seq<char> {
    if args.len() > 0 { args[0] } else { Seq::empty() }
}

/// How many cells a `sprite` line announces: columns times rows, as a
/// `usize`; none when the product leaves `i64`.
pub open spec fn sprite_want(args: Seq<Seq<char>>) -> usize {
    let prod = number_or_zero(args, 1) * number_or_zero(args, 2);
    if i64::MIN <= prod <= i64::MAX { prod as usize } else { 0 }
}

/// What a `sprite` line does: a sprite's name, columns, rows and that many
/// cells.
pub open spec fn sprite_line(p: ProfileView, n: int, args: Seq<Seq<char>>, palette: u8) -> ProfileView {
    let id = if args.len() > 0 { first_sprite(args[0], 0) } else { None };
    let want = sprite_want(args) as int;
    match id {
        Some(i) => if want > 0 && args.len() >= 3 + want {
            if forall|j: int| 0 <= j < want ==> (#[trigger] cell_spec(args[3 + j], palette)) is Some {
                let s: SpriteView = (
                    number_or_zero(args, 1) as u8,
                    number_or_zero(args, 2) as u8,
                    Seq::new(want as nat, |j: int| cell_spec(args[3 + j], palette)->0),
                    0i8,
                    0i8,
                );
                ProfileView { sprites: p.sprites.push((i, s)), ..p }
            } else {
                with_error(p, n, "bad cell"@)
            }
        } else {
            with_error(p, n, "sprite needs cols, rows and that many cells"@)
        },
        None => with_error(p, n, "unknown sprite "@ + first_word(args)),
    }
}

/// What a line's keyword and arguments do.
pub open spec fn keyword_step(p: ProfileView, n: int, kw: Seq<char>, args: Seq<Seq<char>>, palette: u8) -> ProfileView {
    if kw == "name"@ {
        ProfileView { name: join_words(args), ..p }
    } else if kw == "palette"@ {
        palette_line(p, n, args)
    } else if kw == "import"@ {
        import_line(p, n, args)
    } else if kw == "terrain"@ {
        terrain_line(p, n, args, palette)
    } else if kw == "sprite"@ {
        sprite_line(p, n, args, palette)
    } else {
        with_error(p, n, "unknown keyword "@ + kw)
    }
}

/// True when a word starts with `pal=`.
pub open spec fn is_pal(w: Seq<char>) -> bool {
    w.len() >= 4 && w[0] == 'p' && w[1] == 'a' && w[2] == 'l' && w[3] == '='
}

/// The first word from `i` on that starts with `pal=`, or -1.
pub open spec fn pal_at(ws: Seq<Seq<char>>, i: int) -> int
    decreases ws.len() - i,
{
    if i < 0 || i >= ws.len() {
        -1
    } else if is_pal(ws[i]) {
        i
    } else {
        pal_at(ws, i + 1)
    }
}

/// A line's words without its `pal=` word.
pub open spec fn line_rest(ws: Seq<Seq<char>>) -> Seq<Seq<char>> {
    let k = pal_at(ws, 0);
    if k >= 0 { ws.remove(k) } else { ws }
}

/// What line `n` does to a profile: nothing when it holds no words; else a
/// trailing `pal=NAME` word sets the palette of the line's cells (an
/// unknown name is an error, and the cells keep [`AUTO_PALETTE`]), and the
/// first remaining word, in any case, is the keyword.
pub open spec fn line_step(p: ProfileView, n: int, line: Seq<char>) -> ProfileView {
    let ws = words_of(line);
    if ws.len() == 0 {
        p
    } else {
        let k = pal_at(ws, 0);
        let rest = line_rest(ws);
        let want = if k >= 0 { ws[k].skip(4) } else { Seq::empty() };
        let slot = palette_slot(want);
        let palette: u8 = if k >= 0 && slot is Some { slot->0 } else { AUTO_PALETTE };
        let p1 = if k >= 0 && slot is None { with_error(p, n, "unknown palette "@ + want) } else { p };
        let kw = if rest.len() > 0 { lower(rest[0]) } else { Seq::empty() };
        let args = if rest.len() > 0 { rest.skip(1) } else { Seq::empty() };
        keyword_step(p1, n, kw, args, palette)
    }
}

/// What the lines from `n` on do to `p`.
pub open spec fn parse_from(lines: Seq<Seq<char>>, n: int, p: ProfileView) -> ProfileView
    decreases lines.len() - n,
{
    if n < 0 || n >= lines.len() {
        p
    } else {
        parse_from(lines, n + 1, line_step(p, n, lines[n]))
    }
}

/// What reading a profile gives.
pub open spec fn parse_spec(text: Seq<char>) -> ProfileView {
    parse_from(lines_of(text), 0, empty_view())
}


/// Checked [`holds`](scan::holds) gives the texts.
proof fn lemma_holds(v: Seq<Vec<char>>, t: Seq<Seq<char>>)
    requires
        scan::holds(v, t),
    ensures
        vtexts(v) == t,
{
    assert(vtexts(v) =~= t);
}

/// The words from `from` on.
fn tail_words(ws: &Vec<Vec<char>>, from: usize) -> (r: Vec<Vec<char>>)
    requires
        from <= ws@.len(),
    ensures
        vtexts(r@) == vtexts(ws@).skip(from as int),
{
    let mut r: Vec<Vec<char>> = Vec::new();
    let mut i = from;
    while i < ws.len()
        invariant
            from <= i <= ws@.len(),
            vtexts(r@) == vtexts(ws@).subrange(from as int, i as int),
        decreases ws@.len() - i,
    {
        let w = copy_range(&ws[i], 0, ws[i].len());
        proof {
            assert(w@ =~= ws@[i as int]@);
        }
        let ghost before = vtexts(r@);
        r.push(w);
        proof {
            assert(vtexts(r@) =~= before.push(w@));
            assert(vtexts(ws@).subrange(from as int, i + 1) =~= vtexts(ws@).subrange(from as int, i as int).push(ws@[i as int]@));
        }
        i = i + 1;
    }
    proof {
        assert(vtexts(ws@).subrange(from as int, ws@.len() as int) =~= vtexts(ws@).skip(from as int));
    }
    r
}

/// The words without the one at `k`.
fn drop_word(ws: &Vec<Vec<char>>, k: usize) -> (r: Vec<Vec<char>>)
    requires
        k < ws@.len(),
    ensures
        vtexts(r@) == vtexts(ws@).remove(k as int),
{
    let mut r: Vec<Vec<char>> = Vec::new();
    let mut i: usize = 0;
    while i < ws.len()
        invariant
            k < ws@.len(),
            i <= ws@.len(),
            i <= k ==> vtexts(r@) == vtexts(ws@).subrange(0, i as int),
            i > k ==> vtexts(r@) == vtexts(ws@).subrange(0, k as int) + vtexts(ws@).subrange(k + 1, i as int),
        decreases ws@.len() - i,
    {
        if i != k {
            let w = copy_range(&ws[i], 0, ws[i].len());
            proof {
                assert(w@ =~= ws@[i as int]@);
            }
            let ghost before = vtexts(r@);
            r.push(w);
            proof {
                assert(vtexts(r@) =~= before.push(w@));
                if i < k {
                    assert(vtexts(ws@).subrange(0, i + 1) =~= vtexts(ws@).subrange(0, i as int).push(ws@[i as int]@));
                } else {
                    assert(vtexts(ws@).subrange(k + 1, i + 1) =~= vtexts(ws@).subrange(k + 1, i as int).push(ws@[i as int]@));
                }
            }
        } else {
            proof {
                assert(vtexts(ws@).subrange(k + 1, i + 1) =~= Seq::<Seq<char>>::empty());
                assert(vtexts(r@) =~= vtexts(ws@).subrange(0, k as int) + vtexts(ws@).subrange(k + 1, i + 1));
            }
        }
        i = i + 1;
    }
    proof {
        assert(vtexts(ws@).remove(k as int) =~= vtexts(ws@).subrange(0, k as int) + vtexts(ws@).subrange(k + 1, ws@.len() as int));
    }
    r
}

/// Records an error for line `n + 1`.
fn push_error(p: &mut Profile, n: usize, msg: String)
    requires
        n < usize::MAX,
    ensures
        final(p).model() == with_error(old(p).model(), n as int, msg@),
{
    let ghost m = msg@;
    p.errors.push((n + 1, msg));
    proof {
        assert(p.model().errors =~= old(p).model().errors.push(((n + 1) as usize, m)));
    }
}

/// Carries out a `palette` line; see [`palette_line`].
fn palette_cmd(p: &mut Profile, n: usize, args: &Vec<Vec<char>>)
    requires
        n < usize::MAX,
    ensures
        final(p).model() == palette_line(old(p).model(), n as int, vtexts(args@)),
{
    let ghost a = vtexts(args@);
    let slot = if args.len() > 0 { slot_of(&args[0]) } else { None };
    match slot {
        Some(sl) => {
            if args.len() >= 5 {
                let c1 = colour(&args[1]);
                let c2 = colour(&args[2]);
                let c3 = colour(&args[3]);
                let c4 = colour(&args[4]);
                match (c1, c2, c3, c4) {
                    (Some(x1), Some(x2), Some(x3), Some(x4)) => {
                        let pl = Palette::new(x1, x2, x3, x4);
                        let ghost before = old(p).model().palettes;
                        p.palettes.push((sl, pl));
                        proof {
                            assert(p.model().palettes =~= before.push((sl, pl.0@)));
                        }
                    },
                    _ => {
                        push_error(p, n, "bad colour".to_owned());
                    },
                }
            } else {
                push_error(p, n, "palette needs a slot and 4 colours".to_owned());
            }
        },
        None => {
            push_error(p, n, "palette needs a slot and 4 colours".to_owned());
        },
    }
}

/// Carries out an `import` line; see [`import_line`].
fn import_cmd(p: &mut Profile, n: usize, args: &Vec<Vec<char>>)
    requires
        n < usize::MAX,
    ensures
        final(p).model() == import_line(old(p).model(), n as int, vtexts(args@)),
{
    let off = if args.len() > 0 { number(&args[0]) } else { None };
    let cnt = if args.len() > 1 { number(&args[1]) } else { None };
    let base: i64 = if args.len() > 2 {
        match number(&args[2]) {
            Some(b) => b,
            None => 0,
        }
    } else {
        0
    };
    match (off, cnt) {
        (Some(o), Some(c)) => {
            if o >= 0 && c > 0 {
                let d = Directive::Import {
                    offset: o as usize,
                    count: c as usize,
                    base: if base > 0 { base as usize } else { 0 },
                };
                p.imports.push(d);
            } else {
                push_error(p, n, "import needs an offset and a count".to_owned());
            }
        },
        _ => {
            push_error(p, n, "import needs an offset and a count".to_owned());
        },
    }
}

/// Carries out a `terrain` line; see [`terrain_line`].
fn terrain_cmd(p: &mut Profile, n: usize, args: &Vec<Vec<char>>, palette: u8)
    requires
        n < usize::MAX,
    ensures
        final(p).model() == terrain_line(old(p).model(), n as int, vtexts(args@), palette),
{
    if args.len() == 0 {
        let msg = text_then("unknown terrain ", &Vec::new());
        proof {
            assert(first_word(vtexts(args@)) =~= Seq::<char>::empty());
        }
        push_error(p, n, msg);
        return;
    }
    let id = match tile_named(&args[0]) {
        Some(t) => Some(t),
        None => match number(&args[0]) {
            Some(v) => Some(v as u8),
            None => None,
        },
    };
    match id {
        Some(t) => {
            if args.len() >= 5 {
                let c1 = cell(&args[1], palette);
                let c2 = cell(&args[2], palette);
                let c3 = cell(&args[3], palette);
                let c4 = cell(&args[4], palette);
                match (c1, c2, c3, c4) {
                    (Some(x1), Some(x2), Some(x3), Some(x4)) => {
                        let cells: [Cell; 4] = [x1, x2, x3, x4];
                        let ghost before = old(p).model().terrain;
                        p.terrain.push((t, cells));
                        proof {
                            assert(cells@ =~= seq![x1, x2, x3, x4]);
                            assert(p.model().terrain =~= before.push((t, seq![x1, x2, x3, x4])));
                        }
                    },
                    _ => {
                        push_error(p, n, "bad cell".to_owned());
                    },
                }
            } else {
                push_error(p, n, "terrain needs 4 cells".to_owned());
            }
        },
        None => {
            let msg = text_then("unknown terrain ", &args[0]);
            push_error(p, n, msg);
        },
    }
}

/// A number word, or 0; see [`number_or_zero`].
fn number_at(args: &Vec<Vec<char>>, i: usize) -> (r: i64)
    ensures
        r == number_or_zero(vtexts(args@), i as int),
{
    if i < args.len() {
        match number(&args[i]) {
            Some(v) => v,
            None => 0,
        }
    } else {
        0
    }
}

/// Carries out a `sprite` line; see [`sprite_line`].
fn sprite_cmd(p: &mut Profile, n: usize, args: &Vec<Vec<char>>, palette: u8)
    requires
        n < usize::MAX,
    ensures
        final(p).model() == sprite_line(old(p).model(), n as int, vtexts(args@), palette),
{
    let ghost a = vtexts(args@);
    if args.len() == 0 {
        let msg = text_then("unknown sprite ", &Vec::new());
        proof {
            assert(first_word(a) =~= Seq::<char>::empty());
        }
        push_error(p, n, msg);
        return;
    }
    let id = sprite_named(&args[0]);
    let cols = number_at(args, 1);
    let rows = number_at(args, 2);
    proof {
        assert(-0x4000_0000_0000_0000_0000_0000_0000_0000 <= (cols as int) * (rows as int) <= 0x4000_0000_0000_0000_0000_0000_0000_0000)
            by (nonlinear_arith)
            requires
                i64::MIN <= cols <= i64::MAX,
                i64::MIN <= rows <= i64::MAX,
        ;
    }
    let prod: i128 = cols as i128 * rows as i128;
    let want: usize = if i64::MIN as i128 <= prod && prod <= i64::MAX as i128 { prod as i64 as usize } else { 0 };
    match id {
        Some(sid) => {
            if want > 0 && args.len() >= 3 && args.len() - 3 >= want {
                let mut cells: Vec<Cell> = Vec::new();
                let mut ok = true;
                let mut j: usize = 0;
                let alen = args.len();
                while j < want
                    invariant
                        a == vtexts(args@),
                        alen == args@.len(),
                        3 + want <= alen,
                        j <= want,
                        cells@.len() == j,
                        ok ==> forall|k: int| 0 <= k < j ==> (#[trigger] cell_spec(a[3 + k], palette)) is Some && cells@[k] == cell_spec(a[3 + k], palette)->0,
                        !ok ==> exists|k: int| 0 <= k < want && (#[trigger] cell_spec(a[3 + k], palette)) is None,
                    decreases want - j,
                {
                    proof {
                        assert(a[3 + j as int] == args@[3 + j as int]@);
                    }
                    match cell(&args[3 + j], palette) {
                        Some(c) => {
                            cells.push(c);
                        },
                        None => {
                            assert(cell_spec(a[3 + j as int], palette) is None);
                            ok = false;
                            cells.push(Cell::blank());
                        },
                    }
                    j = j + 1;
                }
                if ok {
                    let s = Sprite { cols: cols as u8, rows: rows as u8, cells, ox: 0, oy: 0 };
                    let ghost before = old(p).model().sprites;
                    p.sprites.push((sid, s));
                    proof {
                        assert(s.cells@ =~= Seq::new(want as nat, |k: int| cell_spec(a[3 + k], palette)->0));
                        assert(p.model().sprites =~= before.push((sprite_index(sid), sprite_view(s))));
                    }
                } else {
                    push_error(p, n, "bad cell".to_owned());
                }
            } else {
                push_error(p, n, "sprite needs cols, rows and that many cells".to_owned());
            }
        },
        None => {
            let msg = text_then("unknown sprite ", &args[0]);
            push_error(p, n, msg);
        },
    }
}


/// See [`is_pal`].
fn pal_word(w: &Vec<char>) -> (r: bool)
    ensures
        r == is_pal(w@),
{
    w.len() >= 4 && w[0] == 'p' && w[1] == 'a' && w[2] == 'l' && w[3] == '='
}

/// Carries out line `n`; see [`line_step`].
fn step_line(p: &mut Profile, n: usize, line: &Vec<char>)
    requires
        n < usize::MAX,
    ensures
        final(p).model() == line_step(old(p).model(), n as int, line@),
{
    let ws = split_words(line);
    proof {
        lemma_holds(ws@, words_of(line@));
    }
    let ghost wv = vtexts(ws@);
    if ws.len() == 0 {
        return;
    }
    let mut k: usize = 0;
    while k < ws.len() && !pal_word(&ws[k])
        invariant
            wv == vtexts(ws@),
            k <= ws@.len(),
            pal_at(wv, 0) == pal_at(wv, k as int),
        decreases ws@.len() - k,
    {
        proof {
            assert(wv[k as int] == ws@[k as int]@);
        }
        k = k + 1;
    }
    let mut palette: u8 = AUTO_PALETTE;
    let rest = if k < ws.len() {
        proof {
            assert(wv[k as int] == ws@[k as int]@);
            assert(pal_at(wv, 0) == k);
        }
        let want = copy_range(&ws[k], 4, ws[k].len());
        proof {
            assert(want@ =~= wv[k as int].skip(4));
        }
        match slot_of(&want) {
            Some(v) => {
                palette = v;
            },
            None => {
                let msg = text_then("unknown palette ", &want);
                push_error(p, n, msg);
            },
        }
        drop_word(&ws, k)
    } else {
        proof {
            assert(pal_at(wv, 0) == -1);
            assert(wv.skip(0) =~= wv);
        }
        tail_words(&ws, 0)
    };
    let ghost rv = vtexts(rest@);
    assert(rv == line_rest(wv));
    if rest.len() == 0 {
        let none: Vec<char> = Vec::new();
        let msg = text_then("unknown keyword ", &none);
        proof {
            reveal_strlit("name");
            reveal_strlit("palette");
            reveal_strlit("import");
            reveal_strlit("terrain");
            reveal_strlit("sprite");
            reveal_strlit("unknown keyword ");
            let e = Seq::<char>::empty();
            assert(e != "name"@ && e != "palette"@ && e != "import"@ && e != "terrain"@ && e != "sprite"@);
            assert(msg@ =~= "unknown keyword "@ + e);
        }
        push_error(p, n, msg);
        return;
    }
    assert(rv[0] == rest@[0]@);
    let kw = to_lower(&rest[0]);
    let args = tail_words(&rest, 1);
    if text_is(&kw, "name") {
        p.name = join_from(&rest, 1);
    } else if text_is(&kw, "palette") {
        palette_cmd(p, n, &args);
    } else if text_is(&kw, "import") {
        import_cmd(p, n, &args);
    } else if text_is(&kw, "terrain") {
        terrain_cmd(p, n, &args, palette);
    } else if text_is(&kw, "sprite") {
        sprite_cmd(p, n, &args, palette);
    } else {
        let msg = text_then("unknown keyword ", &kw);
        push_error(p, n, msg);
    }
}

/// Reads a profile: each line in turn, see [`line_step`]. Unknown lines
/// are collected as errors rather than stopping the load, so one typo
/// cannot cost you the rest of the file.
pub fn parse(text: &str) -> (p: Profile)
    ensures
        p.model() == parse_spec(text@),
        forall|i: int| 0 <= i < p.sprites@.len() ==> (#[trigger] p.sprites@[i]).0 != SpriteId::Count,
        p.terrain@.len() + p.sprites@.len() <= usize::MAX,
{
    let cs = chars_of(text);
    let lines = split_lines(&cs);
    proof {
        lemma_holds(lines@, lines_of(text@));
    }
    let mut p = Profile {
        name: String::new(),
        imports: Vec::new(),
        palettes: Vec::new(),
        terrain: Vec::new(),
        sprites: Vec::new(),
        errors: Vec::new(),
    };
    proof {
        assert(p.model().palettes =~= Seq::<(u8, Seq<u32>)>::empty());
        assert(p.model().terrain =~= Seq::<(u8, Seq<Cell>)>::empty());
        assert(p.model().sprites =~= Seq::<(int, SpriteView)>::empty());
        assert(p.model().errors =~= Seq::<(usize, Seq<char>)>::empty());
        assert(p.model().name =~= Seq::<char>::empty());
        assert(p.model().imports =~= Seq::<Directive>::empty());
        assert(p.model() == empty_view());
    }
    let count = lines.len();
    let mut n: usize = 0;
    while n < count
        invariant
            count == lines@.len(),
            vtexts(lines@) == lines_of(text@),
            n <= count,
            parse_from(lines_of(text@), n as int, p.model()) == parse_spec(text@),
            forall|k: int| 0 <= k < p.model().sprites.len() ==> 0 <= #[trigger] p.model().sprites[k].0 < SPRITE_COUNT,
            p.model().terrain.len() + p.model().sprites.len() <= n,
        decreases count - n,
    {
        proof {
            assert(lines_of(text@)[n as int] == lines@[n as int]@);
            lemma_line_step_bounds(p.model(), n as int, lines@[n as int]@);
        }
        step_line(&mut p, n, &lines[n]);
        n = n + 1;
    }
    proof {
        assert forall|i: int| 0 <= i < p.sprites@.len() implies (#[trigger] p.sprites@[i]).0 != SpriteId::Count by {
            assert(p.model().sprites[i].0 == sprite_index(p.sprites@[i].0));
        }
    }
    p
}

/// A line adds at most one binding, and only sprites that exist.
proof fn lemma_line_step_bounds(p: ProfileView, n: int, line: Seq<char>)
    requires
        forall|k: int| 0 <= k < p.sprites.len() ==> 0 <= #[trigger] p.sprites[k].0 < SPRITE_COUNT,
    ensures
        ({
            let q = line_step(p, n, line);
            &&& forall|k: int| 0 <= k < q.sprites.len() ==> 0 <= #[trigger] q.sprites[k].0 < SPRITE_COUNT
            &&& q.terrain.len() + q.sprites.len() <= p.terrain.len() + p.sprites.len() + 1
        }),
{
    let ws = words_of(line);
    let rest = line_rest(ws);
    let args = if rest.len() > 0 { rest.skip(1) } else { Seq::empty() };
    if args.len() > 0 {
        names::lemma_first_sprite_small(args[0], 0);
    }
}


/// A cell with its palette settled: a cell left to choose gets 0, as the
/// pack keeps no record of the palette an imported tile was fitted to.
pub open spec fn resolved(c: Cell) -> Cell {
    if c.palette == AUTO_PALETTE {
        Cell { tile: c.tile, palette: 0, flip: c.flip }
    } else {
        c
    }
}


/// The last of the first `k` palette entries for `slot`, or -1.
pub open spec fn last_palette(ps: Seq<(u8, Palette)>, slot: int, k: int) -> int
    decreases k,
{
    if k <= 0 {
        -1
    } else if ps[k - 1].0 == slot {
        k - 1
    } else {
        last_palette(ps, slot, k - 1)
    }
}

/// The last entry for a slot is one of the first `k`, for that slot, and
/// the table is long enough for it.
proof fn lemma_last_palette(ps: Seq<(u8, Palette)>, slot: int, k: int)
    requires
        0 <= k <= ps.len(),
    ensures
        palettes_needed(ps, k) >= 0,
        last_palette(ps, slot, k) < k,
        last_palette(ps, slot, k) >= 0 ==> ps[last_palette(ps, slot, k)].0 == slot && slot < palettes_needed(ps, k),
    decreases k,
{
    if k > 0 {
        lemma_last_palette(ps, slot, k - 1);
    }
}

/// How long the palette table must be for the first `k` entries.
pub open spec fn palettes_needed(ps: Seq<(u8, Palette)>, k: int) -> int
    decreases k,
{
    if k <= 0 {
        0
    } else {
        let m = palettes_needed(ps, k - 1);
        if ps[k - 1].0 + 1 > m { ps[k - 1].0 + 1 } else { m }
    }
}

/// The last of the first `k` terrain entries for id `t`, or -1.
pub open spec fn last_terrain(ts: Seq<(u8, [Cell; 4])>, t: int, k: int) -> int
    decreases k,
{
    if k <= 0 {
        -1
    } else if ts[k - 1].0 == t {
        k - 1
    } else {
        last_terrain(ts, t, k - 1)
    }
}

/// The last of the first `k` sprite entries for the sprite kept at `i`,
/// or -1.
pub open spec fn last_sprite(ss: Seq<(SpriteId, Sprite)>, i: int, k: int) -> int
    decreases k,
{
    if k <= 0 {
        -1
    } else if sprite_index(ss[k - 1].0) == i {
        k - 1
    } else {
        last_sprite(ss, i, k - 1)
    }
}

/// A sprite with its cells' palettes settled.
pub open spec fn resolved_sprite(s: Sprite, t: Sprite) -> bool {
    &&& t.cols == s.cols && t.rows == s.rows && t.ox == s.ox && t.oy == s.oy
    &&& t.cells@ == s.cells@.map_values(|c: Cell| resolved(c))
}

/// See [`resolved`].
fn resolve(c: Cell) -> (r: Cell)
    ensures
        r == resolved(c),
{
    if c.palette != AUTO_PALETTE {
        c
    } else {
        Cell { tile: c.tile, palette: 0, flip: c.flip }
    }
}

/// What applying profile `p` to the pack `before` leaves: see [`Profile::apply`].
pub open spec fn applied(p: Profile, before: AssetPack, after: AssetPack) -> bool {
    &&& after.wf()
    &&& p.name@.len() > 0 ==> after.name@ == p.name@
    &&& p.name@.len() == 0 ==> after.name == before.name
    &&& after.tiles == before.tiles && after.overlay == before.overlay
    &&& after.source == before.source
    &&& after.palettes@.len() == (if before.palettes@.len() >= palettes_needed(p.palettes@, p.palettes@.len() as int) {
        before.palettes@.len() as int
    } else {
        palettes_needed(p.palettes@, p.palettes@.len() as int)
    })
    &&& forall|i: int|
        0 <= i < after.palettes@.len() ==> {
            let j = last_palette(p.palettes@, i, p.palettes@.len() as int);
            if j >= 0 {
                #[trigger] after.palettes@[i] == p.palettes@[j].1
            } else if i < before.palettes@.len() {
                after.palettes@[i] == before.palettes@[i]
            } else {
                after.palettes@[i].0@ == grass_colours()
            }
        }
    &&& forall|t: int|
        0 <= t < after.metatiles@.len() ==> {
            let j = last_terrain(p.terrain@, t, p.terrain@.len() as int);
            (#[trigger] after.metatiles@[t])@ == if j >= 0 {
                p.terrain@[j].1@.map_values(|c: Cell| resolved(c))
            } else {
                before.metatiles@[t]@
            }
        }
    &&& forall|i: int|
        0 <= i < after.sprites@.len() ==> {
            let j = last_sprite(p.sprites@, i, p.sprites@.len() as int);
            if j >= 0 {
                resolved_sprite(p.sprites@[j].1, #[trigger] after.sprites@[i])
            } else {
                after.sprites@[i] == before.sprites@[i]
            }
        }
}

impl Profile {
    /// Applies everything except imports, which need the ROM bytes: the
    /// name when there is one, then the palettes, terrain and sprites in
    /// order, so the last entry for a slot wins. Terrain past the pack's
    /// table is skipped. A blank cell left to choose its palette gets 0.
    pub fn apply(&self, pack: &mut AssetPack)
        requires
            old(pack).wf(),
            forall|i: int| 0 <= i < self.sprites@.len() ==> (#[trigger] self.sprites@[i]).0 != SpriteId::Count,
        ensures
            applied(*self, *old(pack), *final(pack)),
    {
        let cs = chars_of(self.name.as_str());
        if cs.len() > 0 {
            let mut name = String::new();
            append_chars(&mut name, &cs);
            pack.name = name;
        }
        let ghost p0 = *pack;
        let np = self.palettes.len();
        let mut k: usize = 0;
        while k < np
            invariant
                np == self.palettes@.len(),
                k <= np,
                pack.wf(),
                pack.tiles == p0.tiles && pack.overlay == p0.overlay && pack.source == p0.source,
                pack.name == p0.name,
                pack.metatiles == p0.metatiles && pack.sprites == p0.sprites,
                self.name@.len() > 0 ==> pack.name@ == self.name@,
                self.name@.len() == 0 ==> pack.name == old(pack).name,
                pack.palettes@.len() == (if p0.palettes@.len() >= palettes_needed(self.palettes@, k as int) {
                    p0.palettes@.len() as int
                } else {
                    palettes_needed(self.palettes@, k as int)
                }),
                forall|i: int|
                    0 <= i < pack.palettes@.len() ==> {
                        let j = last_palette(self.palettes@, i, k as int);
                        if j >= 0 {
                            #[trigger] pack.palettes@[i] == self.palettes@[j].1
                        } else if i < p0.palettes@.len() {
                            pack.palettes@[i] == p0.palettes@[i]
                        } else {
                            pack.palettes@[i].0@ == grass_colours()
                        }
                    },
            decreases np - k,
        {
            let (slot, pl) = self.palettes[k];
            let mut one: Vec<Palette> = Vec::new();
            one.push(pl);
            let ghost before = pack.palettes@;
            pack.import_palettes(slot as usize, one.as_slice());
            proof {
                assert forall|i: int| 0 <= i < pack.palettes@.len() implies {
                    let j = last_palette(self.palettes@, i, k + 1);
                    if j >= 0 {
                        #[trigger] pack.palettes@[i] == self.palettes@[j].1
                    } else if i < p0.palettes@.len() {
                        pack.palettes@[i] == p0.palettes@[i]
                    } else {
                        pack.palettes@[i].0@ == grass_colours()
                    }
                } by {
                    lemma_last_palette(self.palettes@, i, k as int);
                    lemma_last_palette(self.palettes@, i, k + 1);
                    if i == slot {
                        assert(pack.palettes@[i] == pl);
                    } else if i < before.len() {
                        assert(pack.palettes@[i] == before[i]);
                    } else {
                        assert(pack.palettes@[i].0@ == grass_colours());
                    }
                }
            }
            k = k + 1;
        }
        let ghost p1 = *pack;
        let nt = self.terrain.len();
        let mut k: usize = 0;
        while k < nt
            invariant
                nt == self.terrain@.len(),
                k <= nt,
                pack.wf(),
                pack.tiles == p0.tiles && pack.overlay == p0.overlay && pack.source == p0.source,
                pack.name == p1.name && pack.palettes == p1.palettes && pack.sprites == p0.sprites,
                pack.metatiles@.len() == p0.metatiles@.len(),
                forall|t: int|
                    0 <= t < pack.metatiles@.len() ==> {
                        let j = last_terrain(self.terrain@, t, k as int);
                        (#[trigger] pack.metatiles@[t])@ == if j >= 0 {
                            self.terrain@[j].1@.map_values(|c: Cell| resolved(c))
                        } else {
                            p0.metatiles@[t]@
                        }
                    },
            decreases nt - k,
        {
            let (id, meta) = self.terrain[k];
            if (id as usize) < pack.metatiles.len() {
                let m: [Cell; 4] = [resolve(meta[0]), resolve(meta[1]), resolve(meta[2]), resolve(meta[3])];
                proof {
                    assert(m@ =~= meta@.map_values(|c: Cell| resolved(c)));
                }
                pack.metatiles.set(id as usize, m);
            }
            k = k + 1;
        }
        let ns = self.sprites.len();
        let mut k: usize = 0;
        while k < ns
            invariant
                ns == self.sprites@.len(),
                k <= ns,
                pack.wf(),
                pack.tiles == p0.tiles && pack.overlay == p0.overlay && pack.source == p0.source,
                pack.name == p1.name && pack.palettes == p1.palettes,
                forall|i: int| 0 <= i < self.sprites@.len() ==> (#[trigger] self.sprites@[i]).0 != SpriteId::Count,
                forall|t: int|
                    0 <= t < pack.metatiles@.len() ==> {
                        let j = last_terrain(self.terrain@, t, self.terrain@.len() as int);
                        (#[trigger] pack.metatiles@[t])@ == if j >= 0 {
                            self.terrain@[j].1@.map_values(|c: Cell| resolved(c))
                        } else {
                            p0.metatiles@[t]@
                        }
                    },
                forall|i: int|
                    0 <= i < pack.sprites@.len() ==> {
                        let j = last_sprite(self.sprites@, i, k as int);
                        if j >= 0 {
                            resolved_sprite(self.sprites@[j].1, #[trigger] pack.sprites@[i])
                        } else {
                            pack.sprites@[i] == p0.sprites@[i]
                        }
                    },
            decreases ns - k,
        {
            let sid = self.sprites[k].0;
            let src = &self.sprites[k].1;
            let mut cells: Vec<Cell> = Vec::new();
            let mut c: usize = 0;
            while c < src.cells.len()
                invariant
                    *src == self.sprites@[k as int].1,
                    c <= src.cells@.len(),
                    cells@ == src.cells@.take(c as int).map_values(|c: Cell| resolved(c)),
                decreases src.cells@.len() - c,
            {
                cells.push(resolve(src.cells[c]));
                proof {
                    assert(src.cells@.take(c + 1).map_values(|c: Cell| resolved(c)) =~= src.cells@.take(c as int).map_values(
                        |c: Cell| resolved(c),
                    ).push(resolved(src.cells@[c as int])));
                }
                c = c + 1;
            }
            proof {
                assert(src.cells@.take(src.cells@.len() as int) =~= src.cells@);
            }
            let s = Sprite { cols: src.cols, rows: src.rows, cells, ox: src.ox, oy: src.oy };
            let idx = sid.index();
            pack.sprites.set(idx, s);
            k = k + 1;
        }
    }
}

} // verus!
