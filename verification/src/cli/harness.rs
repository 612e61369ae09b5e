//! The desktop harness's logic: reading its options, turning a walk script
//! into buttons, running a world for a while, and drawing a map as text.
use vstd::prelude::*;
use crate::gen::{new_world, Config};
use crate::input::button;
use crate::tiles::tile;
use crate::world::World;
use crate::text::chars_of;
use crate::assets::pack::{sprite_at, sprite_index, SpriteId, SPRITE_COUNT};

verus! {

broadcast use vstd::string::group_string_axioms;

/// The sprite at position `i` of the list of sprites, in their order.
pub fn sprite_id(i: usize) -> (id: SpriteId)
    requires
        i < SPRITE_COUNT,
    ensures
        sprite_index(id) == i,
{
    sprite_at(i)
}

/// What the command line asked for.
pub struct Options {
    pub seed: u64,
    pub level: u16,
    pub frames: u32,
    pub scale: usize,
    pub out: String,
    pub walk: String,
    pub rom: Option<String>,
    pub path: Option<String>,
}

/// The options as plain values.
pub struct OptionsView {
    pub seed: u64,
    pub level: u16,
    pub frames: u32,
    pub scale: usize,
    pub out: Seq<char>,
    pub walk: Seq<char>,
    pub rom: Option<Seq<char>>,
    pub path: Option<Seq<char>>,
}

/// The text of an optional string.
pub open spec fn opt_view(o: Option<String>) -> Option<Seq<char>> {
    match o {
        Some(s) => Some(s@),
        None => None,
    }
}

impl Options {
    /// The options as plain values.
    pub open spec fn view(&self) -> OptionsView {
        OptionsView {
            seed: self.seed,
            level: self.level,
            frames: self.frames,
            scale: self.scale,
            out: self.out@,
            walk: self.walk@,
            rom: opt_view(self.rom),
            path: opt_view(self.path),
        }
    }
}

/// True when every character is a decimal digit.
pub open spec fn all_digits(cs: Seq<char>) -> bool {
    forall|i: int| 0 <= i < cs.len() ==> '0' <= #[trigger] cs[i] && cs[i] <= '9'
}

/// The number decimal digits spell.
pub open spec fn dec_value(cs: Seq<char>) -> int
    decreases cs.len(),
{
    if cs.len() == 0 {
        0
    } else {
        dec_value(cs.drop_last()) * 10 + (cs.last() as int - 0x30)
    }
}

/// An unsigned number as std's `str::parse` reads it: an optional plus
/// sign, then one or more digits, no larger than `max`.
pub open spec fn parse_spec(cs: Seq<char>, max: int) -> Option<int> {
    let ds = if cs.len() > 0 && cs[0] == '+' { cs.drop_first() } else { cs };
    if ds.len() > 0 && all_digits(ds) && 0 <= dec_value(ds) <= max {
        Some(dec_value(ds))
    } else {
        None
    }
}

/// Digit values are never negative.
proof fn lemma_dec_nonneg(cs: Seq<char>)
    requires
        all_digits(cs),
    ensures
        dec_value(cs) >= 0,
    decreases cs.len(),
{
    if cs.len() > 0 {
        lemma_dec_nonneg(cs.drop_last());
    }
}

/// A longer run of digits is never worth less than its start.
proof fn lemma_dec_grows(cs: Seq<char>, n: int)
    requires
        all_digits(cs),
        0 <= n <= cs.len(),
    ensures
        dec_value(cs.take(n)) <= dec_value(cs),
    decreases cs.len(),
{
    if n < cs.len() {
        assert(cs.drop_last().take(n) =~= cs.take(n));
        assert forall|i: int| 0 <= i < cs.drop_last().len() implies '0' <= #[trigger] cs.drop_last()[i]
            && cs.drop_last()[i] <= '9' by {
            assert(cs.drop_last()[i] == cs[i]);
        }
        lemma_dec_grows(cs.drop_last(), n);
        lemma_dec_nonneg(cs.drop_last());
    } else {
        assert(cs.take(n) =~= cs);
    }
}

/// Reads an unsigned number no larger than `max`; see [`parse_spec`].
fn parse_number(s: &String, max: u64) -> (r: Option<u64>)
    ensures
        match parse_spec(s@, max as int) {
            Some(v) => r == Some(v as u64),
            None => r is None,
        },
{
    let cs = chars_of(s.as_str());
    let n = cs.len();
    let start: usize = if n > 0 && cs[0] == '+' { 1 } else { 0 };
    let ghost ds = if cs@.len() > 0 && cs@[0] == '+' { cs@.drop_first() } else { cs@ };
    proof {
        assert(ds =~= cs@.skip(start as int));
    }
    if start >= n {
        return None;
    }
    let mut v: u64 = 0;
    let mut i: usize = start;
    while i < n
        invariant
            cs@ == s@,
            n == cs@.len(),
            start <= i <= n,
            ds == cs@.skip(start as int),
            ds == (if s@.len() > 0 && s@[0] == '+' { s@.drop_first() } else { s@ }),
            all_digits(ds.take(i - start)),
            v as int == dec_value(ds.take(i - start)),
            v <= max,
        decreases n - i,
    {
        let c = cs[i];
        proof {
            assert(ds.take(i - start + 1).drop_last() =~= ds.take(i - start));
            assert(ds[i - start] == c);
        }
        if c < '0' || c > '9' {
            proof {
                assert(!all_digits(ds)) by {
                    assert(ds[i - start] == c);
                }
            }
            return None;
        }
        let d = (c as u32 - 0x30) as u64;
        if d > max || v > (max - d) / 10 {
            proof {
                assert(all_digits(ds.take(i - start + 1))) by {
                    assert forall|j: int| 0 <= j < ds.take(i - start + 1).len() implies '0' <= #[trigger] ds.take(i - start + 1)[j]
                        && ds.take(i - start + 1)[j] <= '9' by {
                        if j < i - start {
                            assert(ds.take(i - start)[j] == ds.take(i - start + 1)[j]);
                        }
                    }
                }
                assert(dec_value(ds.take(i - start + 1)) > max) by (nonlinear_arith)
                    requires
                        dec_value(ds.take(i - start + 1)) == v * 10 + d,
                        d > max || v > (max - d) / 10,
                        v >= 0,
                        0 <= d <= 9,
                ;
                if all_digits(ds) {
                    lemma_dec_grows(ds, i - start + 1);
                }
            }
            return None;
        }
        v = v * 10 + d;
        proof {
            assert forall|j: int| 0 <= j < ds.take(i - start + 1).len() implies '0' <= #[trigger] ds.take(i - start + 1)[j]
                && ds.take(i - start + 1)[j] <= '9' by {
                if j < i - start {
                    assert(ds.take(i - start)[j] == ds.take(i - start + 1)[j]);
                }
            }
        }
        i = i + 1;
    }
    proof {
        assert(ds.take(n - start) =~= ds);
    }
    Some(v)
}

/// True when a string reads `w`.
fn reads(s: &String, w: &str) -> (r: bool)
    ensures
        r == (s@ == w@),
{
    let o = w.to_owned();
    *s == o
}

/// A number from an option's value, or the default when it does not read as
/// one.
pub open spec fn num_or(v: Seq<char>, max: int, default: int) -> int {
    match parse_spec(v, max) {
        Some(n) => n,
        None => default,
    }
}

/// The value after argument `i`, or nothing when there is none.
pub open spec fn value_after(args: Seq<Seq<char>>, i: int) -> Seq<char> {
    if i + 1 < args.len() {
        args[i + 1]
    } else {
        Seq::empty()
    }
}

/// The defaults: seed 1, the overworld, one frame, scale 4, `zelduh.png`.
pub open spec fn default_options() -> OptionsView {
    OptionsView {
        seed: 1,
        level: 0,
        frames: 1,
        scale: 4,
        out: seq!['z', 'e', 'l', 'd', 'u', 'h', '.', 'p', 'n', 'g'],
        walk: Seq::empty(),
        rom: None,
        path: None,
    }
}

/// The options after reading the arguments from `i` on: each flag takes the
/// argument after it (a bad number keeps the flag's default), a bare word is
/// the path, and an unknown flag is skipped.
pub open spec fn options_from(args: Seq<Seq<char>>, i: int, o: OptionsView) -> OptionsView
    decreases args.len() + 1 - i,
{
    if i < 0 || i >= args.len() {
        o
    } else {
        let a = args[i];
        let v = value_after(args, i);
        let j = if i + 1 < args.len() { i + 2 } else { args.len() as int };
        if a == seq!['-', '-', 's', 'e', 'e', 'd'] {
            options_from(args, j, OptionsView { seed: num_or(v, u64::MAX as int, 1) as u64, ..o })
        } else if a == seq!['-', '-', 'l', 'e', 'v', 'e', 'l'] {
            options_from(args, j, OptionsView { level: num_or(v, u16::MAX as int, 0) as u16, ..o })
        } else if a == seq!['-', '-', 'f', 'r', 'a', 'm', 'e', 's'] {
            options_from(args, j, OptionsView { frames: num_or(v, u32::MAX as int, 1) as u32, ..o })
        } else if a == seq!['-', '-', 's', 'c', 'a', 'l', 'e'] {
            options_from(args, j, OptionsView { scale: num_or(v, usize::MAX as int, 4) as usize, ..o })
        } else if a == seq!['-', '-', 'o', 'u', 't'] {
            options_from(args, j, OptionsView { out: v, ..o })
        } else if a == seq!['-', '-', 'w', 'a', 'l', 'k'] {
            options_from(args, j, OptionsView { walk: v, ..o })
        } else if a == seq!['-', '-', 'r', 'o', 'm'] {
            options_from(args, j, OptionsView { rom: Some(v), ..o })
        } else if !(a.len() >= 2 && a[0] == '-' && a[1] == '-') {
            options_from(args, i + 1, OptionsView { path: Some(a), ..o })
        } else {
            options_from(args, i + 1, o)
        }
    }
}

/// The texts of some strings.
pub open spec fn texts(args: Seq<String>) -> Seq<Seq<char>> {
    args.map_values(|s: String| s@)
}

impl Options {
    /// Reads the options after the command; see [`options_from`].
    pub fn parse(args: &[String]) -> (o: Options)
        ensures
            o.view() == options_from(texts(args@), 0, default_options()),
    {
        let out = "zelduh.png".to_owned();
        proof {
            reveal_strlit("zelduh.png");
            assert(out@ =~= default_options().out);
        }
        let mut o = Options {
            seed: 1,
            level: 0,
            frames: 1,
            scale: 4,
            out,
            walk: String::new(),
            rom: None,
            path: None,
        };
        proof {
            reveal_strlit("--seed");
            reveal_strlit("--level");
            reveal_strlit("--frames");
            reveal_strlit("--scale");
            reveal_strlit("--out");
            reveal_strlit("--walk");
            reveal_strlit("--rom");
            assert("--seed"@ =~= seq!['-', '-', 's', 'e', 'e', 'd']);
            assert("--level"@ =~= seq!['-', '-', 'l', 'e', 'v', 'e', 'l']);
            assert("--frames"@ =~= seq!['-', '-', 'f', 'r', 'a', 'm', 'e', 's']);
            assert("--scale"@ =~= seq!['-', '-', 's', 'c', 'a', 'l', 'e']);
            assert("--out"@ =~= seq!['-', '-', 'o', 'u', 't']);
            assert("--walk"@ =~= seq!['-', '-', 'w', 'a', 'l', 'k']);
            assert("--rom"@ =~= seq!['-', '-', 'r', 'o', 'm']);
        }
        let ghost a = texts(args@);
        let n = args.len();
        let mut i: usize = 0;
        while i < n
            invariant
                n == args@.len(),
                a == texts(args@),
                i <= n,
                options_from(a, i as int, o.view()) == options_from(a, 0, default_options()),
                "--seed"@ == seq!['-', '-', 's', 'e', 'e', 'd'],
                "--level"@ == seq!['-', '-', 'l', 'e', 'v', 'e', 'l'],
                "--frames"@ == seq!['-', '-', 'f', 'r', 'a', 'm', 'e', 's'],
                "--scale"@ == seq!['-', '-', 's', 'c', 'a', 'l', 'e'],
                "--out"@ == seq!['-', '-', 'o', 'u', 't'],
                "--walk"@ == seq!['-', '-', 'w', 'a', 'l', 'k'],
                "--rom"@ == seq!['-', '-', 'r', 'o', 'm'],
            decreases n + 1 - i,
        {
            let arg = &args[i];
            let value = if i + 1 < n { args[i + 1].clone() } else { String::new() };
            let ghost i0 = i as int;
            let ghost o0 = o.view();
            proof {
                assert(value@ == value_after(a, i as int));
                assert(arg@ == a[i as int]);
            }
            if reads(arg, "--seed") {
                let pn = parse_number(&value, u64::MAX);
                o.seed = match pn { Some(v) => v, None => 1 };

                i = if i + 1 < n { i + 2 } else { n };
            } else if reads(arg, "--level") {
                o.level = match parse_number(&value, 0xffff) { Some(v) => v as u16, None => 0 };
                i = if i + 1 < n { i + 2 } else { n };
            } else if reads(arg, "--frames") {
                o.frames = match parse_number(&value, 0xffff_ffff) { Some(v) => v as u32, None => 1 };
                i = if i + 1 < n { i + 2 } else { n };
            } else if reads(arg, "--scale") {
                o.scale = match parse_number(&value, usize::MAX as u64) { Some(v) => v as usize, None => 4 };
                i = if i + 1 < n { i + 2 } else { n };
            } else if reads(arg, "--out") {
                o.out = value;
                i = if i + 1 < n { i + 2 } else { n };
            } else if reads(arg, "--walk") {
                o.walk = value;
                i = if i + 1 < n { i + 2 } else { n };
            } else if reads(arg, "--rom") {
                o.rom = Some(value);
                i = if i + 1 < n { i + 2 } else { n };
            } else {
                let cs = chars_of(arg.as_str());
                if !(cs.len() >= 2 && cs[0] == '-' && cs[1] == '-') {
                    o.path = Some(arg.clone());
                }
                i = i + 1;
            }
            proof {
                assert(options_from(a, i0, o0) == options_from(a, i as int, o.view()));
            }
        }
        o
    }
}

/// The buttons one character of a walk script holds.
pub open spec fn step_buttons(c: char) -> u16 {
    if c == 'l' {
        button::LEFT
    } else if c == 'r' {
        button::RIGHT
    } else if c == 'u' {
        button::UP
    } else if c == 'd' {
        button::DOWN
    } else if c == 'a' {
        button::A
    } else if c == 'b' {
        button::B
    } else {
        0
    }
}

/// Turns a string like "rrrdduu" into one button mask per frame.
pub fn walk_script(s: &str) -> (r: Vec<u16>)
    ensures
        r@ == s@.map_values(|c: char| step_buttons(c)),
{
    let cs = chars_of(s);
    let mut out: Vec<u16> = Vec::new();
    let mut i: usize = 0;
    while i < cs.len()
        invariant
            cs@ == s@,
            i <= cs@.len(),
            out@ =~= cs@.take(i as int).map_values(|c: char| step_buttons(c)),
        decreases cs@.len() - i,
    {
        let c = cs[i];
        let b: u16 = if c == 'l' {
            button::LEFT
        } else if c == 'r' {
            button::RIGHT
        } else if c == 'u' {
            button::UP
        } else if c == 'd' {
            button::DOWN
        } else if c == 'a' {
            button::A
        } else if c == 'b' {
            button::B
        } else {
            0
        };
        out.push(b);
        proof {
            assert(cs@.take(i + 1).map_values(|c: char| step_buttons(c)) =~= cs@.take(i as int).map_values(
                |c: char| step_buttons(c),
            ).push(step_buttons(c)));
        }
        i = i + 1;
    }
    proof {
        assert(cs@.take(cs@.len() as int) =~= cs@);
    }
    out
}

/// A world of the options' seed with player 0 in it, run for the options'
/// frames with the walk script's buttons held in turn (looping; none when
/// the script is empty).
pub fn run_world(opts: &Options) -> (w: World)
    ensures
        w.wf(),
        w.players@.len() == 4,
        w.frame == opts.frames,
{
    let mut w = new_world(Config::from_seed(opts.seed), 4);
    w.join(0);
    let script = walk_script(opts.walk.as_str());
    let mut f: u32 = 0;
    while f < opts.frames
        invariant
            w.wf(),
            w.players@.len() == 4,
            f <= opts.frames,
            w.frame == f,
        decreases opts.frames - f,
    {
        // The script loops so a short string can drive a long run.
        let buttons = if script.len() == 0 { 0 } else { script[(f as usize) % script.len()] };
        w.set_input(0, buttons);
        w.step();
        f = f + 1;
    }
    w
}

/// One character per tile, chosen to make a map readable in a terminal.
pub open spec fn glyph_spec(t: u8) -> char {
    if t == tile::VOID {
        ' '
    } else if t == tile::GRASS {
        '.'
    } else if t == tile::GRASS_TALL {
        ','
    } else if t == tile::FLOWERS {
        '*'
    } else if t == tile::SAND {
        ':'
    } else if t == tile::PATH {
        '='
    } else if t == tile::FLOOR {
        '.'
    } else if t == tile::CARPET {
        '%'
    } else if t == tile::BRIDGE {
        'H'
    } else if t == tile::WATER {
        '~'
    } else if t == tile::WATER_SHALLOW {
        '-'
    } else if t == tile::LAVA {
        '!'
    } else if t == tile::PIT {
        'o'
    } else if t == tile::BUSH {
        'w'
    } else if t == tile::ROCK {
        'O'
    } else if t == tile::TREE {
        'T'
    } else if t == tile::WALL {
        '#'
    } else if t == tile::WALL_DUNGEON {
        '#'
    } else if t == tile::CLIFF {
        'A'
    } else if t == tile::WALL_CRACKED {
        'x'
    } else if t == tile::BLOCK {
        'B'
    } else if t == tile::STATUE {
        'S'
    } else if t == tile::POT {
        'p'
    } else if t == tile::SIGN {
        'i'
    } else if t == tile::DOOR_OPEN {
        '+'
    } else if t == tile::DOOR_SHUT {
        'D'
    } else if t == tile::DOOR_LOCKED {
        'L'
    } else if t == tile::DOOR_BOSS {
        '&'
    } else if t == tile::STAIRS_DOWN {
        '>'
    } else if t == tile::STAIRS_UP {
        '<'
    } else if t == tile::WARP {
        '@'
    } else if t == tile::LEDGE_DOWN {
        '^'
    } else if t == tile::LEDGE_UP {
        '^'
    } else if t == tile::LEDGE_LEFT {
        '^'
    } else if t == tile::LEDGE_RIGHT {
        '^'
    } else {
        '?'
    }
}

/// See [`glyph_spec`].
pub fn glyph(t: u8) -> (c: char)
    ensures
        c == glyph_spec(t),
{
    if t == tile::VOID {
        ' '
    } else if t == tile::GRASS {
        '.'
    } else if t == tile::GRASS_TALL {
        ','
    } else if t == tile::FLOWERS {
        '*'
    } else if t == tile::SAND {
        ':'
    } else if t == tile::PATH {
        '='
    } else if t == tile::FLOOR {
        '.'
    } else if t == tile::CARPET {
        '%'
    } else if t == tile::BRIDGE {
        'H'
    } else if t == tile::WATER {
        '~'
    } else if t == tile::WATER_SHALLOW {
        '-'
    } else if t == tile::LAVA {
        '!'
    } else if t == tile::PIT {
        'o'
    } else if t == tile::BUSH {
        'w'
    } else if t == tile::ROCK {
        'O'
    } else if t == tile::TREE {
        'T'
    } else if t == tile::WALL {
        '#'
    } else if t == tile::WALL_DUNGEON {
        '#'
    } else if t == tile::CLIFF {
        'A'
    } else if t == tile::WALL_CRACKED {
        'x'
    } else if t == tile::BLOCK {
        'B'
    } else if t == tile::STATUE {
        'S'
    } else if t == tile::POT {
        'p'
    } else if t == tile::SIGN {
        'i'
    } else if t == tile::DOOR_OPEN {
        '+'
    } else if t == tile::DOOR_SHUT {
        'D'
    } else if t == tile::DOOR_LOCKED {
        'L'
    } else if t == tile::DOOR_BOSS {
        '&'
    } else if t == tile::STAIRS_DOWN {
        '>'
    } else if t == tile::STAIRS_UP {
        '<'
    } else if t == tile::WARP {
        '@'
    } else if t == tile::LEDGE_DOWN {
        '^'
    } else if t == tile::LEDGE_UP {
        '^'
    } else if t == tile::LEDGE_LEFT {
        '^'
    } else if t == tile::LEDGE_RIGHT {
        '^'
    } else {
        '?'
    }
}

} // verus!
