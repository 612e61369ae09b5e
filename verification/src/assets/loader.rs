//! Loading a file the player handed over into a pack, replacing its pixels.
use vstd::prelude::*;
use crate::assets::file::FileKind;
use crate::assets::image::{bmp_header, bmp_image, bmp_ok, decode_bmp, image_tiles, tiles_from_image, Image};
use crate::assets::pack::{sprite_index, zeros, AssetPack, Source, SpriteId, SPRITE_COUNT};
use crate::assets::palette::Palette;
use crate::assets::profile::{applied, parse, parse_spec, sprite_view, Directive, Profile, ProfileView};
use crate::assets::profile::scan::{append_chars, lines_of};
use crate::assets::rom::{candidates, decode_tiles, info, info_spec, ranks_before, scan, tile_at_bytes, tiles_fitting, RomInfo};
use crate::assets::tile::Tile8;
use crate::text::{char_from_code, chars_of};

verus! {

broadcast use vstd::string::group_string_axioms;

// ---- numbers as text ----

/// The decimal digits of a number.
pub open spec fn dec_text(n: nat) -> Seq<char>
    decreases n,
{
    if n < 10 {
        seq![((n + 0x30) as u32) as char]
    } else {
        dec_text(n / 10).push((((n % 10) + 0x30) as u32) as char)
    }
}

/// The lowercase hex digits of a number.
pub open spec fn hex_text(n: nat) -> Seq<char>
    decreases n,
{
    let d = n % 16;
    let c = (if d < 10 { (d + 0x30) as u32 } else { (d + 0x57) as u32 }) as char;
    if n < 16 {
        seq![c]
    } else {
        hex_text(n / 16).push(c)
    }
}

/// Digits padded with zeros on the left to at least five.
pub open spec fn pad5(s: Seq<char>) -> Seq<char> {
    if s.len() >= 5 { s } else { Seq::new((5 - s.len()) as nat, |i: int| '0') + s }
}

fn push_dec(out: &mut Vec<char>, n: u64)
    ensures
        final(out)@ == old(out)@ + dec_text(n as nat),
    decreases n,
{
    if n >= 10 {
        push_dec(out, n / 10);
    }
    let d = (n % 10) as u32 + 0x30;
    let c = match char_from_code(d) {
        Some(c) => c,
        None => '0',
    };
    out.push(c);
    proof {
        if n < 10 {
            assert(out@ =~= old(out)@ + dec_text(n as nat));
        } else {
            assert(out@ =~= old(out)@ + dec_text(n as nat));
        }
    }
}

fn push_hex(out: &mut Vec<char>, n: u64)
    ensures
        final(out)@ == old(out)@ + hex_text(n as nat),
    decreases n,
{
    if n >= 16 {
        push_hex(out, n / 16);
    }
    let d = (n % 16) as u32;
    let code = if d < 10 { d + 0x30 } else { d + 0x57 };
    let c = match char_from_code(code) {
        Some(c) => c,
        None => '0',
    };
    out.push(c);
    proof {
        assert(out@ =~= old(out)@ + hex_text(n as nat));
    }
}

fn push_pad5(out: &mut Vec<char>, hx: &Vec<char>)
    ensures
        final(out)@ == old(out)@ + pad5(hx@),
{
    let n = hx.len();
    if n < 5 {
        let mut z: usize = n;
        while z < 5
            invariant
                n <= z <= 5,
                out@ == old(out)@ + Seq::new((z - n) as nat, |i: int| '0'),
            decreases 5 - z,
        {
            out.push('0');
            proof {
                assert(Seq::new((z + 1 - n) as nat, |i: int| '0') =~= Seq::new((z - n) as nat, |i: int| '0').push('0'));
            }
            z = z + 1;
        }
    }
    let ghost mid = out@;
    push_chars(out, hx);
    proof {
        assert(out@ =~= old(out)@ + pad5(hx@));
    }
}

fn push_text(out: &mut Vec<char>, t: &str)
    ensures
        final(out)@ == old(out)@ + t@,
{
    let cs = chars_of(t);
    let mut i: usize = 0;
    while i < cs.len()
        invariant
            cs@ == t@,
            i <= cs@.len(),
            out@ == old(out)@ + t@.take(i as int),
        decreases cs@.len() - i,
    {
        out.push(cs[i]);
        proof {
            assert(t@.take(i + 1) =~= t@.take(i as int).push(t@[i as int]));
        }
        i = i + 1;
    }
    proof {
        assert(t@.take(t@.len() as int) =~= t@);
    }
}

fn push_chars(out: &mut Vec<char>, w: &Vec<char>)
    ensures
        final(out)@ == old(out)@ + w@,
{
    let mut i: usize = 0;
    while i < w.len()
        invariant
            i <= w@.len(),
            out@ == old(out)@ + w@.take(i as int),
        decreases w@.len() - i,
    {
        out.push(w[i]);
        proof {
            assert(w@.take(i + 1) =~= w@.take(i as int).push(w@[i as int]));
        }
        i = i + 1;
    }
    proof {
        assert(w@.take(w@.len() as int) =~= w@);
    }
}

fn to_string(cs: &Vec<char>) -> (r: String)
    ensures
        r@ == cs@,
{
    let mut s = String::new();
    append_chars(&mut s, cs);
    s
}

// ---- text from bytes ----

/// True when every byte is ASCII.
pub open spec fn ascii(data: Seq<u8>) -> bool {
    forall|i: int| 0 <= i < data.len() ==> #[trigger] data[i] < 0x80
}

/// The text of ASCII bytes: each byte the character of the same value.
pub open spec fn ascii_text(data: Seq<u8>) -> Seq<char> {
    data.map_values(|b: u8| (b as u32) as char)
}

/// What `String::from_utf8_lossy` makes of some bytes.
pub uninterp spec fn lossy_text(data: Seq<u8>) -> Seq<char>;

/// The text of some bytes.
///
/// Calls `String::from_utf8_lossy` from std, documented to give the text
/// unchanged when the bytes are valid UTF-8 and to put U+FFFD in place of
/// invalid sequences. The result is named [`lossy_text`] of the bytes;
/// beyond that, the contract states only the ASCII case, where the
/// characters are the bytes.
#[verifier::external_body]
fn text_of_bytes(data: &[u8]) -> (r: String)
    ensures
        r@ == lossy_text(data@),
        ascii(data@) ==> r@ == ascii_text(data@),
{
    String::from_utf8_lossy(data).into_owned()
}

// ---- the report ----

/// What happened when a file was loaded.
#[derive(Clone, Debug, PartialEq, Eq)]
pub struct LoadReport {
    pub kind: &'static str,
    pub detail: String,
    pub tiles_imported: usize,
    pub warnings: Vec<String>,
}

/// The texts of some strings.
pub open spec fn texts(v: Seq<String>) -> Seq<Seq<char>> {
    v.map_values(|s: String| s@)
}

/// The offset the loader takes ROM tiles from: that of the candidate
/// window ranked ahead of all others, or 0 when there is none.
pub open spec fn chosen_offset(data: Seq<u8>, off: usize) -> bool {
    let cand = candidates(data, 256);
    ||| cand.len() == 0 && off == 0
    ||| exists|k: int| 0 <= k < cand.len() && (#[trigger] cand[k]).offset == off && forall|m: int| 0 <= m < cand.len() && m != k ==> ranks_before(cand[k], #[trigger] cand[m])
}

/// The first `n` tiles are those decoded from `data` at `offset`, one
/// every 16 bytes, and the rest are as they were.
pub open spec fn tiles_replaced(before: Seq<Tile8>, after: Seq<Tile8>, data: Seq<u8>, offset: int, n: int) -> bool {
    &&& after.len() == (if before.len() < n { n } else { before.len() as int })
    &&& forall|i: int| 0 <= i < after.len() ==> if i < n {
        tile_at_bytes((#[trigger] after[i])@, data, offset + 16 * i)
    } else {
        after[i]@ == before[i]@
    }
}

/// Only the pixels and where they came from have changed.
pub open spec fn same_structure(before: AssetPack, after: AssetPack) -> bool {
    &&& after.metatiles == before.metatiles && after.overlay == before.overlay
    &&& after.sprites == before.sprites
}


/// The size of a bitmap as its header gives it, rows counted either way up.
pub open spec fn bmp_size(data: Seq<u8>) -> (int, int) {
    let hd = bmp_header(data);
    (hd.width as int, if hd.height < 0 { -(hd.height as int) } else { hd.height as int })
}

/// What loading an image leaves: its tiles at the start of the pack, its
/// palette first, the pack's structure kept, and the file named as the
/// source.
pub open spec fn image_loaded(before: AssetPack, after: AssetPack, r: LoadReport, img: Image, name: Seq<char>) -> bool {
    exists|tiles: Seq<Tile8>, pal: Palette|
        #![trigger image_tiles(img, tiles, pal)]
        {
            &&& image_tiles(img, tiles, pal)
            &&& r.tiles_imported == tiles.len()
            &&& after.tiles@.len() == (if before.tiles@.len() < tiles.len() { tiles.len() as int } else { before.tiles@.len() as int })
            &&& forall|i: int| 0 <= i < after.tiles@.len() ==> (#[trigger] after.tiles@[i])@ == if i < tiles.len() {
                tiles[i]@
            } else {
                before.tiles@[i]@
            }
            &&& after.palettes@.len() == (if before.palettes@.len() < 1 { 1 } else { before.palettes@.len() as int })
            &&& after.palettes@[0] == pal
            &&& forall|i: int| 1 <= i < before.palettes@.len() ==> #[trigger] after.palettes@[i] == before.palettes@[i]
            &&& r.detail@ == dec_text(img.width as nat) + "x"@ + dec_text(img.height as nat) + " image, "@ + dec_text(
                tiles.len(),
            ) + " tiles"@
        }
}

/// The warnings a profile's errors give: `line N: message`.
pub open spec fn profile_warnings(p: ProfileView) -> Seq<Seq<char>> {
    Seq::new(p.errors.len(), |i: int| "line "@ + dec_text(p.errors[i].0 as nat) + ": "@ + p.errors[i].1)
}

fn new_image(data: &[u8], width: usize, height: usize) -> (img: Image)
    ensures
        img.width == width && img.height == height && img.rgba@ == data@,
{
    let mut rgba: Vec<u8> = Vec::new();
    let mut i: usize = 0;
    while i < data.len()
        invariant
            i <= data@.len(),
            rgba@ == data@.take(i as int),
        decreases data@.len() - i,
    {
        rgba.push(data[i]);
        proof {
            assert(data@.take(i + 1) =~= data@.take(i as int).push(data@[i as int]));
        }
        i = i + 1;
    }
    proof {
        assert(data@.take(data@.len() as int) =~= data@);
    }
    Image { width, height, rgba }
}

/// Imports an image's tiles and palette; see [`image_loaded`].
fn load_image(pack: &mut AssetPack, img: &Image, name: &str, kind: &'static str) -> (r: LoadReport)
    requires
        old(pack).wf(),
        img.wf(),
        img.width * img.height <= 0x1000_0000,
    ensures
        final(pack).wf(),
        image_loaded(*old(pack), *final(pack), r, *img, name@),
        same_structure(*old(pack), *final(pack)),
        final(pack).name == old(pack).name,
        final(pack).source is File && final(pack).source->name@ == name@,
        r.kind == kind && r.warnings@.len() == 0,
{
    let (tiles, pal) = tiles_from_image(img);
    proof {
        let cols = img.width / 8;
        let rows = img.height / 8;
        assert(cols * rows <= img.width * img.height) by (nonlinear_arith)
            requires
                cols == img.width / 8,
                rows == img.height / 8,
        ;
    }
    let n = pack.import_tiles(0, tiles.as_slice());
    let mut one: Vec<Palette> = Vec::new();
    one.push(pal);
    let ghost mid = *pack;
    pack.import_palettes(0, one.as_slice());
    let nm = chars_of(name);
    pack.source = Source::File { name: to_string(&nm) };
    let mut d: Vec<char> = Vec::new();
    push_dec(&mut d, img.width as u64);
    push_text(&mut d, "x");
    push_dec(&mut d, img.height as u64);
    push_text(&mut d, " image, ");
    push_dec(&mut d, n as u64);
    push_text(&mut d, " tiles");
    let r = LoadReport { kind, detail: to_string(&d), tiles_imported: n, warnings: Vec::new() };
    proof {
        assert(r.detail@ =~= dec_text(img.width as nat) + "x"@ + dec_text(img.height as nat) + " image, "@ + dec_text(
            tiles@.len(),
        ) + " tiles"@);
        assert forall|i: int| 1 <= i < old(pack).palettes@.len() implies #[trigger] pack.palettes@[i] == old(pack).palettes@[i] by {
            assert(pack.palettes@[i] == mid.palettes@[i]);
        }
        assert(image_loaded(*old(pack), *pack, r, *img, name@));
    }
    r
}

/// Loads a file into a pack, replacing its pixels.
///
/// The pack keeps its structure, so whatever comes in is immediately
/// visible as terrain and sprites. A ROM gives the tiles of its best-ranked
/// window (a 256-tile stretch), as many as the pack holds; raw tiles all of
/// theirs; an image or bitmap its quantised tiles and palette; a profile
/// its bindings.
pub fn load(pack: &mut AssetPack, name: &str, data: &[u8], kind: FileKind) -> (r: LoadReport)
    requires
        old(pack).wf(),
        data@.len() <= isize::MAX,
        data@.len() <= 0x10_0000_0000_0000,
        kind is Bmp && bmp_ok(data@) ==> bmp_size(data@).0 * bmp_size(data@).1 <= 0x1000_0000,
        kind matches FileKind::Rgba { width, height } ==> data@.len() >= width * height * 4 && width * height
            <= 0x1000_0000,
    ensures
        final(pack).wf(),
        kind is Rom ==> {
            &&& r.kind == "rom"
            &&& exists|ri: RomInfo, off: usize|
                #![trigger info_spec(data@, ri), chosen_offset(data@, off)]
                {
                    let n = if old(pack).tiles@.len() <= tiles_fitting(data@.len() as int, off as int) {
                        old(pack).tiles@.len() as int
                    } else {
                        tiles_fitting(data@.len() as int, off as int)
                    };
                    let title = if ri.title@.len() == 0 { name@ } else { ri.title@ };
                    &&& info_spec(data@, ri)
                    &&& chosen_offset(data@, off)
                    &&& r.tiles_imported == n
                    &&& tiles_replaced(old(pack).tiles@, final(pack).tiles@, data@, off as int, n)
                    &&& same_structure(*old(pack), *final(pack))
                    &&& final(pack).palettes == old(pack).palettes
                    &&& final(pack).source is Rom && final(pack).source->title@ == ri.title@ && final(pack).source->offset == off
                    &&& final(pack).name@ == title
                    &&& r.detail@ == title + " ("@ + dec_text((data@.len() / 1024) as nat) + " KiB, "@ + dec_text(
                        ri.banks as nat,
                    ) + " banks) tiles from 0x"@ + pad5(hex_text(off as nat))
                    &&& texts(r.warnings@) == if ri.has_logo && ri.header_checksum_ok && ri.actual_size >= 32768 {
                        Seq::<Seq<char>>::empty()
                    } else {
                        seq!["this does not look like a Game Boy ROM"@]
                    }
                }
        },
        kind is RawTiles ==> {
            let n = data@.len() / 16;
            &&& r.kind == "tiles" && r.tiles_imported == n && r.warnings@.len() == 0
            &&& tiles_replaced(old(pack).tiles@, final(pack).tiles@, data@, 0, n as int)
            &&& same_structure(*old(pack), *final(pack))
            &&& final(pack).palettes == old(pack).palettes && final(pack).name == old(pack).name
            &&& final(pack).source is File && final(pack).source->name@ == name@
            &&& r.detail@ == dec_text(n as nat) + " tiles from "@ + name@
        },
        kind is Bmp ==> r.kind == "bmp",
        kind is Bmp && bmp_ok(data@) ==> {
            &&& r.warnings@.len() == 0
            &&& exists|img: Image| bmp_image(data@, img) && image_loaded(*old(pack), *final(pack), r, img, name@)
            &&& same_structure(*old(pack), *final(pack)) && final(pack).name == old(pack).name
            &&& final(pack).source is File && final(pack).source->name@ == name@
        },
        kind is Bmp && !bmp_ok(data@) ==> {
            &&& *final(pack) == *old(pack)
            &&& r.tiles_imported == 0
            &&& r.detail@ == "could not decode this bitmap"@
            &&& texts(r.warnings@) == seq!["only uncompressed 24 or 32 bit BMP is supported"@]
        },
        kind matches FileKind::Rgba { width, height } ==> {
            &&& r.kind == "image" && r.warnings@.len() == 0
            &&& exists|img: Image|
                img.width == width && img.height == height && img.rgba@ == data@ && image_loaded(*old(pack), *final(pack), r, img, name@)
            &&& same_structure(*old(pack), *final(pack)) && final(pack).name == old(pack).name
            &&& final(pack).source is File && final(pack).source->name@ == name@
        },
        kind is Profile ==> {
            let pv = parse_spec(lossy_text(data@));
            &&& r.kind == "profile" && r.tiles_imported == 0
            &&& exists|p: Profile| p.model() == pv && applied(p, *old(pack), *final(pack))
            &&& r.detail@ == dec_text((pv.terrain.len() + pv.sprites.len()) as nat) + " bindings from "@ + name@
            &&& texts(r.warnings@) == profile_warnings(pv)
        },
{
    let nm = chars_of(name);
    match kind {
        FileKind::Rom => {
            let ri = info(data);
            let mut warnings: Vec<String> = Vec::new();
            if !ri.looks_like_gameboy() {
                warnings.push("this does not look like a Game Boy ROM".to_owned());
            }
            let regions = scan(data, 256);
            let offset = if regions.len() > 0 { regions[0].offset } else { 0 };
            proof {
                let cand = candidates(data@, 256);
                if regions@.len() > 0 {
                    assert(cand.contains(regions@[0]));
                    let k0 = choose|k: int| 0 <= k < cand.len() && cand[k] == regions@[0];
                    assert forall|m: int| 0 <= m < cand.len() && m != k0 implies ranks_before(cand[k0], #[trigger] cand[m]) by {
                        assert(cand[m].offset != cand[k0].offset);
                        if regions@.contains(cand[m]) {
                            let j = choose|j: int| 0 <= j < regions@.len() && regions@[j] == cand[m];
                            assert(j != 0);
                            assert(ranks_before(regions@[0], regions@[j]));
                        } else {
                            assert(ranks_before(regions@[0], cand[m]));
                        }
                    }
                    assert(cand[k0].offset == offset);
                } else {
                    assert(cand.len() == 0);
                }
                assert(chosen_offset(data@, offset));
            }
            let count = pack.tile_count();
            let tiles = decode_tiles(data, offset, count);
            let n = pack.import_tiles(0, tiles.as_slice());
            let title_chars = chars_of(ri.title.as_str());
            let shown = if title_chars.len() == 0 { copy_of(&nm) } else { copy_of(&title_chars) };
            pack.source = Source::Rom { title: to_string(&title_chars), offset };
            pack.name = to_string(&shown);
            let mut d: Vec<char> = Vec::new();
            push_chars(&mut d, &shown);
            push_text(&mut d, " (");
            push_dec(&mut d, (ri.actual_size / 1024) as u64);
            push_text(&mut d, " KiB, ");
            push_dec(&mut d, ri.banks as u64);
            push_text(&mut d, " banks) tiles from 0x");
            let mut hx: Vec<char> = Vec::new();
            push_hex(&mut hx, offset as u64);
            push_pad5(&mut d, &hx);
            proof {
                assert(d@ =~= shown@ + " ("@ + dec_text((data@.len() / 1024) as nat) + " KiB, "@ + dec_text(ri.banks as nat)
                    + " banks) tiles from 0x"@ + pad5(hex_text(offset as nat)));
            }
            let r = LoadReport { kind: "rom", detail: to_string(&d), tiles_imported: n, warnings };
            r
        },
        FileKind::RawTiles => {
            let want = data.len() / 16;
            let tiles = decode_tiles(data, 0, want);
            let n = pack.import_tiles(0, tiles.as_slice());
            pack.source = Source::File { name: to_string(&nm) };
            let mut d: Vec<char> = Vec::new();
            push_dec(&mut d, n as u64);
            push_text(&mut d, " tiles from ");
            push_chars(&mut d, &nm);
            LoadReport { kind: "tiles", detail: to_string(&d), tiles_imported: n, warnings: Vec::new() }
        },
        FileKind::Bmp => {
            match decode_bmp(data) {
                Some(img) => load_image(pack, &img, name, "bmp"),
                None => {
                    let mut warnings: Vec<String> = Vec::new();
                    warnings.push("only uncompressed 24 or 32 bit BMP is supported".to_owned());
                    LoadReport {
                        kind: "bmp",
                        detail: "could not decode this bitmap".to_owned(),
                        tiles_imported: 0,
                        warnings,
                    }
                },
            }
        },
        FileKind::Rgba { width, height } => {
            let img = new_image(data, width, height);
            load_image(pack, &img, name, "image")
        },
        FileKind::Profile => {
            let text = text_of_bytes(data);
            let profile = parse(text.as_str());
            let ghost pv = profile.model();
            let mut warnings: Vec<String> = Vec::new();
            let ne = profile.errors.len();
            let mut i: usize = 0;
            while i < ne
                invariant
                    ne == profile.errors@.len(),
                    pv == profile.model(),
                    i <= ne,
                    texts(warnings@) == profile_warnings(pv).take(i as int),
                decreases ne - i,
            {
                let mut w: Vec<char> = Vec::new();
                push_text(&mut w, "line ");
                push_dec(&mut w, profile.errors[i].0 as u64);
                push_text(&mut w, ": ");
                let msg = chars_of(profile.errors[i].1.as_str());
                push_chars(&mut w, &msg);
                let ghost before = texts(warnings@);
                warnings.push(to_string(&w));
                proof {
                    assert(pv.errors[i as int] == (profile.errors@[i as int].0, profile.errors@[i as int].1@));
                    assert(w@ =~= profile_warnings(pv)[i as int]);
                    assert(texts(warnings@) =~= before.push(w@));
                    assert(profile_warnings(pv).take(i + 1) =~= profile_warnings(pv).take(i as int).push(profile_warnings(pv)[i as int]));
                }
                i = i + 1;
            }
            proof {
                assert(profile_warnings(pv).take(ne as int) =~= profile_warnings(pv));
                assert(pv.terrain.len() == profile.terrain@.len());
                assert(pv.sprites.len() == profile.sprites@.len());
            }
            let bound = profile.terrain.len() + profile.sprites.len();
            proof {
            }
            profile.apply(pack);
            let mut d: Vec<char> = Vec::new();
            push_dec(&mut d, bound as u64);
            push_text(&mut d, " bindings from ");
            push_chars(&mut d, &nm);
            LoadReport { kind: "profile", detail: to_string(&d), tiles_imported: 0, warnings }
        },
    }
}

fn copy_of(w: &Vec<char>) -> (r: Vec<char>)
    ensures
        r@ == w@,
{
    let mut r: Vec<char> = Vec::new();
    push_chars(&mut r, w);
    proof {
        assert(r@ =~= w@);
    }
    r
}


/// How many tiles an import directive brings from ROM data of `len` bytes:
/// as many as it asks for, or as fit.
pub open spec fn import_n(len: int, d: Directive) -> int {
    match d {
        Directive::Import { offset, count, base } => if count <= tiles_fitting(len, offset as int) {
            count as int
        } else {
            tiles_fitting(len, offset as int)
        },
    }
}

/// Where a directive puts its tiles.
pub open spec fn import_base(d: Directive) -> int {
    match d {
        Directive::Import { offset, count, base } => base as int,
    }
}

/// Where a directive reads its tiles.
pub open spec fn import_offset(d: Directive) -> int {
    match d {
        Directive::Import { offset, count, base } => offset as int,
    }
}

/// How many tiles the first `k` directives bring.
pub open spec fn imports_total(ds: Seq<Directive>, len: int, k: int) -> int
    decreases k,
{
    if k <= 0 { 0 } else { imports_total(ds, len, k - 1) + import_n(len, ds[k - 1]) }
}

/// How many tiles the pack holds after the first `k` directives.
pub open spec fn tiles_after(ds: Seq<Directive>, len: int, start: int, k: int) -> int
    decreases k,
{
    if k <= 0 {
        start
    } else {
        let m = tiles_after(ds, len, start, k - 1);
        let end = import_base(ds[k - 1]) + import_n(len, ds[k - 1]);
        if m < end { end } else { m }
    }
}

/// The last of the first `k` directives that wrote tile `i`, or -1.
pub open spec fn last_import(ds: Seq<Directive>, len: int, i: int, k: int) -> int
    decreases k,
{
    if k <= 0 {
        -1
    } else if import_base(ds[k - 1]) <= i < import_base(ds[k - 1]) + import_n(len, ds[k - 1]) {
        k - 1
    } else {
        last_import(ds, len, i, k - 1)
    }
}

/// Applies a profile's `import` directives against ROM data, in order,
/// and returns how many tiles came in. Tile `i` ends up as the one the
/// last directive to cover it decoded, else as it was, else blank.
///
/// Kept separate from [`load`] because a profile and the cartridge it
/// describes arrive as two different files.
pub fn apply_profile_imports(pack: &mut AssetPack, profile: &Profile, rom_data: &[u8]) -> (total: usize)
    requires
        rom_data@.len() <= isize::MAX,
        forall|j: int| 0 <= j < profile.imports@.len() ==> import_base(#[trigger] profile.imports@[j]) + import_n(rom_data@.len() as int, profile.imports@[j]) <= usize::MAX,
        imports_total(profile.imports@, rom_data@.len() as int, profile.imports@.len() as int) <= usize::MAX,
    ensures
        total == imports_total(profile.imports@, rom_data@.len() as int, profile.imports@.len() as int),
        final(pack).tiles@.len() == tiles_after(profile.imports@, rom_data@.len() as int, old(pack).tiles@.len() as int, profile.imports@.len() as int),
        forall|i: int|
            0 <= i < final(pack).tiles@.len() ==> {
                let j = last_import(profile.imports@, rom_data@.len() as int, i, profile.imports@.len() as int);
                if j >= 0 {
                    tile_at_bytes((#[trigger] final(pack).tiles@[i])@, rom_data@, import_offset(profile.imports@[j]) + 16 * (i - import_base(profile.imports@[j])))
                } else if i < old(pack).tiles@.len() {
                    final(pack).tiles@[i]@ == old(pack).tiles@[i]@
                } else {
                    final(pack).tiles@[i]@ == zeros()
                }
            },
        same_structure(*old(pack), *final(pack)),
        final(pack).palettes == old(pack).palettes && final(pack).name == old(pack).name,
        final(pack).source == old(pack).source,
{
    let ghost len = rom_data@.len() as int;
    let ghost ds = profile.imports@;
    let nd = profile.imports.len();
    let mut total: usize = 0;
    let mut k: usize = 0;
    while k < nd
        invariant
            nd == ds.len(),
            ds == profile.imports@,
            len == rom_data@.len(),
            rom_data@.len() <= isize::MAX,
            k <= nd,
            forall|j: int| 0 <= j < ds.len() ==> import_base(#[trigger] ds[j]) + import_n(len, ds[j]) <= usize::MAX,
            imports_total(ds, len, nd as int) <= usize::MAX,
            total == imports_total(ds, len, k as int),
            pack.tiles@.len() == tiles_after(ds, len, old(pack).tiles@.len() as int, k as int),
            forall|i: int|
                0 <= i < pack.tiles@.len() ==> {
                    let j = last_import(ds, len, i, k as int);
                    if j >= 0 {
                        tile_at_bytes((#[trigger] pack.tiles@[i])@, rom_data@, import_offset(ds[j]) + 16 * (i - import_base(ds[j])))
                    } else if i < old(pack).tiles@.len() {
                        pack.tiles@[i]@ == old(pack).tiles@[i]@
                    } else {
                        pack.tiles@[i]@ == zeros()
                    }
                },
            same_structure(*old(pack), *pack),
            pack.palettes == old(pack).palettes && pack.name == old(pack).name,
            pack.source == old(pack).source,
        decreases nd - k,
    {
        let Directive::Import { offset, count, base } = profile.imports[k];
        let tiles = decode_tiles(rom_data, offset, count);
        assert(ds[k as int] == Directive::Import { offset, count, base });
        assert(tiles@.len() == import_n(len, ds[k as int]));
        proof {
            assert(import_base(ds[k as int]) + import_n(len, ds[k as int]) <= usize::MAX);
            lemma_totals_grow(ds, len, k as int + 1, nd as int);
        }
        let ghost before = pack.tiles@;
        let n = pack.import_tiles(base, tiles.as_slice());
        proof {
            assert forall|i: int| 0 <= i < pack.tiles@.len() implies {
                let j = last_import(ds, len, i, k + 1);
                if j >= 0 {
                    tile_at_bytes((#[trigger] pack.tiles@[i])@, rom_data@, import_offset(ds[j]) + 16 * (i - import_base(ds[j])))
                } else if i < old(pack).tiles@.len() {
                    pack.tiles@[i]@ == old(pack).tiles@[i]@
                } else {
                    pack.tiles@[i]@ == zeros()
                }
            } by {
                lemma_after(ds, len, old(pack).tiles@.len() as int, i, k as int);
                if base <= i < base + n {
                    assert(tile_at_bytes(tiles@[i - base]@, rom_data@, offset + 16 * (i - base)));
                } else if i < before.len() {
                    assert(pack.tiles@[i]@ == before[i]@);
                } else {
                    assert(pack.tiles@[i]@ == zeros());
                }
            }
        }
        total = total + n;
        k = k + 1;
    }
    total
}

/// The pack only grows, and a tile some directive wrote lies within it.
proof fn lemma_after(ds: Seq<Directive>, len: int, start: int, i: int, k: int)
    requires
        0 <= k <= ds.len(),
    ensures
        tiles_after(ds, len, start, k) >= start,
        last_import(ds, len, i, k) < k,
        last_import(ds, len, i, k) >= 0 ==> {
            let j = last_import(ds, len, i, k);
            import_base(ds[j]) <= i < import_base(ds[j]) + import_n(len, ds[j]) && i < tiles_after(ds, len, start, k)
        },
    decreases k,
{
    if k > 0 {
        lemma_after(ds, len, start, i, k - 1);
    }
}

/// Totals only grow.
proof fn lemma_totals_grow(ds: Seq<Directive>, len: int, k: int, m: int)
    requires
        0 <= k <= m <= ds.len(),
    ensures
        imports_total(ds, len, k) <= imports_total(ds, len, m),
    decreases m - k,
{
    if k < m {
        lemma_totals_grow(ds, len, k, m - 1);
        assert(import_n(len, ds[m - 1]) >= 0);
    }
}

} // verus!
