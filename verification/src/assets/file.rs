//! Telling what sort of file the player handed over.
use vstd::prelude::*;
use crate::assets::rom::{self, byte_at, header_sum, logo_spec};
use crate::text::chars_of;

verus! {

broadcast use vstd::string::group_string_axioms;

/// What sort of file was handed over.
#[derive(Clone, Copy, PartialEq, Eq, Structural, Debug)]
pub enum FileKind {
    /// A Game Boy or Game Boy Color cartridge image.
    Rom,
    /// A raw 2bpp tile dump, as produced by tile rippers (`.chr`, `.2bpp`).
    RawTiles,
    /// A bitmap image.
    Bmp,
    /// Already-decoded RGBA, as the browser's image decoder produces.
    Rgba { width: usize, height: usize },
    /// A text profile describing where a ROM keeps its graphics.
    Profile,
}

/// A character with ASCII capitals made small.
pub open spec fn lower(c: char) -> char {
    if 'A' <= c && c <= 'Z' {
        ((c as u32) + 32) as char
    } else {
        c
    }
}

/// True when the name, ignoring ASCII case, ends with `suffix` (itself
/// lower case).
pub open spec fn ends_with(name: Seq<char>, suffix: Seq<char>) -> bool {
    name.len() >= suffix.len() && forall|i: int|
        0 <= i < suffix.len() ==> lower(#[trigger] name[name.len() - suffix.len() + i]) == suffix[i]
}

/// True when the header says Game Boy: the logo, a good header checksum and
/// at least 32 KiB.
pub open spec fn rom_like(data: Seq<u8>) -> bool {
    &&& data.len() >= 0x114 && data.subrange(0x104, 0x114) == logo_spec()
    &&& byte_at(data, 0x14d) == Some(if data.len() >= 0x14d { header_sum(data.subrange(0x134, 0x14d)) } else { 0 })
    &&& data.len() >= 32768
}

/// Printable ASCII, or space, newline, carriage return or tab.
pub open spec fn texty(b: u8) -> bool {
    (0x21 <= b && b <= 0x7e) || b == 0x20 || b == 0x0a || b == 0x0d || b == 0x09
}

/// An ASCII letter.
pub open spec fn letter(b: u8) -> bool {
    (0x41 <= b && b <= 0x5a) || (0x61 <= b && b <= 0x7a)
}

/// The guess for a file: a profile by name (`.zprofile`, `.txt`); a bitmap
/// by its `BM` start; a ROM by its header, then by name (`.gb`, `.gbc`); raw
/// tiles by name (`.chr`, `.2bpp`, `.bin`); a profile when it is all text
/// with a letter in it; otherwise nothing.
pub open spec fn sniff_spec(name: Seq<char>, data: Seq<u8>) -> Option<FileKind> {
    if ends_with(name, seq!['.', 'z', 'p', 'r', 'o', 'f', 'i', 'l', 'e']) || ends_with(name, seq!['.', 't', 'x', 't']) {
        Some(FileKind::Profile)
    } else if data.len() >= 2 && data[0] == 0x42 && data[1] == 0x4d {
        Some(FileKind::Bmp)
    } else if rom_like(data) || ends_with(name, seq!['.', 'g', 'b']) || ends_with(name, seq!['.', 'g', 'b', 'c']) {
        Some(FileKind::Rom)
    } else if ends_with(name, seq!['.', 'c', 'h', 'r']) || ends_with(name, seq!['.', '2', 'b', 'p', 'p'])
        || ends_with(name, seq!['.', 'b', 'i', 'n']) {
        Some(FileKind::RawTiles)
    } else if (forall|i: int| 0 <= i < data.len() ==> texty(#[trigger] data[i])) && (exists|i: int|
        0 <= i < data.len() && letter(#[trigger] data[i])) {
        Some(FileKind::Profile)
    } else {
        None
    }
}

/// See [`ends_with`].
fn name_ends(name: &Vec<char>, suffix: &str) -> (r: bool)
    ensures
        r == ends_with(name@, suffix@),
{
    let s = chars_of(suffix);
    let n = name.len();
    let m = s.len();
    if m > n {
        return false;
    }
    let mut i: usize = 0;
    while i < m
        invariant
            s@ == suffix@,
            n == name@.len(),
            m == s@.len(),
            m <= n,
            i <= m,
            forall|k: int| 0 <= k < i ==> lower(#[trigger] name@[n - m + k]) == s@[k],
        decreases m - i,
    {
        let c = name[n - m + i];
        let l = if 'A' <= c && c <= 'Z' { ((c as u8) + 32) as char } else { c };
        if l != s[i] {
            return false;
        }
        i = i + 1;
    }
    true
}

/// Guesses what a file is from its name and contents; see [`sniff_spec`].
pub fn sniff(name: &str, data: &[u8]) -> (r: Option<FileKind>)
    ensures
        r == sniff_spec(name@, data@),
{
    proof {
        reveal_strlit(".zprofile");
        reveal_strlit(".txt");
        reveal_strlit(".gb");
        reveal_strlit(".gbc");
        reveal_strlit(".chr");
        reveal_strlit(".2bpp");
        reveal_strlit(".bin");
        assert(".zprofile"@ =~= seq!['.', 'z', 'p', 'r', 'o', 'f', 'i', 'l', 'e']);
        assert(".txt"@ =~= seq!['.', 't', 'x', 't']);
        assert(".gb"@ =~= seq!['.', 'g', 'b']);
        assert(".gbc"@ =~= seq!['.', 'g', 'b', 'c']);
        assert(".chr"@ =~= seq!['.', 'c', 'h', 'r']);
        assert(".2bpp"@ =~= seq!['.', '2', 'b', 'p', 'p']);
        assert(".bin"@ =~= seq!['.', 'b', 'i', 'n']);
    }
    let cs = chars_of(name);
    if name_ends(&cs, ".zprofile") || name_ends(&cs, ".txt") {
        return Some(FileKind::Profile);
    }
    if data.len() >= 2 && data[0] == 0x42 && data[1] == 0x4d {
        return Some(FileKind::Bmp);
    }
    if rom::info(data).looks_like_gameboy() {
        return Some(FileKind::Rom);
    }
    if name_ends(&cs, ".gb") || name_ends(&cs, ".gbc") {
        return Some(FileKind::Rom);
    }
    if name_ends(&cs, ".chr") || name_ends(&cs, ".2bpp") || name_ends(&cs, ".bin") {
        return Some(FileKind::RawTiles);
    }
    // A text file is probably a profile -- but only if it really is text.
    // Plenty of binary files are technically all-ASCII.
    let mut printable = true;
    let mut alpha = false;
    let mut i: usize = 0;
    while i < data.len()
        invariant
            i <= data@.len(),
            printable == (forall|k: int| 0 <= k < i ==> texty(#[trigger] data@[k])),
            alpha == (exists|k: int| 0 <= k < i && letter(#[trigger] data@[k])),
        decreases data@.len() - i,
    {
        let b = data[i];
        let t = (0x21 <= b && b <= 0x7e) || b == 0x20 || b == 0x0a || b == 0x0d || b == 0x09;
        let l = (0x41 <= b && b <= 0x5a) || (0x61 <= b && b <= 0x7a);
        proof {
            if !t {
                assert(!texty(data@[i as int]));
            }
            if l {
                assert(letter(data@[i as int]));
            }
        }
        printable = printable && t;
        alpha = alpha || l;
        i = i + 1;
    }
    if printable && alpha {
        return Some(FileKind::Profile);
    }
    None
}

} // verus!
