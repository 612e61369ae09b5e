//! Just enough JSON to relay signalling messages.
//!
//! The relay never looks inside a payload: it reads two string fields off the
//! outside of a message and passes the rest along exactly as it arrived. So
//! rather than a document model this is a scanner that can find where a value
//! ends, which is all that copying one through requires, plus string
//! quoting for the two fields the relay writes itself.
//!
//! The scanner works on character codes, so the same rules serve raw bytes
//! and the characters of a string: every character it looks for is ASCII,
//! and nothing else can be mistaken for one.
use vstd::prelude::*;
use vstd::string::StrSliceExecFns;
use crate::text::{chars_of, push_char, char_from_code};

verus! {

/// Space, tab, newline or carriage return.
pub open spec fn is_space(c: u32) -> bool {
    c == 0x20 || c == 0x09 || c == 0x0a || c == 0x0d
}

/// A character that may appear in a number.
pub open spec fn is_number_char(c: u32) -> bool {
    c == 0x2d || c == 0x2b || c == 0x2e || (0x30 <= c && c <= 0x39) || c == 0x65 || c == 0x45
}

/// The index of the first character from `at` on that is not white space.
pub open spec fn skip_spec(s: Seq<u32>, at: int) -> int
    decreases s.len() - at,
{
    if 0 <= at < s.len() && is_space(s[at]) {
        skip_spec(s, at + 1)
    } else {
        at
    }
}

/// Where a string literal whose body starts at `i` ends: one past its
/// closing quote, a backslash skipping the character after it.
pub open spec fn string_rest(s: Seq<u32>, i: int) -> Option<int>
    decreases s.len() + 2 - i,
{
    if i < 0 || i >= s.len() {
        None
    } else if s[i] == 0x22 {
        Some(i + 1)
    } else if s[i] == 0x5c {
        string_rest(s, i + 2)
    } else {
        string_rest(s, i + 1)
    }
}

/// One past the end of the string literal starting at `at`.
pub open spec fn string_end_spec(s: Seq<u32>, at: int) -> Option<int> {
    if 0 <= at < s.len() && s[at] == 0x22 {
        string_rest(s, at + 1)
    } else {
        None
    }
}

/// The first index from `i` on that does not hold a number character.
pub open spec fn number_rest(s: Seq<u32>, i: int) -> int
    decreases s.len() - i,
{
    if 0 <= i < s.len() && is_number_char(s[i]) {
        number_rest(s, i + 1)
    } else {
        i
    }
}

/// The codes of an ASCII word.
pub open spec fn word_codes(w: Seq<char>) -> Seq<u32> {
    w.map_values(|c: char| c as u32)
}

/// One past the end of `word` when it is spelled out at `at`.
pub open spec fn word_end(s: Seq<u32>, at: int, word: Seq<char>) -> Option<int> {
    if 0 <= at && at + word.len() <= s.len() && s.subrange(at, at + word.len()) == word_codes(word) {
        Some(at + word.len())
    } else {
        None
    }
}

/// Deepest nesting a message may have.
pub const MAX_DEPTH: u32 = 32;

/// One past the end of the JSON value at `at` (after white space), nested
/// `depth` levels deep: `None` for anything malformed or nested deeper than
/// [`MAX_DEPTH`]. Strings end at their closing quote; objects and arrays
/// are items separated by commas or colons up to the matching bracket; the
/// words `true`, `false` and `null`; anything else a run of number
/// characters.
pub open spec fn value_spec(s: Seq<u32>, at: int, depth: int) -> Option<int>
    decreases 33 - depth, s.len() - at, 1int,
{
    if depth > 32 || at < 0 {
        None
    } else {
        let a = skip_spec(s, at);
        proof {
            lemma_skip(s, at);
        }
        if a >= s.len() {
            None
        } else if s[a] == 0x22 {
            string_end_spec(s, a)
        } else if s[a] == 0x7b || s[a] == 0x5b {
            let close: u32 = if s[a] == 0x7b { 0x7d } else { 0x5d };
            items_spec(s, a + 1, close, depth)
        } else if s[a] == 0x74 {
            word_end(s, a, seq!['t', 'r', 'u', 'e'])
        } else if s[a] == 0x66 {
            word_end(s, a, seq!['f', 'a', 'l', 's', 'e'])
        } else if s[a] == 0x6e {
            word_end(s, a, seq!['n', 'u', 'l', 'l'])
        } else {
            let e = number_rest(s, a);
            if e == a {
                None
            } else {
                Some(e)
            }
        }
    }
}

/// The rest of an object or array from `i`: one past its `close` bracket
/// when what follows is items, each followed by a comma, a colon or the
/// bracket.
pub open spec fn items_spec(s: Seq<u32>, i: int, close: u32, depth: int) -> Option<int>
    decreases 33 - depth, s.len() - i, 0int,
{
    if depth > 32 || i < 0 {
        None
    } else {
        let j = skip_spec(s, i);
        proof {
            lemma_skip(s, i);
        }
        if j >= s.len() {
            None
        } else if s[j] == close {
            Some(j + 1)
        } else {
            match value_spec(s, j, depth + 1) {
                None => None,
                Some(e) => {
                    let k = skip_spec(s, e);
                    proof {
                        lemma_skip(s, e);
                    }
                    if e <= j || k >= s.len() {
                        None
                    } else if s[k] == 0x2c || s[k] == 0x3a {
                        items_spec(s, k + 1, close, depth)
                    } else if s[k] == close {
                        Some(k + 1)
                    } else {
                        None
                    }
                },
            }
        }
    }
}

/// Skipping white space moves forward, to a non-space or the end.
pub proof fn lemma_skip(s: Seq<u32>, at: int)
    ensures
        skip_spec(s, at) >= at,
        at >= 0 ==> skip_spec(s, at) >= 0,
        0 <= at <= s.len() ==> skip_spec(s, at) <= s.len(),
        0 <= skip_spec(s, at) < s.len() ==> !is_space(s[skip_spec(s, at)]),
    decreases s.len() - at,
{
    if 0 <= at < s.len() && is_space(s[at]) {
        lemma_skip(s, at + 1);
    }
}

/// A string literal ends past where it starts, within the text.
pub proof fn lemma_string_rest(s: Seq<u32>, i: int)
    ensures
        string_rest(s, i) matches Some(e) ==> i < e <= s.len(),
    decreases s.len() + 2 - i,
{
    if 0 <= i < s.len() && s[i] != 0x22 {
        if s[i] == 0x5c {
            lemma_string_rest(s, i + 2);
        } else {
            lemma_string_rest(s, i + 1);
        }
    }
}

/// A run of number characters stays within the text.
pub proof fn lemma_number_rest(s: Seq<u32>, i: int)
    ensures
        number_rest(s, i) >= i,
        0 <= i <= s.len() ==> number_rest(s, i) <= s.len(),
    decreases s.len() - i,
{
    if 0 <= i < s.len() && is_number_char(s[i]) {
        lemma_number_rest(s, i + 1);
    }
}

/// The codes of a sequence of bytes.
pub open spec fn byte_codes(s: Seq<u8>) -> Seq<u32> {
    s.map_values(|b: u8| b as u32)
}

/// The codes of a sequence of characters.
pub open spec fn char_codes(s: Seq<char>) -> Seq<u32> {
    s.map_values(|c: char| c as u32)
}

/// See [`skip_spec`].
fn skip_space(s: &[u32], at: usize) -> (r: usize)
    requires
        at <= s@.len(),
    ensures
        r == skip_spec(s@, at as int),
        at <= r <= s@.len(),
{
    let mut i = at;
    while i < s.len() && (s[i] == 0x20 || s[i] == 0x09 || s[i] == 0x0a || s[i] == 0x0d)
        invariant
            at <= i <= s@.len(),
            skip_spec(s@, at as int) == skip_spec(s@, i as int),
        decreases s@.len() - i,
    {
        i = i + 1;
    }
    i
}

/// See [`string_end_spec`].
fn string_end(s: &[u32], at: usize) -> (r: Option<usize>)
    ensures
        r is Some <==> string_end_spec(s@, at as int) is Some,
        r matches Some(e) ==> string_end_spec(s@, at as int) == Some(e as int) && at < e <= s@.len(),
{
    if at >= s.len() || s[at] != 0x22 {
        return None;
    }
    let mut i = at + 1;
    while i < s.len()
        invariant
            at < i,
            at < s@.len(),
            string_end_spec(s@, at as int) == string_rest(s@, i as int),
            s@.len() <= usize::MAX,
        decreases s@.len() - i,
    {
        if s[i] == 0x22 {
            return Some(i + 1);
        } else if s[i] == 0x5c {
            if s.len() - i < 2 {
                proof {
                    assert(string_rest(s@, i + 2) == None::<int>);
                }
                return None;
            }
            i = i + 2;
        } else {
            i = i + 1;
        }
    }
    None
}

/// True when `word` is spelled out at `at`; see [`word_end`].
fn word_at(s: &[u32], at: usize, word: &[u32]) -> (r: bool)
    requires
        at <= s@.len(),
    ensures
        r == (at + word@.len() <= s@.len() && s@.subrange(at as int, at + word@.len()) == word@),
{
    let n = s.len();
    let m = word.len();
    if m > n - at {
        return false;
    }
    let mut k: usize = 0;
    while k < word.len()
        invariant
            n == s@.len(),
            at + word@.len() <= s@.len(),
            k <= word@.len(),
            forall|j: int| 0 <= j < k ==> s@[at + j] == word@[j],
        decreases word@.len() - k,
    {
        if s[at + k] != word[k] {
            proof {
                assert(s@.subrange(at as int, at + word@.len())[k as int] != word@[k as int]);
            }
            return false;
        }
        k = k + 1;
    }
    proof {
        assert(s@.subrange(at as int, at + word@.len()) =~= word@);
    }
    true
}

/// See [`value_spec`].
fn scan_value(s: &[u32], at: usize, depth: u32) -> (r: Option<usize>)
    requires
        at <= s@.len(),
        depth <= 33,
    ensures
        r is Some <==> value_spec(s@, at as int, depth as int) is Some,
        r matches Some(e) ==> value_spec(s@, at as int, depth as int) == Some(e as int) && at < e <= s@.len(),
    decreases 33 - depth,
{
    if depth > MAX_DEPTH {
        return None;
    }
    let a = skip_space(s, at);
    if a >= s.len() {
        return None;
    }
    let c = s[a];
    if c == 0x22 {
        let r = string_end(s, a);
        proof {
            lemma_string_rest(s@, a + 1);
        }
        r
    } else if c == 0x7b || c == 0x5b {
        let close: u32 = if c == 0x7b { 0x7d } else { 0x5d };
        let mut i = a + 1;
        loop
            invariant
                a < i <= s@.len(),
                at <= a,
                depth <= 32,
                value_spec(s@, at as int, depth as int) == items_spec(s@, i as int, close, depth as int),
            decreases s@.len() - i,
        {
            i = skip_space(s, i);
            if i >= s.len() {
                return None;
            }
            if s[i] == close {
                return Some(i + 1);
            }
            let e = match scan_value(s, i, depth + 1) {
                Some(e) => e,
                None => {
                    return None;
                },
            };
            let k = skip_space(s, e);
            proof {
                lemma_skip(s@, e as int);
            }
            if k >= s.len() {
                return None;
            }
            if s[k] == 0x2c || s[k] == 0x3a {
                i = k + 1;
            } else if s[k] == close {
                return Some(k + 1);
            } else {
                return None;
            }
        }
    } else if c == 0x74 {
        let w: [u32; 4] = [0x74, 0x72, 0x75, 0x65];
        proof {
            assert(word_codes(seq!['t', 'r', 'u', 'e']) =~= w@);
        }
        if word_at(s, a, &w) { Some(a + 4) } else { None }
    } else if c == 0x66 {
        let w: [u32; 5] = [0x66, 0x61, 0x6c, 0x73, 0x65];
        proof {
            assert(word_codes(seq!['f', 'a', 'l', 's', 'e']) =~= w@);
        }
        if word_at(s, a, &w) { Some(a + 5) } else { None }
    } else if c == 0x6e {
        let w: [u32; 4] = [0x6e, 0x75, 0x6c, 0x6c];
        proof {
            assert(word_codes(seq!['n', 'u', 'l', 'l']) =~= w@);
        }
        if word_at(s, a, &w) { Some(a + 4) } else { None }
    } else {
        let mut i = a;
        while i < s.len() && (s[i] == 0x2d || s[i] == 0x2b || s[i] == 0x2e || (0x30 <= s[i] && s[i] <= 0x39)
            || s[i] == 0x65 || s[i] == 0x45)
            invariant
                a <= i <= s@.len(),
                number_rest(s@, a as int) == number_rest(s@, i as int),
            decreases s@.len() - i,
        {
            i = i + 1;
        }
        if i == a { None } else { Some(i) }
    }
}

/// The codes of a byte string.
fn codes_of_bytes(s: &[u8]) -> (r: Vec<u32>)
    ensures
        r@ == byte_codes(s@),
{
    let mut out: Vec<u32> = Vec::new();
    let mut i: usize = 0;
    while i < s.len()
        invariant
            i <= s@.len(),
            out@ =~= byte_codes(s@.take(i as int)),
        decreases s@.len() - i,
    {
        out.push(s[i] as u32);
        proof {
            assert(byte_codes(s@.take(i + 1)) =~= byte_codes(s@.take(i as int)).push(s@[i as int] as u32));
        }
        i = i + 1;
    }
    proof {
        assert(s@.take(s@.len() as int) =~= s@);
    }
    out
}

/// The codes of a run of characters.
fn codes_of_chars(s: &Vec<char>) -> (r: Vec<u32>)
    ensures
        r@ == char_codes(s@),
{
    let mut out: Vec<u32> = Vec::new();
    let mut i: usize = 0;
    while i < s.len()
        invariant
            i <= s@.len(),
            out@ =~= char_codes(s@.take(i as int)),
        decreases s@.len() - i,
    {
        out.push(s[i] as u32);
        proof {
            assert(char_codes(s@.take(i + 1)) =~= char_codes(s@.take(i as int)).push(s@[i as int] as u32));
        }
        i = i + 1;
    }
    proof {
        assert(s@.take(s@.len() as int) =~= s@);
    }
    out
}

/// Index one past the end of the JSON value starting at `at` (white space
/// first is skipped); see [`value_spec`].
///
/// Returns `None` for anything malformed, or nested deeper than a signalling
/// message has any business being.
pub fn value_end(s: &[u8], at: usize) -> (r: Option<usize>)
    ensures
        r is Some <==> value_spec(byte_codes(s@), at as int, 0) is Some,
        r matches Some(e) ==> value_spec(byte_codes(s@), at as int, 0) == Some(e as int) && at < e <= s@.len(),
{
    if at > s.len() {
        proof {
            assert(skip_spec(byte_codes(s@), at as int) == at);
        }
        return None;
    }
    let codes = codes_of_bytes(s);
    scan_value(codes.as_slice(), at, 0)
}

/// Where the member named `name` of an object lies: scanning members from
/// `i`, each a string key, a colon and a value, separated by commas, the
/// first whose key unquotes to `name` gives the value's start and end.
pub open spec fn member_rest(s: Seq<char>, i: int, name: Seq<char>) -> Option<(int, int)>
    decreases s.len() + 1 - i,
{
    let c = char_codes(s);
    let j = skip_spec(c, i);
    if i < 0 || j < i || j >= s.len() {
        None
    } else if c[j] == 0x7d {
        None
    } else if c[j] == 0x2c {
        member_rest(s, j + 1, name)
    } else if c[j] != 0x22 {
        None
    } else {
        match string_end_spec(c, j) {
            None => None,
            Some(key_end) => match unquote_spec(s.subrange(j, key_end)) {
                None => None,
                Some(key) => {
                    let k = skip_spec(c, key_end);
                    if k >= s.len() || c[k] != 0x3a {
                        None
                    } else {
                        let start = skip_spec(c, k + 1);
                        match value_spec(c, start, 0) {
                            None => None,
                            Some(end) => if key == name {
                                Some((start, end))
                            } else if end <= i || end > s.len() {
                                None
                            } else {
                                member_rest(s, end, name)
                            },
                        }
                    }
                },
            },
        }
    }
}

/// Where the member named `name` of the object `s` lies, if it has one.
pub open spec fn member_spec(s: Seq<char>, name: Seq<char>) -> Option<(int, int)> {
    let c = char_codes(s);
    let i = skip_spec(c, 0);
    if i >= s.len() || c[i] != 0x7b {
        None
    } else {
        member_rest(s, i + 1, name)
    }
}

/// The raw text of one member of a JSON object, exactly as it was written;
/// see [`member_spec`].
pub fn member<'a>(object: &'a str, name: &str) -> (r: Option<&'a str>)
    ensures
        match member_spec(object@, name@) {
            Some((start, end)) => r matches Some(t) && t@ == object@.subrange(start, end),
            None => r is None,
        },
{
    let chars = chars_of(object);
    let c = codes_of_chars(&chars);
    let s = c.as_slice();
    let want = chars_of(name);
    let mut i = skip_space(s, 0);
    if i >= s.len() || s[i] != 0x7b {
        return None;
    }
    i = i + 1;
    loop
        invariant
            chars@ == object@,
            s@ == char_codes(object@),
            want@ == name@,
            0 < i <= s@.len(),
            member_spec(object@, name@) == member_rest(object@, i as int, name@),
        decreases s@.len() + 1 - i,
    {
        let j = skip_space(s, i);
        if j >= s.len() || s[j] == 0x7d {
            return None;
        }
        if s[j] == 0x2c {
            i = j + 1;
            continue;
        }
        if s[j] != 0x22 {
            return None;
        }
        let key_end = match string_end(s, j) {
            Some(e) => e,
            None => {
                return None;
            },
        };
        let key = match unquote_chars(&chars, j, key_end) {
            Some(k) => k,
            None => {
                return None;
            },
        };
        let k = skip_space(s, key_end);
        if k >= s.len() || s[k] != 0x3a {
            return None;
        }
        let start = skip_space(s, k + 1);
        let end = match scan_value(s, start, 0) {
            Some(e) => e,
            None => {
                return None;
            },
        };
        if same_chars(&key, &want) {
            return Some(object.substring_char(start, end));
        }
        i = end;
    }
}

/// True when two runs of characters are the same.
fn same_chars(a: &Vec<char>, b: &Vec<char>) -> (r: bool)
    ensures
        r == (a@ == b@),
{
    if a.len() != b.len() {
        return false;
    }
    let mut k: usize = 0;
    while k < a.len()
        invariant
            a@.len() == b@.len(),
            k <= a@.len(),
            forall|j: int| 0 <= j < k ==> a@[j] == b@[j],
        decreases a@.len() - k,
    {
        if a[k] != b[k] {
            return false;
        }
        k = k + 1;
    }
    proof {
        assert(a@ =~= b@);
    }
    true
}

/// The value of a hexadecimal digit.
pub open spec fn hex_value(c: char) -> Option<u32> {
    if '0' <= c && c <= '9' {
        Some((c as u32 - 0x30) as u32)
    } else if 'a' <= c && c <= 'f' {
        Some((c as u32 - 0x61 + 10) as u32)
    } else if 'A' <= c && c <= 'F' {
        Some((c as u32 - 0x41 + 10) as u32)
    } else {
        None
    }
}

/// The number that hexadecimal digits spell, most significant first.
pub open spec fn hex_number(ds: Seq<char>) -> Option<u32>
    decreases ds.len(),
{
    if ds.len() == 0 {
        Some(0)
    } else {
        match (hex_number(ds.drop_last()), hex_value(ds.last())) {
            (Some(hi), Some(lo)) => Some((hi * 16 + lo) as u32),
            _ => None,
        }
    }
}

/// Four characters read as a hexadecimal number the way std's
/// `u32::from_str_radix` reads them: digits only, or a plus sign and digits.
pub open spec fn hex4(ds: Seq<char>) -> Option<u32> {
    if ds.len() == 4 && ds[0] == '+' {
        hex_number(ds.subrange(1, 4))
    } else {
        hex_number(ds)
    }
}

/// The character a `\u` escape stands for: the code point, or the
/// replacement character for a lone surrogate.
pub open spec fn code_char(code: u32) -> char {
    if code < 0xD800 || (0xE000 <= code && code <= 0x10FFFF) {
        code as char
    } else {
        '\u{fffd}'
    }
}

/// The character a one-letter escape stands for.
pub open spec fn simple_escape(e: char) -> Option<char> {
    if e == '"' {
        Some('"')
    } else if e == '\\' {
        Some('\\')
    } else if e == '/' {
        Some('/')
    } else if e == 'b' {
        Some('\u{8}')
    } else if e == 'f' {
        Some('\u{c}')
    } else if e == 'n' {
        Some('\n')
    } else if e == 'r' {
        Some('\r')
    } else if e == 't' {
        Some('\t')
    } else {
        None
    }
}

/// The text a string body stands for from `i` on, after `acc`: characters
/// copied, backslash escapes resolved; `None` for an unknown escape or a
/// short or bad `\u`.
pub open spec fn unescape_from(body: Seq<char>, i: int, acc: Seq<char>) -> Option<Seq<char>>
    decreases body.len() - i,
{
    if i < 0 || i >= body.len() {
        Some(acc)
    } else if body[i] != '\\' {
        unescape_from(body, i + 1, acc.push(body[i]))
    } else if i + 1 >= body.len() {
        None
    } else if body[i + 1] == 'u' {
        if i + 6 > body.len() {
            None
        } else {
            match hex4(body.subrange(i + 2, i + 6)) {
                None => None,
                Some(code) => unescape_from(body, i + 6, acc.push(code_char(code))),
            }
        }
    } else {
        match simple_escape(body[i + 1]) {
            None => None,
            Some(c) => unescape_from(body, i + 2, acc.push(c)),
        }
    }
}

/// The text a JSON string literal stands for: `None` unless it is quoted at
/// both ends and its escapes are good.
pub open spec fn unquote_spec(lit: Seq<char>) -> Option<Seq<char>> {
    if lit.len() < 2 || lit[0] != '"' || lit.last() != '"' {
        None
    } else {
        unescape_from(lit.subrange(1, lit.len() - 1), 0, Seq::empty())
    }
}

/// See [`hex4`].
fn read_hex4(cs: &Vec<char>, at: usize) -> (r: Option<u32>)
    requires
        at + 4 <= cs@.len(),
    ensures
        r == hex4(cs@.subrange(at as int, at + 4)),
{
    let n = cs.len();
    let ghost ds = cs@.subrange(at as int, at + 4);
    let mut k: usize = at;
    if cs[at] == '+' {
        k = at + 1;
    }
    let ghost digits = cs@.subrange(k as int, at + 4);
    proof {
        if cs[at as int] == '+' {
            assert(ds.subrange(1, 4) =~= digits);
        } else {
            assert(ds =~= digits);
        }
    }
    let mut v: u32 = 0;
    let mut j: usize = k;
    while j < at + 4
        invariant
            at <= k <= j <= at + 4,
            n == cs@.len(),
            at + 4 <= cs@.len(),
            hex4(cs@.subrange(at as int, at + 4)) == hex_number(digits),
            digits == cs@.subrange(k as int, at + 4),
            hex_number(cs@.subrange(k as int, j as int)) == Some(v),
            v < 0x1_0000 && (j - k < 4 ==> v < 0x1000) && (j - k < 3 ==> v < 0x100) && (j - k < 2 ==> v < 0x10)
                && (j - k < 1 ==> v == 0),
        decreases at + 4 - j,
    {
        let c = cs[j];
        let d: u32 = if '0' <= c && c <= '9' {
            c as u32 - 0x30
        } else if 'a' <= c && c <= 'f' {
            c as u32 - 0x61 + 10
        } else if 'A' <= c && c <= 'F' {
            c as u32 - 0x41 + 10
        } else {
            proof {
                assert(cs@.subrange(k as int, j + 1) =~= digits.subrange(0, j + 1 - k));
                lemma_hex_bad(cs@.subrange(k as int, j + 1), digits);
            }
            return None;
        };
        proof {
            assert(cs@.subrange(k as int, j + 1).drop_last() =~= cs@.subrange(k as int, j as int));
        }
        v = v * 16 + d;
        j = j + 1;
    }
    proof {
        assert(cs@.subrange(k as int, j as int) =~= digits);
    }
    Some(v)
}

/// A bad digit anywhere spoils a hexadecimal number, prefix first.
pub proof fn lemma_hex_bad(pre: Seq<char>, all: Seq<char>)
    requires
        pre.len() >= 1,
        pre.len() <= all.len(),
        pre == all.subrange(0, pre.len() as int),
        hex_value(pre.last()) is None,
    ensures
        hex_number(all) is None,
    decreases all.len(),
{
    if all.len() > pre.len() {
        assert(all.drop_last().subrange(0, pre.len() as int) =~= pre);
        lemma_hex_bad(pre, all.drop_last());
    } else {
        assert(pre =~= all);
    }
}

/// The text the literal `cs[from..to]` stands for; see [`unquote_spec`].
fn unquote_chars(cs: &Vec<char>, from: usize, to: usize) -> (r: Option<Vec<char>>)
    requires
        from <= to <= cs@.len(),
    ensures
        match unquote_spec(cs@.subrange(from as int, to as int)) {
            Some(t) => r matches Some(v) && v@ == t,
            None => r is None,
        },
{
    let n = cs.len();
    let ghost lit = cs@.subrange(from as int, to as int);
    if to - from < 2 || cs[from] != '"' || cs[to - 1] != '"' {
        return None;
    }
    let lo = from + 1;
    let hi = to - 1;
    let ghost body = lit.subrange(1, lit.len() - 1);
    proof {
        assert(body =~= cs@.subrange(lo as int, hi as int));
    }
    let mut out: Vec<char> = Vec::new();
    let mut i = lo;
    while i < hi
        invariant
            lo <= i <= hi,
            hi < cs@.len(),
            body == cs@.subrange(lo as int, hi as int),
            unquote_spec(lit) == unescape_from(body, i - lo, out@),
            lit == cs@.subrange(from as int, to as int),
            lit.len() >= 2 && lit[0] == '"' && lit.last() == '"',
            lo == from + 1 && hi == to - 1,
        decreases hi - i,
    {
        let c = cs[i];
        if c != '\\' {
            out.push(c);
            i = i + 1;
        } else {
            if i + 1 >= hi {
                return None;
            }
            let e = cs[i + 1];
            if e == 'u' {
                if hi - i < 6 {
                    return None;
                }
                let code = match read_hex4(cs, i + 2) {
                    Some(v) => v,
                    None => {
                        proof {
                            assert(body.subrange(i - lo + 2, i - lo + 6) =~= cs@.subrange(i + 2, i + 6));
                        }
                        return None;
                    },
                };
                proof {
                    assert(body.subrange(i - lo + 2, i - lo + 6) =~= cs@.subrange(i + 2, i + 6));
                }
                let ch = match char_from_code(code) {
                    Some(ch) => ch,
                    None => '\u{fffd}',
                };
                out.push(ch);
                i = i + 6;
            } else {
                let ch = if e == '"' {
                    '"'
                } else if e == '\\' {
                    '\\'
                } else if e == '/' {
                    '/'
                } else if e == 'b' {
                    '\u{8}'
                } else if e == 'f' {
                    '\u{c}'
                } else if e == 'n' {
                    '\n'
                } else if e == 'r' {
                    '\r'
                } else if e == 't' {
                    '\t'
                } else {
                    return None;
                };
                out.push(ch);
                i = i + 2;
            }
        }
    }
    Some(out)
}

/// Turns a JSON string literal into the text it stands for; see
/// [`unquote_spec`].
pub fn unquote(literal: &str) -> (r: Option<String>)
    ensures
        match unquote_spec(literal@) {
            Some(t) => r matches Some(s) && s@ == t,
            None => r is None,
        },
{
    let cs = chars_of(literal);
    proof {
        assert(cs@.subrange(0, cs@.len() as int) =~= cs@);
    }
    match unquote_chars(&cs, 0, cs.len()) {
        Some(v) => Some(string_of(&v)),
        None => None,
    }
}

/// A string holding these characters.
fn string_of(v: &Vec<char>) -> (r: String)
    ensures
        r@ == v@,
{
    let mut out = String::new();
    let mut i: usize = 0;
    while i < v.len()
        invariant
            i <= v@.len(),
            out@ =~= v@.take(i as int),
        decreases v@.len() - i,
    {
        push_char(&mut out, v[i]);
        proof {
            assert(v@.take(i + 1) =~= v@.take(i as int).push(v@[i as int]));
        }
        i = i + 1;
    }
    proof {
        assert(v@.take(v@.len() as int) =~= v@);
    }
    out
}

/// The lowercase hexadecimal digit for a value below sixteen.
pub open spec fn hex_digit(v: int) -> char {
    if v < 10 {
        (0x30 + v) as char
    } else {
        (0x61 + v - 10) as char
    }
}

/// How one character is written inside a JSON string literal.
pub open spec fn escaped(c: char) -> Seq<char> {
    if c == '"' {
        seq!['\\', '"']
    } else if c == '\\' {
        seq!['\\', '\\']
    } else if c == '\n' {
        seq!['\\', 'n']
    } else if c == '\r' {
        seq!['\\', 'r']
    } else if c == '\t' {
        seq!['\\', 't']
    } else if (c as u32) < 0x20 {
        seq!['\\', 'u', '0', '0', hex_digit((c as u32) as int / 16), hex_digit((c as u32) as int % 16)]
    } else {
        seq![c]
    }
}

/// The escaped form of the first `n` characters of a text.
pub open spec fn escaped_upto(text: Seq<char>, n: int) -> Seq<char>
    decreases n,
{
    if n <= 0 {
        Seq::empty()
    } else {
        escaped_upto(text, n - 1) + escaped(text[n - 1])
    }
}

/// A text as a JSON string literal.
pub open spec fn quote_spec(text: Seq<char>) -> Seq<char> {
    seq!['"'] + escaped_upto(text, text.len() as int) + seq!['"']
}

/// The digit character for a value below sixteen; see [`hex_digit`].
fn hex_char(v: u32) -> (c: char)
    requires
        v < 16,
    ensures
        c == hex_digit(v as int),
{
    if v < 10 {
        (0x30 + v as u8) as char
    } else {
        (0x61 + (v as u8) - 10) as char
    }
}

/// Writes `text` as a JSON string literal; see [`quote_spec`].
pub fn quote(text: &str) -> (r: String)
    ensures
        r@ == quote_spec(text@),
{
    let cs = chars_of(text);
    let mut out = String::new();
    push_char(&mut out, '"');
    let mut i: usize = 0;
    while i < cs.len()
        invariant
            cs@ == text@,
            i <= cs@.len(),
            out@ =~= seq!['"'] + escaped_upto(text@, i as int),
        decreases cs@.len() - i,
    {
        let c = cs[i];
        let ghost before = out@;
        if c == '"' {
            push_char(&mut out, '\\');
            push_char(&mut out, '"');
        } else if c == '\\' {
            push_char(&mut out, '\\');
            push_char(&mut out, '\\');
        } else if c == '\n' {
            push_char(&mut out, '\\');
            push_char(&mut out, 'n');
        } else if c == '\r' {
            push_char(&mut out, '\\');
            push_char(&mut out, 'r');
        } else if c == '\t' {
            push_char(&mut out, '\\');
            push_char(&mut out, 't');
        } else if (c as u32) < 0x20 {
            push_char(&mut out, '\\');
            push_char(&mut out, 'u');
            push_char(&mut out, '0');
            push_char(&mut out, '0');
            push_char(&mut out, hex_char((c as u32) / 16));
            push_char(&mut out, hex_char((c as u32) % 16));
        } else {
            push_char(&mut out, c);
        }
        proof {
            assert(out@ =~= before + escaped(c));
        }
        i = i + 1;
    }
    push_char(&mut out, '"');
    out
}

/// The text of a string member, unescaped.
pub fn string_member(object: &str, name: &str) -> (r: Option<String>)
    ensures
        match member_spec(object@, name@) {
            Some((start, end)) => match unquote_spec(object@.subrange(start, end)) {
                Some(t) => r matches Some(s) && s@ == t,
                None => r is None,
            },
            None => r is None,
        },
{
    match member(object, name) {
        Some(m) => unquote(m),
        None => None,
    }
}

} // verus!
