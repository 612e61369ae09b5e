//! Reading a profile's text: its lines, the words of a line, and numbers.
use vstd::prelude::*;
use crate::server::ws::{is_white, trim_hi, trim_lo, trim_spec, white};
use crate::text::{char_from_code, chars_of, push_char};

verus! {

broadcast use vstd::string::group_string_axioms;

// ---- lines ----

/// A line ended by a newline drops the carriage return before it.
pub open spec fn line_text(t: Seq<char>, start: int, end: int) -> Seq<char> {
    if start < end && end < t.len() && t[end - 1] == '\r' {
        t.subrange(start, end - 1)
    } else {
        t.subrange(start, end)
    }
}

/// The lines of `t` from position `i` on, the current one having begun at
/// `start`, as `str::lines` gives them: split at each newline, a carriage
/// return before it dropped, and no empty line after a final newline.
pub open spec fn lines_rec(t: Seq<char>, i: int, start: int) -> Seq<Seq<char>>
    decreases t.len() - i,
{
    if i >= t.len() {
        if start < t.len() { seq![line_text(t, start, t.len() as int)] } else { seq![] }
    } else if t[i] == '\n' {
        seq![line_text(t, start, i)] + lines_rec(t, i + 1, i + 1)
    } else {
        lines_rec(t, i + 1, start)
    }
}

/// The lines of a text.
pub open spec fn lines_of(t: Seq<char>) -> Seq<Seq<char>> {
    lines_rec(t, 0, 0)
}

/// Whether a vector of character vectors holds the given texts.
pub open spec fn holds(v: Seq<Vec<char>>, s: Seq<Seq<char>>) -> bool {
    v.len() == s.len() && forall|k: int| 0 <= k < v.len() ==> (#[trigger] v[k])@ == s[k]
}

pub fn copy_range(t: &Vec<char>, start: usize, end: usize) -> (r: Vec<char>)
    requires
        start <= end <= t@.len(),
    ensures
        r@ == t@.subrange(start as int, end as int),
{
    let mut r: Vec<char> = Vec::new();
    let mut k = start;
    while k < end
        invariant
            start <= k <= end <= t@.len(),
            r@ == t@.subrange(start as int, k as int),
        decreases end - k,
    {
        r.push(t[k]);
        proof {
            assert(t@.subrange(start as int, k + 1) =~= t@.subrange(start as int, k as int).push(t@[k as int]));
        }
        k = k + 1;
    }
    r
}

fn line_of(t: &Vec<char>, start: usize, end: usize) -> (r: Vec<char>)
    requires
        start <= end <= t@.len(),
    ensures
        r@ == line_text(t@, start as int, end as int),
{
    if start < end && end < t.len() && t[end - 1] == '\r' {
        copy_range(t, start, end - 1)
    } else {
        copy_range(t, start, end)
    }
}

/// Splits a text into lines; see [`lines_of`].
pub fn split_lines(t: &Vec<char>) -> (r: Vec<Vec<char>>)
    ensures
        holds(r@, lines_of(t@)),
{
    let n = t.len();
    let mut out: Vec<Vec<char>> = Vec::new();
    let mut start: usize = 0;
    let mut i: usize = 0;
    while i < n
        invariant
            n == t@.len(),
            start <= i <= n,
            forall|k: int| 0 <= k < out@.len() ==> #[trigger] out@[k]@ == (out@.map_values(|v: Vec<char>| v@))[k],
            out@.map_values(|v: Vec<char>| v@) + lines_rec(t@, i as int, start as int) == lines_of(t@),
        decreases n - i,
    {
        if t[i] == '\n' {
            let l = line_of(t, start, i);
            let ghost before = out@.map_values(|v: Vec<char>| v@);
            out.push(l);
            proof {
                assert(out@.map_values(|v: Vec<char>| v@) =~= before.push(line_text(t@, start as int, i as int)));
                assert(before + lines_rec(t@, i as int, start as int) =~= before.push(line_text(t@, start as int, i as int))
                    + lines_rec(t@, i + 1, i + 1));
            }
            start = i + 1;
        }
        i = i + 1;
    }
    if start < n {
        let l = line_of(t, start, n);
        let ghost before = out@.map_values(|v: Vec<char>| v@);
        out.push(l);
        proof {
            assert(out@.map_values(|v: Vec<char>| v@) =~= before.push(line_text(t@, start as int, n as int)));
            assert(before + lines_rec(t@, n as int, start as int) =~= out@.map_values(|v: Vec<char>| v@));
        }
    } else {
        proof {
            assert(out@.map_values(|v: Vec<char>| v@) + lines_rec(t@, n as int, start as int) =~= out@.map_values(|v: Vec<char>| v@));
        }
    }
    out
}

// ---- words ----

/// The text before the first `#`, which starts a comment.
pub open spec fn hash_at(l: Seq<char>, i: int) -> int
    decreases l.len() - i,
{
    if i >= l.len() {
        l.len() as int
    } else if l[i] == '#' {
        i
    } else {
        hash_at(l, i + 1)
    }
}

/// A line without its comment.
pub open spec fn uncommented(l: Seq<char>) -> Seq<char> {
    l.subrange(0, hash_at(l, 0))
}

/// The words of `l` from position `i` on, as `str::split_whitespace` gives
/// them: the runs of characters that are not white space. `in_word` says a
/// word began at `start`.
pub open spec fn words_rec(l: Seq<char>, i: int, in_word: bool, start: int) -> Seq<Seq<char>>
    decreases l.len() - i,
{
    if i >= l.len() {
        if in_word { seq![l.subrange(start, l.len() as int)] } else { seq![] }
    } else if is_white(l[i]) {
        if in_word {
            seq![l.subrange(start, i)] + words_rec(l, i + 1, false, 0)
        } else {
            words_rec(l, i + 1, false, 0)
        }
    } else if in_word {
        words_rec(l, i + 1, true, start)
    } else {
        words_rec(l, i + 1, true, i)
    }
}

/// The words of a line, its comment left out.
pub open spec fn words_of(l: Seq<char>) -> Seq<Seq<char>> {
    words_rec(uncommented(l), 0, false, 0)
}

/// Splits a line into words, leaving out its comment; see [`words_of`].
pub fn split_words(l: &Vec<char>) -> (r: Vec<Vec<char>>)
    ensures
        holds(r@, words_of(l@)),
{
    let ghost u = uncommented(l@);
    let mut end: usize = 0;
    while end < l.len() && l[end] != '#'
        invariant
            end <= l@.len(),
            hash_at(l@, 0) == hash_at(l@, end as int),
        decreases l@.len() - end,
    {
        end = end + 1;
    }
    let line = copy_range(l, 0, end);
    proof {
        assert(line@ =~= u);
    }
    let n = end;
    let mut out: Vec<Vec<char>> = Vec::new();
    let mut in_word = false;
    let mut start: usize = 0;
    let mut i: usize = 0;
    while i < n
        invariant
            n == line@.len(),
            line@ == u,
            i <= n,
            start <= i,
            forall|k: int| 0 <= k < out@.len() ==> #[trigger] out@[k]@ == (out@.map_values(|v: Vec<char>| v@))[k],
            out@.map_values(|v: Vec<char>| v@) + words_rec(u, i as int, in_word, start as int) == words_rec(u, 0, false, 0),
        decreases n - i,
    {
        let c = line[i];
        if white(c) {
            if in_word {
                let w = copy_range(&line, start, i);
                let ghost before = out@.map_values(|v: Vec<char>| v@);
                out.push(w);
                proof {
                    assert(out@.map_values(|v: Vec<char>| v@) =~= before.push(u.subrange(start as int, i as int)));
                    assert(before + words_rec(u, i as int, true, start as int) =~= before.push(u.subrange(start as int, i as int))
                        + words_rec(u, i + 1, false, 0));
                }
            }
            in_word = false;
            start = 0;
            proof {
                assert(start <= i + 1);
            }
        } else if !in_word {
            in_word = true;
            start = i;
        }
        i = i + 1;
    }
    if in_word {
        let w = copy_range(&line, start, n);
        let ghost before = out@.map_values(|v: Vec<char>| v@);
        out.push(w);
        proof {
            assert(out@.map_values(|v: Vec<char>| v@) =~= before.push(u.subrange(start as int, n as int)));
            assert(before + words_rec(u, n as int, true, start as int) =~= out@.map_values(|v: Vec<char>| v@));
        }
    } else {
        proof {
            assert(out@.map_values(|v: Vec<char>| v@) + words_rec(u, n as int, false, start as int) =~= out@.map_values(|v: Vec<char>| v@));
        }
    }
    out
}

// ---- numbers ----

/// The value of a digit in any radix up to 36; 99 for anything else.
pub open spec fn digit_val(c: char) -> int {
    if '0' <= c && c <= '9' {
        c as int - 0x30
    } else if 'a' <= c && c <= 'z' {
        c as int - 0x57
    } else if 'A' <= c && c <= 'Z' {
        c as int - 0x37
    } else {
        99
    }
}

/// True when every character is a digit of the radix.
pub open spec fn digits_ok(ds: Seq<char>, radix: int) -> bool {
    forall|i: int| 0 <= i < ds.len() ==> #[trigger] digit_val(ds[i]) < radix
}

/// The number some digits spell in a radix.
pub open spec fn digits_value(ds: Seq<char>, radix: int) -> int
    decreases ds.len(),
{
    if ds.len() == 0 {
        0
    } else {
        digits_value(ds.drop_last(), radix) * radix + digit_val(ds.last())
    }
}

/// An integer as std's `from_str_radix` reads it for a type holding
/// `lo..=hi`: an optional `+`, or `-` when the type is signed, then one or
/// more digits of the radix, the value in range.
pub open spec fn int_spec(cs: Seq<char>, radix: int, lo: int, hi: int) -> Option<int> {
    if cs.len() == 0 {
        None
    } else {
        let neg = cs[0] == '-' && lo < 0;
        let ds = if cs[0] == '+' || neg { cs.drop_first() } else { cs };
        let v = if neg { -digits_value(ds, radix) } else { digits_value(ds, radix) };
        if ds.len() > 0 && digits_ok(ds, radix) && lo <= v && v <= hi { Some(v) } else { None }
    }
}

proof fn lemma_digits_grow(ds: Seq<char>, radix: int, n: int)
    requires
        1 <= radix <= 36,
        digits_ok(ds, radix),
        0 <= n <= ds.len(),
    ensures
        0 <= digits_value(ds.take(n), radix) <= digits_value(ds, radix),
    decreases ds.len(),
{
    if ds.len() == 0 {
        assert(ds.take(n) =~= ds);
    } else if n < ds.len() {
        assert(ds.drop_last().take(n) =~= ds.take(n));
        assert forall|i: int| 0 <= i < ds.drop_last().len() implies #[trigger] digit_val(ds.drop_last()[i]) < radix by {
            assert(ds.drop_last()[i] == ds[i]);
        }
        lemma_digits_grow(ds.drop_last(), radix, n);
        lemma_digits_grow(ds.drop_last(), radix, ds.len() - 1);
        assert(ds.drop_last().take(ds.len() - 1) =~= ds.drop_last());
        let p = digits_value(ds.drop_last(), radix);
        assert(p * radix >= p) by (nonlinear_arith)
            requires
                p >= 0,
                radix >= 1,
        ;
        assert(digit_val(ds.last()) >= 0);
    } else {
        assert(ds.take(n) =~= ds);
        assert(ds.drop_last().take(ds.len() - 1) =~= ds.drop_last());
        assert forall|i: int| 0 <= i < ds.drop_last().len() implies #[trigger] digit_val(ds.drop_last()[i]) < radix by {
            assert(ds.drop_last()[i] == ds[i]);
        }
        lemma_digits_grow(ds.drop_last(), radix, ds.len() - 1);
        let p = digits_value(ds.drop_last(), radix);
        assert(p * radix >= 0) by (nonlinear_arith)
            requires
                p >= 0,
                radix >= 1,
        ;
        assert(digit_val(ds.last()) >= 0);
    }
}

fn digit_of(c: char) -> (r: u32)
    ensures
        r == digit_val(c),
{
    if '0' <= c && c <= '9' {
        c as u32 - 0x30
    } else if 'a' <= c && c <= 'z' {
        c as u32 - 0x57
    } else if 'A' <= c && c <= 'Z' {
        c as u32 - 0x37
    } else {
        99
    }
}

/// Reads `cs[from..to]` as an integer in `lo..=hi`; see [`int_spec`].
pub fn int_of(cs: &Vec<char>, from: usize, to: usize, radix: u32, lo: i64, hi: i64) -> (r: Option<i64>)
    requires
        from <= to <= cs@.len(),
        2 <= radix <= 36,
        lo <= 0 <= hi,
    ensures
        match int_spec(cs@.subrange(from as int, to as int), radix as int, lo as int, hi as int) {
            Some(v) => r == Some(v as i64),
            None => r is None,
        },
{
    let ghost s = cs@.subrange(from as int, to as int);
    if from >= to {
        return None;
    }
    let neg = cs[from] == '-' && lo < 0;
    let first: usize = if cs[from] == '+' || neg { from + 1 } else { from };
    let ghost ds = if s[0] == '+' || neg { s.drop_first() } else { s };
    proof {
        assert(s[0] == cs@[from as int]);
        assert(ds =~= cs@.subrange(first as int, to as int));
    }
    if first >= to {
        return None;
    }
    let limit: i128 = if neg { 0 - (lo as i128) } else { hi as i128 };
    let mut v: i128 = 0;
    let mut i: usize = first;
    while i < to
        invariant
            from <= first <= i <= to <= cs@.len(),
            ds == cs@.subrange(first as int, to as int),
            2 <= radix <= 36,
            0 <= limit <= 0x8000_0000_0000_0000,
            digits_ok(ds.take(i - first), radix as int),
            s == cs@.subrange(from as int, to as int),
            s.len() > 0,
            s[0] == cs@[from as int],
            neg == (s[0] == '-' && lo < 0),
            ds == (if s[0] == '+' || neg { s.drop_first() } else { s }),
            limit == (if neg { -(lo as int) } else { hi as int }),
            v == digits_value(ds.take(i - first), radix as int),
            0 <= v <= limit,
        decreases to - i,
    {
        let d = digit_of(cs[i]);
        proof {
            assert(ds.take(i - first + 1).drop_last() =~= ds.take(i - first));
            assert(ds[i - first] == cs@[i as int]);
        }
        if d >= radix {
            proof {
                assert(!digits_ok(ds, radix as int)) by {
                    assert(digit_val(ds[i - first]) >= radix);
                }
            }
            return None;
        }
        proof {
            assert forall|j: int| 0 <= j < ds.take(i - first + 1).len() implies #[trigger] digit_val(ds.take(i - first + 1)[j]) < radix by {
                if j < i - first {
                    assert(ds.take(i - first)[j] == ds.take(i - first + 1)[j]);
                }
            }
        }
        proof {
            assert(v * (radix as int) <= 0x8000_0000_0000_0000 * 36) by (nonlinear_arith)
                requires
                    0 <= v <= 0x8000_0000_0000_0000,
                    2 <= radix <= 36,
            ;
        }
        let next = v * (radix as i128) + (d as i128);
        if next > limit {
            proof {
                if digits_ok(ds, radix as int) {
                    lemma_digits_grow(ds, radix as int, i - first + 1);
                }
            }
            return None;
        }
        v = next;
        i = i + 1;
    }
    proof {
        assert(ds.take(to - first) =~= ds);
    }
    if neg {
        Some((0 - v) as i64)
    } else {
        Some(v as i64)
    }
}


// ---- case ----

/// A character with ASCII capitals made small.
pub open spec fn lower_char(c: char) -> char {
    if 'A' <= c && c <= 'Z' { ((c as u32) + 32) as char } else { c }
}

/// A character with small ASCII letters made capital.
pub open spec fn upper_char(c: char) -> char {
    if 'a' <= c && c <= 'z' { ((c as u32) - 32) as char } else { c }
}

/// A text in ASCII lower case, as `to_ascii_lowercase`.
pub open spec fn lower(s: Seq<char>) -> Seq<char> {
    s.map_values(|c: char| lower_char(c))
}

/// A text in ASCII upper case, as `to_ascii_uppercase`.
pub open spec fn upper(s: Seq<char>) -> Seq<char> {
    s.map_values(|c: char| upper_char(c))
}

/// See [`lower`].
pub fn to_lower(w: &Vec<char>) -> (r: Vec<char>)
    ensures
        r@ == lower(w@),
{
    let mut r: Vec<char> = Vec::new();
    let mut i: usize = 0;
    while i < w.len()
        invariant
            i <= w@.len(),
            r@ == lower(w@.take(i as int)),
        decreases w@.len() - i,
    {
        let c = w[i];
        let d = if 'A' <= c && c <= 'Z' {
            match char_from_code(c as u32 + 32) {
                Some(d) => d,
                None => c,
            }
        } else {
            c
        };
        r.push(d);
        proof {
            assert(lower(w@.take(i + 1)) =~= lower(w@.take(i as int)).push(lower_char(w@[i as int])));
        }
        i = i + 1;
    }
    proof {
        assert(w@.take(w@.len() as int) =~= w@);
    }
    r
}

/// See [`upper`].
pub fn to_upper(w: &Vec<char>) -> (r: Vec<char>)
    ensures
        r@ == upper(w@),
{
    let mut r: Vec<char> = Vec::new();
    let mut i: usize = 0;
    while i < w.len()
        invariant
            i <= w@.len(),
            r@ == upper(w@.take(i as int)),
        decreases w@.len() - i,
    {
        let c = w[i];
        let d = if 'a' <= c && c <= 'z' {
            match char_from_code(c as u32 - 32) {
                Some(d) => d,
                None => c,
            }
        } else {
            c
        };
        r.push(d);
        proof {
            assert(upper(w@.take(i + 1)) =~= upper(w@.take(i as int)).push(upper_char(w@[i as int])));
        }
        i = i + 1;
    }
    proof {
        assert(w@.take(w@.len() as int) =~= w@);
    }
    r
}

/// True when the characters spell `s` exactly.
pub fn text_is(w: &Vec<char>, s: &str) -> (r: bool)
    ensures
        r == (w@ == s@),
{
    let cs = chars_of(s);
    if w.len() != cs.len() {
        return false;
    }
    let mut i: usize = 0;
    while i < w.len()
        invariant
            cs@ == s@,
            w@.len() == cs@.len(),
            i <= w@.len(),
            forall|k: int| 0 <= k < i ==> w@[k] == cs@[k],
        decreases w@.len() - i,
    {
        if w[i] != cs[i] {
            return false;
        }
        i = i + 1;
    }
    proof {
        assert(w@ =~= s@);
    }
    true
}

/// Appends characters to a string.
pub fn append_chars(out: &mut String, w: &Vec<char>)
    ensures
        final(out)@ == old(out)@ + w@,
{
    let mut i: usize = 0;
    while i < w.len()
        invariant
            i <= w@.len(),
            out@ == old(out)@ + w@.take(i as int),
        decreases w@.len() - i,
    {
        push_char(out, w[i]);
        proof {
            assert(w@.take(i + 1) =~= w@.take(i as int).push(w@[i as int]));
        }
        i = i + 1;
    }
    proof {
        assert(w@.take(w@.len() as int) =~= w@);
    }
}

/// A string holding a text followed by some characters.
pub fn text_then(t: &str, w: &Vec<char>) -> (r: String)
    ensures
        r@ == t@ + w@,
{
    let mut out = String::new();
    let ts = chars_of(t);
    append_chars(&mut out, &ts);
    append_chars(&mut out, w);
    out
}

/// Words joined by single spaces, as `join(" ")`.
pub open spec fn join_words(ws: Seq<Seq<char>>) -> Seq<char>
    decreases ws.len(),
{
    if ws.len() == 0 {
        Seq::empty()
    } else if ws.len() == 1 {
        ws[0]
    } else {
        join_words(ws.drop_last()) + seq![' '] + ws.last()
    }
}

/// Joins the words from `from` on; see [`join_words`].
pub fn join_from(ws: &Vec<Vec<char>>, from: usize) -> (r: String)
    requires
        from <= ws@.len(),
    ensures
        r@ == join_words(ws@.map_values(|v: Vec<char>| v@).skip(from as int)),
{
    let ghost all = ws@.map_values(|v: Vec<char>| v@).skip(from as int);
    let mut out = String::new();
    let mut i: usize = from;
    while i < ws.len()
        invariant
            from <= i <= ws@.len(),
            all == ws@.map_values(|v: Vec<char>| v@).skip(from as int),
            out@ == join_words(all.take(i - from)),
        decreases ws@.len() - i,
    {
        let ghost before = out@;
        if i > from {
            push_char(&mut out, ' ');
        }
        append_chars(&mut out, &ws[i]);
        proof {
            assert(all[i - from] == ws@[i as int]@);
            assert(all.take(i - from + 1).drop_last() =~= all.take(i - from));
            if i > from {
                assert(out@ =~= join_words(all.take(i - from)) + seq![' '] + all.take(i - from + 1).last());
            } else {
                assert(out@ =~= all.take(1)[0]);
            }
        }
        i = i + 1;
    }
    proof {
        assert(all.take(ws@.len() - from) =~= all);
    }
    out
}

// ---- the numbers a profile writes ----

/// A number written as decimal, or hex after `0x` or `0X`, white space
/// around it ignored, as an `i64`.
pub open spec fn number_spec(w: Seq<char>) -> Option<int> {
    let t = trim_spec(w);
    if t.len() >= 2 && t[0] == '0' && (t[1] == 'x' || t[1] == 'X') {
        int_spec(t.skip(2), 16, i64::MIN as int, i64::MAX as int)
    } else {
        int_spec(t, 10, i64::MIN as int, i64::MAX as int)
    }
}

/// Reads a number; see [`number_spec`].
pub fn number(w: &Vec<char>) -> (r: Option<i64>)
    ensures
        match number_spec(w@) {
            Some(v) => r == Some(v as i64),
            None => r is None,
        },
{
    let n = w.len();
    let mut lo: usize = 0;
    while lo < n && white(w[lo])
        invariant
            n == w@.len(),
            lo <= n,
            trim_lo(w@, 0) == trim_lo(w@, lo as int),
        decreases n - lo,
    {
        lo = lo + 1;
    }
    let mut hi: usize = n;
    while hi > lo && white(w[hi - 1])
        invariant
            n == w@.len(),
            lo <= hi <= n,
            trim_hi(w@, lo as int, n as int) == trim_hi(w@, lo as int, hi as int),
        decreases hi - lo,
    {
        hi = hi - 1;
    }
    let ghost t = trim_spec(w@);
    proof {
        assert(t =~= w@.subrange(lo as int, hi as int));
    }
    if hi - lo >= 2 && w[lo] == '0' && (w[lo + 1] == 'x' || w[lo + 1] == 'X') {
        proof {
            assert(t.skip(2) =~= w@.subrange(lo + 2, hi as int));
        }
        int_of(w, lo + 2, hi, 16, i64::MIN, i64::MAX)
    } else {
        int_of(w, lo, hi, 10, i64::MIN, i64::MAX)
    }
}

/// How many `#` a word starts with.
pub open spec fn hashes_from(w: Seq<char>, i: int) -> int
    decreases w.len() - i,
{
    if 0 <= i < w.len() && w[i] == '#' { hashes_from(w, i + 1) } else { i }
}

/// A colour written as hex, any leading `#` dropped, as a `u32`.
pub open spec fn colour_spec(w: Seq<char>) -> Option<int> {
    int_spec(w.skip(hashes_from(w, 0)), 16, 0, u32::MAX as int)
}

/// Reads a colour; see [`colour_spec`].
pub fn colour(w: &Vec<char>) -> (r: Option<u32>)
    ensures
        match colour_spec(w@) {
            Some(v) => r == Some(v as u32),
            None => r is None,
        },
{
    let mut k: usize = 0;
    while k < w.len() && w[k] == '#'
        invariant
            k <= w@.len(),
            hashes_from(w@, 0) == hashes_from(w@, k as int),
        decreases w@.len() - k,
    {
        k = k + 1;
    }
    proof {
        assert(w@.skip(k as int) =~= w@.subrange(k as int, w@.len() as int));
    }
    match int_of(w, k, w.len(), 16, 0, 0xffff_ffff) {
        Some(v) => Some(v as u32),
        None => None,
    }
}

} // verus!
