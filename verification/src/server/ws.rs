//! Just enough of RFC 6455 to talk to a browser.
//!
//! A WebSocket handshake needs SHA-1 and base64 and nothing else, and the
//! frame format is a few bytes of header, so both are written out here rather
//! than pulling in a dependency for the sake of eighty lines of code. Frames
//! are read from and written to byte buffers; moving those buffers over a
//! socket is the server's business.
use vstd::prelude::*;
use crate::text::{chars_of, push_char};

verus! {

broadcast use vstd::string::group_string_axioms;

// ---- SHA-1 ----

/// `x` rotated left by `n` bits, `0 < n < 32`.
pub open spec fn rotl(x: u32, n: u32) -> u32 {
    (x << n) | (x >> ((32 - n) as u32))
}

/// See [`rotl`].
fn rotate(x: u32, n: u32) -> (r: u32)
    requires
        0 < n < 32,
    ensures
        r == rotl(x, n),
{
    (x << n) | (x >> (32 - n))
}

/// The big-endian 32-bit word at `at`.
pub open spec fn be32(b: Seq<u8>, at: int) -> u32 {
    ((b[at] as u32) << 24u32) | ((b[at + 1] as u32) << 16u32) | ((b[at + 2] as u32) << 8u32) | (b[at + 3] as u32)
}

/// Word `i` of the message schedule of a 64-byte block.
pub open spec fn sched(block: Seq<u8>, i: int) -> u32
    decreases i,
{
    if i < 16 {
        be32(block, 4 * i)
    } else {
        rotl(sched(block, i - 3) ^ sched(block, i - 8) ^ sched(block, i - 14) ^ sched(block, i - 16), 1)
    }
}

/// The round function and constant of round `i`.
pub open spec fn round_fk(i: int, b: u32, c: u32, d: u32) -> (u32, u32) {
    if i < 20 {
        ((b & c) | ((!b) & d), 0x5A82_7999u32)
    } else if i < 40 {
        (b ^ c ^ d, 0x6ED9_EBA1u32)
    } else if i < 60 {
        ((b & c) | (b & d) | (c & d), 0x8F1B_BCDCu32)
    } else {
        (b ^ c ^ d, 0xCA62_C1D6u32)
    }
}

/// The five working words of SHA-1.
pub type Words = (u32, u32, u32, u32, u32);

/// The working words after the first `n` rounds over a block.
pub open spec fn rounds(block: Seq<u8>, h: Words, n: int) -> Words
    decreases n,
{
    if n <= 0 {
        h
    } else {
        let (a, b, c, d, e) = rounds(block, h, n - 1);
        let (f, k) = round_fk(n - 1, b, c, d);
        let temp = rotl(a, 5).wrapping_add(f).wrapping_add(e).wrapping_add(k).wrapping_add(sched(block, n - 1));
        (temp, a, rotl(b, 30), c, d)
    }
}

/// The state after one block.
pub open spec fn compress(h: Words, block: Seq<u8>) -> Words {
    let (a, b, c, d, e) = rounds(block, h, 80);
    (h.0.wrapping_add(a), h.1.wrapping_add(b), h.2.wrapping_add(c), h.3.wrapping_add(d), h.4.wrapping_add(e))
}

/// The initial state.
pub open spec fn sha1_init() -> Words {
    (0x6745_2301u32, 0xEFCD_AB89u32, 0x98BA_DCFEu32, 0x1032_5476u32, 0xC3D2_E1F0u32)
}

/// The state after the first `n` blocks of a padded message.
pub open spec fn digest_upto(msg: Seq<u8>, n: int) -> Words
    decreases n,
{
    if n <= 0 {
        sha1_init()
    } else {
        compress(digest_upto(msg, n - 1), msg.subrange(64 * (n - 1), 64 * n))
    }
}

/// How many zero bytes follow the `0x80` marker for a message of `n` bytes.
pub open spec fn pad_zeros(n: int) -> int {
    (119 - n % 64) % 64
}

/// The eight big-endian bytes of a 64-bit value.
pub open spec fn be64_bytes(v: u64) -> Seq<u8> {
    seq![
        (v >> 56u64) as u8,
        (v >> 48u64) as u8,
        (v >> 40u64) as u8,
        (v >> 32u64) as u8,
        (v >> 24u64) as u8,
        (v >> 16u64) as u8,
        (v >> 8u64) as u8,
        v as u8,
    ]
}

/// The four big-endian bytes of a 32-bit value.
pub open spec fn be32_bytes(v: u32) -> Seq<u8> {
    seq![(v >> 24u32) as u8, (v >> 16u32) as u8, (v >> 8u32) as u8, v as u8]
}

/// A message padded the SHA-1 way: a `0x80` byte, zeros up to 56 mod 64,
/// and the length in bits (modulo 2^64, as the standard counts it).
pub open spec fn padded(data: Seq<u8>) -> Seq<u8> {
    data + seq![0x80u8] + Seq::new(pad_zeros(data.len() as int) as nat, |i: int| 0u8) + be64_bytes(
        (data.len() as u64).wrapping_mul(8),
    )
}

/// The SHA-1 digest of a message.
pub open spec fn sha1_spec(data: Seq<u8>) -> Seq<u8> {
    let m = padded(data);
    let h = digest_upto(m, m.len() as int / 64);
    be32_bytes(h.0) + be32_bytes(h.1) + be32_bytes(h.2) + be32_bytes(h.3) + be32_bytes(h.4)
}

/// SHA-1, as required by the handshake; see [`sha1_spec`].
pub fn sha1(data: &[u8]) -> (r: [u8; 20])
    ensures
        r@ == sha1_spec(data@),
{
    let n = data.len();
    let mut msg: Vec<u8> = Vec::new();
    let mut i: usize = 0;
    while i < n
        invariant
            n == data@.len(),
            i <= n,
            msg@ == data@.take(i as int),
        decreases n - i,
    {
        msg.push(data[i]);
        proof {
            assert(data@.take(i + 1) =~= data@.take(i as int).push(data@[i as int]));
        }
        i = i + 1;
    }
    proof {
        assert(data@.take(n as int) =~= data@);
    }
    let bit_len: u64 = (n as u64).wrapping_mul(8);
    msg.push(0x80);
    let z: usize = (119 - n % 64) % 64;
    let mut k: usize = 0;
    while k < z
        invariant
            z == pad_zeros(n as int),
            k <= z,
            n == data@.len(),
            msg@ == data@ + seq![0x80u8] + Seq::new(k as nat, |i: int| 0u8),
        decreases z - k,
    {
        msg.push(0);
        proof {
            assert(Seq::new((k + 1) as nat, |i: int| 0u8) =~= Seq::new(k as nat, |i: int| 0u8).push(0u8));
        }
        k = k + 1;
    }
    msg.push((bit_len >> 56) as u8);
    msg.push((bit_len >> 48) as u8);
    msg.push((bit_len >> 40) as u8);
    msg.push((bit_len >> 32) as u8);
    msg.push((bit_len >> 24) as u8);
    msg.push((bit_len >> 16) as u8);
    msg.push((bit_len >> 8) as u8);
    msg.push(bit_len as u8);
    let ghost m = padded(data@);
    proof {
        assert(msg@ =~= m);
        assert((n + 1 + z + 8) % 64 == 0) by (nonlinear_arith)
            requires
                z == (119 - n % 64) % 64,
                n >= 0,
        ;
    }
    let mlen = msg.len();
    let blocks = mlen / 64;
    let mut h: [u32; 5] = [0x6745_2301, 0xEFCD_AB89, 0x98BA_DCFE, 0x1032_5476, 0xC3D2_E1F0];
    let mut bi: usize = 0;
    while bi < blocks
        invariant
            msg@ == m,
            mlen == m.len(),
            blocks == m.len() / 64,
            m.len() % 64 == 0,
            bi <= blocks,
            (h[0], h[1], h[2], h[3], h[4]) == digest_upto(m, bi as int),
        decreases blocks - bi,
    {
        proof {
            assert(bi * 64 + 64 <= mlen) by (nonlinear_arith)
                requires
                    bi < blocks,
                    blocks == mlen / 64,
            ;
        }
        let base = bi * 64;
        let ghost block = m.subrange(64 * bi, 64 * bi + 64);
        let words = schedule(&msg, base);
        proof {
            assert(block =~= msg@.subrange(base as int, base + 64));
        }
        let (a, b, c, d, e) = compress_block(&words, (h[0], h[1], h[2], h[3], h[4]), Ghost(block));
        h = [h[0].wrapping_add(a), h[1].wrapping_add(b), h[2].wrapping_add(c), h[3].wrapping_add(d), h[4].wrapping_add(e)];
        bi = bi + 1;
    }
    let r: [u8; 20] = [
        (h[0] >> 24) as u8, (h[0] >> 16) as u8, (h[0] >> 8) as u8, h[0] as u8,
        (h[1] >> 24) as u8, (h[1] >> 16) as u8, (h[1] >> 8) as u8, h[1] as u8,
        (h[2] >> 24) as u8, (h[2] >> 16) as u8, (h[2] >> 8) as u8, h[2] as u8,
        (h[3] >> 24) as u8, (h[3] >> 16) as u8, (h[3] >> 8) as u8, h[3] as u8,
        (h[4] >> 24) as u8, (h[4] >> 16) as u8, (h[4] >> 8) as u8, h[4] as u8,
    ];
    proof {
        assert(r@ =~= sha1_spec(data@));
    }
    r
}

/// The 80-word message schedule of the block at `base`.
fn schedule(msg: &Vec<u8>, base: usize) -> (w: Vec<u32>)
    requires
        base + 64 <= msg@.len(),
    ensures
        w@.len() == 80,
        forall|i: int| 0 <= i < 80 ==> #[trigger] w@[i] == sched(msg@.subrange(base as int, base + 64), i),
{
    let ghost block = msg@.subrange(base as int, base + 64);
    let mlen = msg.len();
    let mut w: Vec<u32> = Vec::new();
    let mut i: usize = 0;
    while i < 16
        invariant
            mlen == msg@.len(),
            base + 64 <= msg@.len(),
            block == msg@.subrange(base as int, base + 64),
            i <= 16,
            w@.len() == i,
            forall|j: int| 0 <= j < i ==> #[trigger] w@[j] == sched(block, j),
        decreases 16 - i,
    {
        let at = base + i * 4;
        let v = ((msg[at] as u32) << 24) | ((msg[at + 1] as u32) << 16) | ((msg[at + 2] as u32) << 8) | (msg[at + 3] as u32);
        proof {
            assert(block[4 * i] == msg@[at as int]);
            assert(block[4 * i + 1] == msg@[at + 1]);
            assert(block[4 * i + 2] == msg@[at + 2]);
            assert(block[4 * i + 3] == msg@[at + 3]);
        }
        w.push(v);
        i = i + 1;
    }
    while i < 80
        invariant
            16 <= i <= 80,
            w@.len() == i,
            forall|j: int| 0 <= j < i ==> #[trigger] w@[j] == sched(block, j),
        decreases 80 - i,
    {
        let v = rotate(w[i - 3] ^ w[i - 8] ^ w[i - 14] ^ w[i - 16], 1);
        proof {
            assert(w@[i - 3] == sched(block, i - 3));
            assert(w@[i - 8] == sched(block, i - 8));
            assert(w@[i - 14] == sched(block, i - 14));
            assert(w@[i - 16] == sched(block, i - 16));
        }
        w.push(v);
        i = i + 1;
    }
    w
}

/// The eighty rounds over one block's schedule.
fn compress_block(w: &Vec<u32>, h: (u32, u32, u32, u32, u32), Ghost(block): Ghost<Seq<u8>>) -> (r: (
    u32,
    u32,
    u32,
    u32,
    u32,
))
    requires
        w@.len() == 80,
        forall|i: int| 0 <= i < 80 ==> #[trigger] w@[i] == sched(block, i),
    ensures
        r == rounds(block, h, 80),
{
    let (mut a, mut b, mut c, mut d, mut e) = h;
    let mut i: usize = 0;
    while i < 80
        invariant
            i <= 80,
            w@.len() == 80,
            forall|j: int| 0 <= j < 80 ==> #[trigger] w@[j] == sched(block, j),
            (a, b, c, d, e) == rounds(block, h, i as int),
        decreases 80 - i,
    {
        let (f, k): (u32, u32) = if i < 20 {
            ((b & c) | ((!b) & d), 0x5A82_7999)
        } else if i < 40 {
            (b ^ c ^ d, 0x6ED9_EBA1)
        } else if i < 60 {
            ((b & c) | (b & d) | (c & d), 0x8F1B_BCDC)
        } else {
            (b ^ c ^ d, 0xCA62_C1D6)
        };
        let temp = rotate(a, 5).wrapping_add(f).wrapping_add(e).wrapping_add(k).wrapping_add(w[i]);
        e = d;
        d = c;
        c = rotate(b, 30);
        b = a;
        a = temp;
        i = i + 1;
    }
    (a, b, c, d, e)
}

// ---- base64 ----

/// The base64 digit for a value below 64.
pub open spec fn b64_digit(v: int) -> char {
    if v < 26 {
        (0x41 + v) as char
    } else if v < 52 {
        (0x61 + v - 26) as char
    } else if v < 62 {
        (0x30 + v - 52) as char
    } else if v == 62 {
        '+'
    } else {
        '/'
    }
}

/// The four characters for the group of up to three bytes at `i`, padded
/// with `=`.
pub open spec fn b64_group(data: Seq<u8>, i: int) -> Seq<char> {
    let b0 = data[i] as int;
    let b1 = if i + 1 < data.len() { data[i + 1] as int } else { 0 };
    let b2 = if i + 2 < data.len() { data[i + 2] as int } else { 0 };
    let n = b0 * 65536 + b1 * 256 + b2;
    seq![
        b64_digit(n / 262144 % 64),
        b64_digit(n / 4096 % 64),
        if i + 1 < data.len() { b64_digit(n / 64 % 64) } else { '=' },
        if i + 2 < data.len() { b64_digit(n % 64) } else { '=' },
    ]
}

/// The base64 text of the first `k` groups.
pub open spec fn b64_upto(data: Seq<u8>, k: int) -> Seq<char>
    decreases k,
{
    if k <= 0 {
        Seq::empty()
    } else {
        b64_upto(data, k - 1) + b64_group(data, 3 * (k - 1))
    }
}

/// Standard base64 with padding.
pub open spec fn base64_spec(data: Seq<u8>) -> Seq<char> {
    b64_upto(data, (data.len() as int + 2) / 3)
}

/// See [`b64_digit`].
fn b64_char(v: u32) -> (c: char)
    requires
        v < 64,
    ensures
        c == b64_digit(v as int),
{
    let b = v as u8;
    if b < 26 {
        (0x41 + b) as char
    } else if b < 52 {
        (0x61 + b - 26) as char
    } else if b < 62 {
        (0x30 + b - 52) as char
    } else if b == 62 {
        '+'
    } else {
        '/'
    }
}

/// Appends the group of up to three bytes at `i`; see [`b64_group`].
fn push_group(out: &mut String, data: &[u8], i: usize)
    requires
        i < data@.len(),
    ensures
        final(out)@ == old(out)@ + b64_group(data@, i as int),
{
    let n = data.len();
    let b0 = data[i] as u32;
    let b1 = if i < n - 1 { data[i + 1] as u32 } else { 0 };
    let b2 = if n >= 2 && i < n - 2 { data[i + 2] as u32 } else { 0 };
    let v = b0 * 65536 + b1 * 256 + b2;
    let ghost before = out@;
    push_char(out, b64_char(v / 262144 % 64));
    push_char(out, b64_char(v / 4096 % 64));
    push_char(out, if i < n - 1 { b64_char(v / 64 % 64) } else { '=' });
    push_char(out, if n >= 2 && i < n - 2 { b64_char(v % 64) } else { '=' });
    proof {
        assert(out@ =~= before + b64_group(data@, i as int));
    }
}

/// Standard base64, with padding; see [`base64_spec`].
pub fn base64(data: &[u8]) -> (r: String)
    ensures
        r@ == base64_spec(data@),
{
    let n = data.len();
    let groups = n / 3 + if n % 3 == 0 { 0 } else { 1 };
    let mut out = String::new();
    let mut k: usize = 0;
    while k < groups
        invariant
            n == data@.len(),
            groups == (n + 2) / 3,
            k <= groups,
            out@ == b64_upto(data@, k as int),
        decreases groups - k,
    {
        proof {
            assert(3 * k < n) by (nonlinear_arith)
                requires
                    k < groups,
                    groups == (n + 2) / 3,
            ;
        }
        push_group(&mut out, data, 3 * k);
        k = k + 1;
    }
    out
}

// ---- the handshake ----

/// White space as `str::trim` understands it: the characters with the
/// Unicode `White_Space` property.
pub open spec fn is_white(c: char) -> bool {
    let v = c as u32;
    (0x09 <= v && v <= 0x0d) || v == 0x20 || v == 0x85 || v == 0xa0 || v == 0x1680 || (0x2000 <= v && v
        <= 0x200a) || v == 0x2028 || v == 0x2029 || v == 0x202f || v == 0x205f || v == 0x3000
}

/// See [`is_white`].
pub(crate) fn white(c: char) -> (r: bool)
    ensures
        r == is_white(c),
{
    let v = c as u32;
    (0x09 <= v && v <= 0x0d) || v == 0x20 || v == 0x85 || v == 0xa0 || v == 0x1680 || (0x2000 <= v && v <= 0x200a)
        || v == 0x2028 || v == 0x2029 || v == 0x202f || v == 0x205f || v == 0x3000
}

/// The index of the first character from `i` on that is not white space.
pub open spec fn trim_lo(s: Seq<char>, i: int) -> int
    decreases s.len() - i,
{
    if 0 <= i < s.len() && is_white(s[i]) {
        trim_lo(s, i + 1)
    } else {
        i
    }
}

/// One past the last character before `j` that is not white space, stopping
/// at `lo`.
pub open spec fn trim_hi(s: Seq<char>, lo: int, j: int) -> int
    decreases j - lo,
{
    if lo < j && j <= s.len() && is_white(s[j - 1]) {
        trim_hi(s, lo, j - 1)
    } else {
        j
    }
}

/// A text without white space at either end.
pub open spec fn trim_spec(s: Seq<char>) -> Seq<char> {
    let lo = trim_lo(s, 0);
    s.subrange(lo, trim_hi(s, lo, s.len() as int))
}

/// The fixed string RFC 6455 says to append to the client's key.
pub open spec fn guid() -> Seq<char> {
    seq![
        '2', '5', '8', 'E', 'A', 'F', 'A', '5', '-', 'E', '9', '1', '4', '-', '4', '7', 'D', 'A', '-', '9', '5',
        'C', 'A', '-', 'C', '5', 'A', 'B', '0', 'D', 'C', '8', '5', 'B', '1', '1',
    ]
}

/// The value for the `Sec-WebSocket-Accept` header: the base64 of the
/// SHA-1 of the trimmed key (in UTF-8) followed by the RFC's GUID.
pub open spec fn accept_spec(client_key: Seq<char>) -> Seq<char> {
    base64_spec(sha1_spec(vstd::utf8::encode_utf8(trim_spec(client_key) + guid())))
}

/// The value for the `Sec-WebSocket-Accept` header; see [`accept_spec`].
pub fn accept_key(client_key: &str) -> (r: String)
    ensures
        r@ == accept_spec(client_key@),
{
    let cs = chars_of(client_key);
    let n = cs.len();
    let mut lo: usize = 0;
    while lo < n && white(cs[lo])
        invariant
            cs@ == client_key@,
            n == cs@.len(),
            lo <= n,
            trim_lo(cs@, 0) == trim_lo(cs@, lo as int),
        decreases n - lo,
    {
        lo = lo + 1;
    }
    let mut hi: usize = n;
    while hi > lo && white(cs[hi - 1])
        invariant
            cs@ == client_key@,
            n == cs@.len(),
            lo <= hi <= n,
            trim_hi(cs@, lo as int, n as int) == trim_hi(cs@, lo as int, hi as int),
        decreases hi - lo,
    {
        hi = hi - 1;
    }
    let mut buf = String::new();
    let mut i = lo;
    while i < hi
        invariant
            cs@ == client_key@,
            lo <= i <= hi <= n,
            n == cs@.len(),
            buf@ == cs@.subrange(lo as int, i as int),
        decreases hi - i,
    {
        push_char(&mut buf, cs[i]);
        proof {
            assert(cs@.subrange(lo as int, i + 1) =~= cs@.subrange(lo as int, i as int).push(cs@[i as int]));
        }
        i = i + 1;
    }
    let g = "258EAFA5-E914-47DA-95CA-C5AB0DC85B11";
    proof {
        reveal_strlit("258EAFA5-E914-47DA-95CA-C5AB0DC85B11");
        assert(g@ =~= guid());
    }
    let gs = chars_of(g);
    let mut j: usize = 0;
    let ghost key = buf@;
    while j < gs.len()
        invariant
            gs@ == guid(),
            j <= gs@.len(),
            buf@ == key + guid().take(j as int),
        decreases gs@.len() - j,
    {
        push_char(&mut buf, gs[j]);
        proof {
            assert(guid().take(j + 1) =~= guid().take(j as int).push(guid()[j as int]));
        }
        j = j + 1;
    }
    proof {
        assert(guid().take(36) =~= guid());
        assert(buf@ =~= trim_spec(client_key@) + guid());
    }
    let bytes = buf.as_str().as_bytes();
    let digest = sha1(bytes);
    base64(&digest)
}

// ---- frames ----

/// A WebSocket frame's opcode.
#[derive(Clone, Copy, PartialEq, Eq, Structural, Debug)]
pub enum Opcode {
    Continuation,
    Text,
    Binary,
    Close,
    Ping,
    Pong,
    Other(u8),
}

/// The opcode a four-bit code names.
pub open spec fn opcode_of(v: u8) -> Opcode {
    if v == 0 {
        Opcode::Continuation
    } else if v == 1 {
        Opcode::Text
    } else if v == 2 {
        Opcode::Binary
    } else if v == 8 {
        Opcode::Close
    } else if v == 9 {
        Opcode::Ping
    } else if v == 10 {
        Opcode::Pong
    } else {
        Opcode::Other(v)
    }
}

/// The code written for an opcode.
pub open spec fn code_of(o: Opcode) -> u8 {
    match o {
        Opcode::Continuation => 0,
        Opcode::Text => 1,
        Opcode::Binary => 2,
        Opcode::Close => 8,
        Opcode::Ping => 9,
        Opcode::Pong => 10,
        Opcode::Other(v) => v,
    }
}

impl Opcode {
    /// See [`opcode_of`].
    fn from_u8(v: u8) -> (o: Opcode)
        ensures
            o == opcode_of(v),
    {
        match v {
            0 => Opcode::Continuation,
            1 => Opcode::Text,
            2 => Opcode::Binary,
            8 => Opcode::Close,
            9 => Opcode::Ping,
            10 => Opcode::Pong,
            other => Opcode::Other(other),
        }
    }

    /// See [`code_of`].
    fn to_u8(self) -> (v: u8)
        ensures
            v == code_of(self),
    {
        match self {
            Opcode::Continuation => 0,
            Opcode::Text => 1,
            Opcode::Binary => 2,
            Opcode::Close => 8,
            Opcode::Ping => 9,
            Opcode::Pong => 10,
            Opcode::Other(v) => v,
        }
    }
}

/// One frame read off the wire.
pub struct Frame {
    pub opcode: Opcode,
    pub payload: Vec<u8>,
}

/// Why a frame could not be read.
#[derive(Clone, Copy, PartialEq, Eq, Structural, Debug)]
pub enum FrameError {
    /// The bytes ran out partway through a frame.
    UnexpectedEof,
    /// The frame claims more payload than a client may send.
    TooLarge,
}

/// The largest frame a client is allowed to send. Anything bigger is a bug or
/// an attack, not a game message.
pub const MAX_FRAME: u64 = 0x10_0000;

/// The big-endian 64-bit value of eight bytes.
pub open spec fn be64_value(b: Seq<u8>) -> u64 {
    ((b[0] as u64) << 56u64) | ((b[1] as u64) << 48u64) | ((b[2] as u64) << 40u64) | ((b[3] as u64) << 32u64)
        | ((b[4] as u64) << 24u64) | ((b[5] as u64) << 16u64) | ((b[6] as u64) << 8u64) | (b[7] as u64)
}

/// How many length bytes follow the second header byte.
pub open spec fn ext_len(b1: u8) -> int {
    if b1 % 128 == 126 {
        2
    } else if b1 % 128 == 127 {
        8
    } else {
        0
    }
}

/// The payload length a header declares (its first `2 + ext_len` bytes).
pub open spec fn declared_len(b: Seq<u8>) -> int {
    if b[1] % 128 == 126 {
        b[2] * 256 + b[3]
    } else if b[1] % 128 == 127 {
        be64_value(b.subrange(2, 10)) as int
    } else {
        (b[1] % 128) as int
    }
}

/// The payload with each byte XORed with the mask byte its index picks.
pub open spec fn unmask(p: Seq<u8>, mask: Seq<u8>) -> Seq<u8> {
    Seq::new(p.len(), |i: int| p[i] ^ mask[i % 4])
}

/// What reading one frame from `b` gives, and how many bytes it uses: no
/// frame when the stream ends before two bytes (using them all); running
/// out of bytes later uses them all too; a declared payload over
/// [`MAX_FRAME`] is refused once its length has been read; otherwise the
/// frame's opcode (the low four bits of the first byte) and its payload,
/// unmasked when the mask bit of the second byte is set.
pub open spec fn parse_frame(b: Seq<u8>) -> (Result<Option<(Opcode, Seq<u8>)>, FrameError>, int) {
    if b.len() < 2 {
        (Ok(None), b.len() as int)
    } else {
        let hdr = 2 + ext_len(b[1]);
        if b.len() < hdr {
            (Err(FrameError::UnexpectedEof), b.len() as int)
        } else {
            let len = declared_len(b);
            if len > MAX_FRAME {
                (Err(FrameError::TooLarge), hdr)
            } else {
                let masked = b[1] >= 128;
                let start = if masked { hdr + 4 } else { hdr };
                if b.len() < start || b.len() < start + len {
                    (Err(FrameError::UnexpectedEof), b.len() as int)
                } else {
                    let raw = b.subrange(start, start + len);
                    let payload = if masked { unmask(raw, b.subrange(hdr, hdr + 4)) } else { raw };
                    (Ok(Some((opcode_of(b[0] % 16), payload))), start + len)
                }
            }
        }
    }
}

/// Reads one frame from the front of `stream`, leaving the rest there;
/// `None` at a clean end of stream. See [`parse_frame`].
pub fn read_frame(stream: &mut &[u8]) -> (r: Result<Option<Frame>, FrameError>)
    ensures
        ({
            let (want, used) = parse_frame(old(stream)@);
            &&& final(stream)@ == old(stream)@.skip(used)
            &&& match want {
                Ok(None) => r == Ok::<Option<Frame>, FrameError>(None),
                Ok(Some((op, payload))) => r matches Ok(Some(f)) && f.opcode == op && f.payload@ == payload,
                Err(e) => r == Err::<Option<Frame>, FrameError>(e),
            }
        }),
{
    let b: &[u8] = *stream;
    let n = b.len();
    if n < 2 {
        let (_, rest) = b.split_at(n);
        *stream = rest;
        return Ok(None);
    }
    let opcode = Opcode::from_u8(b[0] % 16);
    let masked = b[1] >= 128;
    let code = b[1] % 128;
    let hdr: usize = if code == 126 { 4 } else if code == 127 { 10 } else { 2 };
    if n < hdr {
        let (_, rest) = b.split_at(n);
        *stream = rest;
        return Err(FrameError::UnexpectedEof);
    }
    let len: u64 = if code == 126 {
        b[2] as u64 * 256 + b[3] as u64
    } else if code == 127 {
        ((b[2] as u64) << 56) | ((b[3] as u64) << 48) | ((b[4] as u64) << 40) | ((b[5] as u64) << 32) | ((b[6] as u64)
            << 24) | ((b[7] as u64) << 16) | ((b[8] as u64) << 8) | (b[9] as u64)
    } else {
        code as u64
    };
    proof {
        if code == 127 {
            assert(b@.subrange(2, 10)[0] == b@[2] && b@.subrange(2, 10)[7] == b@[9]);
            assert(len == be64_value(b@.subrange(2, 10)));
        }
    }
    if len > MAX_FRAME {
        let (_, rest) = b.split_at(hdr);
        *stream = rest;
        return Err(FrameError::TooLarge);
    }
    let start: usize = if masked { hdr + 4 } else { hdr };
    let size = len as usize;
    if n < start || n - start < size {
        let (_, rest) = b.split_at(n);
        *stream = rest;
        return Err(FrameError::UnexpectedEof);
    }
    let mut payload: Vec<u8> = Vec::new();
    let mut i: usize = 0;
    while i < size
        invariant
            n == b@.len(),
            start + size <= n,
            hdr + 4 <= n || !masked,
            start == (if masked { hdr + 4 } else { hdr as int }),
            i <= size,
            payload@.len() == i,
            forall|j: int| 0 <= j < i ==> #[trigger] payload@[j] == if masked {
                b@[start + j] ^ b@[hdr + j % 4]
            } else {
                b@[start + j]
            },
        decreases size - i,
    {
        let v = if masked { b[start + i] ^ b[hdr + i % 4] } else { b[start + i] };
        payload.push(v);
        i = i + 1;
    }
    let (_, rest) = b.split_at(start + size);
    *stream = rest;
    proof {
        let raw = b@.subrange(start as int, start + size);
        let want = if masked { unmask(raw, b@.subrange(hdr as int, hdr + 4)) } else { raw };
        assert(payload@ =~= want);
        assert(rest@ =~= b@.skip(start + size));
    }
    Ok(Some(Frame { opcode, payload }))
}

/// The header of an unmasked final frame: the opcode with the FIN bit, then
/// the length in one byte, or 126 and two bytes, or 127 and eight bytes.
pub open spec fn frame_header(op: Opcode, len: int) -> Seq<u8> {
    seq![0x80u8 | code_of(op)] + if len < 126 {
        seq![len as u8]
    } else if len <= 0xffff {
        seq![126u8, (len / 256) as u8, (len % 256) as u8]
    } else {
        seq![127u8] + be64_bytes(len as u64)
    }
}

/// Writes one unmasked frame, as a server must, after what `out` holds;
/// writing to memory cannot fail.
pub fn write_frame(out: &mut Vec<u8>, opcode: Opcode, payload: &[u8]) -> (r: Result<(), FrameError>)
    ensures
        r is Ok,
        final(out)@ == old(out)@ + frame_header(opcode, payload@.len() as int) + payload@,
{
    let ghost start = out@;
    out.push(0x80 | opcode.to_u8());
    let len = payload.len();
    if len < 126 {
        out.push(len as u8);
    } else if len <= 0xffff {
        out.push(126);
        out.push((len / 256) as u8);
        out.push((len % 256) as u8);
    } else {
        let l = len as u64;
        out.push(127);
        out.push((l >> 56) as u8);
        out.push((l >> 48) as u8);
        out.push((l >> 40) as u8);
        out.push((l >> 32) as u8);
        out.push((l >> 24) as u8);
        out.push((l >> 16) as u8);
        out.push((l >> 8) as u8);
        out.push(l as u8);
    }
    let ghost head = out@;
    let mut i: usize = 0;
    while i < len
        invariant
            len == payload@.len(),
            i <= len,
            out@ == head + payload@.take(i as int),
        decreases len - i,
    {
        out.push(payload[i]);
        proof {
            assert(payload@.take(i + 1) =~= payload@.take(i as int).push(payload@[i as int]));
        }
        i = i + 1;
    }
    proof {
        assert(payload@.take(len as int) =~= payload@);
        assert(head =~= start + frame_header(opcode, payload@.len() as int));
    }
    Ok(())
}

/// An opcode that reads back as itself: a four-bit code that is not one of
/// the named ones unless it is named.
pub open spec fn round_trips(op: Opcode) -> bool {
    &&& code_of(op) < 16
    &&& opcode_of(code_of(op)) == op
}

/// A frame written by [`write_frame`] reads back as the same opcode and
/// payload, using exactly its own bytes, whatever follows it: for every
/// opcode that has a four-bit code of its own and every payload a client
/// may send.
pub proof fn lemma_frame_round_trip(op: Opcode, payload: Seq<u8>, rest: Seq<u8>)
    requires
        round_trips(op),
        payload.len() <= MAX_FRAME,
    ensures
        parse_frame(frame_header(op, payload.len() as int) + payload + rest).0 == Ok::<
            Option<(Opcode, Seq<u8>)>,
            FrameError,
        >(Some((op, payload))),
        parse_frame(frame_header(op, payload.len() as int) + payload + rest).1 == frame_header(
            op,
            payload.len() as int,
        ).len() + payload.len(),
{
    let len = payload.len() as int;
    let h = frame_header(op, len);
    let b = h + payload + rest;
    let c = code_of(op);
    assert((0x80u8 | c) % 16 == c) by (bit_vector)
        requires
            c < 16,
    ;
    assert(b[0] == 0x80u8 | c);
    if len < 126 {
        assert(b[1] == len as u8);
        assert(b.subrange(2, 2 + len) =~= payload);
    } else if len <= 0xffff {
        let hi = (len / 256) as u8;
        let lo = (len % 256) as u8;
        assert(b[2] == hi && b[3] == lo);
        assert(b.subrange(4, 4 + len) =~= payload);
    } else {
        let l = len as u64;
        assert(b.subrange(2, 10) =~= be64_bytes(l));
        assert(be64_value(be64_bytes(l)) == l) by (bit_vector)
            requires
                be64_value(be64_bytes(l)) == (((l >> 56u64) as u8 as u64) << 56u64) | (((l >> 48u64) as u8 as u64)
                    << 48u64) | (((l >> 40u64) as u8 as u64) << 40u64) | (((l >> 32u64) as u8 as u64) << 32u64) | (((l
                    >> 24u64) as u8 as u64) << 24u64) | (((l >> 16u64) as u8 as u64) << 16u64) | (((l >> 8u64) as u8
                    as u64) << 8u64) | (l as u8 as u64),
        ;
        assert(b.subrange(10, 10 + len) =~= payload);
    }
}

} // verus!
