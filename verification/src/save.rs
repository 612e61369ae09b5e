//! Snapshots: turning world state into bytes and back.
//!
//! This is what lets someone join a game already in progress. Everything is
//! little endian, and every read is fallible, so a truncated or hostile
//! snapshot is refused rather than trusted.
use vstd::prelude::*;
use crate::geom::{Dir, V2};
use crate::entity::{Entities, Entity, EntityId, Kind, kind_code};
use crate::world::{Camera, Player, Role, World};
use crate::level::{Level, LevelKind, Link, Room, RoomKind, Spawn, TileMap};
use crate::items::{Inventory, Item, item_code};
use crate::input::Input;
use crate::rng::Rng;
use crate::event::Events;

verus! {

/// The two bytes of `v`, low byte first.
pub open spec fn le16(v: u16) -> Seq<u8> {
    seq![v as u8, (v >> 8u16) as u8]
}

/// The four bytes of `v`, low byte first.
pub open spec fn le32(v: u32) -> Seq<u8> {
    seq![v as u8, (v >> 8u32) as u8, (v >> 16u32) as u8, (v >> 24u32) as u8]
}

/// The eight bytes of `v`, low byte first.
pub open spec fn le64(v: u64) -> Seq<u8> {
    seq![
        v as u8,
        (v >> 8u64) as u8,
        (v >> 16u64) as u8,
        (v >> 24u64) as u8,
        (v >> 32u64) as u8,
        (v >> 40u64) as u8,
        (v >> 48u64) as u8,
        (v >> 56u64) as u8,
    ]
}

/// The number two bytes spell, low byte first.
pub open spec fn from_le16(s: Seq<u8>) -> u16 {
    (s[0] as u16) | ((s[1] as u16) << 8u16)
}

/// The number four bytes spell, low byte first.
pub open spec fn from_le32(s: Seq<u8>) -> u32 {
    (s[0] as u32) | ((s[1] as u32) << 8u32) | ((s[2] as u32) << 16u32) | ((s[3] as u32) << 24u32)
}

/// The number eight bytes spell, low byte first.
pub open spec fn from_le64(s: Seq<u8>) -> u64 {
    (s[0] as u64) | ((s[1] as u64) << 8u64) | ((s[2] as u64) << 16u64) | ((s[3] as u64) << 24u64)
        | ((s[4] as u64) << 32u64) | ((s[5] as u64) << 40u64) | ((s[6] as u64) << 48u64) | ((
    s[7] as u64) << 56u64)
}

/// The bytes of a vector: x then y.
pub open spec fn le_vec2(v: V2) -> Seq<u8> {
    le32(v.x as u32) + le32(v.y as u32)
}

/// Appends primitives to a byte buffer, little endian throughout.
pub struct Writer {
    buf: Vec<u8>,
}

impl Writer {
    /// Everything written so far.
    pub closed spec fn written(&self) -> Seq<u8> {
        self.buf@
    }

    pub fn new() -> (r: Writer)
        ensures
            r.written() == Seq::<u8>::empty(),
    {
        Writer { buf: Vec::new() }
    }

    pub fn u8(&mut self, v: u8)
        ensures
            final(self).written() == old(self).written().push(v),
    {
        self.buf.push(v);
    }

    /// A flag as one byte, 1 for true.
    pub fn bool(&mut self, v: bool)
        ensures
            final(self).written() == old(self).written().push(if v { 1u8 } else { 0u8 }),
    {
        self.buf.push(if v { 1u8 } else { 0u8 });
    }

    pub fn u16(&mut self, v: u16)
        ensures
            final(self).written() == old(self).written() + le16(v),
    {
        self.buf.push(v as u8);
        self.buf.push((v >> 8u16) as u8);
        assert(self.buf@ =~= old(self).buf@ + le16(v));
    }

    pub fn i16(&mut self, v: i16)
        ensures
            final(self).written() == old(self).written() + le16(v as u16),
    {
        self.u16(v as u16);
    }

    pub fn u32(&mut self, v: u32)
        ensures
            final(self).written() == old(self).written() + le32(v),
    {
        self.buf.push(v as u8);
        self.buf.push((v >> 8u32) as u8);
        self.buf.push((v >> 16u32) as u8);
        self.buf.push((v >> 24u32) as u8);
        assert(self.buf@ =~= old(self).buf@ + le32(v));
    }

    pub fn i32(&mut self, v: i32)
        ensures
            final(self).written() == old(self).written() + le32(v as u32),
    {
        self.u32(v as u32);
    }

    pub fn u64(&mut self, v: u64)
        ensures
            final(self).written() == old(self).written() + le64(v),
    {
        self.buf.push(v as u8);
        self.buf.push((v >> 8u64) as u8);
        self.buf.push((v >> 16u64) as u8);
        self.buf.push((v >> 24u64) as u8);
        self.buf.push((v >> 32u64) as u8);
        self.buf.push((v >> 40u64) as u8);
        self.buf.push((v >> 48u64) as u8);
        self.buf.push((v >> 56u64) as u8);
        assert(self.buf@ =~= old(self).buf@ + le64(v));
    }

    /// A byte string: its length as a `u32`, then the bytes.
    pub fn bytes(&mut self, v: &[u8])
        requires
            v@.len() <= u32::MAX,
        ensures
            final(self).written() == old(self).written() + le32(v@.len() as u32) + v@,
    {
        self.u32(v.len() as u32);
        let ghost mid = self.buf@;
        let mut i: usize = 0;
        while i < v.len()
            invariant
                i <= v@.len(),
                self.buf@ == mid + v@.take(i as int),
            decreases v@.len() - i,
        {
            self.buf.push(v[i]);
            assert(v@.take(i + 1) =~= v@.take(i as int).push(v@[i as int]));
            i = i + 1;
        }
        assert(v@.take(v@.len() as int) =~= v@);
    }

    pub fn vec2(&mut self, v: V2)
        ensures
            final(self).written() == old(self).written() + le_vec2(v),
    {
        self.i32(v.x);
        self.i32(v.y);
        assert(self.buf@ =~= old(self).buf@ + le_vec2(v));
    }

    pub fn finish(self) -> (r: Vec<u8>)
        ensures
            r@ == self.written(),
    {
        self.buf
    }
}

impl Default for Writer {
    fn default() -> (r: Writer)
        ensures
            r.written() == Seq::<u8>::empty(),
    {
        Writer::new()
    }
}

/// Reads primitives back. Every read is fallible, so a truncated or hostile
/// snapshot returns `None` rather than panicking.
pub struct Reader<'a> {
    data: &'a [u8],
    pos: usize,
}

impl<'a> Reader<'a> {
    /// The bytes being read.
    pub closed spec fn data_view(&self) -> Seq<u8> {
        self.data@
    }

    /// How many bytes have been consumed.
    pub closed spec fn pos_view(&self) -> int {
        self.pos as int
    }

    /// True when the next `n` bytes are there to read.
    pub open spec fn has(&self, n: int) -> bool {
        self.pos_view() + n <= self.data_view().len()
    }

    /// The next `n` bytes.
    pub open spec fn ahead(&self, n: int) -> Seq<u8> {
        self.data_view().subrange(self.pos_view(), self.pos_view() + n)
    }

    /// The reader after consuming `n` more bytes.
    pub open spec fn advanced(&self, after: &Reader, n: int) -> bool {
        after.data_view() == self.data_view() && after.pos_view() == self.pos_view() + n
    }

    pub fn new(data: &'a [u8]) -> (r: Reader<'a>)
        ensures
            r.data_view() == data@,
            r.pos_view() == 0,
    {
        Reader { data, pos: 0 }
    }

    fn take(&mut self, n: usize) -> (r: Option<&'a [u8]>)
        ensures
            old(self).has(n as int) ==> (r matches Some(s) && s@ == old(self).ahead(n as int)
                && old(self).advanced(final(self), n as int)),
            !old(self).has(n as int) ==> r is None && *final(self) == *old(self),
    {
        let len = self.data.len();
        let end = match self.pos.checked_add(n) {
            Some(e) => e,
            None => return None,
        };
        if end > len {
            return None;
        }
        let s = vstd::slice::slice_subrange(self.data, self.pos, end);
        self.pos = end;
        Some(s)
    }

    pub fn u8(&mut self) -> (r: Option<u8>)
        ensures
            old(self).has(1) ==> r == Some(old(self).ahead(1)[0]) && old(self).advanced(
                final(self),
                1,
            ),
            !old(self).has(1) ==> r is None && *final(self) == *old(self),
    {
        match self.take(1) {
            Some(s) => Some(s[0]),
            None => None,
        }
    }

    /// A flag: any byte but 0 is true.
    pub fn bool(&mut self) -> (r: Option<bool>)
        ensures
            old(self).has(1) ==> r == Some(old(self).ahead(1)[0] != 0) && old(self).advanced(
                final(self),
                1,
            ),
            !old(self).has(1) ==> r is None && *final(self) == *old(self),
    {
        match self.u8() {
            Some(v) => Some(v != 0),
            None => None,
        }
    }

    pub fn u16(&mut self) -> (r: Option<u16>)
        ensures
            old(self).has(2) ==> r == Some(from_le16(old(self).ahead(2))) && old(self).advanced(
                final(self),
                2,
            ),
            !old(self).has(2) ==> r is None && *final(self) == *old(self),
    {
        match self.take(2) {
            Some(s) => Some((s[0] as u16) | ((s[1] as u16) << 8u16)),
            None => None,
        }
    }

    pub fn i16(&mut self) -> (r: Option<i16>)
        ensures
            old(self).has(2) ==> r == Some(from_le16(old(self).ahead(2)) as i16)
                && old(self).advanced(final(self), 2),
            !old(self).has(2) ==> r is None && *final(self) == *old(self),
    {
        match self.u16() {
            Some(v) => Some(v as i16),
            None => None,
        }
    }

    pub fn u32(&mut self) -> (r: Option<u32>)
        ensures
            old(self).has(4) ==> r == Some(from_le32(old(self).ahead(4))) && old(self).advanced(
                final(self),
                4,
            ),
            !old(self).has(4) ==> r is None && *final(self) == *old(self),
    {
        match self.take(4) {
            Some(s) => Some(
                (s[0] as u32) | ((s[1] as u32) << 8u32) | ((s[2] as u32) << 16u32) | ((
                s[3] as u32) << 24u32),
            ),
            None => None,
        }
    }

    pub fn i32(&mut self) -> (r: Option<i32>)
        ensures
            old(self).has(4) ==> r == Some(from_le32(old(self).ahead(4)) as i32)
                && old(self).advanced(final(self), 4),
            !old(self).has(4) ==> r is None && *final(self) == *old(self),
    {
        match self.u32() {
            Some(v) => Some(v as i32),
            None => None,
        }
    }

    pub fn u64(&mut self) -> (r: Option<u64>)
        ensures
            old(self).has(8) ==> r == Some(from_le64(old(self).ahead(8))) && old(self).advanced(
                final(self),
                8,
            ),
            !old(self).has(8) ==> r is None && *final(self) == *old(self),
    {
        match self.take(8) {
            Some(s) => Some(
                (s[0] as u64) | ((s[1] as u64) << 8u64) | ((s[2] as u64) << 16u64) | ((
                s[3] as u64) << 24u64) | ((s[4] as u64) << 32u64) | ((s[5] as u64) << 40u64) | ((
                s[6] as u64) << 48u64) | ((s[7] as u64) << 56u64),
            ),
            None => None,
        }
    }

    /// A byte string written by [`Writer::bytes`]: a `u32` length, then that
    /// many bytes. Refused, consuming nothing, unless all of it is there.
    pub fn bytes(&mut self) -> (r: Option<&'a [u8]>)
        ensures
            ({
                let n = from_le32(old(self).ahead(4)) as int;
                &&& (old(self).has(4) && old(self).has(4 + n)) ==> (r matches Some(s) && s@
                    == old(self).data_view().subrange(
                    old(self).pos_view() + 4,
                    old(self).pos_view() + 4 + n,
                ) && old(self).advanced(final(self), 4 + n))
                &&& !old(self).has(4) ==> r is None && *final(self) == *old(self)
                &&& (old(self).has(4) && !old(self).has(4 + n)) ==> r is None
                    && old(self).advanced(final(self), 4)
            }),
    {
        let n = match self.u32() {
            Some(v) => v as usize,
            None => return None,
        };
        self.take(n)
    }

    pub fn vec2(&mut self) -> (r: Option<V2>)
        ensures
            old(self).has(8) ==> r == Some(
                V2 {
                    x: from_le32(old(self).ahead(4)) as i32,
                    y: from_le32(old(self).ahead(8).subrange(4, 8)) as i32,
                },
            ) && old(self).advanced(final(self), 8),
            !old(self).has(8) ==> r is None,
            !old(self).has(8) ==> final(self).data_view() == old(self).data_view(),
    {
        let x = match self.i32() {
            Some(v) => v,
            None => return None,
        };
        let y = match self.i32() {
            Some(v) => v,
            None => return None,
        };
        proof {
            assert(old(self).ahead(8).subrange(4, 8) =~= old(self).data_view().subrange(
                old(self).pos_view() + 4,
                old(self).pos_view() + 8,
            ));
        }
        Some(V2::new(x, y))
    }

    /// True when everything has been consumed.
    pub fn at_end(&self) -> (r: bool)
        ensures
            r == (self.pos_view() >= self.data_view().len()),
    {
        self.pos >= self.data.len()
    }
}

/// What two bytes written by [`Writer::u16`] read back as.
pub proof fn lemma_u16_roundtrip(v: u16)
    ensures
        from_le16(le16(v)) == v,
{
    let b0 = v as u8;
    let b1 = (v >> 8u16) as u8;
    assert(((b0 as u16) | ((b1 as u16) << 8u16)) == v) by (bit_vector)
        requires
            b0 == v as u8,
            b1 == (v >> 8u16) as u8,
    ;
}

/// What four bytes written by [`Writer::u32`] read back as.
pub proof fn lemma_u32_roundtrip(v: u32)
    ensures
        from_le32(le32(v)) == v,
{
    let b0 = v as u8;
    let b1 = (v >> 8u32) as u8;
    let b2 = (v >> 16u32) as u8;
    let b3 = (v >> 24u32) as u8;
    assert(((b0 as u32) | ((b1 as u32) << 8u32) | ((b2 as u32) << 16u32) | ((b3 as u32)
        << 24u32)) == v) by (bit_vector)
        requires
            b0 == v as u8,
            b1 == (v >> 8u32) as u8,
            b2 == (v >> 16u32) as u8,
            b3 == (v >> 24u32) as u8,
    ;
}

/// What eight bytes written by [`Writer::u64`] read back as.
pub proof fn lemma_u64_roundtrip(v: u64)
    ensures
        from_le64(le64(v)) == v,
{
    let b0 = v as u8;
    let b1 = (v >> 8u64) as u8;
    let b2 = (v >> 16u64) as u8;
    let b3 = (v >> 24u64) as u8;
    let b4 = (v >> 32u64) as u8;
    let b5 = (v >> 40u64) as u8;
    let b6 = (v >> 48u64) as u8;
    let b7 = (v >> 56u64) as u8;
    assert(((b0 as u64) | ((b1 as u64) << 8u64) | ((b2 as u64) << 16u64) | ((b3 as u64)
        << 24u64) | ((b4 as u64) << 32u64) | ((b5 as u64) << 40u64) | ((b6 as u64) << 48u64) | ((
    b7 as u64) << 56u64)) == v) by (bit_vector)
        requires
            b0 == v as u8,
            b1 == (v >> 8u64) as u8,
            b2 == (v >> 16u64) as u8,
            b3 == (v >> 24u64) as u8,
            b4 == (v >> 32u64) as u8,
            b5 == (v >> 40u64) as u8,
            b6 == (v >> 48u64) as u8,
            b7 == (v >> 56u64) as u8,
    ;
}

/// Signed values survive being written and read as their unsigned bits.
pub proof fn lemma_signed_roundtrip(a: i16, b: i32)
    ensures
        from_le16(le16(a as u16)) as i16 == a,
        from_le32(le32(b as u32)) as i32 == b,
{
    lemma_u16_roundtrip(a as u16);
    lemma_u32_roundtrip(b as u32);
    assert((a as u16) as i16 == a) by (bit_vector);
    assert((b as u32) as i32 == b) by (bit_vector);
}


/// The starting value of the world checksum (FNV-1a's offset basis).
pub const FNV_OFFSET: u64 = 0xcbf2_9ce4_8422_2325;

/// The FNV-1a multiplier.
pub const FNV_PRIME: u64 = 0x1000_0000_01b3;

/// One FNV-1a step over a whole word.
pub open spec fn mix(h: u64, v: u64) -> u64 {
    (h ^ v).wrapping_mul(FNV_PRIME)
}

/// FNV-1a over a sequence of words, in order.
pub open spec fn fnv(h: u64, words: Seq<u64>) -> u64
    decreases words.len(),
{
    if words.len() == 0 {
        h
    } else {
        mix(fnv(h, words.drop_last()), words.last())
    }
}

/// Up to eight bytes packed into a word, the first byte lowest.
pub open spec fn pack(bytes: Seq<u8>) -> u64
    decreases bytes.len(),
{
    if bytes.len() == 0 {
        0
    } else {
        pack(bytes.drop_last()) | ((bytes.last() as u64) << ((8 * (bytes.len() - 1)) as u64))
    }
}

/// A map's tiles as words of eight, the last one possibly shorter.
pub open spec fn tile_words(tiles: Seq<u8>, n: int) -> Seq<u64>
    decreases n,
{
    if n <= 0 {
        Seq::empty()
    } else {
        tile_words(tiles, n - 1).push(
            pack(tiles.subrange(8 * (n - 1), if 8 * n < tiles.len() { 8 * n } else { tiles.len() as int })),
        )
    }
}

/// How many words a map of `len` tiles makes.
pub open spec fn word_count(len: int) -> int {
    (len + 7) / 8
}

/// The words every level's map contributes, level by level.
pub open spec fn level_words(levels: Seq<crate::level::Level>, n: int) -> Seq<u64>
    decreases n,
{
    if n <= 0 {
        Seq::empty()
    } else {
        let t = levels[n - 1].map.cells();
        level_words(levels, n - 1) + tile_words(t, word_count(t.len() as int))
    }
}

/// The five words a live entity in slot `i` contributes.
pub open spec fn entity_words(i: int, e: Entity) -> Seq<u64> {
    seq![
        (i as u16 as u64) | ((e.gen as u64) << 16u64),
        kind_code(e.kind) as u64,
        (e.pos.x as u32 as u64) | ((e.pos.y as u32 as u64) << 32u64),
        (e.hp as u16) as u64,
        (e.state as u64) | ((e.timer as u64) << 8u64),
    ]
}

/// The words the live entities among the first `n` slots contribute.
pub open spec fn slab_words(slots: Seq<Entity>, n: int) -> Seq<u64>
    decreases n,
{
    if n <= 0 {
        Seq::empty()
    } else if slots[n - 1].alive {
        slab_words(slots, n - 1) + entity_words(n - 1, slots[n - 1])
    } else {
        slab_words(slots, n - 1)
    }
}

/// The four words a player contributes.
pub open spec fn player_words(p: crate::world::Player) -> Seq<u64> {
    seq![
        p.inv.bits() as u64,
        (p.inv.rupees as u64) | ((p.inv.keys as u64) << 16u64),
        (p.kills as u64) | ((p.deaths as u64) << 32u64),
        p.respawn as u64,
    ]
}

/// The words the first `n` players contribute.
pub open spec fn seat_words(players: Seq<crate::world::Player>, n: int) -> Seq<u64>
    decreases n,
{
    if n <= 0 {
        Seq::empty()
    } else {
        seat_words(players, n - 1) + player_words(players[n - 1])
    }
}

/// Everything the checksum hashes: the frame, the random state, every map,
/// every live entity and every player, in that order.
pub open spec fn checksum_words(w: World) -> Seq<u64> {
    seq![w.frame, w.rng.st()] + level_words(w.levels@, w.levels@.len() as int) + slab_words(
        w.entities.slots_view(),
        w.entities.slots_view().len() as int,
    ) + seat_words(w.players@, w.players@.len() as int)
}

/// The words of the first `m` slots start the words of the first `n`.
proof fn lemma_slab_words_prefix(slots: Seq<Entity>, m: int, n: int)
    requires
        0 <= m <= n <= slots.len(),
    ensures
        slab_words(slots, m).len() <= slab_words(slots, n).len(),
        slab_words(slots, n).subrange(0, slab_words(slots, m).len() as int) == slab_words(slots, m),
    decreases n - m,
{
    if m < n {
        lemma_slab_words_prefix(slots, m, n - 1);
        let a = slab_words(slots, n - 1);
        if slots[n - 1].alive {
            let b = entity_words(n - 1, slots[n - 1]);
            assert((a + b).subrange(0, slab_words(slots, m).len() as int) =~= a.subrange(0, slab_words(slots, m).len() as int));
        }
    } else {
        assert(slab_words(slots, n).subrange(0, slab_words(slots, n).len() as int) =~= slab_words(slots, n));
    }
}

/// Slots that agree below `i` give the same words there.
proof fn lemma_slab_words_same(s1: Seq<Entity>, s2: Seq<Entity>, i: int)
    requires
        0 <= i <= s1.len(),
        i <= s2.len(),
        forall|k: int| 0 <= k < i ==> s1[k] == s2[k],
    ensures
        slab_words(s1, i) == slab_words(s2, i),
    decreases i,
{
    if i > 0 {
        lemma_slab_words_same(s1, s2, i - 1);
    }
}

/// Drift in a live entity's health shows in the checksum: two worlds alike
/// but for the health of one live entity, as a 16-bit value, hash different
/// words.
pub proof fn lemma_checksum_sees_hp(w1: World, w2: World, i: int)
    requires
        w2.frame == w1.frame,
        w2.rng.st() == w1.rng.st(),
        w2.levels == w1.levels,
        w2.players == w1.players,
        0 <= i < w1.entities.slots_view().len(),
        w1.entities.slots_view()[i].alive,
        w2.entities.slots_view() == w1.entities.slots_view().update(
            i,
            Entity { hp: w2.entities.slots_view()[i].hp, ..w1.entities.slots_view()[i] },
        ),
        w1.entities.slots_view()[i].hp as u16 != w2.entities.slots_view()[i].hp as u16,
    ensures
        checksum_words(w1) != checksum_words(w2),
{
    let s1 = w1.entities.slots_view();
    let s2 = w2.entities.slots_view();
    let n = s1.len() as int;
    assert(s2.len() == n);
    assert forall|k: int| 0 <= k < i implies s1[k] == s2[k] by {}
    lemma_slab_words_same(s1, s2, i);
    let p = slab_words(s1, i);
    lemma_slab_words_prefix(s1, i + 1, n);
    lemma_slab_words_prefix(s2, i + 1, n);
    assert(slab_words(s1, i + 1) == p + entity_words(i, s1[i]));
    assert(slab_words(s2, i + 1) == p + entity_words(i, s2[i]));
    let j: int = p.len() as int + 3;
    assert(slab_words(s1, n)[j] == slab_words(s1, n).subrange(0, p.len() + 5 as int)[j]);
    assert(slab_words(s1, n)[j] == (s1[i].hp as u16) as u64);
    assert(slab_words(s2, n)[j] == slab_words(s2, n).subrange(0, p.len() + 5 as int)[j]);
    assert(slab_words(s2, n)[j] == (s2[i].hp as u16) as u64);
    let head = seq![w1.frame, w1.rng.st()] + level_words(w1.levels@, w1.levels@.len() as int);
    assert(seq![w2.frame, w2.rng.st()] + level_words(w2.levels@, w2.levels@.len() as int) == head);
    let c1 = checksum_words(w1);
    let c2 = checksum_words(w2);
    assert(c1[head.len() as int + j] == slab_words(s1, n)[j]);
    assert(c2[head.len() as int + j] == slab_words(s2, n)[j]);
}

/// Hashing a sequence and then one more word is hashing the longer sequence.
pub proof fn lemma_fnv_push(h: u64, words: Seq<u64>, v: u64)
    ensures
        fnv(h, words.push(v)) == mix(fnv(h, words), v),
{
    assert(words.push(v).drop_last() =~= words);
}

/// Hashing two sequences one after the other is hashing them joined.
pub proof fn lemma_fnv_concat(h: u64, a: Seq<u64>, b: Seq<u64>)
    ensures
        fnv(fnv(h, a), b) == fnv(h, a + b),
    decreases b.len(),
{
    if b.len() == 0 {
        assert(a + b =~= a);
    } else {
        lemma_fnv_concat(h, a, b.drop_last());
        assert((a + b).drop_last() =~= a + b.drop_last());
        assert((a + b).last() == b.last());
    }
}

impl World {
    /// A hash of everything that affects play: FNV-1a over
    /// [`checksum_words`].
    ///
    /// Two machines running the same inputs must agree on this. When they stop
    /// agreeing, the simulations have diverged and the game is no longer the
    /// same game on both screens.
    pub fn checksum(&self) -> (r: u64)
        requires
            self.wf(),
        ensures
            r == fnv(FNV_OFFSET, checksum_words(*self)),
    {
        let mut h: u64 = FNV_OFFSET;
        h = (h ^ self.frame).wrapping_mul(FNV_PRIME);
        h = (h ^ self.rng.state()).wrapping_mul(FNV_PRIME);
        let ghost head = seq![self.frame, self.rng.st()];
        proof {
            lemma_fnv_push(FNV_OFFSET, seq![], self.frame);
            assert(seq![self.frame] =~= Seq::<u64>::empty().push(self.frame));
            lemma_fnv_push(FNV_OFFSET, seq![self.frame], self.rng.st());
            assert(head =~= seq![self.frame].push(self.rng.st()));
            assert(fnv(FNV_OFFSET, Seq::<u64>::empty()) == FNV_OFFSET);
        }
        let mut l: usize = 0;
        while l < self.levels.len()
            invariant
                self.wf(),
                l <= self.levels@.len(),
                h == fnv(FNV_OFFSET, head + level_words(self.levels@, l as int)),
            decreases self.levels@.len() - l,
        {
            let raw = self.levels[l].map.raw();
            let ghost before = head + level_words(self.levels@, l as int);
            let n = raw.len();
            let mut start: usize = 0;
            let mut c: usize = 0;
            proof {
                assert(crate::world::playable(self.levels@[l as int]));
            }
            while start < n
                invariant
                    raw@ == self.levels@[l as int].map.cells(),
                    n == raw@.len(),
                    n <= i32::MAX,
                    start <= n,
                    start < n ==> start == 8 * c,
                    start == n ==> 8 * c >= n,
                    c <= word_count(n as int),
                    start < n ==> c < word_count(n as int),
                    start >= n ==> c == word_count(n as int),
                    h == fnv(FNV_OFFSET, before + tile_words(raw@, c as int)),
                decreases n - start,
            {
                let end = if start + 8 < n { start + 8 } else { n };
                let mut v: u64 = 0;
                let mut i: usize = start;
                while i < end
                    invariant
                        start <= i <= end,
                        end <= n,
                        end - start <= 8,
                        n == raw@.len(),
                        v == pack(raw@.subrange(start as int, i as int)),
                    decreases end - i,
                {
                    proof {
                        assert(raw@.subrange(start as int, i + 1).drop_last() =~= raw@.subrange(start as int, i as int));
                    }
                    v = v | ((raw[i] as u64) << (((i - start) * 8) as u64));
                    i = i + 1;
                }
                proof {
                    lemma_fnv_push(FNV_OFFSET, before + tile_words(raw@, c as int), v);
                    assert((before + tile_words(raw@, c as int)).push(v) =~= before + tile_words(raw@, c + 1));
                }
                h = (h ^ v).wrapping_mul(FNV_PRIME);
                start = end;
                c = c + 1;
                proof {
                    if start < n {
                        assert(c < word_count(n as int));
                    } else {
                        assert(c == word_count(n as int));
                    }
                }
            }
            proof {
                assert(before + tile_words(raw@, word_count(n as int)) =~= head + level_words(self.levels@, l + 1));
            }
            l = l + 1;
        }
        let ghost mid = head + level_words(self.levels@, self.levels@.len() as int);
        let slots = self.entities.slots();
        let mut i: usize = 0;
        while i < slots.len()
            invariant
                i <= slots@.len(),
                slots@ == self.entities.slots_view(),
                slots@.len() <= 0x10000,
                h == fnv(FNV_OFFSET, mid + slab_words(slots@, i as int)),
            decreases slots@.len() - i,
        {
            let e = &slots[i];
            if e.alive {
                let ghost before = mid + slab_words(slots@, i as int);
                let words: [u64; 5] = [
                    (i as u16 as u64) | ((e.gen as u64) << 16u64),
                    e.kind.to_u8() as u64,
                    (e.pos.x as u32 as u64) | ((e.pos.y as u32 as u64) << 32u64),
                    (e.hp as u16) as u64,
                    (e.state as u64) | ((e.timer as u64) << 8u64),
                ];
                let mut k: usize = 0;
                while k < 5
                    invariant
                        k <= 5,
                        words@ == entity_words(i as int, slots@[i as int]),
                        h == fnv(FNV_OFFSET, before + words@.take(k as int)),
                    decreases 5 - k,
                {
                    proof {
                        lemma_fnv_push(FNV_OFFSET, before + words@.take(k as int), words@[k as int]);
                        assert((before + words@.take(k as int)).push(words@[k as int]) =~= before + words@.take(k + 1));
                    }
                    h = (h ^ words[k]).wrapping_mul(FNV_PRIME);
                    k = k + 1;
                }
                proof {
                    assert(words@.take(5) =~= words@);
                    assert(before + words@ =~= mid + slab_words(slots@, i + 1));
                }
            } else {
                proof {
                    assert(slab_words(slots@, i + 1) == slab_words(slots@, i as int));
                }
            }
            i = i + 1;
        }
        let ghost mid2 = mid + slab_words(self.entities.slots_view(), self.entities.slots_view().len() as int);
        let mut p: usize = 0;
        while p < self.players.len()
            invariant
                p <= self.players@.len(),
                h == fnv(FNV_OFFSET, mid2 + seat_words(self.players@, p as int)),
            decreases self.players@.len() - p,
        {
            let pl = &self.players[p];
            let ghost before = mid2 + seat_words(self.players@, p as int);
            let words: [u64; 4] = [
                pl.inv.owned_bits() as u64,
                (pl.inv.rupees as u64) | ((pl.inv.keys as u64) << 16u64),
                (pl.kills as u64) | ((pl.deaths as u64) << 32u64),
                pl.respawn as u64,
            ];
            let mut k: usize = 0;
            while k < 4
                invariant
                    k <= 4,
                    words@ == player_words(self.players@[p as int]),
                    h == fnv(FNV_OFFSET, before + words@.take(k as int)),
                decreases 4 - k,
            {
                proof {
                    lemma_fnv_push(FNV_OFFSET, before + words@.take(k as int), words@[k as int]);
                    assert((before + words@.take(k as int)).push(words@[k as int]) =~= before + words@.take(k + 1));
                }
                h = (h ^ words[k]).wrapping_mul(FNV_PRIME);
                k = k + 1;
            }
            proof {
                assert(words@.take(4) =~= words@);
                assert(before + words@ =~= mid2 + seat_words(self.players@, p + 1));
            }
            p = p + 1;
        }
        proof {
            assert(mid2 + seat_words(self.players@, self.players@.len() as int) =~= checksum_words(*self));
        }
        h
    }
}


/// Snapshot format version. Bump when the layout changes.
pub const VERSION: u16 = 1;

/// The bytes one entity takes in a snapshot.
pub const ENTITY_BYTES: usize = 84;

/// The first half of an entity's snapshot bytes: identity, place and motion.
pub open spec fn enc_entity_head(e: Entity) -> Seq<u8> {
    seq![kind_code(e.kind), if e.alive { 1u8 } else { 0u8 }] + le16(e.gen) + le16(e.level)
        + le_vec2(e.pos) + le_vec2(e.vel) + le32(e.z as u32) + le32(e.vz as u32) + seq![
        crate::geom::dir_code(e.dir),
    ] + le16(e.hp as u16) + le16(e.max_hp as u16) + le_vec2(e.knock)
}

/// The second half: timers, flags, scratch data, owner and body.
pub open spec fn enc_entity_tail(e: Entity) -> Seq<u8> {
    seq![e.knock_frames, e.iframes, e.stun, e.state] + le16(e.timer) + seq![e.anim, e.anim_timer]
        + le32(e.flags) + le32(e.data[0] as u32) + le32(e.data[1] as u32) + le32(
        e.data[2] as u32,
    ) + le32(e.data[3] as u32) + le16(e.owner.idx) + le16(e.owner.gen) + seq![e.player] + le32(
        e.body_w as u32,
    ) + le32(e.body_h as u32)
}

/// How an entity is laid out in a snapshot.
pub open spec fn enc_entity(e: Entity) -> Seq<u8> {
    enc_entity_head(e) + enc_entity_tail(e)
}

/// Writes the first half of an entity.
#[verifier::rlimit(60)]
fn write_entity_head(w: &mut Writer, e: &Entity)
    ensures
        final(w).written() == old(w).written() + enc_entity_head(*e),
{
    w.u8(e.kind.to_u8());
    w.bool(e.alive);
    w.u16(e.generation());
    w.u16(e.level);
    w.vec2(e.pos);
    w.vec2(e.vel);
    w.i32(e.z);
    w.i32(e.vz);
    w.u8(e.dir.to_u8());
    w.i16(e.hp);
    w.i16(e.max_hp);
    w.vec2(e.knock);
    proof {
        assert(final(w).written() =~= old(w).written() + enc_entity_head(*e));
    }
}

/// Writes the second half of an entity.
#[verifier::rlimit(60)]
fn write_entity_tail(w: &mut Writer, e: &Entity)
    ensures
        final(w).written() == old(w).written() + enc_entity_tail(*e),
{
    w.u8(e.knock_frames);
    w.u8(e.iframes);
    w.u8(e.stun);
    w.u8(e.state);
    w.u16(e.timer);
    w.u8(e.anim);
    w.u8(e.anim_timer);
    w.u32(e.flags);
    w.i32(e.data[0]);
    w.i32(e.data[1]);
    w.i32(e.data[2]);
    w.i32(e.data[3]);
    w.u16(e.owner.idx);
    w.u16(e.owner.gen);
    w.u8(e.player);
    w.i32(e.body_w);
    w.i32(e.body_h);
    proof {
        assert(final(w).written() =~= old(w).written() + enc_entity_tail(*e));
    }
}

/// Writes one entity; see [`enc_entity`].
pub fn write_entity(w: &mut Writer, e: &Entity)
    ensures
        final(w).written() == old(w).written() + enc_entity(*e),
{
    write_entity_head(w, e);
    write_entity_tail(w, e);
    proof {
        assert(final(w).written() =~= old(w).written() + enc_entity(*e));
    }
}

/// The fields an entity's first half carries agree.
pub open spec fn head_agrees(e: Entity, e0: Entity) -> bool {
    &&& e.kind == e0.kind && e.alive == e0.alive && e.gen == e0.gen && e.level == e0.level
    &&& e.pos == e0.pos && e.vel == e0.vel && e.z == e0.z && e.vz == e0.vz && e.dir == e0.dir
    &&& e.hp == e0.hp && e.max_hp == e0.max_hp && e.knock == e0.knock
}

proof fn lemma_vec2_at(d: Seq<u8>, p: int, v: V2)
    requires
        bytes_at(d, p, le_vec2(v)),
    ensures
        from_le32(d.subrange(p, p + 8)) as i32 == v.x,
        from_le32(d.subrange(p, p + 8).subrange(4, 8)) as i32 == v.y,
{
    lemma_bytes_split(d, p, le32(v.x as u32), le32(v.y as u32));
    assert(d.subrange(p, p + 8).subrange(4, 8) =~= d.subrange(p + 4, p + 8));
    assert(from_le32(d.subrange(p, p + 8)) == from_le32(d.subrange(p, p + 4)));
    lemma_signed_roundtrip(0, v.x);
    lemma_signed_roundtrip(0, v.y);
}

/// Reads the first half of an entity written by [`write_entity`].
#[verifier::spinoff_prover]
#[verifier::rlimit(60)]
fn read_entity_head(r: &mut Reader) -> (out: Option<Entity>)
    ensures
        final(r).data_view() == old(r).data_view(),
        old(r).has(43) ==> out is Some && final(r).pos_view() == old(r).pos_view() + 43,
        out is Some ==> final(r).pos_view() == old(r).pos_view() + 43,
        forall|e0: Entity|
            #[trigger] bytes_at(old(r).data_view(), old(r).pos_view(), enc_entity_head(e0)) ==> (out matches Some(e)
                && head_agrees(e, e0)),
{
    let ghost d = old(r).data_view();
    let ghost p = old(r).pos_view();
    proof {
        assert forall|e0: Entity| #[trigger] bytes_at(d, p, enc_entity_head(e0)) implies p + 43 <= d.len() by {
            assert(enc_entity_head(e0).len() == 43);
        }
    }
    let mut e = Entity::default();
    let kb = r.u8()?;
    e.kind = Kind::from_u8(kb);
    e.alive = r.bool()?;
    e.set_generation(r.u16()?);
    e.level = r.u16()?;
    e.pos = r.vec2()?;
    e.vel = r.vec2()?;
    e.z = r.i32()?;
    e.vz = r.i32()?;
    let db = r.u8()?;
    e.dir = Dir::from_u8(db);
    e.hp = r.i16()?;
    e.max_hp = r.i16()?;
    e.knock = r.vec2()?;
    proof {
        assert forall|e0: Entity| #[trigger] bytes_at(d, p, enc_entity_head(e0)) implies head_agrees(e, e0) by {
            let x = enc_entity_head(e0);
            assert(x.len() == 43);
            lemma_bytes_sub(d, p, x, 0, 1);
            lemma_bytes_sub(d, p, x, 1, 1);
            lemma_bytes_sub(d, p, x, 2, 2);
            lemma_bytes_sub(d, p, x, 4, 2);
            lemma_bytes_sub(d, p, x, 6, 8);
            lemma_bytes_sub(d, p, x, 14, 8);
            lemma_bytes_sub(d, p, x, 22, 4);
            lemma_bytes_sub(d, p, x, 26, 4);
            lemma_bytes_sub(d, p, x, 30, 1);
            lemma_bytes_sub(d, p, x, 31, 2);
            lemma_bytes_sub(d, p, x, 33, 2);
            lemma_bytes_sub(d, p, x, 35, 8);
            assert(x.subrange(0, 1) =~= seq![kind_code(e0.kind)]);
            assert(x.subrange(1, 2) =~= seq![if e0.alive { 1u8 } else { 0u8 }]);
            assert(x.subrange(2, 4) =~= le16(e0.gen));
            assert(x.subrange(4, 6) =~= le16(e0.level));
            assert(x.subrange(6, 14) =~= le_vec2(e0.pos));
            assert(x.subrange(14, 22) =~= le_vec2(e0.vel));
            assert(x.subrange(22, 26) =~= le32(e0.z as u32));
            assert(x.subrange(26, 30) =~= le32(e0.vz as u32));
            assert(x.subrange(30, 31) =~= seq![crate::geom::dir_code(e0.dir)]);
            assert(x.subrange(31, 33) =~= le16(e0.hp as u16));
            assert(x.subrange(33, 35) =~= le16(e0.max_hp as u16));
            assert(x.subrange(35, 43) =~= le_vec2(e0.knock));
            crate::entity::lemma_kind_code_roundtrip(e0.kind);
            lemma_u16_roundtrip(e0.gen);
            lemma_u16_roundtrip(e0.level);
            lemma_vec2_at(d, p + 6, e0.pos);
            lemma_vec2_at(d, p + 14, e0.vel);
            lemma_vec2_at(d, p + 35, e0.knock);
            lemma_signed_roundtrip(e0.hp, e0.z);
            lemma_signed_roundtrip(e0.max_hp, e0.vz);
        }
    }
    Some(e)
}

/// Reads the second half of an entity written by [`write_entity`] into `e`.
#[verifier::spinoff_prover]
#[verifier::rlimit(60)]
fn read_entity_tail(r: &mut Reader, e: Entity) -> (out: Option<Entity>)
    ensures
        final(r).data_view() == old(r).data_view(),
        old(r).has(41) ==> out is Some && final(r).pos_view() == old(r).pos_view() + 41,
        out is Some ==> final(r).pos_view() == old(r).pos_view() + 41,
        forall|e0: Entity|
            #[trigger] bytes_at(old(r).data_view(), old(r).pos_view(), enc_entity_tail(e0)) ==> out == Some(
                Entity {
                    knock_frames: e0.knock_frames,
                    iframes: e0.iframes,
                    stun: e0.stun,
                    state: e0.state,
                    timer: e0.timer,
                    anim: e0.anim,
                    anim_timer: e0.anim_timer,
                    flags: e0.flags,
                    data: e0.data,
                    owner: e0.owner,
                    player: e0.player,
                    body_w: e0.body_w,
                    body_h: e0.body_h,
                    ..e
                },
            ),
{
    let ghost d = old(r).data_view();
    let ghost p = old(r).pos_view();
    proof {
        assert forall|e0: Entity| #[trigger] bytes_at(d, p, enc_entity_tail(e0)) implies p + 41 <= d.len() by {
            assert(enc_entity_tail(e0).len() == 41);
        }
    }
    let mut e = e;
    e.knock_frames = r.u8()?;
    e.iframes = r.u8()?;
    e.stun = r.u8()?;
    e.state = r.u8()?;
    e.timer = r.u16()?;
    e.anim = r.u8()?;
    e.anim_timer = r.u8()?;
    e.flags = r.u32()?;
    let d0 = r.i32()?;
    let d1 = r.i32()?;
    let d2 = r.i32()?;
    let d3 = r.i32()?;
    e.data = [d0, d1, d2, d3];
    let idx = r.u16()?;
    let gen = r.u16()?;
    e.owner = EntityId { idx, gen };
    e.player = r.u8()?;
    e.body_w = r.i32()?;
    e.body_h = r.i32()?;
    proof {
        assert forall|e0: Entity| #[trigger] bytes_at(d, p, enc_entity_tail(e0)) implies e == (Entity {
            knock_frames: e0.knock_frames,
            iframes: e0.iframes,
            stun: e0.stun,
            state: e0.state,
            timer: e0.timer,
            anim: e0.anim,
            anim_timer: e0.anim_timer,
            flags: e0.flags,
            data: e0.data,
            owner: e0.owner,
            player: e0.player,
            body_w: e0.body_w,
            body_h: e0.body_h,
            ..e
        }) by {
            let x = enc_entity_tail(e0);
            assert(x.len() == 41);
            lemma_bytes_sub(d, p, x, 0, 4);
            lemma_bytes_sub(d, p, x, 4, 2);
            lemma_bytes_sub(d, p, x, 6, 2);
            lemma_bytes_sub(d, p, x, 8, 4);
            lemma_bytes_sub(d, p, x, 12, 4);
            lemma_bytes_sub(d, p, x, 16, 4);
            lemma_bytes_sub(d, p, x, 20, 4);
            lemma_bytes_sub(d, p, x, 24, 4);
            lemma_bytes_sub(d, p, x, 28, 2);
            lemma_bytes_sub(d, p, x, 30, 2);
            lemma_bytes_sub(d, p, x, 32, 1);
            lemma_bytes_sub(d, p, x, 33, 4);
            lemma_bytes_sub(d, p, x, 37, 4);
            assert(x.subrange(0, 4) =~= seq![e0.knock_frames, e0.iframes, e0.stun, e0.state]);
            assert(d[p] == x[0] && d[p + 1] == x[1] && d[p + 2] == x[2] && d[p + 3] == x[3]);
            assert(x.subrange(4, 6) =~= le16(e0.timer));
            assert(x.subrange(6, 8) =~= seq![e0.anim, e0.anim_timer]);
            assert(d[p + 6] == x[6] && d[p + 7] == x[7]);
            assert(x.subrange(8, 12) =~= le32(e0.flags));
            assert(x.subrange(12, 16) =~= le32(e0.data[0] as u32));
            assert(x.subrange(16, 20) =~= le32(e0.data[1] as u32));
            assert(x.subrange(20, 24) =~= le32(e0.data[2] as u32));
            assert(x.subrange(24, 28) =~= le32(e0.data[3] as u32));
            assert(x.subrange(28, 30) =~= le16(e0.owner.idx));
            assert(x.subrange(30, 32) =~= le16(e0.owner.gen));
            assert(x.subrange(32, 33) =~= seq![e0.player]);
            assert(x.subrange(33, 37) =~= le32(e0.body_w as u32));
            assert(x.subrange(37, 41) =~= le32(e0.body_h as u32));
            lemma_u16_roundtrip(e0.timer);
            lemma_u32_roundtrip(e0.flags);
            lemma_signed_roundtrip(0, e0.data[0]);
            lemma_signed_roundtrip(0, e0.data[1]);
            lemma_signed_roundtrip(0, e0.data[2]);
            lemma_signed_roundtrip(0, e0.data[3]);
            lemma_u16_roundtrip(e0.owner.idx);
            lemma_u16_roundtrip(e0.owner.gen);
            lemma_signed_roundtrip(0, e0.body_w);
            lemma_signed_roundtrip(0, e0.body_h);
            assert(e.data =~= e0.data);
        }
    }
    Some(e)
}

/// Reads one entity written by [`write_entity`]; `None` when the data runs
/// out first. Bytes [`write_entity`] wrote for an entity give it back.
pub fn read_entity(r: &mut Reader) -> (out: Option<Entity>)
    ensures
        final(r).data_view() == old(r).data_view(),
        out.is_some() ==> final(r).pos_view() == old(r).pos_view() + ENTITY_BYTES,
        old(r).has(ENTITY_BYTES as int) ==> out.is_some(),
        forall|e0: Entity| #[trigger] bytes_at(old(r).data_view(), old(r).pos_view(), enc_entity(e0)) ==> out == Some(e0),
{
    let ghost d = old(r).data_view();
    let ghost p = old(r).pos_view();
    let e = read_entity_head(r)?;
    let ghost ph = r.pos_view();
    let out = read_entity_tail(r, e)?;
    proof {
        assert forall|e0: Entity| #[trigger] bytes_at(d, p, enc_entity(e0)) implies out == e0 by {
            lemma_bytes_split(d, p, enc_entity_head(e0), enc_entity_tail(e0));
            assert(enc_entity_head(e0).len() == 43);
        }
    }
    Some(out)
}


/// A flag byte.
pub open spec fn flag_byte(b: bool) -> u8 {
    if b { 1u8 } else { 0u8 }
}

/// How a room record is laid out.
pub open spec fn enc_room(r: Room) -> Seq<u8> {
    seq![crate::level::room_kind_code(r.kind), r.region, flag_byte(r.visited), flag_byte(r.cleared), r.exits]
}

/// The first `n` room records, in order.
pub open spec fn enc_rooms(rs: Seq<Room>, n: int) -> Seq<u8>
    decreases n,
{
    if n <= 0 { Seq::empty() } else { enc_rooms(rs, n - 1) + enc_room(rs[n - 1]) }
}

/// How a link is laid out.
pub open spec fn enc_link(l: Link) -> Seq<u8> {
    le32(l.from.0 as u32) + le32(l.from.1 as u32) + le16(l.to_level) + le_vec2(l.to_pos) + seq![
        crate::geom::dir_code(l.to_dir),
    ]
}

/// The first `n` links, in order.
pub open spec fn enc_links(ls: Seq<Link>, n: int) -> Seq<u8>
    decreases n,
{
    if n <= 0 { Seq::empty() } else { enc_links(ls, n - 1) + enc_link(ls[n - 1]) }
}

/// How a spawn placement is laid out.
pub open spec fn enc_spawn(s: Spawn) -> Seq<u8> {
    le16(s.room) + seq![s.kind] + le32(s.tx as u32) + le32(s.ty as u32) + le32(s.param as u32)
}

/// The first `n` spawns, in order.
pub open spec fn enc_spawns(ss: Seq<Spawn>, n: int) -> Seq<u8>
    decreases n,
{
    if n <= 0 { Seq::empty() } else { enc_spawns(ss, n - 1) + enc_spawn(ss[n - 1]) }
}

/// The fixed part of a level: kind, dungeon number and ground tile; the
/// map's size and tiles; the entrance.
pub open spec fn enc_level_head(l: Level) -> Seq<u8> {
    seq![crate::level::level_kind_code(l.kind), l.dungeon, l.ground] + le32(l.map.rw() as i32 as u32)
        + le32(l.map.rh() as i32 as u32) + le32(l.map.cells().len() as u32) + l.map.cells() + le_vec2(
        l.entrance,
    )
}

/// A counted list of rooms.
pub open spec fn enc_room_list(rs: Seq<Room>) -> Seq<u8> {
    le32(rs.len() as u32) + enc_rooms(rs, rs.len() as int)
}

/// A counted list of links.
pub open spec fn enc_link_list(ls: Seq<Link>) -> Seq<u8> {
    le32(ls.len() as u32) + enc_links(ls, ls.len() as int)
}

/// A counted list of spawns.
pub open spec fn enc_spawn_list(ss: Seq<Spawn>) -> Seq<u8> {
    le32(ss.len() as u32) + enc_spawns(ss, ss.len() as int)
}

/// How a level is laid out: the fixed part, then rooms, links and spawns,
/// each counted.
pub open spec fn enc_level(l: Level) -> Seq<u8> {
    enc_level_head(l) + enc_room_list(l.rooms@) + enc_link_list(l.links@) + enc_spawn_list(l.spawns@)
}

fn write_level_head(w: &mut Writer, l: &Level)
    requires
        l.map.cells().len() <= u32::MAX,
    ensures
        final(w).written() == old(w).written() + enc_level_head(*l),
{
    w.u8(l.kind.to_u8());
    w.u8(l.dungeon);
    w.u8(l.ground);
    w.i32(l.map.width_rooms());
    w.i32(l.map.height_rooms());
    let raw = l.map.raw();
    w.bytes(raw);
    w.vec2(l.entrance);
    proof {
        assert(final(w).written() =~= old(w).written() + enc_level_head(*l));
    }
}

fn write_rooms(w: &mut Writer, rooms: &Vec<Room>)
    ensures
        final(w).written() == old(w).written() + enc_room_list(rooms@),
{
    w.u32(rooms.len() as u32);
    let ghost w1 = w.written();
    let mut i: usize = 0;
    while i < rooms.len()
        invariant
            i <= rooms@.len(),
            w.written() == w1 + enc_rooms(rooms@, i as int),
        decreases rooms@.len() - i,
    {
        let r = &rooms[i];
        w.u8(r.kind.to_u8());
        w.u8(r.region);
        w.bool(r.visited);
        w.bool(r.cleared);
        w.u8(r.exits);
        proof {
            assert(w.written() =~= w1 + enc_rooms(rooms@, i + 1));
        }
        i = i + 1;
    }
    proof {
        assert(w.written() =~= old(w).written() + enc_room_list(rooms@));
    }
}

fn write_links(w: &mut Writer, links: &Vec<Link>)
    ensures
        final(w).written() == old(w).written() + enc_link_list(links@),
{
    w.u32(links.len() as u32);
    let ghost w2 = w.written();
    let mut j: usize = 0;
    while j < links.len()
        invariant
            j <= links@.len(),
            w.written() == w2 + enc_links(links@, j as int),
        decreases links@.len() - j,
    {
        let k = &links[j];
        w.i32(k.from.0);
        w.i32(k.from.1);
        w.u16(k.to_level);
        w.vec2(k.to_pos);
        w.u8(k.to_dir.to_u8());
        proof {
            assert(w.written() =~= w2 + enc_links(links@, j + 1));
        }
        j = j + 1;
    }
    proof {
        assert(w.written() =~= old(w).written() + enc_link_list(links@));
    }
}

fn write_spawns(w: &mut Writer, spawns: &Vec<Spawn>)
    ensures
        final(w).written() == old(w).written() + enc_spawn_list(spawns@),
{
    w.u32(spawns.len() as u32);
    let ghost w3 = w.written();
    let mut k: usize = 0;
    while k < spawns.len()
        invariant
            k <= spawns@.len(),
            w.written() == w3 + enc_spawns(spawns@, k as int),
        decreases spawns@.len() - k,
    {
        let s = &spawns[k];
        w.u16(s.room);
        w.u8(s.kind);
        w.i32(s.tx);
        w.i32(s.ty);
        w.i32(s.param);
        proof {
            assert(w.written() =~= w3 + enc_spawns(spawns@, k + 1));
        }
        k = k + 1;
    }
    proof {
        assert(w.written() =~= old(w).written() + enc_spawn_list(spawns@));
    }
}

/// Writes one level; see [`enc_level`].
pub fn write_level(w: &mut Writer, l: &Level)
    requires
        l.map.cells().len() <= u32::MAX,
    ensures
        final(w).written() == old(w).written() + enc_level(*l),
{
    write_level_head(w, l);
    write_rooms(w, &l.rooms);
    write_links(w, &l.links);
    write_spawns(w, &l.spawns);
    proof {
        assert(final(w).written() =~= old(w).written() + enc_level(*l));
    }
}

/// The bytes `x` stand in `d` from position `p` on.
pub open spec fn bytes_at(d: Seq<u8>, p: int, x: Seq<u8>) -> bool {
    &&& 0 <= p
    &&& p + x.len() <= d.len()
    &&& d.subrange(p, p + x.len()) == x
}

/// A piece of what stands at `p` stands at its own offset.
pub proof fn lemma_bytes_sub(d: Seq<u8>, p: int, x: Seq<u8>, i: int, k: int)
    requires
        bytes_at(d, p, x),
        0 <= i,
        0 <= k,
        i + k <= x.len(),
    ensures
        bytes_at(d, p + i, x.subrange(i, i + k)),
{
    assert(d.subrange(p + i, p + i + k) =~= d.subrange(p, p + x.len()).subrange(i, i + k));
}

/// Two pieces laid one after the other stand one after the other.
pub proof fn lemma_bytes_split(d: Seq<u8>, p: int, x: Seq<u8>, y: Seq<u8>)
    requires
        bytes_at(d, p, x + y),
    ensures
        bytes_at(d, p, x),
        bytes_at(d, p + x.len(), y),
{
    lemma_bytes_sub(d, p, x + y, 0, x.len() as int);
    lemma_bytes_sub(d, p, x + y, x.len() as int, y.len() as int);
    assert((x + y).subrange(0, x.len() as int) =~= x);
    assert((x + y).subrange(x.len() as int, (x.len() + y.len()) as int) =~= y);
}

/// The room kind a stored number reads back as; see [`Reader::u8`] in
/// [`read_level`].
pub open spec fn room_kind_of(b: u8) -> RoomKind {
    if b == 1 {
        RoomKind::Start
    } else if b == 2 {
        RoomKind::Treasure
    } else if b == 3 {
        RoomKind::Boss
    } else if b == 4 {
        RoomKind::Shop
    } else if b == 5 {
        RoomKind::Puzzle
    } else if b == 6 {
        RoomKind::Corridor
    } else if b == 7 {
        RoomKind::Empty
    } else {
        RoomKind::Normal
    }
}

/// The level kind a stored number reads back as.
pub open spec fn level_kind_of(b: u8) -> LevelKind {
    if b == 1 {
        LevelKind::Dungeon
    } else if b == 2 {
        LevelKind::Cave
    } else if b == 3 {
        LevelKind::Interior
    } else {
        LevelKind::Overworld
    }
}

proof fn lemma_enc_rooms(rs: Seq<Room>, n: int)
    requires
        0 <= n <= rs.len(),
    ensures
        enc_rooms(rs, n).len() == 5 * n,
        forall|i: int| 0 <= i < n ==> #[trigger] enc_rooms(rs, n).subrange(5 * i, 5 * i + 5) == enc_room(rs[i]),
    decreases n,
{
    if n > 0 {
        lemma_enc_rooms(rs, n - 1);
        let a = enc_rooms(rs, n - 1);
        let b = enc_room(rs[n - 1]);
        assert forall|i: int| 0 <= i < n implies #[trigger] enc_rooms(rs, n).subrange(5 * i, 5 * i + 5) == enc_room(rs[i]) by {
            if i < n - 1 {
                assert((a + b).subrange(5 * i, 5 * i + 5) =~= a.subrange(5 * i, 5 * i + 5));
            } else {
                assert((a + b).subrange(5 * i, 5 * i + 5) =~= b);
            }
        }
    }
}

/// Reads `count` room records written by [`write_level`].
#[verifier::spinoff_prover]
#[verifier::rlimit(60)]
fn read_rooms(r: &mut Reader, count: usize) -> (out: Option<Vec<Room>>)
    ensures
        final(r).data_view() == old(r).data_view(),
        out matches Some(v) ==> v@.len() == count,
        forall|rs: Seq<Room>|
            rs.len() == count && #[trigger] bytes_at(old(r).data_view(), old(r).pos_view(), enc_rooms(rs, count as int))
                ==> (out matches Some(v) && v@ == rs && final(r).pos_view() == old(r).pos_view() + 5 * count),
{
    let ghost d = old(r).data_view();
    let ghost p0 = old(r).pos_view();
    proof {
        assert forall|rs: Seq<Room>|
            rs.len() == count && #[trigger] bytes_at(d, p0, enc_rooms(rs, count as int)) implies p0 + 5 * count <= d.len() by {
            lemma_enc_rooms(rs, count as int);
        }
    }
    let mut rooms: Vec<Room> = Vec::new();
    let mut i: usize = 0;
    while i < count
        invariant
            i <= count,
            rooms@.len() == i,
            r.data_view() == d,
            d == old(r).data_view(),
            p0 == old(r).pos_view(),
            forall|rs: Seq<Room>|
                rs.len() == count && #[trigger] bytes_at(d, p0, enc_rooms(rs, count as int)) ==> p0 + 5 * count <= d.len()
                    && rooms@ == rs.take(i as int) && r.pos_view() == p0 + 5 * i,
        decreases count - i,
    {
        let ghost q = r.pos_view();
        let b0 = match r.u8() {
            Some(v) => v,
            None => {
                assert forall|rs: Seq<Room>|
                    rs.len() == count && #[trigger] bytes_at(d, p0, enc_rooms(rs, count as int)) implies false by {}
                return None;
            },
        };
        let region = match r.u8() {
            Some(v) => v,
            None => {
                assert forall|rs: Seq<Room>|
                    rs.len() == count && #[trigger] bytes_at(d, p0, enc_rooms(rs, count as int)) implies false by {}
                return None;
            },
        };
        let visited = match r.bool() {
            Some(v) => v,
            None => {
                assert forall|rs: Seq<Room>|
                    rs.len() == count && #[trigger] bytes_at(d, p0, enc_rooms(rs, count as int)) implies false by {}
                return None;
            },
        };
        let cleared = match r.bool() {
            Some(v) => v,
            None => {
                assert forall|rs: Seq<Room>|
                    rs.len() == count && #[trigger] bytes_at(d, p0, enc_rooms(rs, count as int)) implies false by {}
                return None;
            },
        };
        let exits = match r.u8() {
            Some(v) => v,
            None => {
                assert forall|rs: Seq<Room>|
                    rs.len() == count && #[trigger] bytes_at(d, p0, enc_rooms(rs, count as int)) implies false by {}
                return None;
            },
        };
        let kind = match b0 {
            1 => RoomKind::Start,
            2 => RoomKind::Treasure,
            3 => RoomKind::Boss,
            4 => RoomKind::Shop,
            5 => RoomKind::Puzzle,
            6 => RoomKind::Corridor,
            7 => RoomKind::Empty,
            _ => RoomKind::Normal,
        };
        assert(kind == room_kind_of(b0));
        let room = Room { kind, region, visited, cleared, exits };
        let ghost before = rooms@;
        rooms.push(room);
        proof {
            assert forall|rs: Seq<Room>|
                rs.len() == count && #[trigger] bytes_at(d, p0, enc_rooms(rs, count as int)) implies p0 + 5 * count <= d.len()
                    && rooms@ == rs.take(i + 1) && r.pos_view() == p0 + 5 * (i + 1) by {
                lemma_enc_rooms(rs, count as int);
                lemma_bytes_sub(d, p0, enc_rooms(rs, count as int), 5 * i, 5);
                let e = enc_room(rs[i as int]);
                assert(bytes_at(d, q, e));
                assert(d[q] == e[0] && d[q + 1] == e[1] && d[q + 2] == e[2] && d[q + 3] == e[3] && d[q + 4] == e[4]);
                let rr = rs[i as int];
                assert(room_kind_of(crate::level::room_kind_code(rr.kind)) == rr.kind);
                assert(room == rr);
                assert(rooms@ =~= rs.take(i + 1));
            }
        }
        i = i + 1;
    }
    Some(rooms)
}

proof fn lemma_enc_links(ls: Seq<Link>, n: int)
    requires
        0 <= n <= ls.len(),
    ensures
        enc_links(ls, n).len() == 19 * n,
        forall|i: int| 0 <= i < n ==> #[trigger] enc_links(ls, n).subrange(19 * i, 19 * i + 19) == enc_link(ls[i]),
    decreases n,
{
    if n > 0 {
        lemma_enc_links(ls, n - 1);
        let a = enc_links(ls, n - 1);
        let b = enc_link(ls[n - 1]);
        assert forall|i: int| 0 <= i < n implies #[trigger] enc_links(ls, n).subrange(19 * i, 19 * i + 19) == enc_link(ls[i]) by {
            if i < n - 1 {
                assert((a + b).subrange(19 * i, 19 * i + 19) =~= a.subrange(19 * i, 19 * i + 19));
            } else {
                assert((a + b).subrange(19 * i, 19 * i + 19) =~= b);
            }
        }
    }
}

proof fn lemma_enc_spawns(ss: Seq<Spawn>, n: int)
    requires
        0 <= n <= ss.len(),
    ensures
        enc_spawns(ss, n).len() == 15 * n,
        forall|i: int| 0 <= i < n ==> #[trigger] enc_spawns(ss, n).subrange(15 * i, 15 * i + 15) == enc_spawn(ss[i]),
    decreases n,
{
    if n > 0 {
        lemma_enc_spawns(ss, n - 1);
        let a = enc_spawns(ss, n - 1);
        let b = enc_spawn(ss[n - 1]);
        assert forall|i: int| 0 <= i < n implies #[trigger] enc_spawns(ss, n).subrange(15 * i, 15 * i + 15) == enc_spawn(ss[i]) by {
            if i < n - 1 {
                assert((a + b).subrange(15 * i, 15 * i + 15) =~= a.subrange(15 * i, 15 * i + 15));
            } else {
                assert((a + b).subrange(15 * i, 15 * i + 15) =~= b);
            }
        }
    }
}

/// Reads `count` links written by [`write_level`].
#[verifier::spinoff_prover]
#[verifier::rlimit(60)]
fn read_links(r: &mut Reader, count: usize) -> (out: Option<Vec<Link>>)
    ensures
        final(r).data_view() == old(r).data_view(),
        forall|ls: Seq<Link>|
            ls.len() == count && #[trigger] bytes_at(old(r).data_view(), old(r).pos_view(), enc_links(ls, count as int))
                ==> (out matches Some(v) && v@ == ls && final(r).pos_view() == old(r).pos_view() + 19 * count),
{
    let ghost d = old(r).data_view();
    let ghost p0 = old(r).pos_view();
    proof {
        assert forall|ls: Seq<Link>|
            ls.len() == count && #[trigger] bytes_at(d, p0, enc_links(ls, count as int)) implies p0 + 19 * count <= d.len() by {
            lemma_enc_links(ls, count as int);
        }
    }
    let mut links: Vec<Link> = Vec::new();
    let mut j: usize = 0;
    while j < count
        invariant
            j <= count,
            links@.len() == j,
            r.data_view() == d,
            d == old(r).data_view(),
            p0 == old(r).pos_view(),
            forall|ls: Seq<Link>|
                ls.len() == count && #[trigger] bytes_at(d, p0, enc_links(ls, count as int)) ==> p0 + 19 * count <= d.len()
                    && links@ == ls.take(j as int) && r.pos_view() == p0 + 19 * j,
        decreases count - j,
    {
        let ghost q = r.pos_view();
        let fx = match r.i32() {
            Some(v) => v,
            None => {
                assert forall|ls: Seq<Link>|
                    ls.len() == count && #[trigger] bytes_at(d, p0, enc_links(ls, count as int)) implies false by {}
                return None;
            },
        };
        let fy = match r.i32() {
            Some(v) => v,
            None => {
                assert forall|ls: Seq<Link>|
                    ls.len() == count && #[trigger] bytes_at(d, p0, enc_links(ls, count as int)) implies false by {}
                return None;
            },
        };
        let to_level = match r.u16() {
            Some(v) => v,
            None => {
                assert forall|ls: Seq<Link>|
                    ls.len() == count && #[trigger] bytes_at(d, p0, enc_links(ls, count as int)) implies false by {}
                return None;
            },
        };
        let to_pos = match r.vec2() {
            Some(v) => v,
            None => {
                assert forall|ls: Seq<Link>|
                    ls.len() == count && #[trigger] bytes_at(d, p0, enc_links(ls, count as int)) implies false by {}
                return None;
            },
        };
        let b = match r.u8() {
            Some(v) => v,
            None => {
                assert forall|ls: Seq<Link>|
                    ls.len() == count && #[trigger] bytes_at(d, p0, enc_links(ls, count as int)) implies false by {}
                return None;
            },
        };
        let to_dir = Dir::from_u8(b);
        let link = Link { from: (fx, fy), to_level, to_pos, to_dir };
        links.push(link);
        proof {
            assert forall|ls: Seq<Link>|
                ls.len() == count && #[trigger] bytes_at(d, p0, enc_links(ls, count as int)) implies p0 + 19 * count <= d.len()
                    && links@ == ls.take(j + 1) && r.pos_view() == p0 + 19 * (j + 1) by {
                lemma_enc_links(ls, count as int);
                lemma_bytes_sub(d, p0, enc_links(ls, count as int), 19 * j, 19);
                let lk = ls[j as int];
                let e = enc_link(lk);
                assert(bytes_at(d, q, e));
                lemma_bytes_sub(d, q, e, 0, 4);
                lemma_bytes_sub(d, q, e, 4, 4);
                lemma_bytes_sub(d, q, e, 8, 2);
                lemma_bytes_sub(d, q, e, 10, 8);
                lemma_bytes_sub(d, q, e, 18, 1);
                assert(e.subrange(0, 4) =~= le32(lk.from.0 as u32));
                assert(e.subrange(4, 8) =~= le32(lk.from.1 as u32));
                assert(e.subrange(8, 10) =~= le16(lk.to_level));
                assert(e.subrange(10, 18) =~= le_vec2(lk.to_pos));
                assert(le_vec2(lk.to_pos).subrange(4, 8) =~= le32(lk.to_pos.y as u32));
                assert(le_vec2(lk.to_pos).subrange(0, 4) =~= le32(lk.to_pos.x as u32));
                assert(d.subrange(q + 10, q + 18).subrange(0, 4) =~= d.subrange(q + 10, q + 14));
                assert(e.subrange(18, 19) =~= seq![crate::geom::dir_code(lk.to_dir)]);
                lemma_signed_roundtrip(0, lk.from.0);
                lemma_signed_roundtrip(0, lk.from.1);
                lemma_signed_roundtrip(0, lk.to_pos.x);
                lemma_signed_roundtrip(0, lk.to_pos.y);
                lemma_u16_roundtrip(lk.to_level);
                assert(fx == lk.from.0);
                assert(fy == lk.from.1);
                assert(to_level == lk.to_level);
                assert(to_pos == lk.to_pos);
                assert(b == crate::geom::dir_code(lk.to_dir));
                assert(to_dir == lk.to_dir);
                assert(link == lk);
                assert(links@ =~= ls.take(j + 1));
            }
        }
        j = j + 1;
    }
    Some(links)
}

/// Reads `count` spawn placements written by [`write_level`].
#[verifier::spinoff_prover]
#[verifier::rlimit(60)]
fn read_spawns(r: &mut Reader, count: usize) -> (out: Option<Vec<Spawn>>)
    ensures
        final(r).data_view() == old(r).data_view(),
        forall|ss: Seq<Spawn>|
            ss.len() == count && #[trigger] bytes_at(old(r).data_view(), old(r).pos_view(), enc_spawns(ss, count as int))
                ==> (out matches Some(v) && v@ == ss && final(r).pos_view() == old(r).pos_view() + 15 * count),
{
    let ghost d = old(r).data_view();
    let ghost p0 = old(r).pos_view();
    proof {
        assert forall|ss: Seq<Spawn>|
            ss.len() == count && #[trigger] bytes_at(d, p0, enc_spawns(ss, count as int)) implies p0 + 15 * count <= d.len() by {
            lemma_enc_spawns(ss, count as int);
        }
    }
    let mut spawns: Vec<Spawn> = Vec::new();
    let mut k: usize = 0;
    while k < count
        invariant
            k <= count,
            spawns@.len() == k,
            r.data_view() == d,
            d == old(r).data_view(),
            p0 == old(r).pos_view(),
            forall|ss: Seq<Spawn>|
                ss.len() == count && #[trigger] bytes_at(d, p0, enc_spawns(ss, count as int)) ==> p0 + 15 * count <= d.len()
                    && spawns@ == ss.take(k as int) && r.pos_view() == p0 + 15 * k,
        decreases count - k,
    {
        let ghost q = r.pos_view();
        let room = match r.u16() {
            Some(v) => v,
            None => {
                assert forall|ss: Seq<Spawn>|
                    ss.len() == count && #[trigger] bytes_at(d, p0, enc_spawns(ss, count as int)) implies false by {}
                return None;
            },
        };
        let kind = match r.u8() {
            Some(v) => v,
            None => {
                assert forall|ss: Seq<Spawn>|
                    ss.len() == count && #[trigger] bytes_at(d, p0, enc_spawns(ss, count as int)) implies false by {}
                return None;
            },
        };
        let tx = match r.i32() {
            Some(v) => v,
            None => {
                assert forall|ss: Seq<Spawn>|
                    ss.len() == count && #[trigger] bytes_at(d, p0, enc_spawns(ss, count as int)) implies false by {}
                return None;
            },
        };
        let ty = match r.i32() {
            Some(v) => v,
            None => {
                assert forall|ss: Seq<Spawn>|
                    ss.len() == count && #[trigger] bytes_at(d, p0, enc_spawns(ss, count as int)) implies false by {}
                return None;
            },
        };
        let param = match r.i32() {
            Some(v) => v,
            None => {
                assert forall|ss: Seq<Spawn>|
                    ss.len() == count && #[trigger] bytes_at(d, p0, enc_spawns(ss, count as int)) implies false by {}
                return None;
            },
        };
        let sp = Spawn { room, kind, tx, ty, param };
        spawns.push(sp);
        proof {
            assert forall|ss: Seq<Spawn>|
                ss.len() == count && #[trigger] bytes_at(d, p0, enc_spawns(ss, count as int)) implies p0 + 15 * count <= d.len()
                    && spawns@ == ss.take(k + 1) && r.pos_view() == p0 + 15 * (k + 1) by {
                lemma_enc_spawns(ss, count as int);
                lemma_bytes_sub(d, p0, enc_spawns(ss, count as int), 15 * k, 15);
                let s0 = ss[k as int];
                let e = enc_spawn(s0);
                assert(bytes_at(d, q, e));
                lemma_bytes_sub(d, q, e, 0, 2);
                lemma_bytes_sub(d, q, e, 2, 1);
                lemma_bytes_sub(d, q, e, 3, 4);
                lemma_bytes_sub(d, q, e, 7, 4);
                lemma_bytes_sub(d, q, e, 11, 4);
                assert(e.subrange(0, 2) =~= le16(s0.room));
                assert(e.subrange(2, 3) =~= seq![s0.kind]);
                assert(e.subrange(3, 7) =~= le32(s0.tx as u32));
                assert(e.subrange(7, 11) =~= le32(s0.ty as u32));
                assert(e.subrange(11, 15) =~= le32(s0.param as u32));
                lemma_signed_roundtrip(0, s0.tx);
                lemma_signed_roundtrip(0, s0.ty);
                lemma_signed_roundtrip(0, s0.param);
                lemma_u16_roundtrip(s0.room);
                assert(sp == s0);
                assert(spawns@ =~= ss.take(k + 1));
            }
        }
        k = k + 1;
    }
    Some(spawns)
}

/// `l`, as [`write_level`] lays it out, stands in `d` from `p` on, and `l`
/// is a level that [`read_level`] takes back: well formed, at most 65536
/// rooms each way, and its link and spawn counts fit their 32-bit fields.
pub open spec fn encodes_level(d: Seq<u8>, p: int, l: Level) -> bool {
    &&& l.wf()
    &&& l.map.rw() <= 0x1_0000
    &&& l.map.rh() <= 0x1_0000
    &&& l.links@.len() <= u32::MAX
    &&& l.spawns@.len() <= u32::MAX
    &&& bytes_at(d, p, enc_level(l))
}

/// Two levels that hold the same things.
pub open spec fn same_level(a: Level, b: Level) -> bool {
    &&& a.kind == b.kind && a.dungeon == b.dungeon && a.ground == b.ground && a.entrance == b.entrance
    &&& a.map.rw() == b.map.rw() && a.map.rh() == b.map.rh() && a.map.cells() == b.map.cells()
    &&& a.rooms@ == b.rooms@ && a.links@ == b.links@ && a.spawns@ == b.spawns@
}

/// Where each part of an encoded level stands.
proof fn lemma_level_pieces(d: Seq<u8>, p: int, l: Level)
    requires
        encodes_level(d, p, l),
    ensures
        ({
            let n = l.map.cells().len() as int;
            let h = p + 23 + n;
            let h2 = h + 4 + 5 * l.rooms@.len();
            let h3 = h2 + 4 + 19 * l.links@.len();
            &&& d[p] == crate::level::level_kind_code(l.kind) && d[p + 1] == l.dungeon && d[p + 2] == l.ground
            &&& bytes_at(d, p + 3, le32(l.map.rw() as i32 as u32))
            &&& bytes_at(d, p + 7, le32(l.map.rh() as i32 as u32))
            &&& bytes_at(d, p + 11, le32(n as u32))
            &&& bytes_at(d, p + 15, l.map.cells())
            &&& bytes_at(d, p + 15 + n, le32(l.entrance.x as u32))
            &&& bytes_at(d, p + 19 + n, le32(l.entrance.y as u32))
            &&& bytes_at(d, h, le32(l.rooms@.len() as u32))
            &&& bytes_at(d, h + 4, enc_rooms(l.rooms@, l.rooms@.len() as int))
            &&& bytes_at(d, h2, le32(l.links@.len() as u32))
            &&& bytes_at(d, h2 + 4, enc_links(l.links@, l.links@.len() as int))
            &&& bytes_at(d, h3, le32(l.spawns@.len() as u32))
            &&& bytes_at(d, h3 + 4, enc_spawns(l.spawns@, l.spawns@.len() as int))
            &&& enc_level(l).len() == h3 + 4 + 15 * l.spawns@.len() - p
        }),
{
    let n = l.map.cells().len() as int;
    let a = seq![crate::level::level_kind_code(l.kind), l.dungeon, l.ground];
    let b = le32(l.map.rw() as i32 as u32);
    let c = le32(l.map.rh() as i32 as u32);
    let dd = le32(n as u32);
    let e = l.map.cells();
    let f = le_vec2(l.entrance);
    let head = enc_level_head(l);
    let rl = enc_room_list(l.rooms@);
    let kl = enc_link_list(l.links@);
    let sl = enc_spawn_list(l.spawns@);
    assert(enc_level(l) == head + rl + kl + sl);
    lemma_bytes_split(d, p, head + rl + kl, sl);
    lemma_bytes_split(d, p, head + rl, kl);
    lemma_bytes_split(d, p, head, rl);
    assert(head == a + b + c + dd + e + f);
    lemma_bytes_split(d, p, a + b + c + dd + e, f);
    lemma_bytes_split(d, p, a + b + c + dd, e);
    lemma_bytes_split(d, p, a + b + c, dd);
    lemma_bytes_split(d, p, a + b, c);
    lemma_bytes_split(d, p, a, b);
    lemma_bytes_split(d, p + 15 + n, le32(l.entrance.x as u32), le32(l.entrance.y as u32));
    assert(d[p] == d.subrange(p, p + 3)[0]);
    assert(d[p + 1] == d.subrange(p, p + 3)[1]);
    assert(d[p + 2] == d.subrange(p, p + 3)[2]);
    lemma_enc_rooms(l.rooms@, l.rooms@.len() as int);
    lemma_enc_links(l.links@, l.links@.len() as int);
    lemma_enc_spawns(l.spawns@, l.spawns@.len() as int);
    let h = p + 23 + n;
    lemma_bytes_split(d, h, le32(l.rooms@.len() as u32), enc_rooms(l.rooms@, l.rooms@.len() as int));
    let h2 = h + 4 + 5 * l.rooms@.len();
    lemma_bytes_split(d, h2, le32(l.links@.len() as u32), enc_links(l.links@, l.links@.len() as int));
    let h3 = h2 + 4 + 19 * l.links@.len();
    lemma_bytes_split(d, h3, le32(l.spawns@.len() as u32), enc_spawns(l.spawns@, l.spawns@.len() as int));
}

/// A level written by [`write_level`] after any bytes stands there for
/// [`read_level`] to take back whole: with the reader at the end of the
/// earlier bytes, it returns the same level.
pub proof fn lemma_level_round_trip(before: Seq<u8>, l: Level)
    requires
        l.wf(),
        l.map.rw() <= 0x1_0000,
        l.map.rh() <= 0x1_0000,
        l.links@.len() <= u32::MAX,
        l.spawns@.len() <= u32::MAX,
    ensures
        encodes_level(before + enc_level(l), before.len() as int, l),
{
    let all = before + enc_level(l);
    assert(all.subrange(before.len() as int, (before.len() + enc_level(l).len()) as int) =~= enc_level(l));
}

/// Reads the fixed part of a level: kind, dungeon number, ground tile, map
/// and entrance.
#[verifier::spinoff_prover]
#[verifier::rlimit(60)]
fn read_level_head(r: &mut Reader) -> (out: Option<(LevelKind, u8, u8, TileMap, V2)>)
    ensures
        final(r).data_view() == old(r).data_view(),
        out matches Some(h) ==> h.3.wf(),
        forall|l: Level|
            #[trigger] encodes_level(old(r).data_view(), old(r).pos_view(), l) ==> (out matches Some(h) && h.0 == l.kind
                && h.1 == l.dungeon && h.2 == l.ground && h.3.rw() == l.map.rw() && h.3.rh() == l.map.rh()
                && h.3.cells() == l.map.cells() && h.4 == l.entrance
                && final(r).pos_view() == old(r).pos_view() + 23 + l.map.cells().len()),
{
    let ghost d = old(r).data_view();
    let ghost p0 = old(r).pos_view();
    let kb = match r.u8() {
        Some(v) => v,
        None => {
            assert forall|l: Level| #[trigger] encodes_level(d, p0, l) implies false by {
                lemma_level_pieces(d, p0, l);
            }
            return None;
        },
    };
    let kind = match kb {
        1 => LevelKind::Dungeon,
        2 => LevelKind::Cave,
        3 => LevelKind::Interior,
        _ => LevelKind::Overworld,
    };
    assert(kind == level_kind_of(kb));
    let dungeon = match r.u8() {
        Some(v) => v,
        None => {
            assert forall|l: Level| #[trigger] encodes_level(d, p0, l) implies false by {
                lemma_level_pieces(d, p0, l);
            }
            return None;
        },
    };
    let ground = match r.u8() {
        Some(v) => v,
        None => {
            assert forall|l: Level| #[trigger] encodes_level(d, p0, l) implies false by {
                lemma_level_pieces(d, p0, l);
            }
            return None;
        },
    };
    let rooms_w = match r.i32() {
        Some(v) => v,
        None => {
            assert forall|l: Level| #[trigger] encodes_level(d, p0, l) implies false by {
                lemma_level_pieces(d, p0, l);
            }
            return None;
        },
    };
    let rooms_h = match r.i32() {
        Some(v) => v,
        None => {
            assert forall|l: Level| #[trigger] encodes_level(d, p0, l) implies false by {
                lemma_level_pieces(d, p0, l);
            }
            return None;
        },
    };
    let ghost pt = r.pos_view();
    let tiles = match r.bytes() {
        Some(v) => v,
        None => {
            assert forall|l: Level| #[trigger] encodes_level(d, p0, l) implies false by {
                lemma_level_pieces(d, p0, l);
                lemma_u32_roundtrip(l.map.cells().len() as u32);
            }
            return None;
        },
    };
    let ghost pe = r.pos_view();
    let entrance = match r.vec2() {
        Some(v) => v,
        None => {
            assert forall|l: Level| #[trigger] encodes_level(d, p0, l) implies false by {
                lemma_level_pieces(d, p0, l);
                lemma_u32_roundtrip(l.map.cells().len() as u32);
            }
            return None;
        },
    };
    proof {
        assert forall|l: Level| #[trigger] encodes_level(d, p0, l) implies {
            &&& kind == l.kind && dungeon == l.dungeon && ground == l.ground
            &&& rooms_w == l.map.rw() && rooms_h == l.map.rh()
            &&& tiles@ == l.map.cells()
            &&& entrance == l.entrance
            &&& r.pos_view() == p0 + 23 + l.map.cells().len()
        } by {
            lemma_level_pieces(d, p0, l);
            let n = l.map.cells().len() as int;
            lemma_u32_roundtrip(n as u32);
            lemma_signed_roundtrip(0, l.map.rw() as i32);
            lemma_signed_roundtrip(0, l.map.rh() as i32);
            lemma_signed_roundtrip(0, l.entrance.x);
            lemma_signed_roundtrip(0, l.entrance.y);
            assert(d.subrange(pe, pe + 8).subrange(4, 8) =~= d.subrange(pe + 4, pe + 8));
            assert(d.subrange(pe, pe + 8).subrange(0, 4) =~= d.subrange(pe, pe + 4));
            assert(level_kind_of(crate::level::level_kind_code(l.kind)) == l.kind);
        }
    }
    let map = match TileMap::from_tiles(rooms_w, rooms_h, tiles) {
        Some(m) => m,
        None => {
            assert forall|l: Level| #[trigger] encodes_level(d, p0, l) implies false by {}
            return None;
        },
    };
    proof {
        assert forall|l: Level| #[trigger] encodes_level(d, p0, l) implies map.rw() == l.map.rw() && map.rh() == l.map.rh() by {}
    }
    Some((kind, dungeon, ground, map, entrance))
}

/// Reads one level written by [`write_level`]. `None` when the data runs
/// out, the map size is out of range, the tile count does not match the
/// size, or the room count does not match the map. Bytes that
/// [`write_level`] wrote for a level give that level back.
#[verifier::spinoff_prover]
#[verifier::rlimit(60)]
pub fn read_level(r: &mut Reader) -> (out: Option<Level>)
    ensures
        final(r).data_view() == old(r).data_view(),
        out matches Some(l) ==> l.wf(),
        forall|l: Level|
            #[trigger] encodes_level(old(r).data_view(), old(r).pos_view(), l) ==> (out matches Some(m) && same_level(m, l)
                && final(r).pos_view() == old(r).pos_view() + enc_level(l).len()),
{
    let ghost d = old(r).data_view();
    let ghost p0 = old(r).pos_view();
    let (kind, dungeon, ground, map, entrance) = match read_level_head(r) {
        Some(h) => h,
        None => {
            assert forall|l: Level| #[trigger] encodes_level(d, p0, l) implies false by {}
            return None;
        },
    };
    let rooms_w = map.width_rooms();
    let rooms_h = map.height_rooms();
    let ghost ph = r.pos_view();
    let room_count = match r.u32() {
        Some(v) => v as usize,
        None => {
            assert forall|l: Level| #[trigger] encodes_level(d, p0, l) implies false by {
                lemma_level_pieces(d, p0, l);
            }
            return None;
        },
    };
    // A snapshot claiming more rooms than the map has is malformed.
    let rw: i32 = if rooms_w >= 1 { rooms_w } else { 1 };
    let rh: i32 = if rooms_h >= 1 { rooms_h } else { 1 };
    proof {
        map.lemma_dims();
        assert(rw * rh <= rw * 10 * rh * 8) by (nonlinear_arith)
            requires
                rw >= 1,
                rh >= 1,
        ;
        assert forall|l: Level| #[trigger] encodes_level(d, p0, l) implies room_count == l.rooms@.len() by {
            lemma_level_pieces(d, p0, l);
            lemma_u32_roundtrip(l.rooms@.len() as u32);
        }
    }
    if room_count as i64 != rw as i64 * rh as i64 {
        assert forall|l: Level| #[trigger] encodes_level(d, p0, l) implies false by {}
        return None;
    }
    let rooms = match read_rooms(r, room_count) {
        Some(v) => v,
        None => {
            assert forall|l: Level| #[trigger] encodes_level(d, p0, l) implies false by {
                lemma_level_pieces(d, p0, l);
            }
            return None;
        },
    };
    let ghost pl = r.pos_view();
    let link_count = match r.u32() {
        Some(v) => v as usize,
        None => {
            assert forall|l: Level| #[trigger] encodes_level(d, p0, l) implies false by {
                lemma_level_pieces(d, p0, l);
            }
            return None;
        },
    };
    proof {
        assert forall|l: Level| #[trigger] encodes_level(d, p0, l) implies link_count == l.links@.len() by {
            lemma_level_pieces(d, p0, l);
            lemma_u32_roundtrip(l.links@.len() as u32);
        }
    }
    let links = match read_links(r, link_count) {
        Some(v) => v,
        None => {
            assert forall|l: Level| #[trigger] encodes_level(d, p0, l) implies false by {
                lemma_level_pieces(d, p0, l);
            }
            return None;
        },
    };
    let spawn_count = match r.u32() {
        Some(v) => v as usize,
        None => {
            assert forall|l: Level| #[trigger] encodes_level(d, p0, l) implies false by {
                lemma_level_pieces(d, p0, l);
            }
            return None;
        },
    };
    proof {
        assert forall|l: Level| #[trigger] encodes_level(d, p0, l) implies spawn_count == l.spawns@.len() by {
            lemma_level_pieces(d, p0, l);
            lemma_u32_roundtrip(l.spawns@.len() as u32);
        }
    }
    let spawns = match read_spawns(r, spawn_count) {
        Some(v) => v,
        None => {
            assert forall|l: Level| #[trigger] encodes_level(d, p0, l) implies false by {
                lemma_level_pieces(d, p0, l);
            }
            return None;
        },
    };
    let out = Level { kind, map, rooms, links, spawns, entrance, dungeon, ground };
    proof {
        assert forall|l: Level| #[trigger] encodes_level(d, p0, l) implies same_level(out, l)
            && r.pos_view() == p0 + enc_level(l).len() by {
            lemma_level_pieces(d, p0, l);
        }
    }
    Some(out)
}


/// How a player is laid out: who they drive, their inventory, their input,
/// their seat (role, level, room, camera), what they carry and their tallies.
pub open spec fn enc_player(p: Player) -> Seq<u8> {
    enc_player_head(p) + enc_player_tail(p)
}

/// A player's entity, inventory and input.
pub open spec fn enc_player_head(p: Player) -> Seq<u8> {
    le16(p.entity.idx) + le16(p.entity.gen) + le32(p.inv.bits()) + seq![
        crate::items::item_code(p.inv.equipped[0]),
        crate::items::item_code(p.inv.equipped[1]),
        p.inv.bombs,
        p.inv.max_bombs,
        p.inv.arrows,
        p.inv.max_arrows,
        p.inv.keys,
    ] + le16(p.inv.rupees) + seq![p.inv.sword_level, p.inv.heart_pieces] + le16(p.input.buttons)
        + le16(p.input.prev)
}

/// A player's seat, carried object and tallies.
pub open spec fn enc_player_tail(p: Player) -> Seq<u8> {
    seq![if p.role == Role::Boss { 1u8 } else { 0u8 }] + le16(p.level) + le32(p.room.0 as u32) + le32(
        p.room.1 as u32,
    ) + le32(p.camera.x as u32) + le32(p.camera.y as u32) + le32(p.camera.target_x as u32) + le32(
        p.camera.target_y as u32,
    ) + le16(p.camera.scroll) + seq![p.camera.shake] + le16(p.carrying.idx) + le16(p.carrying.gen)
        + le16(p.respawn) + seq![flag_byte(p.active)] + le32(p.deaths) + le32(p.kills)
}

fn write_player_head(w: &mut Writer, p: &Player)
    ensures
        final(w).written() == old(w).written() + enc_player_head(*p),
{
    w.u16(p.entity.idx);
    w.u16(p.entity.gen);
    w.u32(p.inv.owned_bits());
    w.u8(p.inv.equipped[0].to_u8());
    w.u8(p.inv.equipped[1].to_u8());
    w.u8(p.inv.bombs);
    w.u8(p.inv.max_bombs);
    w.u8(p.inv.arrows);
    w.u8(p.inv.max_arrows);
    w.u8(p.inv.keys);
    w.u16(p.inv.rupees);
    w.u8(p.inv.sword_level);
    w.u8(p.inv.heart_pieces);
    w.u16(p.input.buttons);
    w.u16(p.input.prev);
    proof {
        assert(final(w).written() =~= old(w).written() + enc_player_head(*p));
    }
}

fn write_player_tail(w: &mut Writer, p: &Player)
    ensures
        final(w).written() == old(w).written() + enc_player_tail(*p),
{
    w.u8(p.role.to_u8());
    w.u16(p.level);
    w.i32(p.room.0);
    w.i32(p.room.1);
    w.i32(p.camera.x);
    w.i32(p.camera.y);
    w.i32(p.camera.target_x);
    w.i32(p.camera.target_y);
    w.u16(p.camera.scroll);
    w.u8(p.camera.shake);
    w.u16(p.carrying.idx);
    w.u16(p.carrying.gen);
    w.u16(p.respawn);
    w.bool(p.active);
    w.u32(p.deaths);
    w.u32(p.kills);
    proof {
        assert(final(w).written() =~= old(w).written() + enc_player_tail(*p));
    }
}

/// Writes one player; see [`enc_player`]. The status-bar message is a
/// moment of presentation, not state worth keeping.
pub fn write_player(w: &mut Writer, p: &Player)
    ensures
        final(w).written() == old(w).written() + enc_player(*p),
{
    write_player_head(w, p);
    write_player_tail(w, p);
    proof {
        assert(final(w).written() =~= old(w).written() + enc_player(*p));
    }
}

proof fn lemma_item_code_roundtrip(i: Item, r: Item)
    requires
        1 <= item_code(i) <= 9 ==> item_code(r) == item_code(i),
        !(1 <= item_code(i) <= 9) ==> r == Item::Nothing,
    ensures
        r == i,
{
    match i {
        Item::Nothing => {},
        _ => {
            match r {
                Item::Nothing => {},
                _ => {},
            }
        },
    }
}

/// Reads a player's entity handle, inventory and input, written by
/// [`write_player`].
#[verifier::spinoff_prover]
#[verifier::rlimit(60)]
fn read_player_head(r: &mut Reader) -> (out: Option<(EntityId, Inventory, Input)>)
    ensures
        final(r).data_view() == old(r).data_view(),
        out is Some ==> final(r).pos_view() == old(r).pos_view() + 23,
        forall|p0: Player|
            #[trigger] bytes_at(old(r).data_view(), old(r).pos_view(), enc_player_head(p0)) ==> out == Some(
                (p0.entity, p0.inv, p0.input),
            ),
{
    let ghost d = old(r).data_view();
    let ghost p = old(r).pos_view();
    proof {
        assert forall|p0: Player| #[trigger] bytes_at(d, p, enc_player_head(p0)) implies p + 23 <= d.len() by {
            assert(enc_player_head(p0).len() == 23);
        }
    }
    let eidx = r.u16()?;
    let egen = r.u16()?;
    let entity = EntityId { idx: eidx, gen: egen };
    let mut inv = Inventory::default();
    inv.set_owned_bits(r.u32()?);
    let e0b = r.u8()?;
    let e1b = r.u8()?;
    let eq0 = Item::from_u8(e0b);
    let eq1 = Item::from_u8(e1b);
    inv.equipped = [eq0, eq1];
    inv.bombs = r.u8()?;
    inv.max_bombs = r.u8()?;
    inv.arrows = r.u8()?;
    inv.max_arrows = r.u8()?;
    inv.keys = r.u8()?;
    inv.rupees = r.u16()?;
    inv.sword_level = r.u8()?;
    inv.heart_pieces = r.u8()?;
    let buttons = r.u16()?;
    let prev = r.u16()?;
    let input = Input { buttons, prev };
    proof {
        assert forall|p0: Player| #[trigger] bytes_at(d, p, enc_player_head(p0)) implies entity == p0.entity && inv
            == p0.inv && input == p0.input by {
            let x = enc_player_head(p0);
            assert(x.len() == 23);
            lemma_bytes_sub(d, p, x, 0, 2);
            lemma_bytes_sub(d, p, x, 2, 2);
            lemma_bytes_sub(d, p, x, 4, 4);
            lemma_bytes_sub(d, p, x, 15, 2);
            lemma_bytes_sub(d, p, x, 19, 2);
            lemma_bytes_sub(d, p, x, 21, 2);
            assert(x.subrange(0, 2) =~= le16(p0.entity.idx));
            assert(x.subrange(2, 4) =~= le16(p0.entity.gen));
            assert(x.subrange(4, 8) =~= le32(p0.inv.bits()));
            assert(x.subrange(15, 17) =~= le16(p0.inv.rupees));
            assert(x.subrange(19, 21) =~= le16(p0.input.buttons));
            assert(x.subrange(21, 23) =~= le16(p0.input.prev));
            assert(d.subrange(p, p + 23) == x);
            assert(d[p + 8] == x[8] && d[p + 9] == x[9] && d[p + 10] == x[10] && d[p + 11] == x[11]);
            assert(d[p + 12] == x[12] && d[p + 13] == x[13] && d[p + 14] == x[14]);
            assert(d[p + 17] == x[17] && d[p + 18] == x[18]);
            lemma_u16_roundtrip(p0.entity.idx);
            lemma_u16_roundtrip(p0.entity.gen);
            lemma_u32_roundtrip(p0.inv.bits());
            lemma_u16_roundtrip(p0.inv.rupees);
            lemma_u16_roundtrip(p0.input.buttons);
            lemma_u16_roundtrip(p0.input.prev);
            lemma_item_code_roundtrip(p0.inv.equipped[0], eq0);
            lemma_item_code_roundtrip(p0.inv.equipped[1], eq1);
            assert(inv.equipped =~= p0.inv.equipped);
        }
    }
    Some((entity, inv, input))
}

/// Reads a player written by [`write_player`]; its message is not kept.
/// Bytes [`write_player`] wrote for a player give it back, message aside.
#[verifier::spinoff_prover]
#[verifier::rlimit(60)]
pub fn read_player(r: &mut Reader) -> (out: Option<Player>)
    ensures
        final(r).data_view() == old(r).data_view(),
        out matches Some(p) ==> p.message.is_none(),
        out is Some ==> final(r).pos_view() == old(r).pos_view() + 68,
        forall|p0: Player|
            #[trigger] bytes_at(old(r).data_view(), old(r).pos_view(), enc_player(p0)) ==> out == Some(
                Player { message: None, ..p0 },
            ),
{
    let ghost d = old(r).data_view();
    let ghost p = old(r).pos_view();
    proof {
        assert forall|p0: Player| #[trigger] bytes_at(d, p, enc_player(p0)) implies p + 68 <= d.len()
            && bytes_at(d, p, enc_player_head(p0)) && bytes_at(d, p + 23, enc_player_tail(p0)) by {
            assert(enc_player_head(p0).len() == 23);
            assert(enc_player_tail(p0).len() == 45);
            lemma_bytes_split(d, p, enc_player_head(p0), enc_player_tail(p0));
        }
    }
    let (entity, inv, input) = read_player_head(r)?;
    let ghost q = r.pos_view();
    let rb = r.u8()?;
    let role = if rb == 1 { Role::Boss } else { Role::Hero };
    let level = r.u16()?;
    let rx = r.i32()?;
    let ry = r.i32()?;
    let cx = r.i32()?;
    let cy = r.i32()?;
    let tx = r.i32()?;
    let ty = r.i32()?;
    let scroll = r.u16()?;
    let shake = r.u8()?;
    let camera = Camera { x: cx, y: cy, target_x: tx, target_y: ty, scroll, shake };
    let cidx = r.u16()?;
    let cgen = r.u16()?;
    let carrying = EntityId { idx: cidx, gen: cgen };
    let respawn = r.u16()?;
    let active = r.bool()?;
    let deaths = r.u32()?;
    let kills = r.u32()?;
    let out = Player {
        entity,
        inv,
        input,
        role,
        level,
        room: (rx, ry),
        camera,
        carrying,
        respawn,
        active,
        deaths,
        kills,
        message: None,
    };
    proof {
        assert forall|p0: Player| #[trigger] bytes_at(d, p, enc_player(p0)) implies out == (Player { message: None, ..p0 }) by {
            let x = enc_player_tail(p0);
            assert(x.len() == 45);
            lemma_bytes_sub(d, q, x, 1, 2);
            lemma_bytes_sub(d, q, x, 3, 4);
            lemma_bytes_sub(d, q, x, 7, 4);
            lemma_bytes_sub(d, q, x, 11, 4);
            lemma_bytes_sub(d, q, x, 15, 4);
            lemma_bytes_sub(d, q, x, 19, 4);
            lemma_bytes_sub(d, q, x, 23, 4);
            lemma_bytes_sub(d, q, x, 27, 2);
            lemma_bytes_sub(d, q, x, 30, 2);
            lemma_bytes_sub(d, q, x, 32, 2);
            lemma_bytes_sub(d, q, x, 34, 2);
            lemma_bytes_sub(d, q, x, 37, 4);
            lemma_bytes_sub(d, q, x, 41, 4);
            assert(d.subrange(q, q + 45) == x);
            assert(d[q] == x[0] && d[q + 29] == x[29] && d[q + 36] == x[36]);
            assert(x.subrange(1, 3) =~= le16(p0.level));
            assert(x.subrange(3, 7) =~= le32(p0.room.0 as u32));
            assert(x.subrange(7, 11) =~= le32(p0.room.1 as u32));
            assert(x.subrange(11, 15) =~= le32(p0.camera.x as u32));
            assert(x.subrange(15, 19) =~= le32(p0.camera.y as u32));
            assert(x.subrange(19, 23) =~= le32(p0.camera.target_x as u32));
            assert(x.subrange(23, 27) =~= le32(p0.camera.target_y as u32));
            assert(x.subrange(27, 29) =~= le16(p0.camera.scroll));
            assert(x.subrange(30, 32) =~= le16(p0.carrying.idx));
            assert(x.subrange(32, 34) =~= le16(p0.carrying.gen));
            assert(x.subrange(34, 36) =~= le16(p0.respawn));
            assert(x.subrange(37, 41) =~= le32(p0.deaths));
            assert(x.subrange(41, 45) =~= le32(p0.kills));
            lemma_u16_roundtrip(p0.level);
            lemma_signed_roundtrip(0, p0.room.0);
            lemma_signed_roundtrip(0, p0.room.1);
            lemma_signed_roundtrip(0, p0.camera.x);
            lemma_signed_roundtrip(0, p0.camera.y);
            lemma_signed_roundtrip(0, p0.camera.target_x);
            lemma_signed_roundtrip(0, p0.camera.target_y);
            lemma_u16_roundtrip(p0.camera.scroll);
            lemma_u16_roundtrip(p0.carrying.idx);
            lemma_u16_roundtrip(p0.carrying.gen);
            lemma_u16_roundtrip(p0.respawn);
            lemma_u32_roundtrip(p0.deaths);
            lemma_u32_roundtrip(p0.kills);
            assert(role == p0.role);
        }
    }
    Some(out)
}


/// The first `n` levels, in order.
pub open spec fn enc_levels(ls: Seq<Level>, n: int) -> Seq<u8>
    decreases n,
{
    if n <= 0 { Seq::empty() } else { enc_levels(ls, n - 1) + enc_level(ls[n - 1]) }
}

/// The first `n` entity slots, in order.
pub open spec fn enc_slab(es: Seq<Entity>, n: int) -> Seq<u8>
    decreases n,
{
    if n <= 0 { Seq::empty() } else { enc_slab(es, n - 1) + enc_entity(es[n - 1]) }
}

/// The first `n` free-list entries, in order.
pub open spec fn enc_free(fs: Seq<u16>, n: int) -> Seq<u8>
    decreases n,
{
    if n <= 0 { Seq::empty() } else { enc_free(fs, n - 1) + le16(fs[n - 1]) }
}

/// The first `n` players, in order.
pub open spec fn enc_players(ps: Seq<Player>, n: int) -> Seq<u8>
    decreases n,
{
    if n <= 0 { Seq::empty() } else { enc_players(ps, n - 1) + enc_player(ps[n - 1]) }
}

/// The first `n` populated-room keys, in order.
pub open spec fn enc_spawned(ks: Seq<(u16, u16)>, n: int) -> Seq<u8>
    decreases n,
{
    if n <= 0 { Seq::empty() } else { enc_spawned(ks, n - 1) + le16(ks[n - 1].0) + le16(ks[n - 1].1) }
}

proof fn lemma_enc_slab(xs: Seq<Entity>, n: int)
    requires
        0 <= n <= xs.len(),
    ensures
        enc_slab(xs, n).len() == 84 * n,
        forall|i: int| 0 <= i < n ==> #[trigger] enc_slab(xs, n).subrange(84 * i, 84 * i + 84) == enc_entity(xs[i]),
    decreases n,
{
    if n > 0 {
        lemma_enc_slab(xs, n - 1);
        let a = enc_slab(xs, n - 1);
        let b = enc_entity(xs[n - 1]);
        assert(enc_slab(xs, n) =~= a + b);
        assert forall|i: int| 0 <= i < n implies #[trigger] enc_slab(xs, n).subrange(84 * i, 84 * i + 84) == enc_entity(xs[i]) by {
            if i < n - 1 {
                assert((a + b).subrange(84 * i, 84 * i + 84) =~= a.subrange(84 * i, 84 * i + 84));
            } else {
                assert((a + b).subrange(84 * i, 84 * i + 84) =~= b);
            }
        }
    }
}

proof fn lemma_enc_free(xs: Seq<u16>, n: int)
    requires
        0 <= n <= xs.len(),
    ensures
        enc_free(xs, n).len() == 2 * n,
        forall|i: int| 0 <= i < n ==> #[trigger] enc_free(xs, n).subrange(2 * i, 2 * i + 2) == le16(xs[i]),
    decreases n,
{
    if n > 0 {
        lemma_enc_free(xs, n - 1);
        let a = enc_free(xs, n - 1);
        let b = le16(xs[n - 1]);
        assert(enc_free(xs, n) =~= a + b);
        assert forall|i: int| 0 <= i < n implies #[trigger] enc_free(xs, n).subrange(2 * i, 2 * i + 2) == le16(xs[i]) by {
            if i < n - 1 {
                assert((a + b).subrange(2 * i, 2 * i + 2) =~= a.subrange(2 * i, 2 * i + 2));
            } else {
                assert((a + b).subrange(2 * i, 2 * i + 2) =~= b);
            }
        }
    }
}

proof fn lemma_enc_players(xs: Seq<Player>, n: int)
    requires
        0 <= n <= xs.len(),
    ensures
        enc_players(xs, n).len() == 68 * n,
        forall|i: int| 0 <= i < n ==> #[trigger] enc_players(xs, n).subrange(68 * i, 68 * i + 68) == enc_player(xs[i]),
    decreases n,
{
    if n > 0 {
        lemma_enc_players(xs, n - 1);
        let a = enc_players(xs, n - 1);
        let b = enc_player(xs[n - 1]);
        assert(enc_players(xs, n) =~= a + b);
        assert forall|i: int| 0 <= i < n implies #[trigger] enc_players(xs, n).subrange(68 * i, 68 * i + 68) == enc_player(xs[i]) by {
            if i < n - 1 {
                assert((a + b).subrange(68 * i, 68 * i + 68) =~= a.subrange(68 * i, 68 * i + 68));
            } else {
                assert((a + b).subrange(68 * i, 68 * i + 68) =~= b);
            }
        }
    }
}

proof fn lemma_enc_spawned(xs: Seq<(u16, u16)>, n: int)
    requires
        0 <= n <= xs.len(),
    ensures
        enc_spawned(xs, n).len() == 4 * n,
        forall|i: int| 0 <= i < n ==> #[trigger] enc_spawned(xs, n).subrange(4 * i, 4 * i + 4) == (le16(xs[i].0) + le16(xs[i].1)),
    decreases n,
{
    if n > 0 {
        lemma_enc_spawned(xs, n - 1);
        let a = enc_spawned(xs, n - 1);
        let b = (le16(xs[n - 1].0) + le16(xs[n - 1].1));
        assert(enc_spawned(xs, n) =~= a + b);
        assert forall|i: int| 0 <= i < n implies #[trigger] enc_spawned(xs, n).subrange(4 * i, 4 * i + 4) == (le16(xs[i].0) + le16(xs[i].1)) by {
            if i < n - 1 {
                assert((a + b).subrange(4 * i, 4 * i + 4) =~= a.subrange(4 * i, 4 * i + 4));
            } else {
                assert((a + b).subrange(4 * i, 4 * i + 4) =~= b);
            }
        }
    }
}

proof fn lemma_enc_levels_prefix(ls: Seq<Level>, i: int, n: int)
    requires
        0 <= i <= n <= ls.len(),
    ensures
        enc_levels(ls, i).len() <= enc_levels(ls, n).len(),
        enc_levels(ls, n).subrange(0, enc_levels(ls, i).len() as int) == enc_levels(ls, i),
    decreases n - i,
{
    if i < n {
        lemma_enc_levels_prefix(ls, i, n - 1);
        let a = enc_levels(ls, n - 1);
        assert(enc_levels(ls, n) == a + enc_level(ls[n - 1]));
        assert((a + enc_level(ls[n - 1])).subrange(0, enc_levels(ls, i).len() as int) =~= a.subrange(
            0,
            enc_levels(ls, i).len() as int,
        ));
    } else {
        assert(enc_levels(ls, n).subrange(0, enc_levels(ls, n).len() as int) =~= enc_levels(ls, n));
    }
}

/// A level that [`read_level`] takes back, and that the world can run.
pub open spec fn level_fits(l: Level) -> bool {
    &&& crate::world::playable(l)
    &&& l.map.rw() <= 0x1_0000 && l.map.rh() <= 0x1_0000
    &&& l.links@.len() <= u32::MAX && l.spawns@.len() <= u32::MAX
}

/// Reads `count` levels written by [`write_level`], each one the world can
/// run.
#[verifier::spinoff_prover]
#[verifier::rlimit(60)]
fn read_levels(r: &mut Reader, count: usize) -> (out: Option<Vec<Level>>)
    ensures
        final(r).data_view() == old(r).data_view(),
        out matches Some(v) ==> v@.len() == count && forall|k: int| 0 <= k < count ==> crate::world::playable(#[trigger] v@[k]),
        forall|ls: Seq<Level>|
            ls.len() == count && (forall|k: int| 0 <= k < count ==> level_fits(#[trigger] ls[k]))
                && #[trigger] bytes_at(old(r).data_view(), old(r).pos_view(), enc_levels(ls, count as int)) ==> (out matches Some(
                v) && (forall|k: int| 0 <= k < count ==> same_level(#[trigger] v@[k], ls[k])) && final(r).pos_view()
                == old(r).pos_view() + enc_levels(ls, count as int).len()),
{
    let ghost d = old(r).data_view();
    let ghost p0 = old(r).pos_view();
    let mut levels: Vec<Level> = Vec::new();
    let mut i: usize = 0;
    while i < count
        invariant
            i <= count,
            levels@.len() == i,
            r.data_view() == d,
            d == old(r).data_view(),
            p0 == old(r).pos_view(),
            forall|k: int| 0 <= k < i ==> crate::world::playable(#[trigger] levels@[k]),
            forall|ls: Seq<Level>|
                ls.len() == count && (forall|k: int| 0 <= k < count ==> level_fits(#[trigger] ls[k]))
                    && #[trigger] bytes_at(d, p0, enc_levels(ls, count as int)) ==> (forall|k: int|
                    0 <= k < i ==> same_level(#[trigger] levels@[k], ls[k])) && r.pos_view() == p0 + enc_levels(
                    ls,
                    i as int,
                ).len(),
        decreases count - i,
    {
        let ghost q = r.pos_view();
        proof {
            assert forall|ls: Seq<Level>|
                ls.len() == count && (forall|k: int| 0 <= k < count ==> level_fits(#[trigger] ls[k]))
                    && #[trigger] bytes_at(d, p0, enc_levels(ls, count as int)) implies encodes_level(d, q, ls[i as int]) by {
                lemma_enc_levels_prefix(ls, i + 1, count as int);
                lemma_bytes_sub(d, p0, enc_levels(ls, count as int), 0, enc_levels(ls, i + 1).len() as int);
                assert(enc_levels(ls, i + 1) == enc_levels(ls, i as int) + enc_level(ls[i as int]));
                lemma_bytes_split(d, p0, enc_levels(ls, i as int), enc_level(ls[i as int]));
                assert(level_fits(ls[i as int]));
            }
        }
        let l = match read_level(r) {
            Some(l) => l,
            None => {
                return None;
            },
        };
        if !level_playable(&l) {
            proof {
                assert forall|ls: Seq<Level>|
                    ls.len() == count && (forall|k: int| 0 <= k < count ==> level_fits(#[trigger] ls[k]))
                        && #[trigger] bytes_at(d, p0, enc_levels(ls, count as int)) implies false by {
                    assert(encodes_level(d, q, ls[i as int]));
                    assert(level_fits(ls[i as int]));
                }
            }
            return None;
        }
        let ghost before = levels@;
        levels.push(l);
        proof {
            assert forall|ls: Seq<Level>|
                ls.len() == count && (forall|k: int| 0 <= k < count ==> level_fits(#[trigger] ls[k]))
                    && #[trigger] bytes_at(d, p0, enc_levels(ls, count as int)) implies (forall|k: int|
                0 <= k < i + 1 ==> same_level(#[trigger] levels@[k], ls[k])) && r.pos_view() == p0 + enc_levels(
                ls,
                i + 1,
            ).len() by {
                assert(encodes_level(d, q, ls[i as int]));
                assert(enc_levels(ls, i + 1) == enc_levels(ls, i as int) + enc_level(ls[i as int]));
                assert forall|k: int| 0 <= k < i + 1 implies same_level(#[trigger] levels@[k], ls[k]) by {
                    if k < i {
                        assert(levels@[k] == before[k]);
                    }
                }
            }
        }
        i = i + 1;
    }
    Some(levels)
}

/// Reads `count` entity slots written by [`write_entity`].
#[verifier::spinoff_prover]
#[verifier::rlimit(60)]
fn read_slab(r: &mut Reader, count: usize) -> (out: Option<Vec<Entity>>)
    ensures
        final(r).data_view() == old(r).data_view(),
        out matches Some(v) ==> v@.len() == count,
        forall|es: Seq<Entity>|
            es.len() == count && #[trigger] bytes_at(old(r).data_view(), old(r).pos_view(), enc_slab(es, count as int))
                ==> (out matches Some(v) && v@ == es && final(r).pos_view() == old(r).pos_view() + 84 * count),
{
    let ghost d = old(r).data_view();
    let ghost p0 = old(r).pos_view();
    let mut slots: Vec<Entity> = Vec::new();
    let mut j: usize = 0;
    while j < count
        invariant
            j <= count,
            slots@.len() == j,
            r.data_view() == d,
            d == old(r).data_view(),
            p0 == old(r).pos_view(),
            forall|es: Seq<Entity>|
                es.len() == count && #[trigger] bytes_at(d, p0, enc_slab(es, count as int)) ==> slots@ == es.take(
                    j as int,
                ) && r.pos_view() == p0 + 84 * j,
        decreases count - j,
    {
        let ghost q = r.pos_view();
        proof {
            assert forall|es: Seq<Entity>| es.len() == count && #[trigger] bytes_at(d, p0, enc_slab(es, count as int)) implies bytes_at(
                d,
                q,
                enc_entity(es[j as int]),
            ) by {
                lemma_enc_slab(es, count as int);
                lemma_bytes_sub(d, p0, enc_slab(es, count as int), 84 * j, 84);
            }
        }
        let e = match read_entity(r) {
            Some(e) => e,
            None => {
                return None;
            },
        };
        slots.push(e);
        proof {
            assert forall|es: Seq<Entity>| es.len() == count && #[trigger] bytes_at(d, p0, enc_slab(es, count as int)) implies slots@
                == es.take(j + 1) && r.pos_view() == p0 + 84 * (j + 1) by {
                assert(bytes_at(d, q, enc_entity(es[j as int])));
                assert(slots@ =~= es.take(j + 1));
            }
        }
        j = j + 1;
    }
    Some(slots)
}

/// Reads `count` free-list entries.
#[verifier::spinoff_prover]
#[verifier::rlimit(60)]
fn read_free(r: &mut Reader, count: usize) -> (out: Option<Vec<u16>>)
    ensures
        final(r).data_view() == old(r).data_view(),
        forall|fs: Seq<u16>|
            fs.len() == count && #[trigger] bytes_at(old(r).data_view(), old(r).pos_view(), enc_free(fs, count as int))
                ==> (out matches Some(v) && v@ == fs && final(r).pos_view() == old(r).pos_view() + 2 * count),
{
    let ghost d = old(r).data_view();
    let ghost p0 = old(r).pos_view();
    proof {
        assert forall|fs: Seq<u16>| fs.len() == count && #[trigger] bytes_at(d, p0, enc_free(fs, count as int)) implies p0 + 2
            * count <= d.len() by {
            lemma_enc_free(fs, count as int);
        }
    }
    let mut free: Vec<u16> = Vec::new();
    let mut k: usize = 0;
    while k < count
        invariant
            k <= count,
            free@.len() == k,
            r.data_view() == d,
            d == old(r).data_view(),
            p0 == old(r).pos_view(),
            forall|fs: Seq<u16>|
                fs.len() == count && #[trigger] bytes_at(d, p0, enc_free(fs, count as int)) ==> p0 + 2 * count <= d.len()
                    && free@ == fs.take(k as int) && r.pos_view() == p0 + 2 * k,
        decreases count - k,
    {
        let ghost q = r.pos_view();
        let v = match r.u16() {
            Some(v) => v,
            None => {
                assert forall|fs: Seq<u16>| fs.len() == count && #[trigger] bytes_at(d, p0, enc_free(fs, count as int)) implies false by {}
                return None;
            },
        };
        free.push(v);
        proof {
            assert forall|fs: Seq<u16>| fs.len() == count && #[trigger] bytes_at(d, p0, enc_free(fs, count as int)) implies p0 + 2
                * count <= d.len() && free@ == fs.take(k + 1) && r.pos_view() == p0 + 2 * (k + 1) by {
                lemma_enc_free(fs, count as int);
                lemma_bytes_sub(d, p0, enc_free(fs, count as int), 2 * k, 2);
                lemma_u16_roundtrip(fs[k as int]);
                assert(free@ =~= fs.take(k + 1));
            }
        }
        k = k + 1;
    }
    Some(free)
}

/// Reads `count` players written by [`write_player`], each with a seat in
/// one of `n_levels` levels.
#[verifier::spinoff_prover]
#[verifier::rlimit(60)]
fn read_players(r: &mut Reader, count: usize, n_levels: usize) -> (out: Option<Vec<Player>>)
    ensures
        final(r).data_view() == old(r).data_view(),
        out matches Some(v) ==> v@.len() == count && forall|k: int| 0 <= k < count ==> crate::world::seat_ok(#[trigger] v@[k], n_levels as int),
        forall|ps: Seq<Player>|
            ps.len() == count && (forall|k: int| 0 <= k < count ==> crate::world::seat_ok(#[trigger] ps[k], n_levels as int))
                && #[trigger] bytes_at(old(r).data_view(), old(r).pos_view(), enc_players(ps, count as int)) ==> (out matches Some(
                v) && (forall|k: int| 0 <= k < count ==> #[trigger] v@[k] == (Player { message: None, ..ps[k] }))
                && final(r).pos_view() == old(r).pos_view() + 68 * count),
{
    let ghost d = old(r).data_view();
    let ghost p0 = old(r).pos_view();
    let mut players: Vec<Player> = Vec::new();
    let mut j: usize = 0;
    while j < count
        invariant
            j <= count,
            players@.len() == j,
            r.data_view() == d,
            d == old(r).data_view(),
            p0 == old(r).pos_view(),
            forall|k: int| 0 <= k < j ==> crate::world::seat_ok(#[trigger] players@[k], n_levels as int),
            forall|ps: Seq<Player>|
                ps.len() == count && (forall|k: int| 0 <= k < count ==> crate::world::seat_ok(#[trigger] ps[k], n_levels as int))
                    && #[trigger] bytes_at(d, p0, enc_players(ps, count as int)) ==> (forall|k: int|
                    0 <= k < j ==> #[trigger] players@[k] == (Player { message: None, ..ps[k] })) && r.pos_view() == p0 + 68 * j,
        decreases count - j,
    {
        let ghost q = r.pos_view();
        proof {
            assert forall|ps: Seq<Player>|
                ps.len() == count && (forall|k: int| 0 <= k < count ==> crate::world::seat_ok(#[trigger] ps[k], n_levels as int))
                    && #[trigger] bytes_at(d, p0, enc_players(ps, count as int)) implies bytes_at(d, q, enc_player(ps[j as int])) by {
                lemma_enc_players(ps, count as int);
                lemma_bytes_sub(d, p0, enc_players(ps, count as int), 68 * j, 68);
            }
        }
        let pl = match read_player(r) {
            Some(pl) => pl,
            None => {
                return None;
            },
        };
        if !seat_fits(&pl, n_levels) {
            proof {
                assert forall|ps: Seq<Player>|
                    ps.len() == count && (forall|k: int| 0 <= k < count ==> crate::world::seat_ok(#[trigger] ps[k], n_levels as int))
                        && #[trigger] bytes_at(d, p0, enc_players(ps, count as int)) implies false by {
                    assert(bytes_at(d, q, enc_player(ps[j as int])));
                    assert(crate::world::seat_ok(ps[j as int], n_levels as int));
                }
            }
            return None;
        }
        let ghost before = players@;
        players.push(pl);
        proof {
            assert forall|ps: Seq<Player>|
                ps.len() == count && (forall|k: int| 0 <= k < count ==> crate::world::seat_ok(#[trigger] ps[k], n_levels as int))
                    && #[trigger] bytes_at(d, p0, enc_players(ps, count as int)) implies (forall|k: int|
                0 <= k < j + 1 ==> #[trigger] players@[k] == (Player { message: None, ..ps[k] })) && r.pos_view() == p0 + 68 * (j
                + 1) by {
                assert(bytes_at(d, q, enc_player(ps[j as int])));
                assert forall|k: int| 0 <= k < j + 1 implies #[trigger] players@[k] == (Player { message: None, ..ps[k] }) by {
                    if k < j {
                        assert(players@[k] == before[k]);
                    }
                }
            }
        }
        j = j + 1;
    }
    Some(players)
}

/// Reads `count` populated-room keys.
#[verifier::spinoff_prover]
#[verifier::rlimit(60)]
fn read_spawned(r: &mut Reader, count: usize) -> (out: Option<Vec<(u16, u16)>>)
    ensures
        final(r).data_view() == old(r).data_view(),
        forall|ks: Seq<(u16, u16)>|
            ks.len() == count && #[trigger] bytes_at(old(r).data_view(), old(r).pos_view(), enc_spawned(ks, count as int))
                ==> (out matches Some(v) && v@ == ks && final(r).pos_view() == old(r).pos_view() + 4 * count),
{
    let ghost d = old(r).data_view();
    let ghost p0 = old(r).pos_view();
    proof {
        assert forall|ks: Seq<(u16, u16)>| ks.len() == count && #[trigger] bytes_at(d, p0, enc_spawned(ks, count as int)) implies p0
            + 4 * count <= d.len() by {
            lemma_enc_spawned(ks, count as int);
        }
    }
    let mut spawned: Vec<(u16, u16)> = Vec::new();
    let mut q: usize = 0;
    while q < count
        invariant
            q <= count,
            spawned@.len() == q,
            r.data_view() == d,
            d == old(r).data_view(),
            p0 == old(r).pos_view(),
            forall|ks: Seq<(u16, u16)>|
                ks.len() == count && #[trigger] bytes_at(d, p0, enc_spawned(ks, count as int)) ==> p0 + 4 * count <= d.len()
                    && spawned@ == ks.take(q as int) && r.pos_view() == p0 + 4 * q,
        decreases count - q,
    {
        let ghost at = r.pos_view();
        let a = match r.u16() {
            Some(v) => v,
            None => {
                assert forall|ks: Seq<(u16, u16)>| ks.len() == count && #[trigger] bytes_at(d, p0, enc_spawned(ks, count as int)) implies false by {}
                return None;
            },
        };
        let b = match r.u16() {
            Some(v) => v,
            None => {
                assert forall|ks: Seq<(u16, u16)>| ks.len() == count && #[trigger] bytes_at(d, p0, enc_spawned(ks, count as int)) implies false by {}
                return None;
            },
        };
        spawned.push((a, b));
        proof {
            assert forall|ks: Seq<(u16, u16)>| ks.len() == count && #[trigger] bytes_at(d, p0, enc_spawned(ks, count as int)) implies p0
                + 4 * count <= d.len() && spawned@ == ks.take(q + 1) && r.pos_view() == p0 + 4 * (q + 1) by {
                lemma_enc_spawned(ks, count as int);
                lemma_bytes_sub(d, p0, enc_spawned(ks, count as int), 4 * q, 4);
                lemma_bytes_split(d, at, le16(ks[q as int].0), le16(ks[q as int].1));
                lemma_u16_roundtrip(ks[q as int].0);
                lemma_u16_roundtrip(ks[q as int].1);
                assert(spawned@ =~= ks.take(q + 1));
            }
        }
        q = q + 1;
    }
    Some(spawned)
}

/// A world that a snapshot carries whole: one [`World::load`] takes back.
/// It runs (`wf`), has at most 256 levels and 64 players, its levels' link
/// and spawn counts and its populated-room count fit their 32-bit fields,
/// and its free list is no longer than its slab.
#[verifier::opaque]
pub open spec fn snapshot_fits(w: World) -> bool {
    &&& w.wf()
    &&& w.levels@.len() <= 256
    &&& w.players@.len() <= 64
    &&& forall|i: int| 0 <= i < w.levels@.len() ==> level_fits(#[trigger] w.levels@[i])
    &&& w.entities.free_view().len() <= w.entities.slots_view().len()
    &&& w.spawned@.len() <= u32::MAX
}

proof fn lemma_fits(w: World)
    requires
        snapshot_fits(w),
    ensures
        w.wf(),
        1 <= w.levels@.len() <= 256,
        1 <= w.players@.len() <= 64,
        forall|i: int| 0 <= i < w.levels@.len() ==> level_fits(#[trigger] w.levels@[i]),
        forall|i: int| 0 <= i < w.players@.len() ==> crate::world::seat_ok(#[trigger] w.players@[i], w.levels@.len() as int),
        w.entities.slots_view().len() <= 0x10000,
        w.entities.free_view().len() <= w.entities.slots_view().len(),
        w.spawned@.len() <= u32::MAX,
{
    reveal(snapshot_fits);
}

/// `d` is the snapshot [`World::save`] makes of `w`, and `w` fits one.
pub open spec fn snapshot_of(d: Seq<u8>, w: World) -> bool {
    snapshot_fits(w) && d == enc_world(w)
}

/// Saving a world that fits a snapshot gives bytes that [`World::load`]
/// takes back whole: [`World::save`] returns `enc_world(w)`, and on those
/// bytes `load` returns a world that [`restores`] `w`.
pub proof fn lemma_save_then_load(w: World)
    requires
        snapshot_fits(w),
    ensures
        snapshot_of(enc_world(w), w),
{
}

/// What loading gives back of a saved world `w`: all of it, except that no
/// message is showing, no event is queued, and the free list keeps only
/// slots that can be reused.
pub open spec fn restores(b: World, w: World) -> bool {
    &&& b.seed == w.seed && b.frame == w.frame && b.rng.st() == w.rng.st()
    &&& b.levels@.len() == w.levels@.len()
    &&& forall|i: int| 0 <= i < w.levels@.len() ==> same_level(#[trigger] b.levels@[i], w.levels@[i])
    &&& b.entities.slots_view() == w.entities.slots_view()
    &&& b.entities.free_view() == w.entities.free_view().filter(
        |i: u16| crate::entity::reusable(w.entities.slots_view(), i),
    )
    &&& b.players@.len() == w.players@.len()
    &&& forall|i: int| 0 <= i < w.players@.len() ==> #[trigger] b.players@[i] == (Player { message: None, ..w.players@[i] })
    &&& b.spawned@ == w.spawned@
    &&& b.events@.len() == 0
}

/// Where each part of a snapshot stands.
#[verifier::spinoff_prover]
#[verifier::rlimit(100)]
proof fn lemma_world_pieces(d: Seq<u8>, w: World)
    requires
        d == enc_world(w),
    ensures
        ({
            let nl = w.levels@.len();
            let ns = w.entities.slots_view().len();
            let nf = w.entities.free_view().len();
            let np = w.players@.len();
            let nk = w.spawned@.len();
            let a: int = 34 + enc_levels(w.levels@, nl as int).len() as int;
            let b: int = a + 4 + 84 * ns;
            let c: int = b + 4 + 2 * nf;
            let e: int = c + 4 + 68 * np;
            &&& bytes_at(d, 0, magic())
            &&& bytes_at(d, 4, le16(VERSION))
            &&& bytes_at(d, 6, le64(w.seed))
            &&& bytes_at(d, 14, le64(w.frame))
            &&& bytes_at(d, 22, le64(w.rng.st()))
            &&& bytes_at(d, 30, le32(nl as u32))
            &&& bytes_at(d, 34, enc_levels(w.levels@, nl as int))
            &&& bytes_at(d, a, le32(ns as u32))
            &&& bytes_at(d, a + 4, enc_slab(w.entities.slots_view(), ns as int))
            &&& bytes_at(d, b, le32(nf as u32))
            &&& bytes_at(d, b + 4, enc_free(w.entities.free_view(), nf as int))
            &&& bytes_at(d, c, le32(np as u32))
            &&& bytes_at(d, c + 4, enc_players(w.players@, np as int))
            &&& bytes_at(d, e, le32(nk as u32))
            &&& bytes_at(d, e + 4, enc_spawned(w.spawned@, nk as int))
        }),
{
    let nl = w.levels@.len() as int;
    let ns = w.entities.slots_view().len() as int;
    let nf = w.entities.free_view().len() as int;
    let np = w.players@.len() as int;
    let nk = w.spawned@.len() as int;
    let x0 = magic() + le16(VERSION);
    let x1 = x0 + le64(w.seed);
    let x2 = x1 + le64(w.frame);
    let x3 = x2 + le64(w.rng.st());
    let x4 = x3 + le32(nl as u32);
    let x5 = x4 + enc_levels(w.levels@, nl);
    let x6 = x5 + le32(ns as u32);
    let x7 = x6 + enc_slab(w.entities.slots_view(), ns);
    let x8 = x7 + le32(nf as u32);
    let x9 = x8 + enc_free(w.entities.free_view(), nf);
    let x10 = x9 + le32(np as u32);
    let x11 = x10 + enc_players(w.players@, np);
    let x12 = x11 + le32(nk as u32);
    let x13 = x12 + enc_spawned(w.spawned@, nk);
    reveal(enc_world);
    assert(d == x13);
    lemma_enc_slab(w.entities.slots_view(), ns);
    lemma_enc_free(w.entities.free_view(), nf);
    lemma_enc_players(w.players@, np);
    let lv = enc_levels(w.levels@, nl).len() as int;
    assert(x0.len() == 6);
    assert(x1.len() == 14);
    assert(x2.len() == 22);
    assert(x3.len() == 30);
    assert(x4.len() == 34);
    assert(x5.len() == 34 + lv);
    assert(x6.len() == 38 + lv);
    assert(x7.len() == 38 + lv + 84 * ns);
    assert(x8.len() == 42 + lv + 84 * ns);
    assert(x9.len() == 42 + lv + 84 * ns + 2 * nf);
    assert(x10.len() == 46 + lv + 84 * ns + 2 * nf);
    assert(x11.len() == 46 + lv + 84 * ns + 2 * nf + 68 * np);
    assert(x12.len() == 50 + lv + 84 * ns + 2 * nf + 68 * np);
    assert(d.subrange(0, d.len() as int) =~= d);
    assert(bytes_at(d, 0, x13));
    lemma_bytes_split(d, 0, x12, enc_spawned(w.spawned@, nk));
    lemma_bytes_split(d, 0, x11, le32(nk as u32));
    lemma_bytes_split(d, 0, x10, enc_players(w.players@, np));
    lemma_bytes_split(d, 0, x9, le32(np as u32));
    lemma_bytes_split(d, 0, x8, enc_free(w.entities.free_view(), nf));
    lemma_bytes_split(d, 0, x7, le32(nf as u32));
    lemma_bytes_split(d, 0, x6, enc_slab(w.entities.slots_view(), ns));
    lemma_bytes_split(d, 0, x5, le32(ns as u32));
    lemma_bytes_split(d, 0, x4, enc_levels(w.levels@, nl));
    lemma_bytes_split(d, 0, x3, le32(nl as u32));
    lemma_bytes_split(d, 0, x2, le64(w.rng.st()));
    lemma_bytes_split(d, 0, x1, le64(w.frame));
    lemma_bytes_split(d, 0, x0, le64(w.seed));
    lemma_bytes_split(d, 0, magic(), le16(VERSION));
}

/// Where a snapshot of `w` keeps its entity slots' count.
pub open spec fn slab_at(w: World) -> int {
    34 + enc_levels(w.levels@, w.levels@.len() as int).len() as int
}

/// Where a snapshot of `w` keeps its players' count.
pub open spec fn people_at(w: World) -> int {
    slab_at(w) + 4 + 84 * w.entities.slots_view().len() + 4 + 2 * w.entities.free_view().len()
}

/// Reads the entity slots and the free list of a snapshot.
#[verifier::spinoff_prover]
#[verifier::rlimit(100)]
fn read_entities(r: &mut Reader) -> (out: Option<(Vec<Entity>, Vec<u16>)>)
    ensures
        final(r).data_view() == old(r).data_view(),
        out matches Some(v) ==> v.0@.len() <= 0x10000,
        forall|w: World|
            #[trigger] snapshot_of(old(r).data_view(), w) && old(r).pos_view() == slab_at(w) ==> (out matches Some(v)
                && v.0@ == w.entities.slots_view() && v.1@ == w.entities.free_view() && final(r).pos_view() == people_at(
                w,
            )),
{
    let ghost d = old(r).data_view();
    let ghost p0 = old(r).pos_view();
    let slot_count = match r.u32() {
        Some(v) => v as usize,
        None => {
            proof {
                assert forall|w: World| #[trigger] snapshot_of(d, w) && p0 == slab_at(w) implies false by {
                    lemma_world_pieces(d, w);
                lemma_fits(w);
                }
            }
            return None;
        },
    };
    proof {
        assert forall|w: World| #[trigger] snapshot_of(d, w) && p0 == slab_at(w) implies slot_count
            == w.entities.slots_view().len() by {
            lemma_world_pieces(d, w);
                lemma_fits(w);
            lemma_u32_roundtrip(w.entities.slots_view().len() as u32);
        }
    }
    if slot_count > 0x10000 {
        proof {
            assert forall|w: World| #[trigger] snapshot_of(d, w) && p0 == slab_at(w) implies false by {
                lemma_world_pieces(d, w);
                lemma_fits(w);
            }
        }
        return None;
    }
    let slots = match read_slab(r, slot_count) {
        Some(v) => v,
        None => {
            proof {
                assert forall|w: World| #[trigger] snapshot_of(d, w) && p0 == slab_at(w) implies false by {
                    lemma_world_pieces(d, w);
                lemma_fits(w);
                }
            }
            return None;
        },
    };
    let ghost pb = r.pos_view();
    let free_count = match r.u32() {
        Some(v) => v as usize,
        None => {
            proof {
                assert forall|w: World| #[trigger] snapshot_of(d, w) && p0 == slab_at(w) implies false by {
                    lemma_world_pieces(d, w);
                lemma_fits(w);
                }
            }
            return None;
        },
    };
    proof {
        assert forall|w: World| #[trigger] snapshot_of(d, w) && p0 == slab_at(w) implies free_count
            == w.entities.free_view().len() && slots@ == w.entities.slots_view() && pb == p0 + 4 + 84 * slot_count by {
            lemma_world_pieces(d, w);
                lemma_fits(w);
            lemma_u32_roundtrip(w.entities.free_view().len() as u32);
        }
    }
    if free_count > slot_count {
        proof {
            assert forall|w: World| #[trigger] snapshot_of(d, w) && p0 == slab_at(w) implies false by {
                lemma_world_pieces(d, w);
                lemma_fits(w);
            }
        }
        return None;
    }
    let free = match read_free(r, free_count) {
        Some(v) => v,
        None => {
            proof {
                assert forall|w: World| #[trigger] snapshot_of(d, w) && p0 == slab_at(w) implies false by {
                    lemma_world_pieces(d, w);
                lemma_fits(w);
                }
            }
            return None;
        },
    };
    proof {
        assert forall|w: World| #[trigger] snapshot_of(d, w) && p0 == slab_at(w) implies free@ == w.entities.free_view()
            && r.pos_view() == people_at(w) by {
            lemma_world_pieces(d, w);
                lemma_fits(w);
        }
    }
    Some((slots, free))
}

/// Where a snapshot of `w` keeps its populated rooms' count.
pub open spec fn rooms_at(w: World) -> int {
    people_at(w) + 4 + 68 * w.players@.len()
}

/// Reads the players of a snapshot whose world has `n_levels` levels.
#[verifier::spinoff_prover]
#[verifier::rlimit(100)]
fn read_player_list(r: &mut Reader, n_levels: usize) -> (out: Option<Vec<Player>>)
    ensures
        final(r).data_view() == old(r).data_view(),
        out matches Some(v) ==> 1 <= v@.len() <= 64 && forall|k: int|
            0 <= k < v@.len() ==> crate::world::seat_ok(#[trigger] v@[k], n_levels as int),
        forall|w: World|
            #[trigger] snapshot_of(old(r).data_view(), w) && old(r).pos_view() == people_at(w) && n_levels
                == w.levels@.len() ==> (out matches Some(v) && v@.len() == w.players@.len() && (forall|k: int|
                0 <= k < w.players@.len() ==> #[trigger] v@[k] == (Player { message: None, ..w.players@[k] }))
                && final(r).pos_view() == rooms_at(w)),
{
    let ghost d = old(r).data_view();
    let ghost p0 = old(r).pos_view();
    let player_count = match r.u32() {
        Some(v) => v as usize,
        None => {
            proof {
                assert forall|w: World| #[trigger] snapshot_of(d, w) && p0 == people_at(w) && n_levels == w.levels@.len() implies false by {
                    lemma_world_pieces(d, w);
                }
            }
            return None;
        },
    };
    proof {
        assert forall|w: World| #[trigger] snapshot_of(d, w) && p0 == people_at(w) && n_levels == w.levels@.len() implies player_count
            == w.players@.len() && 1 <= player_count <= 64 && bytes_at(d, p0 + 4, enc_players(w.players@, player_count as int))
            && (forall|k: int| 0 <= k < player_count ==> crate::world::seat_ok(#[trigger] w.players@[k], n_levels as int)) by {
            lemma_world_pieces(d, w);
            lemma_fits(w);
            lemma_u32_roundtrip(w.players@.len() as u32);
        }
    }
    if player_count == 0 || player_count > 64 {
        return None;
    }
    read_players(r, player_count, n_levels)
}

/// Where a snapshot keeps its populated rooms.
proof fn lemma_world_rooms(d: Seq<u8>, w: World)
    requires
        d == enc_world(w),
    ensures
        bytes_at(d, rooms_at(w), le32(w.spawned@.len() as u32)),
        bytes_at(d, rooms_at(w) + 4, enc_spawned(w.spawned@, w.spawned@.len() as int)),
{
    lemma_world_pieces(d, w);
}

/// Reads the players and the populated rooms of a snapshot whose world has
/// `n_levels` levels.
#[verifier::spinoff_prover]
#[verifier::rlimit(100)]
fn read_people(r: &mut Reader, n_levels: usize) -> (out: Option<(Vec<Player>, Vec<(u16, u16)>)>)
    ensures
        final(r).data_view() == old(r).data_view(),
        out matches Some(v) ==> 1 <= v.0@.len() <= 64 && forall|k: int|
            0 <= k < v.0@.len() ==> crate::world::seat_ok(#[trigger] v.0@[k], n_levels as int),
        forall|w: World|
            #[trigger] snapshot_of(old(r).data_view(), w) && old(r).pos_view() == people_at(w) && n_levels
                == w.levels@.len() ==> (out matches Some(v) && v.0@.len() == w.players@.len() && (forall|k: int|
                0 <= k < w.players@.len() ==> #[trigger] v.0@[k] == (Player { message: None, ..w.players@[k] }))
                && v.1@ == w.spawned@),
{
    let ghost d = old(r).data_view();
    let ghost p0 = old(r).pos_view();
    let players = match read_player_list(r, n_levels) {
        Some(v) => v,
        None => {
            return None;
        },
    };
    let ghost pe = r.pos_view();
    let spawned_count = match r.u32() {
        Some(v) => v as usize,
        None => {
            proof {
                assert forall|w: World| #[trigger] snapshot_of(d, w) && p0 == people_at(w) && n_levels == w.levels@.len() implies false by {
                    lemma_world_rooms(d, w);
                }
            }
            return None;
        },
    };
    proof {
        assert forall|w: World| #[trigger] snapshot_of(d, w) && p0 == people_at(w) && n_levels == w.levels@.len() implies spawned_count
            == w.spawned@.len() && bytes_at(d, pe + 4, enc_spawned(w.spawned@, spawned_count as int)) by {
            lemma_world_rooms(d, w);
            lemma_fits(w);
            assert(pe == rooms_at(w));
            lemma_u32_roundtrip(w.spawned@.len() as u32);
        }
    }
    let spawned = match read_spawned(r, spawned_count) {
        Some(v) => v,
        None => {
            return None;
        },
    };
    Some((players, spawned))
}

/// The bytes every snapshot starts with.
pub open spec fn magic() -> Seq<u8> {
    seq![0x5au8, 0x44u8, 0x55u8, 0x48u8]
}

/// A whole snapshot: magic, version, seed, frame and random state; then the
/// levels, the entity slots, the free list, the players and the populated
/// rooms, each counted.
#[verifier::opaque]
pub open spec fn enc_world(w: World) -> Seq<u8> {
    magic() + le16(VERSION) + le64(w.seed) + le64(w.frame) + le64(w.rng.st())
        + le32(w.levels@.len() as u32) + enc_levels(w.levels@, w.levels@.len() as int)
        + le32(w.entities.slots_view().len() as u32) + enc_slab(
        w.entities.slots_view(),
        w.entities.slots_view().len() as int,
    ) + le32(w.entities.free_view().len() as u32) + enc_free(
        w.entities.free_view(),
        w.entities.free_view().len() as int,
    ) + le32(w.players@.len() as u32) + enc_players(w.players@, w.players@.len() as int) + le32(
        w.spawned@.len() as u32,
    ) + enc_spawned(w.spawned@, w.spawned@.len() as int)
}

/// True when the level can be run; see [`crate::world::playable`].
pub fn level_playable(l: &Level) -> (r: bool)
    requires
        l.wf(),
    ensures
        r == crate::world::playable(*l),
{
    let w = l.map.w();
    let h = l.map.h();
    w < 0x4_0000 && h < 0x4_0000 && -crate::world::PLAY_LIMIT <= l.entrance.x && l.entrance.x
        <= crate::world::PLAY_LIMIT && -crate::world::PLAY_LIMIT <= l.entrance.y && l.entrance.y
        <= crate::world::PLAY_LIMIT
}

/// True when a player record can be run in a world of `n_levels` levels;
/// see [`crate::world::seat_ok`].
pub fn seat_fits(p: &Player, n_levels: usize) -> (r: bool)
    ensures
        r == crate::world::seat_ok(*p, n_levels as int),
{
    (p.level as usize) < n_levels && -0x10_0000 <= p.room.0 && p.room.0 <= 0x10_0000 && -0x10_0000
        <= p.room.1 && p.room.1 <= 0x10_0000 && 0 <= p.camera.x && p.camera.x <= 0x4000_0000 && 0
        <= p.camera.y && p.camera.y <= 0x4000_0000 && 0 <= p.camera.target_x && p.camera.target_x
        <= 0x4000_0000 && 0 <= p.camera.target_y && p.camera.target_y <= 0x4000_0000
}

impl World {
    /// Serialises the entire world; see [`enc_world`].
    pub fn save(&self) -> (r: Vec<u8>)
        requires
            self.wf(),
        ensures
            r@ == enc_world(*self),
    {
        let mut w = Writer::new();
        w.u8(0x5a);
        w.u8(0x44);
        w.u8(0x55);
        w.u8(0x48);
        w.u16(VERSION);
        w.u64(self.seed);
        w.u64(self.frame);
        w.u64(self.rng.state());
        w.u32(self.levels.len() as u32);
        let ghost h0 = w.written();
        proof {
            assert(h0 =~= magic() + le16(VERSION) + le64(self.seed) + le64(self.frame) + le64(self.rng.st())
                + le32(self.levels@.len() as u32));
        }
        let mut i: usize = 0;
        while i < self.levels.len()
            invariant
                self.wf(),
                i <= self.levels@.len(),
                w.written() == h0 + enc_levels(self.levels@, i as int),
            decreases self.levels@.len() - i,
        {
            proof {
                assert(crate::world::playable(self.levels@[i as int]));
                self.levels@[i as int].map.lemma_dims();
            }
            write_level(&mut w, &self.levels[i]);
            proof {
                assert(w.written() =~= h0 + enc_levels(self.levels@, i + 1));
            }
            i = i + 1;
        }
        let slots = self.entities.slots();
        w.u32(slots.len() as u32);
        let ghost h1 = w.written();
        let mut j: usize = 0;
        while j < slots.len()
            invariant
                j <= slots@.len(),
                w.written() == h1 + enc_slab(slots@, j as int),
            decreases slots@.len() - j,
        {
            write_entity(&mut w, &slots[j]);
            proof {
                assert(w.written() =~= h1 + enc_slab(slots@, j + 1));
            }
            j = j + 1;
        }
        // The free list's order decides which slot the next spawn takes, which
        // in turn decides the order entities are stepped in.
        let free = self.entities.free_slots();
        w.u32(free.len() as u32);
        let ghost h2 = w.written();
        let mut k: usize = 0;
        while k < free.len()
            invariant
                k <= free@.len(),
                w.written() == h2 + enc_free(free@, k as int),
            decreases free@.len() - k,
        {
            w.u16(free[k]);
            proof {
                assert(w.written() =~= h2 + enc_free(free@, k + 1));
            }
            k = k + 1;
        }
        w.u32(self.players.len() as u32);
        let ghost h3 = w.written();
        let mut p: usize = 0;
        while p < self.players.len()
            invariant
                p <= self.players@.len(),
                w.written() == h3 + enc_players(self.players@, p as int),
            decreases self.players@.len() - p,
        {
            write_player(&mut w, &self.players[p]);
            proof {
                assert(w.written() =~= h3 + enc_players(self.players@, p + 1));
            }
            p = p + 1;
        }
        w.u32(self.spawned.len() as u32);
        let ghost h4 = w.written();
        let mut q: usize = 0;
        while q < self.spawned.len()
            invariant
                q <= self.spawned@.len(),
                w.written() == h4 + enc_spawned(self.spawned@, q as int),
            decreases self.spawned@.len() - q,
        {
            w.u16(self.spawned[q].0);
            w.u16(self.spawned[q].1);
            proof {
                assert(w.written() =~= h4 + enc_spawned(self.spawned@, q + 1));
            }
            q = q + 1;
        }
        proof {
            reveal(enc_world);
            assert(w.written() =~= enc_world(*self));
        }
        w.finish()
    }

    /// Rebuilds a world from [`World::save`]. Returns `None` for anything that
    /// is not a snapshot this build understands: wrong magic or version,
    /// truncated data, a level or slot count out of range, a malformed level,
    /// or a world the simulation could not run (a level too large or entered
    /// far outside the play area, no players or more than 64, a player on a
    /// level that does not exist).
    #[verifier::spinoff_prover]
    #[verifier::rlimit(100)]
    pub fn load(data: &[u8]) -> (r: Option<World>)
        ensures
            r matches Some(w) ==> w.wf() && w.events@.len() == 0,
            !(data@.len() >= 6 && data@.subrange(0, 4) == magic() && from_le16(data@.subrange(4, 6)) == VERSION)
                ==> r is None,
            forall|w: World| #[trigger] snapshot_of(data@, w) ==> (r matches Some(b) && restores(b, w)),
    {
        let ghost d = data@;
        let mut r = Reader::new(data);
        proof {
            assert forall|w: World| #[trigger] snapshot_of(d, w) implies d.len() >= 34 && d.subrange(0, 4) == magic()
                && from_le16(d.subrange(4, 6)) == VERSION by {
                lemma_world_pieces(d, w);
                lemma_fits(w);
                lemma_u16_roundtrip(VERSION);
            }
        }
        let m0 = r.u8()?;
        let m1 = r.u8()?;
        let m2 = r.u8()?;
        let m3 = r.u8()?;
        if m0 != 0x5a || m1 != 0x44 || m2 != 0x55 || m3 != 0x48 {
            proof {
                assert forall|w: World| #[trigger] snapshot_of(d, w) implies false by {
                    assert(d.subrange(0, 4)[0] == 0x5a && d.subrange(0, 4)[1] == 0x44);
                    assert(d.subrange(0, 4)[2] == 0x55 && d.subrange(0, 4)[3] == 0x48);
                }
            }
            return None;
        }
        let ghost p4 = r.pos_view();
        let ver = match r.u16() {
            Some(v) => v,
            None => {
                return None;
            },
        };
        if ver != VERSION {
            return None;
        }
        proof {
            assert(p4 == 4);
            assert(data@.subrange(0, 4) =~= magic());
            assert(data@.subrange(4, 6) =~= r.data_view().subrange(4, 6));
        }
        let seed = r.u64()?;
        let frame = r.u64()?;
        let st = r.u64()?;
        let rng = Rng::from_state(st);
        let level_count = r.u32()? as usize;
        proof {
            assert forall|w: World| #[trigger] snapshot_of(d, w) implies seed == w.seed && frame == w.frame && st
                == w.rng.st() && level_count == w.levels@.len() && r.pos_view() == 34 by {
                lemma_world_pieces(d, w);
                lemma_fits(w);
                lemma_u64_roundtrip(w.seed);
                lemma_u64_roundtrip(w.frame);
                lemma_u64_roundtrip(w.rng.st());
                lemma_u32_roundtrip(w.levels@.len() as u32);
            }
        }
        if level_count == 0 || level_count > 256 {
            proof {
                assert forall|w: World| #[trigger] snapshot_of(d, w) implies false by {
                    lemma_world_pieces(d, w);
                    lemma_fits(w);
                }
            }
            return None;
        }
        let levels = match read_levels(&mut r, level_count) {
            Some(v) => v,
            None => {
                proof {
                    assert forall|w: World| #[trigger] snapshot_of(d, w) implies false by {
                        lemma_world_pieces(d, w);
                lemma_fits(w);
                    }
                }
                return None;
            },
        };
        proof {
            assert forall|w: World| #[trigger] snapshot_of(d, w) implies r.pos_view() == slab_at(w) && (forall|k: int|
                0 <= k < w.levels@.len() ==> same_level(#[trigger] levels@[k], w.levels@[k])) by {
                lemma_world_pieces(d, w);
                lemma_fits(w);
            }
        }
        let (slots, free) = match read_entities(&mut r) {
            Some(v) => v,
            None => {
                return None;
            },
        };
        let (players, spawned) = match read_people(&mut r, level_count) {
            Some(v) => v,
            None => {
                return None;
            },
        };
        let out = World {
            seed,
            frame,
            rng,
            levels,
            entities: Entities::rebuild(slots, free),
            players,
            events: Events::new(),
            spawned,
        };
        proof {
            assert forall|w: World| #[trigger] snapshot_of(d, w) implies restores(out, w) by {
                lemma_world_pieces(d, w);
                lemma_fits(w);
            }
        }
        Some(out)
    }
}

} // verus!
