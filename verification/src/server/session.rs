//! The shared game session.
//!
//! The simulation is deterministic, so the server does not need to send state
//! sixty times a second: it sends *inputs*. Every client steps its own copy of
//! the world from the same input stream and arrives at the same place. The
//! server keeps a copy of its own for two reasons: to hand a snapshot to
//! anyone joining a game already in progress, and to have something to compare
//! checksums against when a client drifts.
//!
//! Anything other than input that changes the world -- a player joining,
//! leaving, or taking over a boss -- has to happen on an agreed frame, so those
//! are carried in the same per-frame message rather than applied whenever they
//! happen to arrive.
pub mod s2c;
pub mod c2s;

use vstd::prelude::*;
use std::collections::VecDeque;
use std::sync::mpsc::Sender;
use crate::world::World;
use crate::gen::{new_world, Config};
use crate::save::{enc_world, fnv, checksum_words, FNV_OFFSET};
use vstd::string::StringSliceAdditionalSpecFns;

verus! {

broadcast use vstd::string::group_string_axioms;

/// How many players one session holds.
pub const MAX_PLAYERS: usize = 4;
/// Simulation rate.
pub const TICK_HZ: u64 = 60;
/// How many past checksums to remember when looking for divergence.
pub const CHECK_HISTORY: usize = 600;
/// Size of the fixed part of a welcome message, before the snapshot: the
/// message id, slot, player count, seed, frame and snapshot length.
pub const WELCOME_HEADER: usize = 19;

/// Sends a message down a client's channel.
///
/// Calls `Sender::send` from std, which fails only when the receiving end
/// has gone away; whether it has is up to the connection's own thread, so
/// nothing is promised of the result.
#[verifier::external_body]
fn send_bytes(out: &Sender<Vec<u8>>, message: Vec<u8>) -> (ok: bool) {
    out.send(message).is_ok()
}

/// What a player is playing as.
#[derive(Clone, Copy, PartialEq, Eq, Structural, Debug)]
pub enum Role {
    Hero,
    Boss,
}

/// One player place.
pub struct Slot {
    pub occupied: bool,
    pub buttons: u16,
    /// Set when this slot should join the world on the next tick.
    pub pending_join: bool,
    /// Set when this slot should take over a boss on the next tick.
    pub pending_boss: bool,
    /// Set when this slot should leave the world on the next tick.
    pub pending_leave: bool,
    pub out: Option<Sender<Vec<u8>>>,
}

/// A free slot.
pub open spec fn free_slot(s: Slot) -> bool {
    !s.occupied && s.buttons == 0 && !s.pending_join && !s.pending_boss && !s.pending_leave && s.out is None
}

/// Makes a free slot.
fn empty_slot() -> (s: Slot)
    ensures
        free_slot(s),
{
    Slot { occupied: false, buttons: 0, pending_join: false, pending_boss: false, pending_leave: false, out: None }
}

/// One running game.
pub struct Session {
    pub seed: u64,
    pub world: World,
    pub frame: u32,
    slots: Vec<Slot>,
    checks: VecDeque<(u32, u64)>,
    /// Counts of desyncs seen, for the log.
    pub desyncs: u32,
}

/// The little-endian bytes of a 16-bit value.
pub open spec fn le16(v: u16) -> Seq<u8> {
    seq![v as u8, (v >> 8u16) as u8]
}

/// The little-endian bytes of a 32-bit value.
pub open spec fn le32(v: u32) -> Seq<u8> {
    seq![v as u8, (v >> 8u32) as u8, (v >> 16u32) as u8, (v >> 24u32) as u8]
}

/// The little-endian bytes of a 64-bit value.
pub open spec fn le64(v: u64) -> Seq<u8> {
    seq![
        v as u8,
        (v >> 8u64) as u8,
        (v >> 16u64) as u8,
        (v >> 24u64) as u8,
        (v >> 32u64) as u8,
        (v >> 40u64) as u8,
        (v >> 48u64) as u8,
        (v >> 56u64) as u8,
    ]
}

/// A bit per player place, lowest first.
pub open spec fn mask_of(f: Seq<bool>) -> u8 {
    ((if f[0] { 1int } else { 0 }) + (if f[1] { 2int } else { 0 }) + (if f[2] { 4int } else { 0 }) + (if f[3] {
        8int
    } else {
        0
    })) as u8
}

/// The first remembered checksum for a frame.
pub open spec fn recorded(checks: Seq<(u32, u64)>, frame: u32) -> Option<u64>
    decreases checks.len(),
{
    if checks.len() == 0 {
        None
    } else if checks[0].0 == frame {
        Some(checks[0].1)
    } else {
        recorded(checks.drop_first(), frame)
    }
}

/// The newest [`CHECK_HISTORY`] entries.
pub open spec fn newest(checks: Seq<(u32, u64)>) -> Seq<(u32, u64)> {
    if checks.len() > CHECK_HISTORY {
        checks.skip(checks.len() - CHECK_HISTORY)
    } else {
        checks
    }
}

/// The welcome message: its id, the slot, the number of places, the seed,
/// the frame, the snapshot's length and the snapshot.
pub open spec fn welcome_spec(slot: int, seed: u64, frame: u32, snapshot: Seq<u8>) -> Seq<u8> {
    seq![s2c::WELCOME, slot as u8, MAX_PLAYERS as u8] + le64(seed) + le32(frame) + le32(snapshot.len() as u32)
        + snapshot
}

/// The desync message: its id, the frame and the server's checksum.
pub open spec fn desync_spec(frame: u32, ours: u64) -> Seq<u8> {
    seq![s2c::DESYNC] + le32(frame) + le64(ours)
}

/// Appends the little-endian bytes of a value, lowest first.
fn push_le(out: &mut Vec<u8>, v: u64, n: usize)
    requires
        n == 2 || n == 4 || n == 8,
    ensures
        n == 2 ==> final(out)@ == old(out)@ + le16(v as u16),
        n == 4 ==> final(out)@ == old(out)@ + le32(v as u32),
        n == 8 ==> final(out)@ == old(out)@ + le64(v),
{
    let ghost start = out@;
    out.push(v as u8);
    out.push((v >> 8) as u8);
    if n >= 4 {
        out.push((v >> 16) as u8);
        out.push((v >> 24) as u8);
    }
    if n == 8 {
        out.push((v >> 32) as u8);
        out.push((v >> 40) as u8);
        out.push((v >> 48) as u8);
        out.push((v >> 56) as u8);
    }
    proof {
        let w = v as u32;
        let h = v as u16;
        assert((v as u8) == (w as u8) && ((v >> 8u64) as u8) == ((w >> 8u32) as u8) && ((v >> 16u64) as u8) == ((w
            >> 16u32) as u8) && ((v >> 24u64) as u8) == ((w >> 24u32) as u8) && (v as u8) == (h as u8) && ((v
            >> 8u64) as u8) == ((h >> 8u16) as u8)) by (bit_vector)
            requires
                w == v as u32,
                h == v as u16,
        ;
        if n == 2 {
            assert(out@ =~= start + le16(v as u16));
        } else if n == 4 {
            assert(out@ =~= start + le32(v as u32));
        } else {
            assert(out@ =~= start + le64(v));
        }
    }
}

/// A copy of some bytes.
fn bytes_of(b: &[u8]) -> (v: Vec<u8>)
    ensures
        v@ == b@,
{
    let mut v: Vec<u8> = Vec::new();
    push_all(&mut v, b);
    v
}

/// Appends bytes.
fn push_all(out: &mut Vec<u8>, b: &[u8])
    ensures
        final(out)@ == old(out)@ + b@,
{
    let ghost start = out@;
    let mut i: usize = 0;
    while i < b.len()
        invariant
            i <= b@.len(),
            out@ == start + b@.take(i as int),
        decreases b@.len() - i,
    {
        out.push(b[i]);
        proof {
            assert(b@.take(i + 1) =~= b@.take(i as int).push(b@[i as int]));
        }
        i = i + 1;
    }
    proof {
        assert(b@.take(b@.len() as int) =~= b@);
    }
}

impl Session {
    /// The session's seed.
    pub closed spec fn seed_of(&self) -> u64 {
        self.seed
    }

    /// The server's copy of the world.
    pub closed spec fn world_of(&self) -> World {
        self.world
    }

    /// The last frame simulated.
    pub closed spec fn frame_of(&self) -> u32 {
        self.frame
    }

    /// How many desyncs have been seen.
    pub closed spec fn desyncs_of(&self) -> u32 {
        self.desyncs
    }

    /// The player places.
    pub closed spec fn slot_view(&self) -> Seq<Slot> {
        self.slots@
    }

    /// The remembered checksums, oldest first.
    pub closed spec fn check_view(&self) -> Seq<(u32, u64)> {
        self.checks@
    }

    /// Four places, a world with four players, and a bounded history.
    pub closed spec fn wf(&self) -> bool {
        &&& self.slot_view().len() == MAX_PLAYERS
        &&& self.world.wf()
        &&& self.world.players@.len() == MAX_PLAYERS
        &&& self.check_view().len() <= CHECK_HISTORY
    }

    /// Which places are taken.
    pub closed spec fn taken(&self) -> Seq<bool> {
        self.slot_view().map_values(|s: Slot| s.occupied)
    }

    /// Starts a fresh session with a generated world.
    pub fn new(seed: u64) -> (s: Session)
        ensures
            s.wf(),
            s.seed_of() == seed,
            s.frame_of() == 0,
            s.desyncs_of() == 0,
            s.world_of().seed == seed,
            forall|i: int| 0 <= i < MAX_PLAYERS ==> free_slot(#[trigger] s.slot_view()[i]),
            s.check_view().len() == 0,
    {
        let mut slots: Vec<Slot> = Vec::new();
        let mut i: usize = 0;
        while i < MAX_PLAYERS
            invariant
                i <= MAX_PLAYERS,
                slots@.len() == i,
                forall|k: int| 0 <= k < i ==> free_slot(#[trigger] slots@[k]),
            decreases MAX_PLAYERS - i,
        {
            slots.push(empty_slot());
            i = i + 1;
        }
        Session {
            seed,
            world: new_world(Config::from_seed(seed), MAX_PLAYERS),
            frame: 0,
            slots,
            checks: VecDeque::new(),
            desyncs: 0,
        }
    }

    /// Number of players currently connected.
    pub fn player_count(&self) -> (r: usize)
        requires
            self.wf(),
        ensures
            r == self.taken().filter(|b: bool| b).len(),
    {
        let mut n: usize = 0;
        let mut i: usize = 0;
        while i < self.slots.len()
            invariant
                self.slots@.len() == MAX_PLAYERS,
                i <= MAX_PLAYERS,
                n == self.taken().take(i as int).filter(|b: bool| b).len(),
                n <= i,
            decreases MAX_PLAYERS - i,
        {
            proof {
                let t = self.taken();
                assert(t.take(i + 1).drop_last() =~= t.take(i as int));
                assert(t.take(i + 1).last() == self.slots@[i as int].occupied);
                reveal_with_fuel(Seq::filter, 1);
            }
            if self.slots[i].occupied {
                n = n + 1;
            }
            i = i + 1;
        }
        proof {
            assert(self.taken().take(MAX_PLAYERS as int) =~= self.taken());
        }
        n
    }

    /// A bit per occupied slot.
    pub fn occupancy(&self) -> (r: u8)
        requires
            self.wf(),
        ensures
            r == mask_of(self.taken()),
    {
        let a: u8 = if self.slots[0].occupied { 1 } else { 0 };
        let b: u8 = if self.slots[1].occupied { 2 } else { 0 };
        let c: u8 = if self.slots[2].occupied { 4 } else { 0 };
        let d: u8 = if self.slots[3].occupied { 8 } else { 0 };
        a + b + c + d
    }

    /// True when nobody is connected.
    pub fn is_empty(&self) -> (r: bool)
        requires
            self.wf(),
        ensures
            r == (forall|i: int| 0 <= i < MAX_PLAYERS ==> !(#[trigger] self.taken()[i])),
    {
        let mut i: usize = 0;
        while i < self.slots.len()
            invariant
                self.slots@.len() == MAX_PLAYERS,
                i <= MAX_PLAYERS,
                forall|k: int| 0 <= k < i ==> !(#[trigger] self.taken()[k]),
            decreases MAX_PLAYERS - i,
        {
            if self.slots[i].occupied {
                proof {
                    assert(self.taken()[i as int]);
                }
                return false;
            }
            i = i + 1;
        }
        true
    }

    /// Takes the first free slot for a new connection: playing as `role`
    /// from the next tick. Returns the slot and the welcome message, which
    /// carries the seed, the frame the snapshot was taken at, and the
    /// snapshot itself when the game is already under way; `None` when every
    /// place is taken.
    pub fn join(&mut self, out: Sender<Vec<u8>>, role: Role) -> (r: Option<(usize, Vec<u8>)>)
        requires
            old(self).wf(),
        ensures
            final(self).wf(),
            final(self).world_of() == old(self).world_of(),
            final(self).frame_of() == old(self).frame_of(),
            final(self).seed_of() == old(self).seed_of(),
            final(self).desyncs_of() == old(self).desyncs_of(),
            final(self).check_view() == old(self).check_view(),
            (forall|i: int| 0 <= i < MAX_PLAYERS ==> #[trigger] old(self).taken()[i]) <==> r is None,
            r is None ==> final(self).slot_view() == old(self).slot_view(),
            r matches Some((slot, msg)) ==> {
                &&& slot < MAX_PLAYERS
                &&& !old(self).taken()[slot as int]
                &&& forall|i: int| 0 <= i < slot ==> #[trigger] old(self).taken()[i]
                &&& final(self).slot_view() == old(self).slot_view().update(slot as int, final(self).slot_view()[slot as int])
                &&& {
                    let s = final(self).slot_view()[slot as int];
                    &&& s.occupied
                    &&& s.buttons == 0
                    &&& s.pending_join == (role == Role::Hero)
                    &&& s.pending_boss == (role == Role::Boss)
                    &&& !s.pending_leave
                    &&& s.out == Some(out)
                }
                &&& msg@ == welcome_spec(
                    slot as int,
                    old(self).seed_of(),
                    old(self).frame_of(),
                    if old(self).frame_of() == 0 { Seq::empty() } else { enc_world(old(self).world_of()) },
                )
            },
    {
        let mut slot: usize = 0;
        while slot < MAX_PLAYERS && self.slots[slot].occupied
            invariant
                self.slots@.len() == MAX_PLAYERS,
                slot <= MAX_PLAYERS,
                forall|i: int| 0 <= i < slot ==> #[trigger] self.taken()[i],
            decreases MAX_PLAYERS - slot,
        {
            slot = slot + 1;
        }
        if slot == MAX_PLAYERS {
            return None;
        }
        proof {
            assert(!self.taken()[slot as int]);
        }
        let ghost before = self.slots@;
        self.slots.set(
            slot,
            Slot {
                occupied: true,
                buttons: 0,
                pending_join: role == Role::Hero,
                pending_boss: role == Role::Boss,
                pending_leave: false,
                out: Some(out),
            },
        );
        let snapshot = if self.frame == 0 {
            // Nothing has happened yet, so the seed alone says everything.
            Vec::new()
        } else {
            self.world.save()
        };
        let mut msg: Vec<u8> = Vec::new();
        msg.push(s2c::WELCOME);
        msg.push(slot as u8);
        msg.push(MAX_PLAYERS as u8);
        push_le(&mut msg, self.seed, 8);
        push_le(&mut msg, self.frame as u64, 4);
        push_le(&mut msg, (snapshot.len() as u32) as u64, 4);
        push_all(&mut msg, snapshot.as_slice());
        proof {
            assert(msg@ =~= welcome_spec(
                slot as int,
                self.seed,
                self.frame,
                if self.frame == 0 { Seq::empty() } else { enc_world(self.world) },
            ));
        }
        Some((slot, msg))
    }

    /// Marks a slot as leaving. The world is not touched until the next tick,
    /// so every client removes the player on the same frame.
    pub fn leave(&mut self, slot: usize)
        requires
            old(self).wf(),
        ensures
            final(self).wf(),
            final(self).world_of() == old(self).world_of() && final(self).frame_of() == old(self).frame_of(),
            final(self).check_view() == old(self).check_view(),
            if slot < MAX_PLAYERS && old(self).slot_view()[slot as int].occupied {
                final(self).slot_view() == old(self).slot_view().update(
                    slot as int,
                    Slot { pending_leave: true, out: None, buttons: 0, ..old(self).slot_view()[slot as int] },
                )
            } else {
                final(self).slot_view() == old(self).slot_view()
            },
    {
        if slot < self.slots.len() && self.slots[slot].occupied {
            self.slots[slot].pending_leave = true;
            self.slots[slot].out = None;
            self.slots[slot].buttons = 0;
        }
    }

    /// Records the latest input from a player.
    ///
    /// The most recent input wins rather than being queued per frame: a player
    /// whose packet is late should make everyone else wait for nothing.
    pub fn set_input(&mut self, slot: usize, buttons: u16)
        requires
            old(self).wf(),
        ensures
            final(self).wf(),
            final(self).world_of() == old(self).world_of() && final(self).frame_of() == old(self).frame_of(),
            final(self).check_view() == old(self).check_view(),
            if slot < MAX_PLAYERS && old(self).slot_view()[slot as int].occupied {
                final(self).slot_view() == old(self).slot_view().update(
                    slot as int,
                    Slot { buttons, ..old(self).slot_view()[slot as int] },
                )
            } else {
                final(self).slot_view() == old(self).slot_view()
            },
    {
        if slot < self.slots.len() && self.slots[slot].occupied {
            self.slots[slot].buttons = buttons;
        }
    }

    /// Asks for a slot to take over a boss on the next tick.
    pub fn request_boss(&mut self, slot: usize)
        requires
            old(self).wf(),
        ensures
            final(self).wf(),
            final(self).world_of() == old(self).world_of() && final(self).frame_of() == old(self).frame_of(),
            final(self).check_view() == old(self).check_view(),
            if slot < MAX_PLAYERS && old(self).slot_view()[slot as int].occupied {
                final(self).slot_view() == old(self).slot_view().update(
                    slot as int,
                    Slot { pending_boss: true, ..old(self).slot_view()[slot as int] },
                )
            } else {
                final(self).slot_view() == old(self).slot_view()
            },
    {
        if slot < self.slots.len() && self.slots[slot].occupied {
            self.slots[slot].pending_boss = true;
        }
    }

    /// Compares a client's checksum against the server's own for `frame`:
    /// `None` when the server does not remember the frame or they agree,
    /// otherwise (counting one more desync) the message to send back, which
    /// means that client is no longer playing the same game as everyone else.
    pub fn check(&mut self, frame: u32, theirs: u64) -> (r: Option<Vec<u8>>)
        requires
            old(self).wf(),
            old(self).desyncs_of() < u32::MAX,
        ensures
            final(self).wf(),
            final(self).world_of() == old(self).world_of() && final(self).frame_of() == old(self).frame_of(),
            final(self).slot_view() == old(self).slot_view(),
            final(self).check_view() == old(self).check_view(),
            match recorded(old(self).check_view(), frame) {
                Some(ours) => if ours == theirs {
                    r is None && final(self).desyncs_of() == old(self).desyncs_of()
                } else {
                    r matches Some(m) && m@ == desync_spec(frame, ours) && final(self).desyncs_of() == old(self).desyncs_of() + 1
                },
                None => r is None && final(self).desyncs_of() == old(self).desyncs_of(),
            },
    {
        let n = self.checks.len();
        let mut i: usize = 0;
        proof {
            assert(self.checks@.skip(0) =~= self.checks@);
        }
        let mut found: Option<u64> = None;
        while i < n
            invariant
                n == self.checks@.len(),
                i <= n,
                found is None ==> recorded(self.checks@, frame) == recorded(self.checks@.skip(i as int), frame),
                found matches Some(v) ==> recorded(self.checks@, frame) == Some(v),
            decreases n - i,
        {
            let (f, sum) = self.checks[i];
            proof {
                assert(self.checks@.skip(i as int)[0] == (f, sum));
                assert(self.checks@.skip(i as int).drop_first() =~= self.checks@.skip(i + 1));
            }
            if found.is_none() && f == frame {
                found = Some(sum);
            }
            i = i + 1;
        }
        let ours = match found {
            Some(v) => v,
            None => {
                proof {
                    assert(self.checks@.skip(n as int).len() == 0);
                }
                return None;
            },
        };
        if ours == theirs {
            return None;
        }
        self.desyncs = self.desyncs + 1;
        let mut msg: Vec<u8> = Vec::new();
        msg.push(s2c::DESYNC);
        push_le(&mut msg, frame as u64, 4);
        push_le(&mut msg, ours, 8);
        proof {
            assert(msg@ =~= desync_spec(frame, ours));
        }
        Some(msg)
    }

    /// Sends a message to every connected client, forgetting the channel of
    /// any that has gone away; nothing else about a place changes.
    pub fn broadcast(&mut self, msg: &[u8])
        requires
            old(self).wf(),
        ensures
            final(self).wf(),
            final(self).world_of() == old(self).world_of() && final(self).frame_of() == old(self).frame_of(),
            final(self).check_view() == old(self).check_view(),
            final(self).slot_view().len() == old(self).slot_view().len(),
            forall|i: int|
                0 <= i < MAX_PLAYERS ==> {
                    let s = #[trigger] final(self).slot_view()[i];
                    let o = old(self).slot_view()[i];
                    s == o || s == (Slot { out: None, ..o })
                },
    {
        let mut i: usize = 0;
        while i < self.slots.len()
            invariant
                self.wf(),
                self.world == old(self).world_of() && self.frame == old(self).frame_of(),
                self.check_view() == old(self).check_view(),
                i <= MAX_PLAYERS,
                forall|k: int|
                    0 <= k < MAX_PLAYERS ==> {
                        let s = #[trigger] self.slot_view()[k];
                        let o = old(self).slot_view()[k];
                        s == o || s == (Slot { out: None, ..o })
                    },
            decreases MAX_PLAYERS - i,
        {
            let dead = match &self.slots[i].out {
                Some(out) => !send_bytes(out, bytes_of(msg)),
                None => false,
            };
            if dead {
                self.slots[i].out = None;
            }
            i = i + 1;
        }
    }

    /// Sends a message to one client, if that place has a channel.
    pub fn send_to(&self, slot: usize, msg: &[u8]) {
        if slot < self.slots.len() {
            match &self.slots[slot].out {
                Some(out) => {
                    let _ = send_bytes(out, bytes_of(msg));
                },
                None => {},
            }
        }
    }
}

/// The place in slot `i` as a tick leaves it: emptied when leaving, its
/// requests cleared when it came in as the boss (or as a hero instead), and
/// its join request cleared when it joined.
pub open spec fn after_tick(o: Slot) -> Slot {
    if o.pending_leave {
        Slot { occupied: false, buttons: 0, pending_join: false, pending_boss: false, pending_leave: false, out: None }
    } else if o.pending_boss {
        Slot { pending_boss: false, pending_join: false, ..o }
    } else if o.pending_join {
        Slot { pending_join: false, ..o }
    } else {
        o
    }
}

/// The frame message: its id, the frame, the occupancy, the join, boss and
/// leave masks, and every place's buttons.
pub open spec fn frame_spec(frame: u32, occ: u8, join: u8, boss: u8, leave: u8, b: Seq<u16>) -> Seq<u8> {
    seq![s2c::FRAME] + le32(frame) + seq![occ, join, boss, leave] + le16(b[0]) + le16(b[1]) + le16(b[2]) + le16(b[3])
}

/// The buttons of the first `n` places, two bytes each.
pub open spec fn buttons_bytes(b: Seq<u16>, n: int) -> Seq<u8>
    decreases n,
{
    if n <= 0 {
        Seq::empty()
    } else {
        buttons_bytes(b, n - 1) + le16(b[n - 1])
    }
}

/// Computes a mask from four flags; see [`mask_of`].
fn mask_bits(f: &Vec<bool>) -> (m: u8)
    requires
        f@.len() == 4,
    ensures
        m == mask_of(f@),
{
    let a: u8 = if f[0] { 1 } else { 0 };
    let b: u8 = if f[1] { 2 } else { 0 };
    let c: u8 = if f[2] { 4 } else { 0 };
    let d: u8 = if f[3] { 8 } else { 0 };
    a + b + c + d
}

impl Session {
    /// Advances the world by one frame and returns the message describing
    /// it. Leaving places leave the world, boss requests take over a boss
    /// (or join as a hero when there is none to take), join requests join;
    /// then every place's buttons are applied and the world steps. The
    /// message carries the new frame, the occupancy, which places joined,
    /// became the boss and left, and everyone's buttons; the world's new
    /// checksum is remembered for that frame.
    pub fn tick(&mut self) -> (msg: Vec<u8>)
        requires
            old(self).wf(),
        ensures
            final(self).wf(),
            final(self).seed_of() == old(self).seed_of(),
            final(self).desyncs_of() == old(self).desyncs_of(),
            final(self).frame_of() == old(self).frame_of().wrapping_add(1),
            final(self).slot_view() == old(self).slot_view().map_values(|o: Slot| after_tick(o)),
            final(self).check_view() == newest(
                old(self).check_view().push(
                    (final(self).frame_of(), fnv(FNV_OFFSET, checksum_words(final(self).world_of()))),
                ),
            ),
            exists|join: Seq<bool>, boss: Seq<bool>|
                {
                    &&& join.len() == 4 && boss.len() == 4
                    &&& forall|i: int|
                        0 <= i < 4 ==> {
                            let o = #[trigger] old(self).slot_view()[i];
                            &&& (boss[i] ==> !o.pending_leave && o.pending_boss)
                            &&& join[i] == (!o.pending_leave && (o.pending_boss && !boss[i] || !o.pending_boss
                                && o.pending_join))
                        }
                    &&& msg@ == frame_spec(
                        final(self).frame_of(),
                        mask_of(final(self).taken()),
                        mask_of(join),
                        mask_of(boss),
                        mask_of(old(self).slot_view().map_values(|o: Slot| o.pending_leave)),
                        final(self).slot_view().map_values(|s: Slot| s.buttons),
                    )
                },
    {
        let ghost start = self.slots@;
        let mut join: Vec<bool> = Vec::new();
        let mut boss: Vec<bool> = Vec::new();
        let mut leave: Vec<bool> = Vec::new();
        let mut i: usize = 0;
        while i < MAX_PLAYERS
            invariant
                self.wf(),
                self.slots@ == start,
                i <= MAX_PLAYERS,
                join@.len() == i && boss@.len() == i && leave@.len() == i,
                forall|k: int|
                    0 <= k < i ==> {
                        let o = #[trigger] start[k];
                        &&& leave@[k] == o.pending_leave
                        &&& boss@[k] == (!o.pending_leave && o.pending_boss)
                        &&& join@[k] == (!o.pending_leave && !o.pending_boss && o.pending_join)
                    },
            decreases MAX_PLAYERS - i,
        {
            let l = self.slots[i].pending_leave;
            let b = !l && self.slots[i].pending_boss;
            let j = !l && !self.slots[i].pending_boss && self.slots[i].pending_join;
            leave.push(l);
            boss.push(b);
            join.push(j);
            i = i + 1;
        }
        // Apply the same world changes the clients are about to apply.
        let mut i: usize = 0;
        while i < MAX_PLAYERS
            invariant
                self.wf(),
                self.seed == old(self).seed && self.frame == old(self).frame && self.desyncs == old(self).desyncs,
                self.checks == old(self).checks,
                i <= MAX_PLAYERS,
                join@.len() == 4 && boss@.len() == 4 && leave@.len() == 4,
                forall|k: int| 0 <= k < 4 ==> leave@[k] == (#[trigger] start[k]).pending_leave,
                forall|k: int|
                    0 <= k < 4 ==> {
                        let o = #[trigger] start[k];
                        &&& (boss@[k] ==> !o.pending_leave && o.pending_boss)
                        &&& (k >= i ==> boss@[k] == (!o.pending_leave && o.pending_boss))
                        &&& join@[k] == (!o.pending_leave && (o.pending_boss && !boss@[k] || !o.pending_boss
                            && o.pending_join))
                    },
                forall|k: int| 0 <= k < 4 ==> #[trigger] self.slots@[k] == if k < i { after_tick(start[k]) } else { start[k] },
            decreases MAX_PLAYERS - i,
        {
            if leave[i] {
                self.world.leave(i);
                self.slots.set(i, empty_slot());
            } else if boss[i] {
                if !self.world.possess_boss(i) {
                    // No boss to take: come in as a hero instead.
                    self.world.join(i);
                    join.set(i, true);
                    boss.set(i, false);
                }
                self.slots[i].pending_boss = false;
                self.slots[i].pending_join = false;
            } else if join[i] {
                self.world.join(i);
                self.slots[i].pending_join = false;
            }
            proof {
                assert(self.slots@[i as int] == after_tick(start[i as int]));
            }
            i = i + 1;
        }
        let mut i: usize = 0;
        while i < MAX_PLAYERS
            invariant
                self.wf(),
                self.seed == old(self).seed && self.frame == old(self).frame && self.desyncs == old(self).desyncs,
                self.checks == old(self).checks,
                forall|k: int| 0 <= k < 4 ==> #[trigger] self.slots@[k] == after_tick(start[k]),
                i <= MAX_PLAYERS,
            decreases MAX_PLAYERS - i,
        {
            let b = self.slots[i].buttons;
            self.world.set_input(i, b);
            i = i + 1;
        }
        self.world.step();
        self.frame = self.frame.wrapping_add(1);
        let sum = self.world.checksum();
        self.checks.push_back((self.frame, sum));
        if self.checks.len() > CHECK_HISTORY {
            let _ = self.checks.pop_front();
        }
        proof {
            let pushed = old(self).checks@.push((self.frame, sum));
            if pushed.len() > CHECK_HISTORY {
                assert(self.checks@ =~= pushed.skip(pushed.len() - CHECK_HISTORY));
            }
        }
        let mut msg: Vec<u8> = Vec::new();
        msg.push(s2c::FRAME);
        push_le(&mut msg, self.frame as u64, 4);
        msg.push(self.occupancy());
        msg.push(mask_bits(&join));
        msg.push(mask_bits(&boss));
        msg.push(mask_bits(&leave));
        let ghost head = msg@;
        let ghost b = self.slots@.map_values(|s: Slot| s.buttons);
        let mut i: usize = 0;
        while i < MAX_PLAYERS
            invariant
                self.wf(),
                b == self.slots@.map_values(|s: Slot| s.buttons),
                i <= MAX_PLAYERS,
                msg@ == head + buttons_bytes(b, i as int),
            decreases MAX_PLAYERS - i,
        {
            push_le(&mut msg, self.slots[i].buttons as u64, 2);
            proof {
                assert((self.slots@[i as int].buttons as u64) as u16 == b[i as int]);
            }
            i = i + 1;
        }
        proof {
            reveal_with_fuel(buttons_bytes, 5);
            assert(msg@ =~= frame_spec(
                self.frame,
                mask_of(self.taken()),
                mask_of(join@),
                mask_of(boss@),
                mask_of(leave@),
                b,
            ));
            assert(leave@ =~= start.map_values(|o: Slot| o.pending_leave));
            assert(self.slots@ =~= start.map_values(|o: Slot| after_tick(o)));
        }
        msg
    }
}

/// Builds a short text message for the client's status line: its id and the
/// text's bytes.
pub fn info(text: &str) -> (m: Vec<u8>)
    ensures
        m@ == seq![s2c::INFO] + text.spec_bytes(),
{
    let mut msg: Vec<u8> = Vec::new();
    msg.push(s2c::INFO);
    push_all(&mut msg, text.as_bytes());
    msg
}

} // verus!
