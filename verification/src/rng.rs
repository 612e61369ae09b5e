//! Deterministic pseudo-random numbers.
//!
//! Every random draw the simulation makes must be reproducible from the world
//! seed and the frame number, so this is a plain `splitmix64` generator with no
//! environmental input.
use vstd::prelude::*;

verus! {

/// The splitmix64 increment, also mixed into seeds.
pub const GOLDEN: u64 = 0x9e37_79b9_7f4a_7c15;

/// The multiplier `fork` scrambles its tag with.
pub const FORK_MUL: u64 = 0xd6e8_feb8_6659_fd93;

/// The splitmix64 output function.
pub open spec fn mix(s: u64) -> u64 {
    let z1 = (s ^ (s >> 30u64)).wrapping_mul(0xbf58_476d_1ce4_e5b9u64);
    let z2 = (z1 ^ (z1 >> 27u64)).wrapping_mul(0x94d0_49bb_1331_11ebu64);
    z2 ^ (z2 >> 31u64)
}

/// The state after one draw.
pub open spec fn advance(s: u64) -> u64 {
    s.wrapping_add(GOLDEN)
}

/// The 64-bit value the draw from state `s` gives.
pub open spec fn draw64(s: u64) -> u64 {
    mix(advance(s))
}

/// The 32-bit value the draw from state `s` gives: the high half.
pub open spec fn draw32(s: u64) -> u32 {
    (draw64(s) >> 32u64) as u32
}

/// A value in `0..n` from a 32-bit draw, by multiply and shift.
pub open spec fn scale_below(x: u32, n: u32) -> u32 {
    ((x as int * n as int) / 0x1_0000_0000) as u32
}

/// A small, fast, fully deterministic random number generator.
#[derive(Clone, Copy, Debug, PartialEq, Eq, Structural)]
pub struct Rng {
    state: u64,
}

impl Rng {
    /// The generator's internal state.
    pub closed spec fn st(&self) -> u64 {
        self.state
    }

    /// Creates a generator from a seed.
    pub fn new(seed: u64) -> (r: Rng)
        ensures
            r.st() == seed ^ GOLDEN,
    {
        Rng { state: seed ^ GOLDEN }
    }

    /// Returns the raw internal state, for snapshotting.
    pub fn state(&self) -> (r: u64)
        ensures
            r == self.st(),
    {
        self.state
    }

    /// Restores a generator from a snapshot taken with [`Rng::state`].
    pub fn from_state(state: u64) -> (r: Rng)
        ensures
            r.st() == state,
    {
        Rng { state }
    }

    /// Draws the next 64-bit value.
    pub fn next_u64(&mut self) -> (r: u64)
        ensures
            final(self).st() == advance(old(self).st()),
            r == draw64(old(self).st()),
    {
        self.state = self.state.wrapping_add(GOLDEN);
        let mut z = self.state;
        z = (z ^ (z >> 30u64)).wrapping_mul(0xbf58_476d_1ce4_e5b9u64);
        z = (z ^ (z >> 27u64)).wrapping_mul(0x94d0_49bb_1331_11ebu64);
        z ^ (z >> 31u64)
    }

    /// Draws the next 32-bit value.
    pub fn next_u32(&mut self) -> (r: u32)
        ensures
            final(self).st() == advance(old(self).st()),
            r == draw32(old(self).st()),
    {
        let v = self.next_u64();
        assert(v >> 32u64 <= u32::MAX) by (bit_vector);
        (v >> 32u64) as u32
    }

    /// Draws a value in `0..n`. Returns 0, drawing nothing, when `n` is 0.
    pub fn below(&mut self, n: u32) -> (r: u32)
        ensures
            n == 0 ==> r == 0 && final(self).st() == old(self).st(),
            n != 0 ==> r == scale_below(draw32(old(self).st()), n) && final(self).st() == advance(
                old(self).st(),
            ),
            n != 0 ==> r < n,
    {
        if n == 0 {
            return 0;
        }
        // Multiply-shift: unbiased enough for gameplay and branch-free.
        let x = self.next_u32();
        proof {
            lemma_scale_below(x, n);
        }
        let p: u64 = x as u64 * n as u64;
        assert(p >> 32u64 == p / 0x1_0000_0000u64) by (bit_vector);
        (p >> 32u64) as u32
    }

    /// Draws a value in `lo..=hi`; `lo`, drawing nothing, when `hi <= lo`.
    pub fn range(&mut self, lo: i32, hi: i32) -> (r: i32)
        requires
            hi - lo + 1 <= i32::MAX,
        ensures
            hi <= lo ==> r == lo && final(self).st() == old(self).st(),
            hi > lo ==> r == lo + scale_below(draw32(old(self).st()), (hi - lo + 1) as u32)
                && final(self).st() == advance(old(self).st()),
            hi > lo ==> lo <= r <= hi,
    {
        if hi <= lo {
            return lo;
        }
        let k = self.below((hi - lo + 1) as u32);
        lo + k as i32
    }

    /// Returns true with probability `num / den` (a zero `den` counts as one).
    pub fn chance(&mut self, num: u32, den: u32) -> (r: bool)
        ensures
            r == (scale_below(draw32(old(self).st()), if den >= 1 { den } else { 1 }) < num),
            final(self).st() == advance(old(self).st()),
    {
        let d: u32 = if den >= 1 { den } else { 1 };
        self.below(d) < num
    }

    /// Returns true half the time.
    pub fn coin(&mut self) -> (r: bool)
        ensures
            r == (draw64(old(self).st()) & 1 == 1),
            final(self).st() == advance(old(self).st()),
    {
        self.next_u64() & 1 == 1
    }

    /// Picks a random element of `items`.
    pub fn pick<'a, T>(&mut self, items: &'a [T]) -> (r: &'a T)
        requires
            items@.len() > 0,
            items@.len() <= u32::MAX,
        ensures
            *r == items@[scale_below(draw32(old(self).st()), items@.len() as u32) as int],
            final(self).st() == advance(old(self).st()),
    {
        let i = self.below(items.len() as u32);
        &items[i as usize]
    }

    /// Shuffles a slice in place (Fisher-Yates, from the back): the result is
    /// a rearrangement of the same elements.
    pub fn shuffle<T: Copy>(&mut self, items: &mut [T])
        requires
            old(items)@.len() <= u32::MAX,
        ensures
            final(items)@.to_multiset() == old(items)@.to_multiset(),
            final(items)@.len() == old(items)@.len(),
            final(items)@ == shuffled(old(items)@, old(self).st()).0,
            final(self).st() == shuffled(old(items)@, old(self).st()).1,
    {
        let n = items.len();
        if n < 2 {
            return;
        }
        let ghost s0 = items@;
        let ghost st0 = self.state;
        let mut i: usize = n - 1;
        while i >= 1
            invariant
                n == items@.len(),
                n <= u32::MAX,
                i < n,
                items@.len() == s0.len(),
                items@.to_multiset() == s0.to_multiset(),
                shuffle_from(items@, self.state, i as int) == shuffle_from(s0, st0, n - 1),
            decreases i,
        {
            let j = self.below(i as u32 + 1) as usize;
            let a = items[i];
            let b = items[j];
            let ghost before = items@;
            items[i] = b;
            items[j] = a;
            proof {
                assert(items@ == before.update(i as int, b).update(j as int, a));
                lemma_swap_multiset(before, i as int, j as int);
                assert(items@ =~= swap(before, i as int, j as int));
            }
            i = i - 1;
        }
        assert(shuffle_from(items@, self.state, 0) == (items@, self.state));
    }

    /// Derives an independent generator, so one subsystem drawing more numbers
    /// cannot shift another subsystem's sequence.
    pub fn fork(&mut self, tag: u64) -> (r: Rng)
        ensures
            r.st() == (draw64(old(self).st()) ^ tag.wrapping_mul(FORK_MUL)) ^ GOLDEN,
            final(self).st() == advance(old(self).st()),
    {
        let v = self.next_u64();
        Rng::new(v ^ tag.wrapping_mul(FORK_MUL))
    }
}

/// `s` with the elements at `i` and `j` exchanged.
pub open spec fn swap<T>(s: Seq<T>, i: int, j: int) -> Seq<T> {
    s.update(i, s[j]).update(j, s[i])
}

/// Fisher-Yates from position `i` down to 1, starting from generator state
/// `st`: the shuffled sequence and the state left behind.
pub open spec fn shuffle_from<T>(s: Seq<T>, st: u64, i: int) -> (Seq<T>, u64)
    decreases i,
{
    if i < 1 {
        (s, st)
    } else {
        let j = scale_below(draw32(st), (i + 1) as u32) as int;
        shuffle_from(swap(s, i, j), advance(st), i - 1)
    }
}

/// What `shuffle` makes of `s` from state `st`, and the state left behind.
pub open spec fn shuffled<T>(s: Seq<T>, st: u64) -> (Seq<T>, u64) {
    if s.len() < 2 {
        (s, st)
    } else {
        shuffle_from(s, st, s.len() - 1)
    }
}

/// Exchanging two elements keeps the multiset of elements.
pub proof fn lemma_swap_multiset<T>(s: Seq<T>, i: int, j: int)
    requires
        0 <= i < s.len(),
        0 <= j < s.len(),
    ensures
        swap(s, i, j).to_multiset() == s.to_multiset(),
{
    broadcast use vstd::seq_lib::group_to_multiset_ensures;
    let t = s.update(i, s[j]);
    assert(t.to_multiset() == s.to_multiset().remove(s[i]).insert(s[j]));
    assert(t[j] == s[j] || i == j);
    if i == j {
        assert(swap(s, i, j) =~= s);
    } else {
        assert(swap(s, i, j).to_multiset() == t.to_multiset().remove(t[j]).insert(s[i]));
        assert(t[j] == s[j]);
    }
}

/// The multiply-shift scaling lands in `0..n`.
pub proof fn lemma_scale_below(x: u32, n: u32)
    requires
        n > 0,
    ensures
        (x as int * n as int) / 0x1_0000_0000 < n,
        scale_below(x, n) < n,
        x as int * n as int <= u64::MAX,
{
    let p: int = x as int * n as int;
    assert(0 <= p <= 0xffff_ffff * n) by (nonlinear_arith)
        requires
            p == x as int * n as int,
            x <= 0xffff_ffff,
    ;
    assert(p / 0x1_0000_0000 < n) by (nonlinear_arith)
        requires
            0 <= p <= 0xffff_ffff * n,
            n >= 1,
    ;
}

} // verus!
