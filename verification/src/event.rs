//! Events the simulation emits for presentation layers.
//!
//! The simulation never plays a sound or draws anything itself; it pushes an
//! event and lets the renderer and audio code decide what that means. Events
//! are cleared at the start of every step.
use vstd::prelude::*;
use crate::geom::V2;

verus! {

/// A sound effect id.
#[derive(Clone, Copy, PartialEq, Eq, Debug, Structural)]
pub enum Sfx {
    SwordSwing,
    SwordBeam,
    EnemyHit,
    EnemyDie,
    PlayerHurt,
    PlayerDie,
    Pickup,
    Rupee,
    Heart,
    BombPlace,
    Explosion,
    Shoot,
    Boomerang,
    DoorOpen,
    Unlock,
    ChestOpen,
    Secret,
    Jump,
    Splash,
    Fall,
    Lift,
    Throw,
    Shield,
    Text,
    BossHurt,
    BossDie,
    Stairs,
    Error,
}

/// Something that happened this frame.
#[derive(Clone, Debug)]
pub enum Event {
    /// Play a sound.
    Sound(Sfx),
    /// A hit landed at a position, for sparks and screen shake.
    Hit { at: V2, heavy: bool },
    /// A player took damage.
    PlayerHurt { player: u8, amount: i16 },
    /// A player died.
    PlayerDied { player: u8 },
    /// A player moved to another level.
    LevelChanged { player: u8, level: u16 },
    /// A player entered a new room.
    RoomChanged { player: u8, rx: i32, ry: i32 },
    /// A message to display in a text box.
    Message(&'static str),
    /// A boss was defeated on a level.
    BossDefeated { level: u16 },
    /// Shake the screen for a number of frames.
    Shake { frames: u8 },
}

/// Most events kept in one frame: a runaway producer must never grow the
/// queue without bound.
pub const MAX_EVENTS: usize = 256;

/// A small queue of events, reused between frames.
#[derive(Clone, Debug, Default)]
pub struct Events {
    items: Vec<Event>,
}

impl View for Events {
    type V = Seq<Event>;

    closed spec fn view(&self) -> Seq<Event> {
        self.items@
    }
}

/// `after` keeps everything `before` held, in place, and may hold more.
pub open spec fn extends(before: Seq<Event>, after: Seq<Event>) -> bool {
    &&& before.len() <= after.len()
    &&& forall|i: int| 0 <= i < before.len() ==> #[trigger] after[i] == before[i]
}

/// The queue after pushing `e`: full queues drop it.
pub open spec fn queued(q: Seq<Event>, e: Event) -> Seq<Event> {
    if q.len() < MAX_EVENTS { q.push(e) } else { q }
}

/// True when the queue holds a given sound.
pub open spec fn holds_sound(q: Seq<Event>, s: Sfx) -> bool {
    exists|i: int| 0 <= i < q.len() && q[i] == Event::Sound(s)
}

impl Events {
    pub open spec fn wf(&self) -> bool {
        self@.len() <= MAX_EVENTS
    }

    pub fn new() -> (r: Events)
        ensures
            r@ == Seq::<Event>::empty(),
    {
        Events { items: Vec::new() }
    }

    /// Appends an event, unless the queue is already full.
    pub fn push(&mut self, e: Event)
        ensures
            old(self)@.len() < MAX_EVENTS ==> final(self)@ == old(self)@.push(e),
            old(self)@.len() >= MAX_EVENTS ==> final(self)@ == old(self)@,
            final(self)@ == queued(old(self)@, e),
            extends(old(self)@, final(self)@),
    {
        if self.items.len() < MAX_EVENTS {
            self.items.push(e);
        }
    }

    /// Queues a sound.
    pub fn sound(&mut self, s: Sfx)
        ensures
            old(self)@.len() < MAX_EVENTS ==> final(self)@ == old(self)@.push(Event::Sound(s)),
            old(self)@.len() >= MAX_EVENTS ==> final(self)@ == old(self)@,
            final(self)@ == queued(old(self)@, Event::Sound(s)),
            extends(old(self)@, final(self)@),
    {
        self.push(Event::Sound(s));
    }

    /// Empties the queue.
    pub fn clear(&mut self)
        ensures
            final(self)@ == Seq::<Event>::empty(),
    {
        self.items.clear();
    }

    /// The events, oldest first.
    pub fn iter(&self) -> (r: &[Event])
        ensures
            r@ == self@,
    {
        self.items.as_slice()
    }

    pub fn len(&self) -> (r: usize)
        ensures
            r == self@.len(),
    {
        self.items.len()
    }

    pub fn is_empty(&self) -> (r: bool)
        ensures
            r == (self@.len() == 0),
    {
        self.items.len() == 0
    }

    /// True when a given sound was emitted this frame. Handy in tests.
    pub fn has_sound(&self, s: Sfx) -> (r: bool)
        ensures
            r == holds_sound(self@, s),
    {
        let mut i: usize = 0;
        while i < self.items.len()
            invariant
                0 <= i <= self.items.len(),
                forall|k: int| 0 <= k < i ==> self.items@[k] != Event::Sound(s),
            decreases self.items.len() - i,
        {
            match &self.items[i] {
                Event::Sound(x) => {
                    if *x == s {
                        return true;
                    }
                },
                _ => {},
            }
            i += 1;
        }
        false
    }
}

/// The queue never holds more than [`MAX_EVENTS`], however much is pushed.
pub proof fn lemma_push_keeps_bound(before: Seq<Event>, after: Seq<Event>, e: Event)
    requires
        before.len() <= MAX_EVENTS,
        before.len() < MAX_EVENTS ==> after == before.push(e),
        before.len() >= MAX_EVENTS ==> after == before,
    ensures
        after.len() <= MAX_EVENTS,
{
}

} // verus!
