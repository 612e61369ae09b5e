//! A signalling relay: the optional half of multiplayer.
//!
//! Players find each other through public infrastructure by default and then
//! talk directly, so this server is not needed to play. It exists for the two
//! cases where public matchmaking will not do: a network with no way out to
//! the internet, and anyone who would rather their room code were not handed
//! to a stranger's relay.
//!
//! It speaks Trystero's `ws-relay` protocol, which is topic pub/sub and
//! nothing more. A client subscribes to a topic derived from the room code
//! and publishes offers and answers to it; this relay copies each message to
//! whoever else is listening.
use vstd::prelude::*;
use std::sync::mpsc::Sender;
use crate::server::json::{self, member_spec, unquote_spec, quote_spec};
use crate::text::{chars_of, push_char};

verus! {

broadcast use vstd::string::group_string_axioms;

/// Declares std's channel sender so a client can hold one.
#[verifier::external_type_specification]
#[verifier::external_body]
#[verifier::reject_recursive_types(T)]
pub struct ExSender<T>(Sender<T>);

/// Sends a message down a client's channel.
///
/// Calls `Sender::send` from std, which fails only when the receiving end
/// has gone away; whether it has is up to the connection's own thread, so
/// nothing is promised of the result.
#[verifier::external_body]
fn send_to(out: &Sender<String>, message: String) -> (ok: bool) {
    out.send(message).is_ok()
}

/// Topics one connection may hold at once. A room needs a handful.
pub const MAX_TOPICS_PER_CLIENT: usize = 64;
/// How long a topic name may be, in bytes.
pub const MAX_TOPIC_LEN: usize = 256;

/// A connected client.
struct Client {
    id: usize,
    out: Sender<String>,
    topics: Vec<String>,
}

/// A topic and who listens to it, in the order they subscribed.
struct Topic {
    name: String,
    listeners: Vec<usize>,
}

/// Every connection and who is listening to what.
pub struct Relay {
    clients: Vec<Client>,
    topics: Vec<Topic>,
    next_id: usize,
}

impl Relay {
    /// The ids of the connected clients.
    pub closed spec fn ids(&self) -> Seq<usize> {
        self.clients@.map_values(|c: Client| c.id)
    }

    /// The names of the topics someone listens to.
    pub closed spec fn names(&self) -> Seq<Seq<char>> {
        self.topics@.map_values(|t: Topic| t.name@)
    }

    /// The id the next connection gets.
    pub closed spec fn next(&self) -> int {
        self.next_id as int
    }

    /// Where a client is kept.
    closed spec fn client_at(&self, id: usize) -> int {
        choose|i: int| 0 <= i < self.clients@.len() && self.clients@[i].id == id
    }

    /// Where a topic is kept.
    closed spec fn topic_at(&self, t: Seq<char>) -> int {
        choose|i: int| 0 <= i < self.topics@.len() && self.topics@[i].name@ == t
    }

    /// True when `id` is a connected client.
    pub open spec fn connected(&self, id: usize) -> bool {
        self.ids().contains(id)
    }

    /// The topics a connected client holds, in the order it took them.
    pub closed spec fn subs(&self, id: usize) -> Seq<Seq<char>> {
        if self.connected(id) {
            self.clients@[self.client_at(id)].topics@.map_values(|s: String| s@)
        } else {
            Seq::empty()
        }
    }

    /// Who listens to a topic, in the order they subscribed (nobody when
    /// nobody holds it).
    pub closed spec fn listeners(&self, t: Seq<char>) -> Seq<usize> {
        if self.names().contains(t) {
            self.topics@[self.topic_at(t)].listeners@
        } else {
            Seq::empty()
        }
    }

    /// Each client and each topic is kept once, every topic has a listener,
    /// and every id given out so far is below the next.
    pub closed spec fn wf(&self) -> bool {
        &&& forall|i: int, j: int| 0 <= i < j < self.clients@.len() ==> self.clients@[i].id != self.clients@[j].id
        &&& forall|i: int| 0 <= i < self.clients@.len() ==> (#[trigger] self.clients@[i]).id < self.next_id
        &&& forall|i: int, j: int| 0 <= i < j < self.topics@.len() ==> self.topics@[i].name@ != self.topics@[j].name@
        &&& forall|i: int| 0 <= i < self.topics@.len() ==> (#[trigger] self.topics@[i]).listeners@.len() > 0
    }

    /// A relay with nobody connected.
    pub fn new() -> (r: Relay)
        ensures
            r.wf(),
            r.ids().len() == 0,
            r.names().len() == 0,
            r.next() == 0,
    {
        Relay { clients: Vec::new(), topics: Vec::new(), next_id: 0 }
    }

    /// How many clients are connected.
    pub fn client_count(&self) -> (r: usize)
        ensures
            r == self.ids().len(),
    {
        self.clients.len()
    }

    /// How many topics somebody listens to.
    pub fn topic_count(&self) -> (r: usize)
        ensures
            r == self.names().len(),
    {
        self.topics.len()
    }

    /// The id the next connection will get.
    pub fn next_id(&self) -> (r: usize)
        ensures
            r == self.next(),
    {
        self.next_id
    }

    /// Where the client `id` is kept, if it is connected.
    fn find_client(&self, id: usize) -> (r: Option<usize>)
        requires
            self.wf(),
        ensures
            r is Some <==> self.connected(id),
            r matches Some(i) ==> i < self.clients@.len() && self.clients@[i as int].id == id && i == self.client_at(id),
    {
        let mut i: usize = 0;
        while i < self.clients.len()
            invariant
                self.wf(),
                i <= self.clients@.len(),
                forall|k: int| 0 <= k < i ==> self.clients@[k].id != id,
            decreases self.clients@.len() - i,
        {
            if self.clients[i].id == id {
                proof {
                    assert(self.ids()[i as int] == id);
                    let c = self.client_at(id);
                    assert(0 <= c < self.clients@.len() && self.clients@[c].id == id);
                    if c < i {
                        assert(self.clients@[c].id != self.clients@[i as int].id);
                    } else if c > i {
                        assert(self.clients@[i as int].id != self.clients@[c].id);
                    }
                }
                return Some(i);
            }
            i = i + 1;
        }
        proof {
            assert forall|k: int| 0 <= k < self.ids().len() implies self.ids()[k] != id by {
                assert(self.ids()[k] == self.clients@[k].id);
            }
        }
        None
    }

    /// Where the topic `name` is kept, if anybody holds it.
    fn find_topic(&self, name: &String) -> (r: Option<usize>)
        requires
            self.wf(),
        ensures
            r is Some <==> self.names().contains(name@),
            r matches Some(i) ==> i < self.topics@.len() && self.topics@[i as int].name@ == name@ && i
                == self.topic_at(name@),
    {
        let mut i: usize = 0;
        while i < self.topics.len()
            invariant
                self.wf(),
                i <= self.topics@.len(),
                forall|k: int| 0 <= k < i ==> self.topics@[k].name@ != name@,
            decreases self.topics@.len() - i,
        {
            if self.topics[i].name == *name {
                proof {
                    assert(self.names()[i as int] == name@);
                    let c = self.topic_at(name@);
                    assert(0 <= c < self.topics@.len() && self.topics@[c].name@ == name@);
                    if c < i {
                        assert(self.topics@[c].name@ != self.topics@[i as int].name@);
                    } else if c > i {
                        assert(self.topics@[i as int].name@ != self.topics@[c].name@);
                    }
                }
                return Some(i);
            }
            i = i + 1;
        }
        proof {
            assert forall|k: int| 0 <= k < self.names().len() implies self.names()[k] != name@ by {
                assert(self.names()[k] == self.topics@[k].name@);
            }
        }
        None
    }
}

/// A sequence with every copy of `x` taken out.
pub open spec fn without<T>(s: Seq<T>, x: T) -> Seq<T>
    decreases s.len(),
{
    if s.len() == 0 {
        Seq::empty()
    } else if s.last() == x {
        without(s.drop_last(), x)
    } else {
        without(s.drop_last(), x).push(s.last())
    }
}

/// An element of a sequence with one more at the end.
pub proof fn lemma_push_contains<T>(w: Seq<T>, a: T, y: T)
    ensures
        w.push(a).contains(y) <==> (w.contains(y) || y == a),
{
    if w.push(a).contains(y) {
        let k = choose|k: int| 0 <= k < w.push(a).len() && w.push(a)[k] == y;
        if k < w.len() {
            assert(w[k] == y);
        }
    }
    if w.contains(y) {
        let k = choose|k: int| 0 <= k < w.len() && w[k] == y;
        assert(w.push(a)[k] == y);
    }
    if y == a {
        assert(w.push(a)[w.len() as int] == y);
    }
}

/// What is left after taking `x` out holds exactly the other elements.
pub proof fn lemma_without<T>(s: Seq<T>, x: T)
    ensures
        forall|y: T| #[trigger] without(s, x).contains(y) <==> (s.contains(y) && y != x),
        without(s, x).len() <= s.len(),
    decreases s.len(),
{
    if s.len() > 0 {
        let d = s.drop_last();
        lemma_without(d, x);
        assert(s =~= d.push(s.last()));
        assert forall|y: T| #[trigger] without(s, x).contains(y) <==> (s.contains(y) && y != x) by {
            lemma_push_contains(d, s.last(), y);
            if s.last() != x {
                lemma_push_contains(without(d, x), s.last(), y);
            }
        }
    }
}

/// Takes every copy of `id` out of a list of clients.
fn without_id(v: &Vec<usize>, id: usize) -> (r: Vec<usize>)
    ensures
        r@ == without(v@, id),
{
    let mut out: Vec<usize> = Vec::new();
    let mut i: usize = 0;
    while i < v.len()
        invariant
            i <= v@.len(),
            out@ == without(v@.take(i as int), id),
        decreases v@.len() - i,
    {
        proof {
            assert(v@.take(i + 1).drop_last() =~= v@.take(i as int));
        }
        if v[i] != id {
            out.push(v[i]);
        }
        i = i + 1;
    }
    proof {
        assert(v@.take(v@.len() as int) =~= v@);
    }
    out
}

/// Takes every copy of a topic out of a client's list.
fn without_topic(v: &Vec<String>, t: &String) -> (r: Vec<String>)
    ensures
        r@.map_values(|s: String| s@) == without(v@.map_values(|s: String| s@), t@),
{
    let mut out: Vec<String> = Vec::new();
    let mut i: usize = 0;
    while i < v.len()
        invariant
            i <= v@.len(),
            out@.map_values(|s: String| s@) == without(v@.take(i as int).map_values(|s: String| s@), t@),
        decreases v@.len() - i,
    {
        proof {
            assert(v@.take(i + 1).map_values(|s: String| s@).drop_last() =~= v@.take(i as int).map_values(
                |s: String| s@,
            ));
            assert(v@.take(i + 1).map_values(|s: String| s@).last() == v@[i as int]@);
        }
        if v[i] != *t {
            let ghost before = out@;
            out.push(v[i].clone());
            proof {
                assert(out@.map_values(|s: String| s@) =~= before.map_values(|s: String| s@).push(v@[i as int]@));
            }
        }
        i = i + 1;
    }
    proof {
        assert(v@.take(v@.len() as int) =~= v@);
    }
    out
}

impl Relay {
    /// A client's index, once found, is the one the view uses.
    proof fn lemma_client_at(&self, i: int)
        requires
            self.wf(),
            0 <= i < self.clients@.len(),
        ensures
            self.connected(self.clients@[i].id),
            self.client_at(self.clients@[i].id) == i,
    {
        let id = self.clients@[i].id;
        assert(self.ids()[i] == id);
        let c = self.client_at(id);
        if c < i {
            assert(self.clients@[c].id != self.clients@[i].id);
        } else if c > i {
            assert(self.clients@[i].id != self.clients@[c].id);
        }
    }

    /// A topic's index, once found, is the one the view uses.
    proof fn lemma_topic_at(&self, i: int)
        requires
            self.wf(),
            0 <= i < self.topics@.len(),
        ensures
            self.names().contains(self.topics@[i].name@),
            self.topic_at(self.topics@[i].name@) == i,
    {
        let t = self.topics@[i].name@;
        assert(self.names()[i] == t);
        let c = self.topic_at(t);
        if c < i {
            assert(self.topics@[c].name@ != self.topics@[i].name@);
        } else if c > i {
            assert(self.topics@[i].name@ != self.topics@[c].name@);
        }
    }

    /// In a well-formed relay a topic is held exactly when somebody listens.
    pub proof fn lemma_held_iff_heard(&self, t: Seq<char>)
        requires
            self.wf(),
        ensures
            self.names().contains(t) <==> self.listeners(t).len() > 0,
    {
        if self.names().contains(t) {
            let i = choose|i: int| 0 <= i < self.names().len() && self.names()[i] == t;
            assert(self.topics@[i].name@ == t);
            self.lemma_topic_at(i);
        }
    }
}

impl Relay {
    /// Only the listener list of topic `ti` changed, to a non-empty one.
    proof fn lemma_relisted(old: Relay, new: Relay, ti: int)
        requires
            old.wf(),
            0 <= ti < old.topics@.len(),
            new.clients == old.clients,
            new.next_id == old.next_id,
            new.topics@.len() == old.topics@.len(),
            forall|k: int| 0 <= k < old.topics@.len() && k != ti ==> new.topics@[k] == old.topics@[k],
            new.topics@[ti].name@ == old.topics@[ti].name@,
            new.topics@[ti].listeners@.len() > 0,
        ensures
            new.wf(),
            new.names() == old.names(),
            forall|t: Seq<char>| #[trigger] new.listeners(t) == if t == old.topics@[ti].name@ {
                new.topics@[ti].listeners@
            } else {
                old.listeners(t)
            },
            forall|k: usize| #[trigger] new.subs(k) == old.subs(k),
            new.ids() == old.ids(),
    {
        assert(new.names() =~= old.names());
        assert(new.ids() =~= old.ids());
        assert forall|a: int, b: int| 0 <= a < b < new.topics@.len() implies new.topics@[a].name@ != new.topics@[b].name@ by {
            assert(old.topics@[a].name@ != old.topics@[b].name@);
        }
        assert forall|a: int| 0 <= a < new.topics@.len() implies (#[trigger] new.topics@[a]).listeners@.len() > 0 by {
            assert(old.topics@[a].listeners@.len() > 0);
        }
        assert(new.wf());
        assert forall|t: Seq<char>| #[trigger] new.listeners(t) == if t == old.topics@[ti].name@ {
            new.topics@[ti].listeners@
        } else {
            old.listeners(t)
        } by {
            old.lemma_topic_at(ti);
            if old.names().contains(t) {
                let k = choose|k: int| 0 <= k < old.names().len() && old.names()[k] == t;
                assert(old.topics@[k].name@ == t);
                old.lemma_topic_at(k);
                assert(new.topics@[k].name@ == t);
                new.lemma_topic_at(k);
            }
        }
    }

    /// Topic `ti` was taken out.
    proof fn lemma_unlisted(old: Relay, new: Relay, ti: int)
        requires
            old.wf(),
            0 <= ti < old.topics@.len(),
            new.clients == old.clients,
            new.next_id == old.next_id,
            new.topics@ == old.topics@.remove(ti),
        ensures
            new.wf(),
            new.names() == old.names().remove(ti),
            forall|t: Seq<char>| #[trigger] new.listeners(t) == if t == old.topics@[ti].name@ {
                Seq::<usize>::empty()
            } else {
                old.listeners(t)
            },
            forall|k: usize| #[trigger] new.subs(k) == old.subs(k),
            new.ids() == old.ids(),
    {
        assert(new.names() =~= old.names().remove(ti));
        assert(new.ids() =~= old.ids());
        assert forall|a: int, b: int| 0 <= a < b < new.topics@.len() implies new.topics@[a].name@ != new.topics@[b].name@ by {
            let oa = if a < ti { a } else { a + 1 };
            let ob = if b < ti { b } else { b + 1 };
            assert(old.topics@[oa].name@ != old.topics@[ob].name@);
        }
        assert forall|t: Seq<char>| #[trigger] new.listeners(t) == if t == old.topics@[ti].name@ {
            Seq::<usize>::empty()
        } else {
            old.listeners(t)
        } by {
            old.lemma_topic_at(ti);
            if new.names().contains(t) {
                let k = choose|k: int| 0 <= k < new.names().len() && new.names()[k] == t;
                let ok = if k < ti { k } else { k + 1 };
                assert(old.topics@[ok].name@ == t);
                old.lemma_topic_at(ok);
                new.lemma_topic_at(k);
                assert(ok != ti);
            } else if old.names().contains(t) && t != old.topics@[ti].name@ {
                let k = choose|k: int| 0 <= k < old.names().len() && old.names()[k] == t;
                assert(k != ti);
                let nk = if k < ti { k } else { k - 1 };
                assert(new.names()[nk] == t);
            }
        }
    }

    /// The relay with a client's topic list replaced.
    proof fn lemma_resubbed(old: Relay, new: Relay, ci: int)
        requires
            old.wf(),
            0 <= ci < old.clients@.len(),
            new.topics == old.topics,
            new.next_id == old.next_id,
            new.clients@.len() == old.clients@.len(),
            forall|k: int| 0 <= k < old.clients@.len() && k != ci ==> new.clients@[k] == old.clients@[k],
            new.clients@[ci].id == old.clients@[ci].id,
        ensures
            new.wf(),
            new.ids() == old.ids(),
            new.names() == old.names(),
            forall|t: Seq<char>| #[trigger] new.listeners(t) == old.listeners(t),
            forall|k: usize| #[trigger] new.subs(k) == if k == old.clients@[ci].id {
                new.clients@[ci].topics@.map_values(|s: String| s@)
            } else {
                old.subs(k)
            },
    {
        assert(new.ids() =~= old.ids());
        assert(new.names() =~= old.names());
        assert forall|a: int, b: int| 0 <= a < b < new.clients@.len() implies new.clients@[a].id != new.clients@[b].id by {
            assert(old.clients@[a].id != old.clients@[b].id);
        }
        assert forall|a: int| 0 <= a < new.clients@.len() implies (#[trigger] new.clients@[a]).id < new.next_id by {
            assert(old.clients@[a].id < old.next_id);
        }
        assert(new.wf());
        assert forall|k: usize| #[trigger] new.subs(k) == if k == old.clients@[ci].id {
            new.clients@[ci].topics@.map_values(|s: String| s@)
        } else {
            old.subs(k)
        } by {
            old.lemma_client_at(ci);
            if old.connected(k) {
                let j = choose|j: int| 0 <= j < old.ids().len() && old.ids()[j] == k;
                assert(old.clients@[j].id == k);
                old.lemma_client_at(j);
                assert(new.clients@[j].id == k);
                new.lemma_client_at(j);
            }
        }
        assert forall|t: Seq<char>| #[trigger] new.listeners(t) == old.listeners(t) by {}
    }

    /// The relay with client `ci` taken out.
    proof fn lemma_unclient(old: Relay, new: Relay, ci: int)
        requires
            old.wf(),
            0 <= ci < old.clients@.len(),
            new.topics == old.topics,
            new.next_id == old.next_id,
            new.clients@ == old.clients@.remove(ci),
        ensures
            new.wf(),
            new.ids() == old.ids().remove(ci),
            new.names() == old.names(),
            forall|t: Seq<char>| #[trigger] new.listeners(t) == old.listeners(t),
            forall|k: usize| #[trigger] new.connected(k) == (old.connected(k) && k != old.clients@[ci].id),
            forall|k: usize| k != old.clients@[ci].id ==> #[trigger] new.subs(k) == old.subs(k),
    {
        assert(new.ids() =~= old.ids().remove(ci));
        assert(new.names() =~= old.names());
        assert forall|a: int, b: int| 0 <= a < b < new.clients@.len() implies new.clients@[a].id != new.clients@[b].id by {
            let oa = if a < ci { a } else { a + 1 };
            let ob = if b < ci { b } else { b + 1 };
            assert(old.clients@[oa].id != old.clients@[ob].id);
        }
        assert forall|a: int| 0 <= a < new.clients@.len() implies (#[trigger] new.clients@[a]).id < new.next_id by {
            let oa = if a < ci { a } else { a + 1 };
            assert(old.clients@[oa].id < old.next_id);
        }
        assert forall|k: usize| #[trigger] new.connected(k) == (old.connected(k) && k != old.clients@[ci].id) by {
            if new.connected(k) {
                let j = choose|j: int| 0 <= j < new.ids().len() && new.ids()[j] == k;
                let oj = if j < ci { j } else { j + 1 };
                assert(old.ids()[oj] == k);
                assert(oj != ci);
                assert(old.clients@[oj].id != old.clients@[ci].id || oj == ci);
                if oj < ci {
                    assert(old.clients@[oj].id != old.clients@[ci].id);
                } else {
                    assert(old.clients@[ci].id != old.clients@[oj].id);
                }
            }
            if old.connected(k) && k != old.clients@[ci].id {
                let j = choose|j: int| 0 <= j < old.ids().len() && old.ids()[j] == k;
                assert(j != ci);
                let nj = if j < ci { j } else { j - 1 };
                assert(new.ids()[nj] == k);
            }
        }
        assert forall|k: usize| k != old.clients@[ci].id implies #[trigger] new.subs(k) == old.subs(k) by {
            if old.connected(k) {
                let j = choose|j: int| 0 <= j < old.ids().len() && old.ids()[j] == k;
                assert(old.clients@[j].id == k);
                old.lemma_client_at(j);
                assert(j != ci);
                let nj = if j < ci { j } else { j - 1 };
                assert(new.clients@[nj].id == k);
                new.lemma_client_at(nj);
            }
        }
        assert forall|t: Seq<char>| #[trigger] new.listeners(t) == old.listeners(t) by {}
    }
}

impl Relay {
    /// Registers a connection and returns the handle used to refer to it:
    /// the next id, holding no topics.
    pub fn connect(&mut self, out: Sender<String>) -> (id: usize)
        requires
            old(self).wf(),
            old(self).next() < usize::MAX,
        ensures
            final(self).wf(),
            id == old(self).next(),
            final(self).next() == old(self).next() + 1,
            final(self).ids() == old(self).ids().push(id),
            final(self).names() == old(self).names(),
            forall|t: Seq<char>| #[trigger] final(self).listeners(t) == old(self).listeners(t),
            forall|k: usize| #[trigger] final(self).subs(k) == if k == id {
                Seq::<Seq<char>>::empty()
            } else {
                old(self).subs(k)
            },
    {
        let ghost before = *self;
        let id = self.next_id;
        self.next_id = self.next_id + 1;
        self.clients.push(Client { id, out, topics: Vec::new() });
        proof {
            let n = before.clients@.len() as int;
            assert(self.ids() =~= before.ids().push(id));
            assert(self.names() =~= before.names());
            assert forall|a: int, b: int| 0 <= a < b < self.clients@.len() implies self.clients@[a].id
                != self.clients@[b].id by {
                if b < n {
                    assert(before.clients@[a].id != before.clients@[b].id);
                } else {
                    assert(before.clients@[a].id < before.next_id);
                }
            }
            assert forall|a: int| 0 <= a < self.clients@.len() implies (#[trigger] self.clients@[a]).id < self.next_id by {
                if a < n {
                    assert(before.clients@[a].id < before.next_id);
                }
            }
            assert(self.wf());
            self.lemma_client_at(n);
            assert forall|k: usize| #[trigger] self.subs(k) == if k == id {
                Seq::<Seq<char>>::empty()
            } else {
                before.subs(k)
            } by {
                if k == id {
                    assert(self.clients@[n].topics@.map_values(|s: String| s@) =~= Seq::<Seq<char>>::empty());
                } else if before.connected(k) {
                    let j = choose|j: int| 0 <= j < before.ids().len() && before.ids()[j] == k;
                    assert(before.clients@[j].id == k);
                    before.lemma_client_at(j);
                    assert(self.clients@[j] == before.clients@[j]);
                    self.lemma_client_at(j);
                } else {
                    assert(!self.connected(k)) by {
                        if self.connected(k) {
                            let j = choose|j: int| 0 <= j < self.ids().len() && self.ids()[j] == k;
                            if j < n {
                                assert(before.ids()[j] == k);
                            }
                        }
                    }
                }
            }
            assert forall|t: Seq<char>| #[trigger] self.listeners(t) == before.listeners(t) by {}
        }
        id
    }

    /// Takes `id` out of the listeners of topic `topic`, dropping the topic
    /// when nobody is left.
    fn drop_listener(&mut self, topic: &String, id: usize)
        requires
            old(self).wf(),
        ensures
            final(self).wf(),
            final(self).ids() == old(self).ids(),
            final(self).next() == old(self).next(),
            forall|k: usize| #[trigger] final(self).subs(k) == old(self).subs(k),
            forall|t: Seq<char>| #[trigger] final(self).listeners(t) == if t == topic@ {
                without(old(self).listeners(t), id)
            } else {
                old(self).listeners(t)
            },
    {
        let ghost before = *self;
        match self.find_topic(topic) {
            Some(ti) => {
                let kept = without_id(&self.topics[ti].listeners, id);
                if kept.len() == 0 {
                    self.topics.remove(ti);
                    proof {
                        Relay::lemma_unlisted(before, *self, ti as int);
                        before.lemma_topic_at(ti as int);
                    }
                } else {
                    self.topics[ti].listeners = kept;
                    proof {
                        Relay::lemma_relisted(before, *self, ti as int);
                        before.lemma_topic_at(ti as int);
                    }
                }
            },
            None => {
                proof {
                    assert forall|t: Seq<char>| #[trigger] self.listeners(t) == if t == topic@ {
                        without(before.listeners(t), id)
                    } else {
                        before.listeners(t)
                    } by {
                        if t == topic@ {
                            assert(without(Seq::<usize>::empty(), id) =~= Seq::<usize>::empty());
                        }
                    }
                }
            },
        }
    }

    /// Forgets a connection and every topic it was listening to.
    pub fn disconnect(&mut self, id: usize)
        requires
            old(self).wf(),
        ensures
            final(self).wf(),
            final(self).next() == old(self).next(),
            forall|k: usize| #[trigger] final(self).connected(k) == (old(self).connected(k) && k != id),
            forall|k: usize| k != id ==> #[trigger] final(self).subs(k) == old(self).subs(k),
            forall|t: Seq<char>| #[trigger] final(self).listeners(t) == if old(self).subs(id).contains(t) {
                without(old(self).listeners(t), id)
            } else {
                old(self).listeners(t)
            },
    {
        let ghost before = *self;
        let ci = match self.find_client(id) {
            Some(ci) => ci,
            None => {
                proof {
                    assert forall|t: Seq<char>| #[trigger] self.listeners(t) == if before.subs(id).contains(t) {
                        without(before.listeners(t), id)
                    } else {
                        before.listeners(t)
                    } by {}
                }
                return;
            },
        };
        let client = self.clients.remove(ci);
        proof {
            Relay::lemma_unclient(before, *self, ci as int);
            before.lemma_client_at(ci as int);
        }
        let ghost mid = *self;
        let ghost held = client.topics@.map_values(|s: String| s@);
        assert(held == before.subs(id));
        let mut k: usize = 0;
        while k < client.topics.len()
            invariant
                self.wf(),
                held == client.topics@.map_values(|s: String| s@),
                k <= client.topics@.len(),
                self.next() == before.next(),
                forall|c: usize| #[trigger] self.connected(c) == (before.connected(c) && c != id),
                forall|c: usize| c != id ==> #[trigger] self.subs(c) == before.subs(c),
                forall|t: Seq<char>| #[trigger] self.listeners(t) == if held.take(k as int).contains(t) {
                    without(before.listeners(t), id)
                } else {
                    before.listeners(t)
                },
            decreases client.topics@.len() - k,
        {
            let ghost step = *self;
            self.drop_listener(&client.topics[k], id);
            proof {
                assert(self.ids() == step.ids());
                assert forall|c: usize| #[trigger] self.connected(c) == (before.connected(c) && c != id) by {
                    assert(self.connected(c) == step.connected(c));
                }
                assert forall|c: usize| c != id implies #[trigger] self.subs(c) == before.subs(c) by {
                    assert(self.subs(c) == step.subs(c));
                }
                assert forall|t: Seq<char>| #[trigger] self.listeners(t) == if held.take(k + 1).contains(t) {
                    without(before.listeners(t), id)
                } else {
                    before.listeners(t)
                } by {
                    let name = client.topics@[k as int]@;
                    assert(held.take(k + 1) =~= held.take(k as int).push(name));
                    lemma_push_contains(held.take(k as int), name, t);
                    if t == name && held.take(k as int).contains(t) {
                        lemma_without_twice(before.listeners(t), id);
                    }
                }
            }
            k = k + 1;
        }
        proof {
            assert(held.take(client.topics@.len() as int) =~= held);
        }
    }
}

/// Taking an element out twice is taking it out once.
pub proof fn lemma_without_twice<T>(s: Seq<T>, x: T)
    ensures
        without(without(s, x), x) == without(s, x),
    decreases s.len(),
{
    if s.len() > 0 {
        lemma_without_twice(s.drop_last(), x);
        if s.last() != x {
            let w = without(s.drop_last(), x);
            assert(w.push(s.last()).drop_last() =~= w);
        }
    }
}

/// The effect of a subscription: refused (changing nothing) when `id` is
/// not connected or already holds [`MAX_TOPICS_PER_CLIENT`] other topics,
/// accepted with nothing to do when it already holds `t`, and otherwise
/// accepted with `t` added to the client's topics and `id` to the topic's
/// listeners.
pub open spec fn subscribed(old: Relay, new: Relay, id: usize, t: Seq<char>, r: bool) -> bool {
    &&& new.wf()
    &&& new.next() == old.next()
    &&& new.ids() == old.ids()
    &&& if !old.connected(id) || (!old.subs(id).contains(t) && old.subs(id).len() >= MAX_TOPICS_PER_CLIENT) {
        !r && new == old
    } else if old.subs(id).contains(t) {
        r && new == old
    } else {
        &&& r
        &&& forall|k: usize| #[trigger] new.subs(k) == if k == id { old.subs(k).push(t) } else { old.subs(k) }
        &&& forall|u: Seq<char>| #[trigger] new.listeners(u) == if u == t {
            old.listeners(u).push(id)
        } else {
            old.listeners(u)
        }
    }
}

/// The effect of leaving a topic: `t` taken out of the client's topics (if
/// it is connected) and `id` out of the topic's listeners.
pub open spec fn unsubscribed(old: Relay, new: Relay, id: usize, t: Seq<char>) -> bool {
    &&& new.wf()
    &&& new.next() == old.next()
    &&& new.ids() == old.ids()
    &&& forall|k: usize| #[trigger] new.subs(k) == if k == id { without(old.subs(k), t) } else { old.subs(k) }
    &&& forall|u: Seq<char>| #[trigger] new.listeners(u) == if u == t {
        without(old.listeners(u), id)
    } else {
        old.listeners(u)
    }
}

/// What holds after a message is copied to a topic's listeners, whichever
/// of their channels turned out to be closed: only listeners of `t` may have
/// been disconnected, everyone else keeps their topics, and lists only lose
/// clients that went.
pub open spec fn published(old: Relay, new: Relay, t: Seq<char>) -> bool {
    &&& new.wf()
    &&& new.next() == old.next()
    &&& forall|k: usize| #[trigger] new.connected(k) ==> old.connected(k) && new.subs(k) == old.subs(k)
    &&& forall|k: usize| old.connected(k) && !old.listeners(t).contains(k) ==> #[trigger] new.connected(k)
    &&& forall|u: Seq<char>, c: usize| #[trigger] new.listeners(u).contains(c) ==> old.listeners(u).contains(c)
    &&& forall|u: Seq<char>, c: usize|
        old.listeners(u).contains(c) && new.connected(c) ==> #[trigger] new.listeners(u).contains(c)
}

/// The message sent to a topic's listeners: the topic, quoted, and the
/// payload exactly as it arrived.
pub open spec fn message_spec(t: Seq<char>, payload: Seq<char>) -> Seq<char> {
    seq!['{', '"', 't', 'o', 'p', 'i', 'c', '"', ':'] + quote_spec(t) + seq![
        ',',
        '"',
        'p',
        'a',
        'y',
        'l',
        'o',
        'a',
        'd',
        '"',
        ':',
    ] + payload + seq!['}']
}

/// Appends the characters of `w`.
fn push_str(out: &mut String, w: &str)
    ensures
        final(out)@ == old(out)@ + w@,
{
    let cs = chars_of(w);
    let ghost start = out@;
    let mut i: usize = 0;
    while i < cs.len()
        invariant
            cs@ == w@,
            i <= cs@.len(),
            out@ == start + cs@.take(i as int),
        decreases cs@.len() - i,
    {
        push_char(out, cs[i]);
        proof {
            assert(cs@.take(i + 1) =~= cs@.take(i as int).push(cs@[i as int]));
        }
        i = i + 1;
    }
    proof {
        assert(cs@.take(cs@.len() as int) =~= cs@);
    }
}

/// The message for a topic and payload; see [`message_spec`].
pub fn publish_message(topic: &str, payload: &str) -> (m: String)
    ensures
        m@ == message_spec(topic@, payload@),
{
    let mut out = String::new();
    let head = "{\"topic\":";
    let mid = ",\"payload\":";
    let tail = "}";
    proof {
        reveal_strlit("{\"topic\":");
        reveal_strlit(",\"payload\":");
        reveal_strlit("}");
    }
    push_str(&mut out, head);
    let q = json::quote(topic);
    push_str(&mut out, q.as_str());
    push_str(&mut out, mid);
    push_str(&mut out, payload);
    push_str(&mut out, tail);
    proof {
        assert(out@ =~= message_spec(topic@, payload@));
    }
    out
}

/// True when a string reads `w`.
fn reads(s: &String, w: &str) -> (r: bool)
    ensures
        r == (s@ == w@),
{
    let o = w.to_owned();
    *s == o
}

impl Relay {
    /// Adds topic `topic` for client `id`; see [`subscribed`].
    fn subscribe(&mut self, id: usize, topic: String) -> (r: bool)
        requires
            old(self).wf(),
        ensures
            subscribed(*old(self), *final(self), id, topic@, r),
    {
        let ghost before = *self;
        let ci = match self.find_client(id) {
            Some(ci) => ci,
            None => {
                return false;
            },
        };
        proof {
            before.lemma_client_at(ci as int);
        }
        let n = self.clients[ci].topics.len();
        let mut k: usize = 0;
        while k < n
            invariant
                *self == before,
                before.wf(),
                ci < self.clients@.len(),
                before.connected(id),
                before.client_at(id) == ci as int,
                n == self.clients@[ci as int].topics@.len(),
                k <= n,
                forall|j: int| 0 <= j < k ==> self.clients@[ci as int].topics@[j]@ != topic@,
            decreases n - k,
        {
            if self.clients[ci].topics[k] == topic {
                proof {
                    assert(before.subs(id)[k as int] == topic@);
                    assert(before.subs(id).contains(topic@));
                }
                return true;
            }
            k = k + 1;
        }
        proof {
            assert(!before.subs(id).contains(topic@)) by {
                if before.subs(id).contains(topic@) {
                    let j = choose|j: int| 0 <= j < before.subs(id).len() && before.subs(id)[j] == topic@;
                    assert(self.clients@[ci as int].topics@[j]@ == topic@);
                }
            }
        }
        if n >= MAX_TOPICS_PER_CLIENT {
            return false;
        }
        self.clients[ci].topics.push(topic.clone());
        proof {
            Relay::lemma_resubbed(before, *self, ci as int);
            assert(self.clients@[ci as int].topics@.map_values(|s: String| s@) =~= before.subs(id).push(topic@));
        }
        let ghost mid = *self;
        match self.find_topic(&topic) {
            Some(ti) => {
                self.topics[ti].listeners.push(id);
                proof {
                    Relay::lemma_relisted(mid, *self, ti as int);
                    mid.lemma_topic_at(ti as int);
                }
            },
            None => {
                let mut listeners: Vec<usize> = Vec::new();
                listeners.push(id);
                self.topics.push(Topic { name: topic, listeners });
                proof {
                    let n = mid.topics@.len() as int;
                    assert(self.names() =~= mid.names().push(topic@));
                    assert(self.ids() =~= mid.ids());
                    assert forall|a: int, b: int| 0 <= a < b < self.topics@.len() implies self.topics@[a].name@
                        != self.topics@[b].name@ by {
                        if b < n {
                            assert(mid.topics@[a].name@ != mid.topics@[b].name@);
                        } else {
                            assert(mid.names()[a] == self.topics@[a].name@);
                        }
                    }
                    assert forall|a: int| 0 <= a < self.topics@.len() implies (#[trigger] self.topics@[a]).listeners@.len()
                        > 0 by {
                        if a < n {
                            assert(mid.topics@[a] == self.topics@[a]);
                        }
                    }
                    assert forall|a: int, b: int| 0 <= a < b < self.clients@.len() implies self.clients@[a].id
                        != self.clients@[b].id by {
                        assert(mid.clients@[a].id != mid.clients@[b].id);
                    }
                    assert forall|a: int| 0 <= a < self.clients@.len() implies (#[trigger] self.clients@[a]).id
                        < self.next_id by {
                        assert(mid.clients@[a].id < mid.next_id);
                    }
                    assert(self.wf());
                    self.lemma_topic_at(n);
                    assert forall|u: Seq<char>| #[trigger] self.listeners(u) == if u == topic@ {
                        mid.listeners(u).push(id)
                    } else {
                        mid.listeners(u)
                    } by {
                        if u == topic@ {
                            assert(self.listeners(u) =~= mid.listeners(u).push(id));
                        } else if mid.names().contains(u) {
                            let j = choose|j: int| 0 <= j < mid.names().len() && mid.names()[j] == u;
                            assert(mid.topics@[j].name@ == u);
                            mid.lemma_topic_at(j);
                            assert(self.topics@[j] == mid.topics@[j]);
                            self.lemma_topic_at(j);
                        } else {
                            assert(!self.names().contains(u)) by {
                                if self.names().contains(u) {
                                    let j = choose|j: int| 0 <= j < self.names().len() && self.names()[j] == u;
                                    if j < n {
                                        assert(mid.names()[j] == u);
                                    }
                                }
                            }
                        }
                    }
                    assert forall|k: usize| #[trigger] self.subs(k) == mid.subs(k) by {
                        if mid.connected(k) {
                            let j = choose|j: int| 0 <= j < mid.ids().len() && mid.ids()[j] == k;
                            assert(mid.clients@[j].id == k);
                            mid.lemma_client_at(j);
                            self.lemma_client_at(j);
                        }
                    }
                }
            },
        }
        true
    }

    /// Takes topic `topic` away from client `id`; see [`unsubscribed`].
    fn unsubscribe(&mut self, id: usize, topic: &String) -> (r: bool)
        requires
            old(self).wf(),
        ensures
            r,
            unsubscribed(*old(self), *final(self), id, topic@),
    {
        let ghost before = *self;
        match self.find_client(id) {
            Some(ci) => {
                let kept = without_topic(&self.clients[ci].topics, topic);
                self.clients[ci].topics = kept;
                proof {
                    Relay::lemma_resubbed(before, *self, ci as int);
                    before.lemma_client_at(ci as int);
                }
            },
            None => {
                proof {
                    assert(without(Seq::<Seq<char>>::empty(), topic@) =~= Seq::<Seq<char>>::empty());
                }
            },
        }
        let ghost mid = *self;
        self.drop_listener(topic, id);
        true
    }

    /// Copies a message to everyone listening to `topic`, sender included,
    /// and forgets those whose channel has closed; see [`published`].
    ///
    /// The sender gets its own message back because that is what the public
    /// relays this protocol was written against do, and Trystero is built to
    /// recognise and drop its own traffic.
    /// The messages a publish hands out, in order: see [`deliveries_spec`].
    pub fn deliveries(&self, topic: &String, payload: &str) -> (d: Vec<(usize, String)>)
        requires
            self.wf(),
        ensures
            ({
                let want = deliveries_spec(*self, self.listeners(topic@), message_spec(topic@, payload@));
                &&& d@.len() == want.len()
                &&& forall|i: int| 0 <= i < want.len() ==> (#[trigger] d@[i]).0 == want[i].0 && d@[i].1@ == want[i].1
            }),
    {
        let ghost msg = message_spec(topic@, payload@);
        let mut d: Vec<(usize, String)> = Vec::new();
        let ti = match self.find_topic(topic) {
            Some(ti) => ti,
            None => {
                return d;
            },
        };
        proof {
            self.lemma_topic_at(ti as int);
        }
        let message = publish_message(topic.as_str(), payload);
        let ls = &self.topics[ti].listeners;
        let mut k: usize = 0;
        while k < ls.len()
            invariant
                ls@ == self.listeners(topic@),
                message@ == msg,
                k <= ls@.len(),
                self.wf(),
                ({
                    let want = deliveries_spec(*self, ls@.take(k as int), msg);
                    &&& d@.len() == want.len()
                    &&& forall|i: int| 0 <= i < want.len() ==> (#[trigger] d@[i]).0 == want[i].0 && d@[i].1@ == want[i].1
                }),
            decreases ls@.len() - k,
        {
            let id = ls[k];
            proof {
                assert(ls@.take(k + 1).drop_last() =~= ls@.take(k as int));
                assert(ls@.take(k + 1).last() == id);
            }
            match self.find_client(id) {
                Some(_) => {
                    d.push((id, message.clone()));
                },
                None => {},
            }
            k = k + 1;
        }
        proof {
            assert(ls@.take(ls@.len() as int) =~= ls@);
        }
        d
    }

    /// Copies a message to every connected listener of a topic, in the order
    /// they subscribed (the entries of [`Relay::deliveries`]), and drops the
    /// clients whose channel turned out to be closed.
    fn publish(&mut self, topic: &String, payload: &str)
        requires
            old(self).wf(),
        ensures
            published(*old(self), *final(self), topic@),
    {
        let ghost before = *self;
        let plan = self.deliveries(topic, payload);
        let ghost want = deliveries_spec(before, before.listeners(topic@), message_spec(topic@, payload@));
        proof {
            lemma_deliveries_listed(before, before.listeners(topic@), message_spec(topic@, payload@));
        }
        let mut gone: Vec<usize> = Vec::new();
        let mut k: usize = 0;
        while k < plan.len()
            invariant
                *self == before,
                self.wf(),
                plan@.len() == want.len(),
                forall|i: int| 0 <= i < want.len() ==> (#[trigger] plan@[i]).0 == want[i].0,
                forall|i: int| 0 <= i < want.len() ==> before.listeners(topic@).contains(#[trigger] want[i].0),
                k <= plan@.len(),
                forall|j: int| 0 <= j < gone@.len() ==> before.listeners(topic@).contains(#[trigger] gone@[j]),
            decreases plan@.len() - k,
        {
            let id = plan[k].0;
            proof {
                assert(want[k as int].0 == id);
            }
            match self.find_client(id) {
                Some(ci) => {
                    if !send_to(&self.clients[ci].out, plan[k].1.clone()) {
                        gone.push(id);
                    }
                },
                None => {},
            }
            k = k + 1;
        }
        let mut g: usize = 0;
        while g < gone.len()
            invariant
                self.wf(),
                g <= gone@.len(),
                forall|j: int| 0 <= j < gone@.len() ==> before.listeners(topic@).contains(#[trigger] gone@[j]),
                published(before, *self, topic@),
            decreases gone@.len() - g,
        {
            let ghost step = *self;
            let id = gone[g];
            self.disconnect(id);
            proof {
                assert(before.listeners(topic@).contains(gone@[g as int]));
                assert forall|u: Seq<char>, c: usize| #[trigger] self.listeners(u).contains(c) implies before.listeners(
                    u,
                ).contains(c) by {
                    if step.subs(id).contains(u) {
                        lemma_without(step.listeners(u), id);
                    }
                }
                assert forall|u: Seq<char>, c: usize| before.listeners(u).contains(c) && self.connected(c) implies #[trigger] self.listeners(
                    u,
                ).contains(c) by {
                    assert(step.connected(c));
                    assert(step.listeners(u).contains(c));
                    if step.subs(id).contains(u) {
                        lemma_without(step.listeners(u), id);
                    }
                }
            }
            g = g + 1;
        }
    }
}

/// What a publish hands out to the listeners `ls` of a topic: `msg` to each
/// of them that is connected, in their order.
pub open spec fn deliveries_spec(r: Relay, ls: Seq<usize>, msg: Seq<char>) -> Seq<(usize, Seq<char>)>
    decreases ls.len(),
{
    if ls.len() == 0 {
        Seq::empty()
    } else {
        let prev = deliveries_spec(r, ls.drop_last(), msg);
        if r.connected(ls.last()) { prev.push((ls.last(), msg)) } else { prev }
    }
}

proof fn lemma_deliveries_listed(r: Relay, ls: Seq<usize>, msg: Seq<char>)
    ensures
        forall|i: int| 0 <= i < deliveries_spec(r, ls, msg).len() ==> ls.contains(#[trigger] deliveries_spec(r, ls, msg)[i].0),
    decreases ls.len(),
{
    if ls.len() > 0 {
        lemma_deliveries_listed(r, ls.drop_last(), msg);
        let prev = deliveries_spec(r, ls.drop_last(), msg);
        assert forall|i: int| 0 <= i < deliveries_spec(r, ls, msg).len() implies ls.contains(
            #[trigger] deliveries_spec(r, ls, msg)[i].0,
        ) by {
            if i < prev.len() {
                assert(ls.drop_last().contains(prev[i].0));
                let j = choose|j: int| 0 <= j < ls.drop_last().len() && ls.drop_last()[j] == prev[i].0;
                assert(ls[j] == prev[i].0);
            } else {
                assert(ls[ls.len() - 1] == ls.last());
            }
        }
    }
}

/// The text of a string member of a message, unescaped.
pub open spec fn json_string(text: Seq<char>, key: Seq<char>) -> Option<Seq<char>> {
    match member_spec(text, key) {
        Some((start, end)) => unquote_spec(text.subrange(start, end)),
        None => None,
    }
}

/// A topic name a client may use: not empty, and at most
/// [`MAX_TOPIC_LEN`] bytes long.
pub open spec fn topic_ok(t: Seq<char>) -> bool {
    t.len() > 0 && vstd::utf8::encode_utf8(t).len() <= MAX_TOPIC_LEN
}

/// What one message from client `id` does: its `type` and `topic` string
/// members pick subscribe, unsubscribe or publish (which also needs a
/// `payload` member); anything else, a missing member or a bad topic is
/// refused and changes nothing.
pub open spec fn handled(old: Relay, new: Relay, id: usize, text: Seq<char>, r: bool) -> bool {
    match (json_string(text, seq!['t', 'y', 'p', 'e']), json_string(text, seq!['t', 'o', 'p', 'i', 'c'])) {
        (Some(kind), Some(topic)) => if !topic_ok(topic) {
            !r && new == old
        } else if kind == seq!['s', 'u', 'b', 's', 'c', 'r', 'i', 'b', 'e'] {
            subscribed(old, new, id, topic, r)
        } else if kind == seq!['u', 'n', 's', 'u', 'b', 's', 'c', 'r', 'i', 'b', 'e'] {
            r && unsubscribed(old, new, id, topic)
        } else if kind == seq!['p', 'u', 'b', 'l', 'i', 's', 'h'] {
            if member_spec(text, seq!['p', 'a', 'y', 'l', 'o', 'a', 'd']) is Some {
                r && published(old, new, topic)
            } else {
                !r && new == old
            }
        } else {
            !r && new == old
        },
        _ => !r && new == old,
    }
}

impl Relay {
    /// Handles one message from a client; see [`handled`]. Returns false
    /// when it made no sense.
    pub fn handle(&mut self, id: usize, text: &str) -> (r: bool)
        requires
            old(self).wf(),
        ensures
            final(self).wf(),
            handled(*old(self), *final(self), id, text@, r),
    {
        proof {
            reveal_strlit("type");
            reveal_strlit("topic");
            reveal_strlit("payload");
            reveal_strlit("subscribe");
            reveal_strlit("unsubscribe");
            reveal_strlit("publish");
            assert("type"@ =~= seq!['t', 'y', 'p', 'e']);
            assert("topic"@ =~= seq!['t', 'o', 'p', 'i', 'c']);
            assert("payload"@ =~= seq!['p', 'a', 'y', 'l', 'o', 'a', 'd']);
            assert("subscribe"@ =~= seq!['s', 'u', 'b', 's', 'c', 'r', 'i', 'b', 'e']);
            assert("unsubscribe"@ =~= seq!['u', 'n', 's', 'u', 'b', 's', 'c', 'r', 'i', 'b', 'e']);
            assert("publish"@ =~= seq!['p', 'u', 'b', 'l', 'i', 's', 'h']);
        }
        let kind = match json::string_member(text, "type") {
            Some(k) => k,
            None => {
                return false;
            },
        };
        let topic = match json::string_member(text, "topic") {
            Some(t) => t,
            None => {
                return false;
            },
        };
        if topic.as_str().is_empty() || topic.as_str().as_bytes().len() > MAX_TOPIC_LEN {
            return false;
        }
        if reads(&kind, "subscribe") {
            self.subscribe(id, topic)
        } else if reads(&kind, "unsubscribe") {
            self.unsubscribe(id, &topic)
        } else if reads(&kind, "publish") {
            match json::member(text, "payload") {
                Some(payload) => {
                    self.publish(&topic, payload);
                    true
                },
                None => false,
            }
        } else {
            false
        }
    }
}

} // verus!
