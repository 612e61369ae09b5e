//! Room graphs: the skeleton both the overworld and dungeons are built on.
use vstd::prelude::*;
use crate::geom::{Dir, dir_code, dir_step, dir_opposite};
use crate::rng::Rng;

verus! {

/// True when bit `k` of `v` is set.
pub open spec fn has_bit(v: u8, k: u8) -> bool {
    v & (1u8 << k) != 0
}

/// Setting bit `k` sets it and leaves the other low bits alone.
pub proof fn lemma_set_bit(v: u8, k: u8, j: u8)
    requires
        k < 8,
        j < 8,
    ensures
        has_bit(v | (1u8 << k), j) == (has_bit(v, j) || j == k),
{
    assert(((v | (1u8 << k)) & (1u8 << j) != 0) == ((v & (1u8 << j) != 0) || j == k))
        by (bit_vector)
        requires
            k < 8,
            j < 8,
    ;
}

/// A grid of rooms with connections between neighbours.
#[derive(Debug)]
pub struct RoomGraph {
    pub w: i32,
    pub h: i32,
    /// Bit per [`Dir`] for each room: a connection leads that way.
    links: Vec<u8>,
    /// Distance from the start room along the connections.
    pub depth: Vec<i32>,
    pub start: (i32, i32),
}

impl RoomGraph {
    /// Width in rooms.
    pub closed spec fn gw(&self) -> int {
        self.w as int
    }

    /// Height in rooms.
    pub closed spec fn gh(&self) -> int {
        self.h as int
    }

    /// The connection bits, row major.
    pub closed spec fn link_bits(&self) -> Seq<u8> {
        self.links@
    }

    /// The depths, row major.
    pub closed spec fn depths(&self) -> Seq<i32> {
        self.depth@
    }

    /// The start room.
    pub closed spec fn start_room(&self) -> (i32, i32) {
        self.start
    }

    /// True when `(x, y)` is a room of the grid.
    pub open spec fn in_grid(&self, x: int, y: int) -> bool {
        0 <= x < self.gw() && 0 <= y < self.gh()
    }

    /// The row-major index of a room.
    pub open spec fn cell(&self, x: int, y: int) -> int {
        y * self.gw() + x
    }

    /// True when the room at `(x, y)` connects towards `d`.
    pub open spec fn linked_spec(&self, x: int, y: int, d: Dir) -> bool {
        self.in_grid(x, y) && has_bit(self.link_bits()[self.cell(x, y)], dir_code(d))
    }

    /// The room's depth, -1 outside the grid.
    pub open spec fn depth_spec(&self, x: int, y: int) -> int {
        if self.in_grid(x, y) {
            self.depths()[self.cell(x, y)] as int
        } else {
            -1
        }
    }

    /// Every connection leads to a room of the grid and is matched by one
    /// coming back.
    #[verifier::opaque]
    pub open spec fn symmetric(&self) -> bool {
        forall|x: int, y: int, d: Dir|
            #[trigger] self.linked_spec(x, y, d) ==> {
                let (nx, ny) = (x + dir_step(d).0, y + dir_step(d).1);
                self.in_grid(nx, ny) && self.linked_spec(nx, ny, dir_opposite(d))
            }
    }

    /// Sizes agree with the storage, indices fit comfortably in `i32`, and
    /// the connections are two-way.
    pub open spec fn wf(&self) -> bool {
        &&& 1 <= self.gw()
        &&& 1 <= self.gh()
        &&& self.gw() * self.gh() <= 0x100_0000
        &&& self.link_bits().len() == self.gw() * self.gh()
        &&& self.depths().len() == self.gw() * self.gh()
        &&& self.symmetric()
    }

    /// A row-major index names a stored room.
    pub proof fn lemma_cell(&self, x: int, y: int)
        requires
            self.wf(),
            self.in_grid(x, y),
        ensures
            0 <= self.cell(x, y) < self.gw() * self.gh(),
            self.gw() <= 0x100_0000,
            self.gh() <= 0x100_0000,
    {
        let w = self.gw();
        let h = self.gh();
        assert(0 <= y * w + x < w * h) by (nonlinear_arith)
            requires
                0 <= x < w,
                0 <= y < h,
        ;
        assert(w <= w * h && h <= w * h) by (nonlinear_arith)
            requires
                w >= 1,
                h >= 1,
        ;
    }

    /// A grid of at least one room each way, unconnected, every depth -1,
    /// starting at the top-left room.
    pub fn new(w: i32, h: i32) -> (g: RoomGraph)
        requires
            (if w >= 1 { w as int } else { 1 }) * (if h >= 1 { h as int } else { 1 }) <= 0x100_0000,
        ensures
            g.wf(),
            g.gw() == (if w >= 1 { w as int } else { 1 }),
            g.gh() == (if h >= 1 { h as int } else { 1 }),
            forall|i: int| 0 <= i < g.link_bits().len() ==> #[trigger] g.link_bits()[i] == 0,
            forall|i: int| 0 <= i < g.depths().len() ==> #[trigger] g.depths()[i] == -1,
            g.start_room() == (0i32, 0i32),
    {
        let w: i32 = if w >= 1 { w } else { 1 };
        let h: i32 = if h >= 1 { h } else { 1 };
        let n: usize = (w * h) as usize;
        let mut links: Vec<u8> = Vec::new();
        let mut depth: Vec<i32> = Vec::new();
        let mut i: usize = 0;
        while i < n
            invariant
                i <= n,
                links@.len() == i,
                depth@.len() == i,
                forall|k: int| 0 <= k < i ==> #[trigger] links@[k] == 0,
                forall|k: int| 0 <= k < i ==> #[trigger] depth@[k] == -1,
            decreases n - i,
        {
            links.push(0);
            depth.push(-1);
            i = i + 1;
        }
        let g = RoomGraph { w, h, links, depth, start: (0, 0) };
        proof {
            reveal(RoomGraph::symmetric);
            assert forall|x: int, y: int, d: Dir| #[trigger] g.linked_spec(x, y, d) implies false by {
                lemma_cell_bound(x, y, g.gw(), g.gh());
                assert(g.link_bits()[g.cell(x, y)] == 0);
                let k = dir_code(d);
                assert((0u8 & (1u8 << k)) == 0) by (bit_vector);
            }
        }
        g
    }

    pub fn width(&self) -> (r: i32)
        ensures
            r == self.gw(),
    {
        self.w
    }

    pub fn height(&self) -> (r: i32)
        ensures
            r == self.gh(),
    {
        self.h
    }

    pub fn start_at(&self) -> (r: (i32, i32))
        ensures
            r == self.start_room(),
    {
        self.start
    }

    /// Index of a room, if it is in the grid.
    pub fn index(&self, x: i32, y: i32) -> (r: Option<usize>)
        requires
            self.wf(),
        ensures
            self.in_grid(x as int, y as int) ==> r == Some(self.cell(x as int, y as int) as usize),
            !self.in_grid(x as int, y as int) ==> r.is_none(),
            r matches Some(i) ==> i == self.cell(x as int, y as int) && i < self.gw() * self.gh(),
    {
        if x < 0 || y < 0 || x >= self.w || y >= self.h {
            None
        } else {
            proof {
                self.lemma_cell(x as int, y as int);
            }
            Some((y * self.w + x) as usize)
        }
    }

    /// True when the room connects towards `dir`.
    pub fn linked(&self, x: i32, y: i32, dir: Dir) -> (r: bool)
        requires
            self.wf(),
        ensures
            r == self.linked_spec(x as int, y as int, dir),
    {
        match self.index(x, y) {
            Some(i) => self.links[i] & (1u8 << dir.to_u8()) != 0,
            None => false,
        }
    }

    /// Connects two adjacent rooms, in both directions. Nothing happens when
    /// either room is outside the grid.
    pub fn link(&mut self, x: i32, y: i32, dir: Dir)
        requires
            old(self).wf(),
            i32::MIN < x < i32::MAX,
            i32::MIN < y < i32::MAX,
        ensures
            final(self).wf(),
            final(self).gw() == old(self).gw(),
            final(self).gh() == old(self).gh(),
            final(self).depths() == old(self).depths(),
            final(self).start_room() == old(self).start_room(),
            ({
                let (nx, ny) = (x + dir_step(dir).0, y + dir_step(dir).1);
                forall|ax: int, ay: int, d: Dir|
                    #[trigger] final(self).linked_spec(ax, ay, d) == (old(self).linked_spec(ax, ay, d)
                        || (old(self).in_grid(x as int, y as int) && old(self).in_grid(nx, ny) && (
                        (ax == x && ay == y && d == dir) || (ax == nx && ay == ny && d
                        == dir_opposite(dir)))))
            }),
    {
        proof {
            reveal(RoomGraph::symmetric);
        }
        let (dx, dy) = dir.step();
        let nx = x + dx;
        let ny = y + dy;
        let ia = self.index(x, y);
        let ib = self.index(nx, ny);
        match (ia, ib) {
            (Some(a), Some(b)) => {
                let ghost g0 = *self;
                proof {
                    reveal(RoomGraph::symmetric);
                }
                let ka = dir.to_u8();
                let kb = dir.opposite().to_u8();
                let va = self.links[a] | (1u8 << ka);
                self.links.set(a, va);
                let vb = self.links[b] | (1u8 << kb);
                self.links.set(b, vb);
                proof {
                    assert(a != b) by {
                        crate::level::lemma_distinct_index(
                            x as int,
                            y as int,
                            nx as int,
                            ny as int,
                            self.gw(),
                            self.gh(),
                        );
                    }
                    assert forall|ax: int, ay: int, d: Dir|
                        #[trigger] self.linked_spec(ax, ay, d) == (g0.linked_spec(ax, ay, d) || (
                        (ax == x && ay == y && d == dir) || (ax == nx && ay == ny && d
                        == dir_opposite(dir)))) by {
                        if self.in_grid(ax, ay) {
                            g0.lemma_cell(ax, ay);
                            let c = self.cell(ax, ay);
                            if c == a {
                                assert(ax == x && ay == y) by {
                                    lemma_cell_unique(ax, ay, x as int, y as int, self.gw(), self.gh());
                                }
                                lemma_set_bit(g0.links@[a as int], ka, dir_code(d));
                            } else if c == b {
                                assert(ax == nx && ay == ny) by {
                                    lemma_cell_unique(ax, ay, nx as int, ny as int, self.gw(), self.gh());
                                }
                                lemma_set_bit(g0.links@[b as int], kb, dir_code(d));
                            } else {
                                if ax == x && ay == y {
                                    assert(c == a);
                                }
                                if ax == nx && ay == ny {
                                    assert(c == b);
                                }
                            }
                        }
                    }
                    assert forall|ax: int, ay: int, d: Dir| #[trigger] self.linked_spec(ax, ay, d) implies {
                        let (mx, my) = (ax + dir_step(d).0, ay + dir_step(d).1);
                        self.in_grid(mx, my) && self.linked_spec(mx, my, dir_opposite(d))
                    } by {
                        let (mx, my) = (ax + dir_step(d).0, ay + dir_step(d).1);
                        if g0.linked_spec(ax, ay, d) {
                            assert(g0.linked_spec(mx, my, dir_opposite(d)));
                            assert(self.linked_spec(mx, my, dir_opposite(d)));
                        } else if ax == x && ay == y && d == dir {
                            assert(self.linked_spec(nx as int, ny as int, dir_opposite(dir)));
                        } else {
                            assert(dir_opposite(dir_opposite(dir)) == dir);
                            assert(self.linked_spec(x as int, y as int, dir));
                        }
                    }
                }
            },
            _ => {},
        }
    }

    /// All connections out of a room, in stored direction order.
    pub fn exits(&self, x: i32, y: i32) -> (r: Vec<Dir>)
        requires
            self.wf(),
        ensures
            r@ == seq![Dir::Down, Dir::Up, Dir::Left, Dir::Right].filter(
                |d: Dir| self.linked_spec(x as int, y as int, d),
            ),
    {
        let all = Dir::all();
        let mut out: Vec<Dir> = Vec::new();
        let mut i: usize = 0;
        while i < 4
            invariant
                i <= 4,
                all@ == seq![Dir::Down, Dir::Up, Dir::Left, Dir::Right],
                self.wf(),
                out@ == all@.take(i as int).filter(|d: Dir| self.linked_spec(x as int, y as int, d)),
            decreases 4 - i,
        {
            let d = all[i];
            proof {
                reveal_with_fuel(Seq::filter, 1);
                assert(all@.take(i + 1).drop_last() =~= all@.take(i as int));
            }
            if self.linked(x, y, d) {
                out.push(d);
            }
            i = i + 1;
        }
        assert(all@.take(4) =~= all@);
        out
    }

    /// Distance from the start room, or -1 when unreachable or off the grid.
    pub fn depth_at(&self, x: i32, y: i32) -> (r: i32)
        requires
            self.wf(),
        ensures
            r == self.depth_spec(x as int, y as int),
    {
        match self.index(x, y) {
            Some(i) => self.depth[i],
            None => -1,
        }
    }

    /// True when every room can be reached from the start.
    pub fn is_fully_connected(&self) -> (r: bool)
        ensures
            r == (forall|i: int| 0 <= i < self.depths().len() ==> #[trigger] self.depths()[i] >= 0),
    {
        let mut i: usize = 0;
        while i < self.depth.len()
            invariant
                i <= self.depth@.len(),
                forall|k: int| 0 <= k < i ==> #[trigger] self.depth@[k] >= 0,
            decreases self.depth@.len() - i,
        {
            if self.depth[i] < 0 {
                assert(self.depths()[i as int] < 0);
                return false;
            }
            i = i + 1;
        }
        true
    }
}

/// The room next to `(x, y)` towards `d`.
pub open spec fn nb(x: int, y: int, d: Dir) -> (int, int) {
    (x + dir_step(d).0, y + dir_step(d).1)
}

impl RoomGraph {
    /// Depth 0 is the start room and nowhere else.
    #[verifier::opaque]
    pub open spec fn zero_at_start(&self) -> bool {
        let (sx, sy) = self.start_room();
        &&& self.depth_spec(sx as int, sy as int) == 0
        &&& forall|x: int, y: int| #[trigger] self.depth_spec(x, y) == 0 ==> x == sx && y == sy
    }

    /// Every room at a positive depth is connected to a room one shallower.
    #[verifier::opaque]
    pub open spec fn has_parents(&self) -> bool {
        forall|x: int, y: int|
            #[trigger] self.depth_spec(x, y) > 0 ==> exists|d: Dir|
                self.linked_spec(x, y, d) && self.depth_spec(nb(x, y, d).0, nb(x, y, d).1)
                    == self.depth_spec(x, y) - 1
    }

    /// Every neighbour of a reached room is reached, at most one deeper.
    #[verifier::opaque]
    pub open spec fn closed_under_links(&self) -> bool {
        forall|x: int, y: int, d: Dir|
            self.depth_spec(x, y) >= 0 && #[trigger] self.linked_spec(x, y, d) ==> 0
                <= self.depth_spec(nb(x, y, d).0, nb(x, y, d).1) <= self.depth_spec(x, y) + 1
    }

    /// Depths are at least -1 everywhere.
    pub open spec fn depths_bounded(&self) -> bool {
        forall|i: int| 0 <= i < self.depths().len() ==> #[trigger] self.depths()[i] >= -1
    }

    /// The depths breadth-first search from the start leaves: 0 at the start
    /// and nowhere else, every reached room one deeper than some connected
    /// neighbour, every neighbour of a reached room reached and at most one
    /// deeper. Together these make each depth the length of a shortest route
    /// from the start, and -1 exactly the rooms no route reaches. With the
    /// start off the grid, nothing is reached.
    pub open spec fn bfs_done(&self) -> bool {
        let (sx, sy) = self.start_room();
        &&& self.depths_bounded()
        &&& self.in_grid(sx as int, sy as int) ==> {
            &&& self.zero_at_start()
            &&& self.has_parents()
            &&& self.closed_under_links()
        }
        &&& !self.in_grid(sx as int, sy as int) ==> forall|i: int|
            0 <= i < self.depths().len() ==> #[trigger] self.depths()[i] == -1
    }
}

/// Every queue entry is a reached room of the grid, no deeper than its place.
#[verifier::opaque]
pub open spec fn q_rooms(g: RoomGraph, q: Seq<(i32, i32)>) -> bool {
    forall|k: int|
        0 <= k < q.len() ==> g.in_grid((#[trigger] q[k]).0 as int, q[k].1 as int) && 0
            <= g.depth_spec(q[k].0 as int, q[k].1 as int) <= k
}

/// Every reached room is in the queue.
#[verifier::opaque]
pub open spec fn q_covers(g: RoomGraph, q: Seq<(i32, i32)>) -> bool {
    forall|x: int, y: int|
        #[trigger] g.depth_spec(x, y) >= 0 ==> exists|k: int| 0 <= k < q.len() && q[k].0 == x && q[k].1 == y
}

/// The queue is in order of depth.
#[verifier::opaque]
pub open spec fn q_sorted(g: RoomGraph, q: Seq<(i32, i32)>) -> bool {
    forall|j: int, k: int|
        0 <= j <= k < q.len() ==> g.depth_spec((#[trigger] q[j]).0 as int, q[j].1 as int)
            <= g.depth_spec((#[trigger] q[k]).0 as int, q[k].1 as int)
}

/// Nothing in the queue is more than one deeper than the entry at `head`.
#[verifier::opaque]
pub open spec fn q_span(g: RoomGraph, q: Seq<(i32, i32)>, head: int) -> bool {
    head < q.len() ==> forall|k: int|
        0 <= k < q.len() ==> g.depth_spec((#[trigger] q[k]).0 as int, q[k].1 as int)
            <= g.depth_spec(q[head].0 as int, q[head].1 as int) + 1
}

/// Every entry before `head` has all its neighbours reached, at most one
/// deeper.
#[verifier::opaque]
pub open spec fn q_processed(g: RoomGraph, q: Seq<(i32, i32)>, head: int) -> bool {
    forall|k: int, d: Dir|
        0 <= k < head && #[trigger] g.linked_spec(q[k].0 as int, q[k].1 as int, d) ==> 0
            <= g.depth_spec(nb(q[k].0 as int, q[k].1 as int, d).0, nb(q[k].0 as int, q[k].1 as int, d).1)
            <= g.depth_spec(q[k].0 as int, q[k].1 as int) + 1
}

/// No room is in the queue twice.
#[verifier::opaque]
pub open spec fn q_distinct(q: Seq<(i32, i32)>) -> bool {
    forall|j: int, k: int| 0 <= j < k < q.len() ==> #[trigger] q[j] != #[trigger] q[k]
}

/// What holds while the search runs: the queue holds exactly the reached
/// rooms, once each, in order of depth, spanning at most two depths from
/// `head` on, and every room before `head` has had its neighbours reached.
pub open spec fn bfs_inv(g: RoomGraph, q: Seq<(i32, i32)>, head: int) -> bool {
    let (sx, sy) = g.start_room();
    &&& g.wf()
    &&& g.in_grid(sx as int, sy as int)
    &&& 0 <= head <= q.len()
    &&& g.depths_bounded()
    &&& g.zero_at_start()
    &&& g.has_parents()
    &&& q_rooms(g, q)
    &&& q_covers(g, q)
    &&& q_sorted(g, q)
    &&& q_span(g, q, head)
    &&& q_processed(g, q, head)
    &&& q_distinct(q)
}

/// The facts about one search step that the lemmas below share: `g1` is `g0`
/// with room `(nx, ny)`, unreached and next to `(x, y)`, set one deeper than
/// `(x, y)`.
pub open spec fn one_more(g0: RoomGraph, g1: RoomGraph, x: i32, y: i32, dir: Dir, nx: i32, ny: i32) -> bool {
    &&& g0.wf()
    &&& g1.wf()
    &&& g1.gw() == g0.gw()
    &&& g1.gh() == g0.gh()
    &&& g1.link_bits() == g0.link_bits()
    &&& g1.start_room() == g0.start_room()
    &&& g0.linked_spec(x as int, y as int, dir)
    &&& nb(x as int, y as int, dir) == (nx as int, ny as int)
    &&& g0.in_grid(nx as int, ny as int)
    &&& g0.depth_spec(nx as int, ny as int) < 0
    &&& g0.depth_spec(x as int, y as int) >= 0
    &&& forall|a: int, b: int| #[trigger] g1.depth_spec(a, b) == if a == nx && b == ny {
        g0.depth_spec(x as int, y as int) + 1
    } else {
        g0.depth_spec(a, b)
    }
}

proof fn lemma_push_parents(g0: RoomGraph, g1: RoomGraph, x: i32, y: i32, dir: Dir, nx: i32, ny: i32)
    requires
        one_more(g0, g1, x, y, dir, nx, ny),
        g0.has_parents(),
    ensures
        g1.has_parents(),
{
    reveal(RoomGraph::has_parents);
    reveal(RoomGraph::symmetric);
    assert(dir_opposite(dir_opposite(dir)) == dir);
    assert(g1.linked_spec(nx as int, ny as int, dir_opposite(dir)));
    assert(nb(nx as int, ny as int, dir_opposite(dir)) == (x as int, y as int));
    assert forall|a: int, b: int| #[trigger] g1.depth_spec(a, b) > 0 implies exists|d: Dir|
        g1.linked_spec(a, b, d) && g1.depth_spec(nb(a, b, d).0, nb(a, b, d).1) == g1.depth_spec(a, b) - 1 by {
        if a == nx && b == ny {
            assert(g1.linked_spec(a, b, dir_opposite(dir)));
        } else {
            let d = choose|d: Dir|
                g0.linked_spec(a, b, d) && g0.depth_spec(nb(a, b, d).0, nb(a, b, d).1)
                    == g0.depth_spec(a, b) - 1;
            assert(g1.linked_spec(a, b, d));
        }
    }
}

proof fn lemma_push_zero(g0: RoomGraph, g1: RoomGraph, x: i32, y: i32, dir: Dir, nx: i32, ny: i32)
    requires
        one_more(g0, g1, x, y, dir, nx, ny),
        g0.zero_at_start(),
    ensures
        g1.zero_at_start(),
{
    reveal(RoomGraph::zero_at_start);
}

proof fn lemma_push_queue(
    g0: RoomGraph,
    g1: RoomGraph,
    q0: Seq<(i32, i32)>,
    head: int,
    x: i32,
    y: i32,
    dir: Dir,
    nx: i32,
    ny: i32,
)
    requires
        one_more(g0, g1, x, y, dir, nx, ny),
        bfs_inv(g0, q0, head),
        head < q0.len(),
        q0[head] == (x, y),
    ensures
        q_rooms(g1, q0.push((nx, ny))),
        q_covers(g1, q0.push((nx, ny))),
        q_distinct(q0.push((nx, ny))),
        forall|k: int| 0 <= k < q0.len() ==> g1.depth_spec((#[trigger] q0[k]).0 as int, q0[k].1 as int)
            == g0.depth_spec(q0[k].0 as int, q0[k].1 as int),
{
    reveal(q_rooms);
    reveal(q_covers);
    reveal(q_distinct);
    let q1 = q0.push((nx, ny));
    assert forall|k: int| 0 <= k < q0.len() implies g1.depth_spec((#[trigger] q0[k]).0 as int, q0[k].1 as int)
        == g0.depth_spec(q0[k].0 as int, q0[k].1 as int) by {
        assert(g0.depth_spec(q0[k].0 as int, q0[k].1 as int) >= 0);
    }
    assert(g0.depth_spec(x as int, y as int) <= head);
    assert forall|k: int| 0 <= k < q1.len() implies g1.in_grid((#[trigger] q1[k]).0 as int, q1[k].1 as int)
        && 0 <= g1.depth_spec(q1[k].0 as int, q1[k].1 as int) <= k by {
        if k < q0.len() {
            assert(q1[k] == q0[k]);
            assert(g1.depth_spec(q0[k].0 as int, q0[k].1 as int) == g0.depth_spec(q0[k].0 as int, q0[k].1 as int));
        }
    }
    assert forall|a: int, b: int| #[trigger] g1.depth_spec(a, b) >= 0 implies exists|k: int|
        0 <= k < q1.len() && q1[k].0 == a && q1[k].1 == b by {
        if a == nx && b == ny {
            assert(q1[q0.len() as int] == (nx, ny));
        } else {
            assert(g0.depth_spec(a, b) >= 0);
            let k = choose|k: int| 0 <= k < q0.len() && q0[k].0 == a && q0[k].1 == b;
            assert(q1[k] == q0[k]);
        }
    }
    assert forall|j: int, k: int| 0 <= j < k < q1.len() implies #[trigger] q1[j] != #[trigger] q1[k] by {
        assert(q1[j] == q0[j]);
        if k == q0.len() {
            assert(g0.depth_spec(q0[j].0 as int, q0[j].1 as int) >= 0);
        } else {
            assert(q1[k] == q0[k]);
        }
    }
}

proof fn lemma_push_order(
    g0: RoomGraph,
    g1: RoomGraph,
    q0: Seq<(i32, i32)>,
    head: int,
    x: i32,
    y: i32,
    dir: Dir,
    nx: i32,
    ny: i32,
)
    requires
        one_more(g0, g1, x, y, dir, nx, ny),
        bfs_inv(g0, q0, head),
        head < q0.len(),
        q0[head] == (x, y),
        forall|k: int| 0 <= k < q0.len() ==> g1.depth_spec((#[trigger] q0[k]).0 as int, q0[k].1 as int)
            == g0.depth_spec(q0[k].0 as int, q0[k].1 as int),
    ensures
        q_sorted(g1, q0.push((nx, ny))),
        q_span(g1, q0.push((nx, ny)), head),
        q_processed(g1, q0.push((nx, ny)), head),
{
    reveal(q_sorted);
    reveal(q_span);
    reveal(q_processed);
    reveal(q_rooms);
    let q1 = q0.push((nx, ny));
    let du = g0.depth_spec(x as int, y as int);
    assert forall|j: int, k: int|
        0 <= j <= k < q1.len() implies g1.depth_spec((#[trigger] q1[j]).0 as int, q1[j].1 as int)
        <= g1.depth_spec((#[trigger] q1[k]).0 as int, q1[k].1 as int) by {
        if k == q0.len() {
            if j < k {
                assert(q1[j] == q0[j]);
                assert(g0.depth_spec(q0[j].0 as int, q0[j].1 as int) <= du + 1);
            }
        } else {
            assert(q1[j] == q0[j]);
            assert(q1[k] == q0[k]);
        }
    }
    assert forall|k: int|
        0 <= k < q1.len() implies g1.depth_spec((#[trigger] q1[k]).0 as int, q1[k].1 as int)
        <= g1.depth_spec(q1[head].0 as int, q1[head].1 as int) + 1 by {
        assert(q1[head] == q0[head]);
        if k < q0.len() {
            assert(q1[k] == q0[k]);
        }
    }
    assert forall|k: int, d: Dir|
        0 <= k < head && #[trigger] g1.linked_spec(q1[k].0 as int, q1[k].1 as int, d) implies 0
        <= g1.depth_spec(nb(q1[k].0 as int, q1[k].1 as int, d).0, nb(q1[k].0 as int, q1[k].1 as int, d).1)
        <= g1.depth_spec(q1[k].0 as int, q1[k].1 as int) + 1 by {
        assert(q1[k] == q0[k]);
        assert(g0.linked_spec(q0[k].0 as int, q0[k].1 as int, d));
        let (px, py) = nb(q0[k].0 as int, q0[k].1 as int, d);
        assert(g0.depth_spec(px, py) >= 0);
    }
}

/// Writing one depth changes that room's depth and nothing else.
proof fn lemma_set_depth(g0: RoomGraph, g1: RoomGraph, i: int, nx: int, ny: int, v: i32)
    requires
        g0.wf(),
        g0.in_grid(nx, ny),
        i == g0.cell(nx, ny),
        g1.gw() == g0.gw(),
        g1.gh() == g0.gh(),
        g1.link_bits() == g0.link_bits(),
        g1.start_room() == g0.start_room(),
        g1.depths() == g0.depths().update(i, v),
        g0.depths_bounded(),
        v >= -1,
    ensures
        g1.wf(),
        g1.depths_bounded(),
        forall|a: int, b: int| #[trigger] g1.depth_spec(a, b) == if a == nx && b == ny {
            v as int
        } else {
            g0.depth_spec(a, b)
        },
{
    reveal(RoomGraph::symmetric);
    g0.lemma_cell(nx, ny);
    assert forall|a: int, b: int| #[trigger] g1.depth_spec(a, b) == if a == nx && b == ny {
        v as int
    } else {
        g0.depth_spec(a, b)
    } by {
        if g1.in_grid(a, b) {
            g0.lemma_cell(a, b);
            if g1.cell(a, b) == i {
                lemma_cell_unique(a, b, nx, ny, g1.gw(), g1.gh());
            }
        }
    }
    assert forall|i2: int| 0 <= i2 < g1.depths().len() implies #[trigger] g1.depths()[i2] >= -1 by {
        if i2 != i {
            assert(g1.depths()[i2] == g0.depths()[i2]);
        }
    }
    assert forall|a: int, b: int, d: Dir| #[trigger] g1.linked_spec(a, b, d) implies {
        let (mx, my) = (a + dir_step(d).0, b + dir_step(d).1);
        g1.in_grid(mx, my) && g1.linked_spec(mx, my, dir_opposite(d))
    } by {
        assert(g0.linked_spec(a, b, d));
    }
}

impl RoomGraph {
    /// Handles one direction out of the room at the head of the queue: a
    /// connected room not reached yet gets the next depth and joins the queue.
    fn bfs_step(&mut self, q: &mut Vec<(i32, i32)>, head: usize, dir: Dir)
        requires
            bfs_inv(*old(self), old(q)@, head as int),
            head < old(q)@.len(),
        ensures
            bfs_inv(*final(self), final(q)@, head as int),
            final(self).gw() == old(self).gw(),
            final(self).gh() == old(self).gh(),
            final(self).link_bits() == old(self).link_bits(),
            final(self).start_room() == old(self).start_room(),
            forall|x: int, y: int|
                old(self).depth_spec(x, y) >= 0 ==> #[trigger] final(self).depth_spec(x, y)
                    == old(self).depth_spec(x, y),
            old(q)@.len() <= final(q)@.len(),
            forall|k: int| 0 <= k < old(q)@.len() ==> #[trigger] final(q)@[k] == old(q)@[k],
            ({
                let (x, y) = old(q)@[head as int];
                old(self).linked_spec(x as int, y as int, dir) ==> 0 <= final(self).depth_spec(
                    nb(x as int, y as int, dir).0,
                    nb(x as int, y as int, dir).1,
                ) <= final(self).depth_spec(x as int, y as int) + 1
            }),
    {
        let (x, y) = q[head];
        proof {
            reveal(q_rooms);
            reveal(RoomGraph::symmetric);
            assert(self.in_grid(x as int, y as int));
        }
        if !self.linked(x, y, dir) {
            return;
        }
        let (dx, dy) = dir.step();
        let nx = x + dx;
        let ny = y + dy;
        let i = match self.index(nx, ny) {
            Some(i) => i,
            None => {
                return;
            },
        };
        let du = self.depth_at(x, y);
        if self.depth[i] >= 0 {
            proof {
                reveal(q_covers);
                reveal(q_span);
                assert(self.depth_spec(nx as int, ny as int) >= 0);
                let k = choose|k: int| 0 <= k < q@.len() && q@[k].0 == nx && q@[k].1 == ny;
                assert(self.depth_spec(q@[k].0 as int, q@[k].1 as int) <= du + 1);
            }
            return;
        }
        let ghost g0 = *self;
        let ghost q0 = q@;
        proof {
            reveal(q_rooms);
            reveal(q_distinct);
            assert forall|k: int| 0 <= k < q0.len() implies !((#[trigger] q0[k]).0 == nx && q0[k].1 == ny) by {
                if q0[k].0 == nx && q0[k].1 == ny {
                    assert(g0.depth_spec(q0[k].0 as int, q0[k].1 as int) >= 0);
                }
            }
            self.lemma_cell(nx as int, ny as int);
            lemma_distinct_rooms(self.gw(), self.gh(), q0, nx as int, ny as int);
            assert(0 <= du <= head);
        }
        self.depth.set(i, du + 1);
        q.push((nx, ny));
        proof {
            lemma_set_depth(g0, *self, i as int, nx as int, ny as int, (du + 1) as i32);
            assert(one_more(g0, *self, x, y, dir, nx, ny));
            lemma_push_parents(g0, *self, x, y, dir, nx, ny);
            lemma_push_zero(g0, *self, x, y, dir, nx, ny);
            lemma_push_queue(g0, *self, q0, head as int, x, y, dir, nx, ny);
            lemma_push_order(g0, *self, q0, head as int, x, y, dir, nx, ny);
        }
    }
}

/// The queue holds no more rooms than the grid has.
proof fn lemma_queue_fits(g: RoomGraph, q: Seq<(i32, i32)>, head: int)
    requires
        bfs_inv(g, q, head),
    ensures
        q.len() <= g.gw() * g.gh(),
{
    reveal(q_rooms);
    reveal(q_distinct);
    lemma_rooms_fit(g.gw(), g.gh(), q);
}

/// The first of the four facings, in stored order, that leads from a room
/// to a connected room one shallower.
pub open spec fn parent_dir(g: RoomGraph, x: int, y: int) -> Dir {
    if parent_pred(g, x, y, Dir::Down) {
        Dir::Down
    } else if parent_pred(g, x, y, Dir::Up) {
        Dir::Up
    } else if parent_pred(g, x, y, Dir::Left) {
        Dir::Left
    } else {
        Dir::Right
    }
}

/// The room that `deepest` has settled on after looking at the first `k`
/// rooms in row-major order, with its depth: the first room of greatest
/// depth, or the start while nothing beats -1.
pub open spec fn deepest_upto(g: RoomGraph, k: int) -> ((i32, i32), int)
    decreases k,
{
    if k <= 0 {
        (g.start_room(), -1)
    } else {
        let (b, bd) = deepest_upto(g, k - 1);
        let x = (k - 1) % g.gw();
        let y = (k - 1) / g.gw();
        let d = g.depth_spec(x, y);
        if d > bd {
            ((x as i32, y as i32), d)
        } else {
            (b, bd)
        }
    }
}

impl RoomGraph {
    /// The room furthest from the start, which is where a boss belongs: the
    /// first in row-major order of greatest depth, or the start when no room
    /// is reached.
    pub fn deepest(&self) -> (r: (i32, i32))
        requires
            self.wf(),
        ensures
            r == deepest_upto(*self, self.gw() * self.gh()).0,
            forall|x: int, y: int|
                self.in_grid(x, y) ==> #[trigger] self.depth_spec(x, y) <= deepest_upto(*self, self.gw() * self.gh()).1,
            deepest_upto(*self, self.gw() * self.gh()).1 == -1 && r == self.start_room()
                || self.depth_spec(r.0 as int, r.1 as int) == deepest_upto(*self, self.gw() * self.gh()).1,
    {
        let mut best: (i32, i32) = self.start;
        let mut best_d: i32 = -1;
        let mut y: i32 = 0;
        proof {
            self.lemma_cell(0, 0);
        }
        while y < self.h
            invariant
                self.wf(),
                0 <= y <= self.gh(),
                (best, best_d as int) == deepest_upto(*self, y * self.gw()),
            decreases self.gh() - y,
        {
            let mut x: i32 = 0;
            while x < self.w
                invariant
                    self.wf(),
                    0 <= y < self.gh(),
                    0 <= x <= self.gw(),
                    (best, best_d as int) == deepest_upto(*self, y * self.gw() + x),
                decreases self.gw() - x,
            {
                proof {
                    let k = y * self.gw() + x;
                    vstd::arithmetic::div_mod::lemma_fundamental_div_mod_converse(k, self.gw(), y as int, x as int);
                    self.lemma_cell(x as int, y as int);
                    lemma_deepest_upto(*self, k);
                }
                let d = self.depth_at(x, y);
                if d > best_d {
                    best = (x, y);
                    best_d = d;
                }
                x = x + 1;
            }
            proof {
                assert(y * self.gw() + self.gw() == (y + 1) * self.gw()) by (nonlinear_arith);
            }
            y = y + 1;
        }
        proof {
            let n = self.gw() * self.gh();
            assert(self.gh() * self.gw() == self.gw() * self.gh()) by (nonlinear_arith);
            lemma_deepest_upto(*self, n);
            assert forall|x: int, y: int|
                self.in_grid(x, y) implies #[trigger] self.depth_spec(x, y) <= deepest_upto(*self, n).1 by {
                let k = y * self.gw() + x;
                lemma_cell_bound(x, y, self.gw(), self.gh());
                vstd::arithmetic::div_mod::lemma_fundamental_div_mod_converse(k, self.gw(), y, x);
                assert(self.depth_spec(k % self.gw(), k / self.gw()) <= deepest_upto(*self, n).1);
            }
        }
        best
    }

    /// The room one shallower that the first connected facing, in stored
    /// order, leads to; `None` when there is none.
    fn parent_of(&self, cur: (i32, i32)) -> (r: Option<(i32, i32)>)
        requires
            self.wf(),
            self.depths_bounded(),
            self.in_grid(cur.0 as int, cur.1 as int),
        ensures
            (exists|d: Dir| parent_pred(*self, cur.0 as int, cur.1 as int, d)) ==> (r matches Some(p)
                && (p.0 as int, p.1 as int) == nb(cur.0 as int, cur.1 as int, parent_dir(*self, cur.0 as int, cur.1 as int))
                && parent_pred(*self, cur.0 as int, cur.1 as int, parent_dir(*self, cur.0 as int, cur.1 as int))),
            !(exists|d: Dir| parent_pred(*self, cur.0 as int, cur.1 as int, d)) ==> r is None,
    {
        proof {
            self.lemma_cell(cur.0 as int, cur.1 as int);
        }
        let d = self.depth_at(cur.0, cur.1);
        let all = Dir::all();
        let mut j: usize = 0;
        while j < 4
            invariant
                self.wf(),
                self.depths_bounded(),
                d >= -1,
                self.in_grid(cur.0 as int, cur.1 as int),
                self.gw() <= 0x100_0000,
                self.gh() <= 0x100_0000,
                d == self.depth_spec(cur.0 as int, cur.1 as int),
                all@ == seq![Dir::Down, Dir::Up, Dir::Left, Dir::Right],
                0 <= j <= 4,
                forall|jj: int| 0 <= jj < j ==> !parent_pred(*self, cur.0 as int, cur.1 as int, #[trigger] all@[jj]),
            decreases 4 - j,
        {
            let dir = all[j];
            let (dx, dy) = dir.step();
            let nx = cur.0 + dx;
            let ny = cur.1 + dy;
            if self.linked(cur.0, cur.1, dir) && self.depth_at(nx, ny) == d - 1 {
                assert(parent_pred(*self, cur.0 as int, cur.1 as int, dir));
                return Some((nx, ny));
            }
            j = j + 1;
        }
        proof {
            if exists|dd: Dir| parent_pred(*self, cur.0 as int, cur.1 as int, dd) {
                let dd = choose|dd: Dir| parent_pred(*self, cur.0 as int, cur.1 as int, dd);
                assert(all@[dir_code(dd) as int] == dd);
            }
        }
        None
    }

    /// The rooms from `to` back to the start along parents, `to` first.
    fn walk_back(&self, to: (i32, i32)) -> (back: Vec<(i32, i32)>)
        requires
            self.wf(),
            self.bfs_done(),
            self.depth_spec(to.0 as int, to.1 as int) >= 0,
        ensures
            back@.len() == self.depth_spec(to.0 as int, to.1 as int) + 1,
            back@[0] == to,
            back@[back@.len() - 1] == self.start_room(),
            forall|i: int|
                0 <= i < back@.len() ==> self.depth_spec((#[trigger] back@[i]).0 as int, back@[i].1 as int)
                    == back@.len() - 1 - i,
            forall|i: int|
                0 <= i < back@.len() - 1 ==> steps_back(*self, #[trigger] back@[i], back@[i + 1]),
    {
        let ghost n = self.depth_spec(to.0 as int, to.1 as int);
        let mut back: Vec<(i32, i32)> = Vec::new();
        let mut cur = to;
        back.push(cur);
        proof {
            let (sx, sy) = self.start_room();
            if !self.in_grid(sx as int, sy as int) {
                self.lemma_cell(to.0 as int, to.1 as int);
                assert(self.depths()[self.cell(to.0 as int, to.1 as int)] == -1);
            }
        }
        while cur.0 != self.start.0 || cur.1 != self.start.1
            invariant
                self.wf(),
                self.bfs_done(),
                self.in_grid(self.start_room().0 as int, self.start_room().1 as int),
                0 <= n,
                n == self.depth_spec(to.0 as int, to.1 as int),
                1 <= back@.len() <= n + 1,
                back@[0] == to,
                cur == back@[back@.len() - 1],
                forall|i: int|
                    0 <= i < back@.len() ==> self.depth_spec((#[trigger] back@[i]).0 as int, back@[i].1 as int)
                        == n - i,
                forall|i: int|
                    0 <= i < back@.len() - 1 ==> steps_back(*self, #[trigger] back@[i], back@[i + 1]),
            ensures
                cur.0 == self.start.0 && cur.1 == self.start.1,
            decreases self.depth_spec(cur.0 as int, cur.1 as int),
        {
            proof {
                reveal(RoomGraph::zero_at_start);
                assert(self.depth_spec(cur.0 as int, cur.1 as int) > 0);
                lemma_parent_has(*self, cur.0 as int, cur.1 as int);
                assert(self.in_grid(cur.0 as int, cur.1 as int));
            }
            let ghost old_back = back@;
            match self.parent_of(cur) {
                Some(p) => {
                    cur = p;
                    back.push(cur);
                    proof {
                        assert forall|i: int| 0 <= i < back@.len() - 1 implies steps_back(*self, #[trigger] back@[i], back@[i + 1]) by {
                            assert(back@[i] == old_back[i]);
                            if i + 1 < old_back.len() {
                                assert(back@[i + 1] == old_back[i + 1]);
                            }
                        }
                        assert forall|i: int| 0 <= i < back@.len() implies self.depth_spec((#[trigger] back@[i]).0 as int, back@[i].1 as int)
                            == n - i by {
                            if i < old_back.len() {
                                assert(back@[i] == old_back[i]);
                            }
                        }
                    }
                },
                None => {
                    proof {
                        assert(false);
                    }
                    break;
                },
            }
        }
        proof {
            reveal(RoomGraph::zero_at_start);
        }
        back
    }

    /// The path from the start room to `to`, following decreasing depth: each
    /// step back from a room goes by its first connected facing, in stored
    /// order, to a room one shallower. Empty when `to` is not reached.
    pub fn path_to(&self, to: (i32, i32)) -> (path: Vec<(i32, i32)>)
        requires
            self.wf(),
            self.bfs_done(),
        ensures
            self.depth_spec(to.0 as int, to.1 as int) < 0 ==> path@.len() == 0,
            self.depth_spec(to.0 as int, to.1 as int) >= 0 ==> {
                let n = self.depth_spec(to.0 as int, to.1 as int);
                &&& path@.len() == n + 1
                &&& path@[0] == self.start_room()
                &&& path@[n] == to
                &&& forall|k: int|
                    0 <= k <= n ==> self.depth_spec((#[trigger] path@[k]).0 as int, path@[k].1 as int) == k
                &&& forall|k: int| 0 <= k < n ==> steps_back(*self, path@[k + 1], #[trigger] path@[k])
            },
    {
        if self.depth_at(to.0, to.1) < 0 {
            return Vec::new();
        }
        let back = self.walk_back(to);
        let path = reversed(&back);
        proof {
            let n = self.depth_spec(to.0 as int, to.1 as int);
            assert forall|k: int| 0 <= k <= n implies self.depth_spec((#[trigger] path@[k]).0 as int, path@[k].1 as int) == k by {
                assert(path@[k] == back@[n - k]);
            }
            assert forall|k: int| 0 <= k < n implies steps_back(*self, path@[k + 1], #[trigger] path@[k]) by {
                let j = n - 1 - k;
                assert(path@[k + 1] == back@[j]);
                assert(path@[k] == back@[j + 1]);
            }
        }
        path
    }
}

/// How many rooms are still unvisited.
pub open spec fn unvisited(s: Seq<bool>) -> nat
    decreases s.len(),
{
    if s.len() == 0 {
        0
    } else {
        unvisited(s.drop_last()) + if s.last() { 0nat } else { 1nat }
    }
}

/// Room `(x, y)` connects to the start room of `g` by at most `n` links.
pub open spec fn reach(g: RoomGraph, x: int, y: int, n: nat) -> bool
    decreases n,
{
    ||| (x == g.start_room().0 && y == g.start_room().1)
    ||| n > 0 && exists|d: Dir| #[trigger] g.linked_spec(x, y, d) && reach(g, nb(x, y, d).0, nb(x, y, d).1, (n - 1) as nat)
}

/// Every link of `g` is one of `h`, and both start in the same room.
pub open spec fn links_within(g: RoomGraph, h: RoomGraph) -> bool {
    &&& g.start_room() == h.start_room()
    &&& forall|x: int, y: int, d: Dir| #[trigger] g.linked_spec(x, y, d) ==> h.linked_spec(x, y, d)
}

/// More links reach at least as much.
proof fn lemma_reach_more(g: RoomGraph, h: RoomGraph, x: int, y: int, n: nat)
    requires
        links_within(g, h),
        reach(g, x, y, n),
    ensures
        reach(h, x, y, n),
    decreases n,
{
    if !(x == g.start_room().0 && y == g.start_room().1) {
        let d = choose|d: Dir| #[trigger] g.linked_spec(x, y, d) && reach(g, nb(x, y, d).0, nb(x, y, d).1, (n - 1) as nat);
        lemma_reach_more(g, h, nb(x, y, d).0, nb(x, y, d).1, (n - 1) as nat);
        assert(h.linked_spec(x, y, d));
    }
}

proof fn lemma_nb_back(x: int, y: int, d: Dir)
    ensures
        nb(nb(x, y, d).0, nb(x, y, d).1, dir_opposite(d)) == (x, y),
{
    match d {
        Dir::Down => {},
        Dir::Up => {},
        Dir::Left => {},
        Dir::Right => {},
    }
}

/// After the breadth-first search, a room that connects to the start has a
/// depth.
proof fn lemma_reach_depth(g: RoomGraph, x: int, y: int, n: nat)
    requires
        g.wf(),
        g.bfs_done(),
        g.in_grid(g.start_room().0 as int, g.start_room().1 as int),
        reach(g, x, y, n),
    ensures
        g.depth_spec(x, y) >= 0,
    decreases n,
{
    reveal(RoomGraph::zero_at_start);
    reveal(RoomGraph::symmetric);
    if !(x == g.start_room().0 && y == g.start_room().1) {
        let d = choose|d: Dir| #[trigger] g.linked_spec(x, y, d) && reach(g, nb(x, y, d).0, nb(x, y, d).1, (n - 1) as nat);
        let (mx, my) = nb(x, y, d);
        lemma_reach_depth(g, mx, my, (n - 1) as nat);
        assert(g.linked_spec(mx, my, dir_opposite(d)));
        lemma_nb_back(x, y, d);
        assert(g.closed_under_links());
        reveal(RoomGraph::closed_under_links);
        assert(0 <= g.depth_spec(nb(mx, my, dir_opposite(d)).0, nb(mx, my, dir_opposite(d)).1));
    }
}

/// Every in-grid neighbour of a visited room is visited.
pub open spec fn visit_closed(g: RoomGraph, v: Seq<bool>) -> bool {
    forall|x: int, y: int, d: Dir|
        g.in_grid(x, y) && v[g.cell(x, y)] && g.in_grid(nb(x, y, d).0, nb(x, y, d).1) ==> #[trigger] v[g.cell(
            nb(x, y, d).0,
            nb(x, y, d).1,
        )]
}

/// A visited set closed under neighbours that holds the start holds every
/// room.
proof fn lemma_closed_all(g: RoomGraph, v: Seq<bool>, x: int, y: int)
    requires
        g.in_grid(x, y),
        g.in_grid(g.start_room().0 as int, g.start_room().1 as int),
        v[g.cell(g.start_room().0 as int, g.start_room().1 as int)],
        visit_closed(g, v),
    ensures
        v[g.cell(x, y)],
    decreases crate::geom::abs(x - g.start_room().0) + crate::geom::abs(y - g.start_room().1),
{
    let sx = g.start_room().0 as int;
    let sy = g.start_room().1 as int;
    if x > sx {
        lemma_closed_all(g, v, x - 1, y);
        assert(nb(x - 1, y, Dir::Right) == (x, y));
        assert(v[g.cell(nb(x - 1, y, Dir::Right).0, nb(x - 1, y, Dir::Right).1)]);
    } else if x < sx {
        lemma_closed_all(g, v, x + 1, y);
        assert(nb(x + 1, y, Dir::Left) == (x, y));
        assert(v[g.cell(nb(x + 1, y, Dir::Left).0, nb(x + 1, y, Dir::Left).1)]);
    } else if y > sy {
        lemma_closed_all(g, v, x, y - 1);
        assert(nb(x, y - 1, Dir::Down) == (x, y));
        assert(v[g.cell(nb(x, y - 1, Dir::Down).0, nb(x, y - 1, Dir::Down).1)]);
    } else if y < sy {
        lemma_closed_all(g, v, x, y + 1);
        assert(nb(x, y + 1, Dir::Up) == (x, y));
        assert(v[g.cell(nb(x, y + 1, Dir::Up).0, nb(x, y + 1, Dir::Up).1)]);
    }
}

/// Visiting an unvisited room leaves one fewer.
proof fn lemma_visit(s: Seq<bool>, i: int)
    requires
        0 <= i < s.len(),
        !s[i],
    ensures
        unvisited(s.update(i, true)) + 1 == unvisited(s),
    decreases s.len(),
{
    let t = s.update(i, true);
    if i == s.len() - 1 {
        assert(t.drop_last() =~= s.drop_last());
    } else {
        assert(t.drop_last() =~= s.drop_last().update(i, true));
        lemma_visit(s.drop_last(), i);
    }
}

/// Grows a spanning tree over the room grid by randomised depth-first search,
/// then adds `extra_links` random links so the map has loops rather than being
/// a pure tree, which makes for better exploration. The start is clamped into
/// the grid, and the depths are filled in from it.
pub fn carve(rng: &mut Rng, w: i32, h: i32, start: (i32, i32), extra_links: u32) -> (g: RoomGraph)
    requires
        1 <= w,
        1 <= h,
        w * h <= 0x100_0000,
    ensures
        g.wf(),
        g.bfs_done(),
        g.gw() == w,
        g.gh() == h,
        g.start_room() == (
            if start.0 < 0 { 0i32 } else if start.0 > w - 1 { (w - 1) as i32 } else { start.0 },
            if start.1 < 0 { 0i32 } else if start.1 > h - 1 { (h - 1) as i32 } else { start.1 },
        ),
        forall|x: int, y: int| g.in_grid(x, y) ==> #[trigger] g.depth_spec(x, y) >= 0,
{
    let mut g = RoomGraph::new(w, h);
    let ghost g0 = g;
    let sx: i32 = if start.0 < 0 { 0 } else if start.0 > w - 1 { w - 1 } else { start.0 };
    let sy: i32 = if start.1 < 0 { 0 } else if start.1 > h - 1 { h - 1 } else { start.1 };
    g.start = (sx, sy);
    proof {
        reveal(RoomGraph::symmetric);
        assert forall|a: int, b: int, d: Dir| #[trigger] g.linked_spec(a, b, d) implies {
            let (mx, my) = (a + dir_step(d).0, b + dir_step(d).1);
            g.in_grid(mx, my) && g.linked_spec(mx, my, dir_opposite(d))
        } by {
            assert(g0.linked_spec(a, b, d));
        }
        assert(g.wf());
        assert(g.in_grid(sx as int, sy as int));
        g.lemma_cell(sx as int, sy as int);
    }
    let n: usize = (w * h) as usize;
    let mut visited: Vec<bool> = Vec::new();
    let mut i: usize = 0;
    while i < n
        invariant
            i <= n,
            visited@.len() == i,
            forall|k: int| 0 <= k < i ==> !#[trigger] visited@[k],
        decreases n - i,
    {
        visited.push(false);
        i = i + 1;
    }
    let mut stack: Vec<(i32, i32)> = Vec::new();
    stack.push(g.start);
    let si = match g.index(sx, sy) {
        Some(si) => si,
        None => 0,
    };
    proof {
        lemma_visit(visited@, si as int);
    }
    visited.set(si, true);
    proof {
        assert(reach(g, sx as int, sy as int, 0));
        assert(stack@[0] == (sx, sy));
        assert(si as int == g.cell(sx as int, sy as int));
        assert forall|x: int, y: int| g.in_grid(x, y) && #[trigger] visited@[g.cell(x, y)] implies x == sx && y == sy by {
            g.lemma_cell(x, y);
            if !(x == sx && y == sy) {
                crate::level::lemma_distinct_index(x, y, sx as int, sy as int, w as int, h as int);
            }
        }
        assert(stack@.contains((sx, sy)));
    }
    while stack.len() > 0
        invariant
            g.wf(),
            g.gw() == w,
            g.gh() == h,
            g.start_room() == (sx, sy),
            g.in_grid(sx as int, sy as int),
            visited@.len() == n,
            n == w * h,
            visited@[g.cell(sx as int, sy as int)],
            forall|k: int| 0 <= k < stack@.len() ==> g.in_grid((#[trigger] stack@[k]).0 as int, stack@[k].1 as int),
            forall|k: int| 0 <= k < stack@.len() ==> visited@[g.cell((#[trigger] stack@[k]).0 as int, stack@[k].1 as int)],
            forall|x: int, y: int|
                g.in_grid(x, y) && #[trigger] visited@[g.cell(x, y)] ==> exists|m: nat| reach(g, x, y, m),
            forall|x: int, y: int|
                g.in_grid(x, y) && #[trigger] visited@[g.cell(x, y)] ==> stack@.contains((x as i32, y as i32))
                    || forall|d: Dir|
                    g.in_grid(nb(x, y, d).0, nb(x, y, d).1) ==> #[trigger] visited@[g.cell(nb(x, y, d).0, nb(x, y, d).1)],
        decreases unvisited(visited@), stack@.len(),
    {
        let (x, y) = stack[stack.len() - 1];
        let all = Dir::all();
        let mut options: Vec<Dir> = Vec::new();
        let mut j: usize = 0;
        while j < 4
            invariant
                g.wf(),
                g.in_grid(x as int, y as int),
                visited@.len() == g.gw() * g.gh(),
                all@ == seq![Dir::Down, Dir::Up, Dir::Left, Dir::Right],
                j <= 4,
                forall|k: int|
                    0 <= k < options@.len() ==> {
                        let (nx, ny) = nb(x as int, y as int, #[trigger] options@[k]);
                        &&& g.in_grid(nx, ny)
                        &&& 0 <= g.cell(nx, ny) < visited@.len()
                        &&& !visited@[g.cell(nx, ny)]
                    },
                options@.len() <= j,
                forall|k: int|
                    0 <= k < j && g.in_grid(nb(x as int, y as int, all@[k]).0, nb(x as int, y as int, all@[k]).1)
                        && !visited@[g.cell(nb(x as int, y as int, all@[k]).0, nb(x as int, y as int, all@[k]).1)]
                        ==> options@.contains(#[trigger] all@[k]),
            decreases 4 - j,
        {
            let d = all[j];
            let (dx, dy) = d.step();
            proof {
                g.lemma_cell(x as int, y as int);
            }
            let ghost ob = options@;
            match g.index(x + dx, y + dy) {
                Some(k) => {
                    if !visited[k] {
                        options.push(d);
                    }
                },
                None => {},
            }
            proof {
                assert forall|k: int|
                    0 <= k < j + 1 && g.in_grid(nb(x as int, y as int, all@[k]).0, nb(x as int, y as int, all@[k]).1)
                        && !visited@[g.cell(nb(x as int, y as int, all@[k]).0, nb(x as int, y as int, all@[k]).1)]
                        implies options@.contains(#[trigger] all@[k]) by {
                    if k < j {
                        assert(ob.contains(all@[k]));
                        let kk = choose|kk: int| 0 <= kk < ob.len() && ob[kk] == all@[k];
                        assert(options@[kk] == ob[kk]);
                    } else {
                        assert(options@[options@.len() - 1] == d);
                    }
                }
            }
            j = j + 1;
        }
        if options.len() == 0 {
            let ghost before = stack@;
            stack.pop();
            proof {
                assert forall|x2: int, y2: int|
                    g.in_grid(x2, y2) && #[trigger] visited@[g.cell(x2, y2)] implies stack@.contains((x2 as i32, y2 as i32))
                        || forall|d: Dir|
                        g.in_grid(nb(x2, y2, d).0, nb(x2, y2, d).1) ==> #[trigger] visited@[g.cell(nb(x2, y2, d).0, nb(x2, y2, d).1)] by {
                    if before.contains((x2 as i32, y2 as i32)) {
                        let k = choose|k: int| 0 <= k < before.len() && before[k] == (x2 as i32, y2 as i32);
                        if k < before.len() - 1 {
                            assert(stack@[k] == before[k]);
                        } else {
                            assert(x2 == x && y2 == y);
                            assert forall|d: Dir| g.in_grid(nb(x2, y2, d).0, nb(x2, y2, d).1) implies #[trigger] visited@[g.cell(
                                nb(x2, y2, d).0,
                                nb(x2, y2, d).1,
                            )] by {
                                match d {
                                    Dir::Down => { assert(all@[0] == d); },
                                    Dir::Up => { assert(all@[1] == d); },
                                    Dir::Left => { assert(all@[2] == d); },
                                    Dir::Right => { assert(all@[3] == d); },
                                }
                            }
                        }
                    }
                }
            }
            continue;
        }
        let ghost before = options@;
        rng.shuffle(options.as_mut_slice());
        let dir = options[0];
        proof {
            options@.to_multiset_ensures();
            before.to_multiset_ensures();
            assert(options@[0] == dir);
            assert(options@.contains(dir));
            assert(options@.to_multiset().count(dir) > 0);
            assert(before.to_multiset().count(dir) > 0);
            assert(before.contains(dir));
            let k = choose|k: int| 0 <= k < before.len() && before[k] == dir;
            g.lemma_cell(x as int, y as int);
        }
        let (dx, dy) = dir.step();
        let ghost g1 = g;
        let ghost v1 = visited@;
        let ghost s1 = stack@;
        proof {
            assert(stack@[stack@.len() - 1] == (x, y));
            assert(g.in_grid(x as int, y as int));
            assert(visited@[g.cell(x as int, y as int)]);
        }
        g.link(x, y, dir);
        let nx = x + dx;
        let ny = y + dy;
        let ni = match g.index(nx, ny) {
            Some(ni) => ni,
            None => 0,
        };
        proof {
            lemma_visit(visited@, ni as int);
        }
        visited.set(ni, true);
        stack.push((nx, ny));
        proof {
            let xi = x as int;
            let yi = y as int;
            let nxi = nx as int;
            let nyi = ny as int;
            assert(g.in_grid(nxi, nyi));
            assert(ni as int == g.cell(nxi, nyi));
            assert(visited@ == v1.update(ni as int, true));
            assert(links_within(g1, g));
            assert(g.linked_spec(nxi, nyi, dir_opposite(dir)));
            lemma_nb_back(xi, yi, dir);
            let m = choose|m: nat| reach(g1, xi, yi, m);
            lemma_reach_more(g1, g, xi, yi, m);
            assert(nb(nxi, nyi, dir_opposite(dir)) == (xi, yi));
            assert(reach(g, nxi, nyi, m + 1));
            assert forall|x2: int, y2: int| g.in_grid(x2, y2) && #[trigger] visited@[g.cell(x2, y2)] implies exists|mm: nat|
                reach(g, x2, y2, mm) by {
                if x2 == nxi && y2 == nyi {
                    assert(reach(g, x2, y2, m + 1));
                } else {
                    crate::level::lemma_distinct_index(x2, y2, nxi, nyi, w as int, h as int);
                    assert(g.cell(x2, y2) != g.cell(nxi, nyi));
                    g.lemma_cell(x2, y2);
                    assert(v1[g1.cell(x2, y2)]);
                    let m2 = choose|m2: nat| reach(g1, x2, y2, m2);
                    lemma_reach_more(g1, g, x2, y2, m2);
                }
            }
            assert forall|x2: int, y2: int|
                g.in_grid(x2, y2) && #[trigger] visited@[g.cell(x2, y2)] implies stack@.contains((x2 as i32, y2 as i32))
                    || forall|d: Dir|
                    g.in_grid(nb(x2, y2, d).0, nb(x2, y2, d).1) ==> #[trigger] visited@[g.cell(nb(x2, y2, d).0, nb(x2, y2, d).1)] by {
                if x2 == nxi && y2 == nyi {
                    assert(stack@[stack@.len() - 1] == (x2 as i32, y2 as i32));
                } else {
                    crate::level::lemma_distinct_index(x2, y2, nxi, nyi, w as int, h as int);
                    assert(g.cell(x2, y2) != g.cell(nxi, nyi));
                    g.lemma_cell(x2, y2);
                    assert(v1[g1.cell(x2, y2)]);
                    if s1.contains((x2 as i32, y2 as i32)) {
                        let k = choose|k: int| 0 <= k < s1.len() && s1[k] == (x2 as i32, y2 as i32);
                        assert(stack@[k] == s1[k]);
                    } else {
                        assert forall|d: Dir| g.in_grid(nb(x2, y2, d).0, nb(x2, y2, d).1) implies #[trigger] visited@[g.cell(
                            nb(x2, y2, d).0,
                            nb(x2, y2, d).1,
                        )] by {
                            assert(g1.in_grid(nb(x2, y2, d).0, nb(x2, y2, d).1));
                            assert(v1[g1.cell(nb(x2, y2, d).0, nb(x2, y2, d).1)]);
                            g.lemma_cell(nb(x2, y2, d).0, nb(x2, y2, d).1);
                        }
                    }
                }
            }
            assert forall|k: int| 0 <= k < stack@.len() implies visited@[g.cell((#[trigger] stack@[k]).0 as int, stack@[k].1 as int)] by {
                if k < s1.len() {
                    assert(stack@[k] == s1[k]);
                    let (a0, a1) = (s1[k].0 as int, s1[k].1 as int);
                    assert(g1.in_grid(a0, a1));
                    assert(v1[g1.cell(a0, a1)]);
                    g.lemma_cell(a0, a1);
                    if !(a0 == nxi && a1 == nyi) {
                        crate::level::lemma_distinct_index(a0, a1, nxi, nyi, w as int, h as int);
                    }
                }
            }
            assert(visited@[g.cell(sx as int, sy as int)]) by {
                assert(v1[g1.cell(sx as int, sy as int)]);
                g.lemma_cell(sx as int, sy as int);
                if !(sx as int == nxi && sy as int == nyi) {
                    crate::level::lemma_distinct_index(sx as int, sy as int, nxi, nyi, w as int, h as int);
                }
            }
        }
    }
    proof {
        assert(visit_closed(g, visited@)) by {
            assert forall|x2: int, y2: int, d: Dir|
                g.in_grid(x2, y2) && visited@[g.cell(x2, y2)] && g.in_grid(nb(x2, y2, d).0, nb(x2, y2, d).1) implies #[trigger] visited@[g.cell(
                nb(x2, y2, d).0,
                nb(x2, y2, d).1,
            )] by {
                assert(!stack@.contains((x2 as i32, y2 as i32)));
            }
        }
        assert forall|x2: int, y2: int| g.in_grid(x2, y2) implies exists|mm: nat| #[trigger] reach(g, x2, y2, mm) by {
            lemma_closed_all(g, visited@, x2, y2);
        }
    }
    let mut e: u32 = 0;
    while e < extra_links
        invariant
            g.wf(),
            g.gw() == w,
            g.gh() == h,
            g.start_room() == (sx, sy),
            g.in_grid(sx as int, sy as int),
            forall|x2: int, y2: int| g.in_grid(x2, y2) ==> exists|mm: nat| #[trigger] reach(g, x2, y2, mm),
        decreases extra_links - e,
    {
        let ghost g2 = g;
        let x = rng.below(g.w as u32) as i32;
        let y = rng.below(g.h as u32) as i32;
        let dir = Dir::from_u8(rng.below(4) as u8);
        let (dx, dy) = dir.step();
        if g.index(x + dx, y + dy).is_some() {
            g.link(x, y, dir);
        }
        proof {
            assert(links_within(g2, g));
            assert forall|x2: int, y2: int| g.in_grid(x2, y2) implies exists|mm: nat| #[trigger] reach(g, x2, y2, mm) by {
                assert(g2.in_grid(x2, y2));
                let m2 = choose|m2: nat| reach(g2, x2, y2, m2);
                lemma_reach_more(g2, g, x2, y2, m2);
            }
        }
        e = e + 1;
    }
    let ghost g3 = g;
    g.recompute_depth();
    proof {
        assert(links_within(g3, g));
        assert forall|x2: int, y2: int| g.in_grid(x2, y2) implies #[trigger] g.depth_spec(x2, y2) >= 0 by {
            assert(g3.in_grid(x2, y2));
            let m2 = choose|m2: nat| reach(g3, x2, y2, m2);
            lemma_reach_more(g3, g, x2, y2, m2);
            lemma_reach_depth(g, x2, y2, m2);
        }
    }
    g
}

/// `v` back to front.
fn reversed(v: &Vec<(i32, i32)>) -> (r: Vec<(i32, i32)>)
    ensures
        r@.len() == v@.len(),
        forall|k: int| 0 <= k < v@.len() ==> #[trigger] r@[k] == v@[v@.len() - 1 - k],
{
    let mut out: Vec<(i32, i32)> = Vec::new();
    let m = v.len();
    let mut i: usize = m;
    while i > 0
        invariant
            0 <= i <= m,
            m == v@.len(),
            out@.len() == m - i,
            forall|k: int| 0 <= k < m - i ==> #[trigger] out@[k] == v@[m - 1 - k],
        decreases i,
    {
        i = i - 1;
        out.push(v[i]);
    }
    out
}

/// True when `b` is where the parent facing of room `a` leads.
pub open spec fn steps_back(g: RoomGraph, a: (i32, i32), b: (i32, i32)) -> bool {
    let (cx, cy) = (a.0 as int, a.1 as int);
    &&& parent_pred(g, cx, cy, parent_dir(g, cx, cy))
    &&& nb(cx, cy, parent_dir(g, cx, cy)) == (b.0 as int, b.1 as int)
}

/// True when facing `d` leads from `(x, y)` to a connected room one
/// shallower.
pub open spec fn parent_pred(g: RoomGraph, x: int, y: int, d: Dir) -> bool {
    g.linked_spec(x, y, d) && g.depth_spec(nb(x, y, d).0, nb(x, y, d).1) == g.depth_spec(x, y) - 1
}

/// When some facing leads one shallower, the parent facing does.
proof fn lemma_parent_dir_ok(g: RoomGraph, x: int, y: int)
    requires
        exists|d: Dir| parent_pred(g, x, y, d),
    ensures
        parent_pred(g, x, y, parent_dir(g, x, y)),
{
    let d = choose|d: Dir| parent_pred(g, x, y, d);
    match d {
        Dir::Down => {},
        Dir::Up => {},
        Dir::Left => {},
        Dir::Right => {},
    }
}

/// A room at a positive depth has a parent facing.
proof fn lemma_parent_has(g: RoomGraph, x: int, y: int)
    requires
        g.wf(),
        g.bfs_done(),
        g.in_grid(g.start_room().0 as int, g.start_room().1 as int),
    ensures
        g.depth_spec(x, y) > 0 ==> exists|d: Dir| parent_pred(g, x, y, d),
{
    reveal(RoomGraph::has_parents);
    if g.depth_spec(x, y) > 0 {
        let d = choose|d: Dir|
            g.linked_spec(x, y, d) && g.depth_spec(nb(x, y, d).0, nb(x, y, d).1) == g.depth_spec(x, y) - 1;
        assert(parent_pred(g, x, y, d));
    }
}

impl RoomGraph {
    /// Recomputes the depths by breadth-first search from the start.
    pub fn recompute_depth(&mut self)
        requires
            old(self).wf(),
        ensures
            final(self).wf(),
            final(self).bfs_done(),
            final(self).gw() == old(self).gw(),
            final(self).gh() == old(self).gh(),
            final(self).link_bits() == old(self).link_bits(),
            final(self).start_room() == old(self).start_room(),
    {
        let n = self.depth.len();
        let ghost g0 = *self;
        let mut i: usize = 0;
        while i < n
            invariant
                n == g0.gw() * g0.gh(),
                self.depth@.len() == n,
                self.gw() == g0.gw(),
                self.gh() == g0.gh(),
                self.link_bits() == g0.link_bits(),
                self.start_room() == g0.start_room(),
                g0.wf(),
                i <= n,
                forall|k: int| 0 <= k < i ==> #[trigger] self.depth@[k] == -1,
            decreases n - i,
        {
            self.depth.set(i, -1);
            i = i + 1;
        }
        proof {
            reveal(RoomGraph::symmetric);
            assert forall|a: int, b: int, d: Dir| #[trigger] self.linked_spec(a, b, d) implies {
                let (mx, my) = (a + dir_step(d).0, b + dir_step(d).1);
                self.in_grid(mx, my) && self.linked_spec(mx, my, dir_opposite(d))
            } by {
                assert(g0.linked_spec(a, b, d));
            }
        }
        let s = match self.index(self.start.0, self.start.1) {
            Some(s) => s,
            None => {
                return;
            },
        };
        self.depth.set(s, 0);
        let mut q: Vec<(i32, i32)> = Vec::new();
        q.push(self.start);
        proof {
            let (sx, sy) = self.start_room();
            reveal(RoomGraph::symmetric);
            reveal(RoomGraph::zero_at_start);
            reveal(RoomGraph::has_parents);
            reveal(q_rooms);
            reveal(q_covers);
            reveal(q_sorted);
            reveal(q_span);
            reveal(q_processed);
            reveal(q_distinct);
            assert forall|a: int, b: int| #[trigger] self.depth_spec(a, b) == if a == sx && b == sy {
                0
            } else {
                -1
            } by {
                if self.in_grid(a, b) {
                    g0.lemma_cell(a, b);
                    if self.cell(a, b) == s as int {
                        lemma_cell_unique(a, b, sx as int, sy as int, self.gw(), self.gh());
                    }
                }
            }
            assert(q@[0] == (sx, sy));
            assert forall|a: int, b: int| #[trigger] self.depth_spec(a, b) >= 0 implies exists|k: int|
                0 <= k < q@.len() && q@[k].0 == a && q@[k].1 == b by {
                assert(q@[0].0 == a && q@[0].1 == b);
            }
            assert forall|i2: int| 0 <= i2 < self.depths().len() implies #[trigger] self.depths()[i2] >= -1 by {
                if i2 != s {
                    assert(self.depths()[i2] == -1);
                }
            }
            assert forall|a: int, b: int, d: Dir| #[trigger] self.linked_spec(a, b, d) implies {
                let (mx, my) = (a + dir_step(d).0, b + dir_step(d).1);
                self.in_grid(mx, my) && self.linked_spec(mx, my, dir_opposite(d))
            } by {
                assert(g0.linked_spec(a, b, d));
            }
            assert(self.wf());
            assert(self.zero_at_start());
            assert(self.has_parents());
            assert(q_rooms(*self, q@));
            assert(q_covers(*self, q@));
            assert(q_sorted(*self, q@));
            assert(q_span(*self, q@, 0));
            assert(q_processed(*self, q@, 0));
            assert(q_distinct(q@));
        }
        let mut head: usize = 0;
        while head < q.len()
            invariant
                bfs_inv(*self, q@, head as int),
                n == self.gw() * self.gh(),
                self.gw() == g0.gw(),
                self.gh() == g0.gh(),
                self.link_bits() == g0.link_bits(),
                self.start_room() == g0.start_room(),
            decreases n - head,
        {
            proof {
                lemma_queue_fits(*self, q@, head as int);
            }
            let (x, y) = q[head];
            proof {
                reveal(q_rooms);
            }
            let dirs = self.exits(x, y);
            let ghost gh = *self;
            let mut j: usize = 0;
            while j < dirs.len()
                invariant
                    bfs_inv(*self, q@, head as int),
                    head < q@.len(),
                    q@[head as int] == (x, y),
                    n == self.gw() * self.gh(),
                    self.gw() == g0.gw(),
                    self.gh() == g0.gh(),
                    self.link_bits() == g0.link_bits(),
                    self.start_room() == g0.start_room(),
                    gh.link_bits() == g0.link_bits(),
                    gh.gw() == g0.gw(),
                    gh.gh() == g0.gh(),
                    dirs@ == seq![Dir::Down, Dir::Up, Dir::Left, Dir::Right].filter(
                        |d: Dir| gh.linked_spec(x as int, y as int, d),
                    ),
                    self.depth_spec(x as int, y as int) == gh.depth_spec(x as int, y as int),
                    gh.depth_spec(x as int, y as int) >= 0,
                    forall|jj: int|
                        0 <= jj < j && self.linked_spec(x as int, y as int, #[trigger] dirs@[jj]) ==> 0
                            <= self.depth_spec(nb(x as int, y as int, dirs@[jj]).0, nb(x as int, y as int, dirs@[jj]).1)
                            <= self.depth_spec(x as int, y as int) + 1,
                decreases dirs@.len() - j,
            {
                let ghost before = *self;
                self.bfs_step(&mut q, head, dirs[j]);
                proof {
                    assert forall|jj: int|
                        0 <= jj < j + 1 && self.linked_spec(x as int, y as int, #[trigger] dirs@[jj]) implies 0
                        <= self.depth_spec(nb(x as int, y as int, dirs@[jj]).0, nb(x as int, y as int, dirs@[jj]).1)
                        <= self.depth_spec(x as int, y as int) + 1 by {
                        if jj < j {
                            let (px, py) = nb(x as int, y as int, dirs@[jj]);
                            assert(before.linked_spec(x as int, y as int, dirs@[jj]));
                            assert(before.depth_spec(px, py) >= 0);
                        }
                    }
                }
                j = j + 1;
            }
            proof {
                reveal(q_processed);
                reveal(q_span);
                reveal(q_sorted);
                let all4 = seq![Dir::Down, Dir::Up, Dir::Left, Dir::Right];
                let pred = |d: Dir| gh.linked_spec(x as int, y as int, d);
                assert forall|k: int, d: Dir|
                    0 <= k < head + 1 && #[trigger] self.linked_spec(q@[k].0 as int, q@[k].1 as int, d) implies 0
                    <= self.depth_spec(nb(q@[k].0 as int, q@[k].1 as int, d).0, nb(q@[k].0 as int, q@[k].1 as int, d).1)
                    <= self.depth_spec(q@[k].0 as int, q@[k].1 as int) + 1 by {
                    if k == head {
                        let c = dir_code(d) as int;
                        assert(all4[c] == d);
                        assert(pred(all4[c]));
                        all4.lemma_filter_contains(pred, c);
                        let jj = choose|jj: int| 0 <= jj < dirs@.len() && dirs@[jj] == d;
                        assert(self.linked_spec(x as int, y as int, dirs@[jj]));
                    }
                }
                if head + 1 < q@.len() {
                    assert forall|k: int|
                        0 <= k < q@.len() implies self.depth_spec((#[trigger] q@[k]).0 as int, q@[k].1 as int)
                        <= self.depth_spec(q@[head + 1].0 as int, q@[head + 1].1 as int) + 1 by {
                        assert(self.depth_spec(q@[head as int].0 as int, q@[head as int].1 as int)
                            <= self.depth_spec(q@[head + 1].0 as int, q@[head + 1].1 as int));
                    }
                }
            }
            head = head + 1;
        }
        proof {
            reveal(RoomGraph::closed_under_links);
            reveal(q_processed);
            reveal(q_covers);
            assert forall|x: int, y: int, d: Dir|
                self.depth_spec(x, y) >= 0 && #[trigger] self.linked_spec(x, y, d) implies 0
                <= self.depth_spec(nb(x, y, d).0, nb(x, y, d).1) <= self.depth_spec(x, y) + 1 by {
                let k = choose|k: int| 0 <= k < q@.len() && q@[k].0 == x && q@[k].1 == y;
                assert(self.linked_spec(q@[k].0 as int, q@[k].1 as int, d));
            }
        }
    }
}

/// `deepest_upto` keeps the greatest depth seen so far, and the room it
/// names has that depth unless nothing beat -1.
proof fn lemma_deepest_upto(g: RoomGraph, k: int)
    requires
        g.wf(),
        0 <= k <= g.gw() * g.gh(),
    ensures
        forall|i: int| 0 <= i < k ==> g.depth_spec(#[trigger] (i % g.gw()), i / g.gw()) <= deepest_upto(g, k).1,
        deepest_upto(g, k).1 == -1 && deepest_upto(g, k).0 == g.start_room() || g.depth_spec(
            deepest_upto(g, k).0.0 as int,
            deepest_upto(g, k).0.1 as int,
        ) == deepest_upto(g, k).1,
        deepest_upto(g, k).1 >= -1,
    decreases k,
{
    if k > 0 {
        lemma_deepest_upto(g, k - 1);
        let x = (k - 1) % g.gw();
        let y = (k - 1) / g.gw();
        assert(0 <= x < g.gw());
        assert(0 <= y < g.gh()) by (nonlinear_arith)
            requires
                y == (k - 1) / g.gw(),
                0 <= k - 1 < g.gw() * g.gh(),
                g.gw() >= 1,
        ;
        assert(g.gw() <= 0x100_0000 && g.gh() <= 0x100_0000) by (nonlinear_arith)
            requires
                g.gw() >= 1,
                g.gh() >= 1,
                g.gw() * g.gh() <= 0x100_0000,
        ;
    }
}

/// Distinct rooms of a `w` by `h` grid number at most `w * h`.
pub proof fn lemma_rooms_fit(w: int, h: int, q: Seq<(i32, i32)>)
    requires
        1 <= w,
        1 <= h,
        forall|k: int| 0 <= k < q.len() ==> 0 <= (#[trigger] q[k]).0 < w && 0 <= q[k].1 < h,
        forall|j: int, k: int| 0 <= j < k < q.len() ==> #[trigger] q[j] != #[trigger] q[k],
    ensures
        q.len() <= w * h,
{
    let idx = q.map_values(|c: (i32, i32)| c.1 as int * w + c.0 as int);
    assert forall|j: int, k: int| 0 <= j < idx.len() && 0 <= k < idx.len() && j != k implies idx[j]
        != idx[k] by {
        if j < k {
            assert(q[j] != q[k]);
        } else {
            assert(q[k] != q[j]);
        }
        if idx[j] == idx[k] {
            lemma_cell_unique(q[j].0 as int, q[j].1 as int, q[k].0 as int, q[k].1 as int, w, h);
        }
    }
    assert(idx.no_duplicates());
    idx.unique_seq_to_set();
    let full = vstd::set_lib::set_int_range(0, w * h);
    vstd::set_lib::lemma_int_range(0, w * h);
    assert forall|v: int| idx.to_set().contains(v) implies full.contains(v) by {
        let k = choose|k: int| 0 <= k < idx.len() && idx[k] == v;
        lemma_cell_bound(q[k].0 as int, q[k].1 as int, w, h);
    }
    vstd::set_lib::lemma_len_subset(idx.to_set(), full);
}

/// Distinct rooms of a `w` by `h` grid number fewer than `w * h` when some
/// room is not among them.
pub proof fn lemma_distinct_rooms(w: int, h: int, q: Seq<(i32, i32)>, ex: int, ey: int)
    requires
        1 <= w <= 0x100_0000,
        1 <= h <= 0x100_0000,
        forall|k: int| 0 <= k < q.len() ==> 0 <= (#[trigger] q[k]).0 < w && 0 <= q[k].1 < h,
        forall|j: int, k: int| 0 <= j < k < q.len() ==> #[trigger] q[j] != #[trigger] q[k],
        0 <= ex < w,
        0 <= ey < h,
        forall|k: int| 0 <= k < q.len() ==> !((#[trigger] q[k]).0 == ex && q[k].1 == ey),
    ensures
        q.len() < w * h,
{
    let all = q.push((ex as i32, ey as i32));
    assert forall|k: int| 0 <= k < all.len() implies 0 <= (#[trigger] all[k]).0 < w && 0 <= all[k].1 < h by {
        if k < q.len() {
            assert(all[k] == q[k]);
        }
    }
    assert forall|j: int, k: int| 0 <= j < k < all.len() implies #[trigger] all[j] != #[trigger] all[k] by {
        assert(all[j] == q[j]);
        if k < q.len() {
            assert(all[k] == q[k]);
        }
    }
    lemma_rooms_fit(w, h, all);
}

/// A row-major index of a room in a `w` by `h` grid is below `w * h`.
pub proof fn lemma_cell_bound(x: int, y: int, w: int, h: int)
    requires
        0 <= x < w,
        0 <= y < h,
    ensures
        0 <= y * w + x < w * h,
{
    assert(0 <= y * w + x < w * h) by (nonlinear_arith)
        requires
            0 <= x < w,
            0 <= y < h,
    ;
}

/// Two in-grid rooms with the same row-major index are the same room.
pub proof fn lemma_cell_unique(x: int, y: int, x2: int, y2: int, w: int, h: int)
    requires
        0 <= x < w,
        0 <= x2 < w,
        0 <= y < h,
        0 <= y2 < h,
        y * w + x == y2 * w + x2,
    ensures
        x == x2,
        y == y2,
{
    if !(x == x2 && y == y2) {
        crate::level::lemma_distinct_index(x, y, x2, y2, w, h);
    }
}

} // verus!
