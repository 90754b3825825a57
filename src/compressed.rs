use vstd::prelude::*;
use crate::direct::SearchResult;
use crate::garden::has_bit;
use crate::graph::WaypointGraph;

verus! {

/// The mask after moving to node `v` with `m` left, where the move is allowed: the entry
/// only with nothing left, a herb only of a letter still wanted.
pub open spec fn gmove(gr: WaypointGraph, m: u64, v: int) -> Option<u64> {
    match gr.kinds@[v] {
        None => if m == 0 {
            Some(0u64)
        } else {
            None
        },
        Some(h) => if has_bit(m, h as u64) {
            Some(m & !(1u64 << (h as u64)))
        } else {
            None
        },
    }
}

/// Edge `i` of node `p.1` leads from state `p` to state `s`.
pub open spec fn gstep(gr: WaypointGraph, p: (u64, usize), i: int, s: (u64, usize)) -> bool {
    &&& p.1 < gr.edges@.len()
    &&& 0 <= i < gr.edges@[p.1 as int]@.len()
    &&& gr.edges@[p.1 as int]@[i].1 == s.1
    &&& gmove(gr, p.0, s.1 as int) == Some(s.0)
}

/// `s` is reached from (`m0`, entry) by `n` allowed moves whose weights add up to `c`.
pub open spec fn greach(gr: WaypointGraph, m0: u64, s: (u64, usize), c: int, n: nat) -> bool
    decreases n,
{
    if n == 0 {
        s == (m0, gr.entry) && c == 0
    } else {
        exists|p: (u64, usize), i: int|
            #[trigger] gstep(gr, p, i, s) && greach(gr, m0, p, c - gr.edges@[p.1 as int]@[i].0, (n - 1) as nat)
    }
}

/// Each queued state is a node of `gr`, costs at least `floor`, and is reached at its cost.
pub open spec fn queued_ok(gr: WaypointGraph, m0: u64, floor: int, q: Seq<(usize, (u64, usize))>) -> bool {
    forall|j: int| 0 <= j < q.len() ==> {
        let e = #[trigger] q[j];
        &&& e.1.1 < gr.nodes@.len()
        &&& floor <= e.0
        &&& exists|n: nat| greach(gr, m0, e.1, e.0 as int, n)
    }
}

proof fn lemma_queue_push(
    gr: WaypointGraph,
    m0: u64,
    floor: int,
    q: Seq<(usize, (u64, usize))>,
    e: (usize, (u64, usize)),
    n: nat,
)
    requires
        queued_ok(gr, m0, floor, q),
        e.1.1 < gr.nodes@.len(),
        floor <= e.0,
        greach(gr, m0, e.1, e.0 as int, n),
    ensures
        queued_ok(gr, m0, floor, q.push(e)),
{
    assert forall|j: int| 0 <= j < q.push(e).len() implies {
        let x = #[trigger] q.push(e)[j];
        &&& x.1.1 < gr.nodes@.len()
        &&& floor <= x.0
        &&& exists|k: nat| greach(gr, m0, x.1, x.0 as int, k)
    } by {
        if j < q.len() {
            assert(q.push(e)[j] == q[j]);
        } else {
            assert(q.push(e)[j] == e);
        }
    }
}

/// The index of the cheapest entry of `q`, the first among equals.
pub open spec fn cheapest(q: Seq<(usize, (u64, usize))>) -> int
    decreases q.len(),
{
    if q.len() <= 1 {
        0
    } else {
        let m = cheapest(q.drop_last());
        if q.last().0 < q[m].0 {
            q.len() - 1
        } else {
            m
        }
    }
}

/// The entries that following `edges` from `s` at cost `c` queues: each allowed move
/// whose total cost fits in a `usize`, in the order of the edges.
pub open spec fn moves(gr: WaypointGraph, s: (u64, usize), c: usize, edges: Seq<(usize, usize)>) -> Seq<
    (usize, (u64, usize)),
>
    decreases edges.len(),
{
    if edges.len() == 0 {
        seq![]
    } else {
        let prev = moves(gr, s, c, edges.drop_last());
        let e = edges.last();
        match gmove(gr, s.0, e.1 as int) {
            Some(m2) => if c + e.0 <= usize::MAX {
                prev.push(((c + e.0) as usize, (m2, e.1)))
            } else {
                prev
            },
            None => prev,
        }
    }
}

proof fn lemma_cheapest(q: Seq<(usize, (u64, usize))>)
    requires
        q.len() > 0,
    ensures
        0 <= cheapest(q) < q.len(),
        forall|j: int| 0 <= j < q.len() ==> q[cheapest(q)].0 <= (#[trigger] q[j]).0,
    decreases q.len(),
{
    if q.len() > 1 {
        lemma_cheapest(q.drop_last());
        assert forall|j: int| 0 <= j < q.len() implies q[cheapest(q)].0 <= (#[trigger] q[j]).0 by {
            if j < q.len() - 1 {
                assert(q.drop_last()[j] == q[j]);
            }
        }
    }
}

/// A uniform-cost search over (herbs left, node) of a waypoint graph, run one pop at a time.
pub struct CompressedSearch {
    pub graph: WaypointGraph,
    /// The herbs to collect, as a mask.
    pub start_mask: u64,
    /// Queued states with their accumulated cost, in the order they were queued.
    pub frontier: Vec<(usize, (u64, usize))>,
    /// The states already expanded.
    pub done: Vec<(u64, usize)>,
    /// The cost of the last state popped.
    pub last_cost: usize,
    /// The cost at which each expanded state was expanded.
    pub dist: Ghost<Map<(u64, usize), nat>>,
    /// A goal has been taken off the queue.
    pub found: Ghost<bool>,
}

impl CompressedSearch {
    pub open spec fn wf(self) -> bool {
        &&& self.graph.wf()
        &&& queued_ok(self.graph, self.start_mask, self.last_cost as int, self.frontier@)
        &&& !self.found@ ==> self.ucs_ok()
    }

    /// The initial state is expanded or queued at cost zero; each expanded state is no
    /// goal and was expanded at its least cost; and each allowed move from an expanded
    /// state leads to a state expanded or queued at no more than the move's total cost.
    pub open spec fn ucs_ok(self) -> bool {
        let gr = self.graph;
        let m0 = self.start_mask;
        let q = self.frontier@;
        let dn = self.done@;
        let d = self.dist@;
        &&& dn.contains((m0, gr.entry)) || exists|j: int| 0 <= j < q.len() && #[trigger] q[j] == (0usize, (m0, gr.entry))
        &&& forall|s: (u64, usize)|
            #[trigger] dn.contains(s) ==> d.contains_key(s) && s != (0u64, gr.entry) && forall|c: int, n: nat|
                #[trigger] greach(gr, m0, s, c, n) ==> d[s] <= c
        &&& forall|s: (u64, usize), i: int, t: (u64, usize)|
            dn.contains(s) && #[trigger] gstep(gr, s, i, t) && d[s] + gr.edges@[s.1 as int]@[i].0 <= usize::MAX ==> dn.contains(t)
                || exists|j: int| 0 <= j < q.len() && (#[trigger] q[j]).1 == t && q[j].0 <= d[s] + gr.edges@[s.1 as int]@[i].0
    }

    /// A search over `graph` from the entry with the herbs of `start_mask` to collect.
    pub fn new(graph: WaypointGraph, start_mask: u64) -> (r: Self)
        requires
            graph.wf(),
        ensures
            r.wf(),
            r.graph == graph,
            r.start_mask == start_mask,
            r.frontier@ == seq![(0usize, (start_mask, graph.entry))],
            r.last_cost == 0,
            r.done@.len() == 0,
            !r.found@,
    {
        let entry = graph.entry;
        let mut frontier: Vec<(usize, (u64, usize))> = Vec::new();
        frontier.push((0, (start_mask, entry)));
        let r = CompressedSearch { graph, start_mask, frontier, done: Vec::new(), last_cost: 0, dist: Ghost(Map::empty()), found: Ghost(false) };
        assert(greach(r.graph, start_mask, (start_mask, entry), 0, 0));
        assert(r.frontier@[0] == (0usize, (start_mask, entry)));
        assert(greach(r.graph, r.start_mask, r.frontier@[0].1, r.frontier@[0].0 as int, 0));
        r
    }

    fn follow(&self, m: u64, v: usize) -> (r: Option<u64>)
        requires
            self.graph.wf(),
            v < self.graph.nodes@.len(),
        ensures
            r == gmove(self.graph, m, v as int),
    {
        match self.graph.kinds[v] {
            None => if m == 0 {
                Some(0)
            } else {
                None
            },
            Some(h) => {
                let bit = 1u64 << h as u64;
                if m & bit != 0 {
                    Some(m & !bit)
                } else {
                    None
                }
            },
        }
    }

    fn expanded(&self, s: (u64, usize)) -> (r: bool)
        ensures
            r == self.done@.contains(s),
    {
        let mut i: usize = 0;
        while i < self.done.len()
            invariant
                i <= self.done@.len(),
                forall|k: int| 0 <= k < i ==> self.done@[k] != s,
            decreases self.done.len() - i,
        {
            if self.done[i].0 == s.0 && self.done[i].1 == s.1 {
                assert(self.done@[i as int] == s);
                return true;
            }
            i = i + 1;
        }
        false
    }

    /// Takes the cheapest queued state off the queue (the first queued among equals). A
    /// goal ends the search with its cost, which on the first goal taken off is the least
    /// at which it can be reached. Otherwise, if not expanded before, each allowed move
    /// from it is queued at its cost plus the edge's weight. An empty queue before any
    /// goal means the goal cannot be reached.
    pub fn step(&mut self) -> (res: SearchResult)
        requires
            old(self).wf(),
        ensures
            final(self).wf(),
            final(self).graph == old(self).graph,
            final(self).start_mask == old(self).start_mask,
            final(self).last_cost >= old(self).last_cost,
            final(self).found@ == (old(self).found@ || res is Found),
            ({
                let q = old(self).frontier@;
                let i = cheapest(q);
                let e = q[i];
                let goal = (0u64, old(self).graph.entry);
                if q.len() == 0 {
                    &&& res == SearchResult::Finished
                    &&& !old(self).found@ ==> forall|c: int, n: nat|
                        c <= usize::MAX ==> !#[trigger] greach(old(self).graph, old(self).start_mask, goal, c, n)
                    &&& final(self).frontier@ == q
                    &&& final(self).done == old(self).done
                    &&& final(self).last_cost == old(self).last_cost
                    &&& final(self).dist == old(self).dist
                } else {
                    &&& final(self).last_cost == e.0
                    &&& forall|j: int| 0 <= j < q.len() ==> e.0 <= (#[trigger] q[j]).0
                    &&& if e.1 == (0u64, old(self).graph.entry) {
                        &&& res == SearchResult::Found(e.0)
                        &&& exists|n: nat| greach(old(self).graph, old(self).start_mask, e.1, e.0 as int, n)
                        &&& !old(self).found@ ==> forall|c: int, n: nat|
                            #[trigger] greach(old(self).graph, old(self).start_mask, goal, c, n) ==> e.0 <= c
                        &&& final(self).frontier@ == q.remove(i)
                        &&& final(self).done == old(self).done
                    } else if old(self).done@.contains(e.1) {
                        &&& res == SearchResult::Continue
                        &&& final(self).frontier@ == q.remove(i)
                        &&& final(self).done == old(self).done
                    } else {
                        &&& res == SearchResult::Continue
                        &&& final(self).done@ == old(self).done@.push(e.1)
                        &&& final(self).frontier@ == q.remove(i) + moves(
                            old(self).graph,
                            e.1,
                            e.0,
                            old(self).graph.edges@[e.1.1 as int]@,
                        )
                    }
                }
            }),
    {
        let ghost o = *self;
        if self.frontier.len() == 0 {
            proof {
                let goal = (0u64, o.graph.entry);
                assert forall|c: int, n: nat| c <= usize::MAX && !o.found@ implies !#[trigger] greach(o.graph, o.start_mask, goal, c, n) by {
                    if greach(o.graph, o.start_mask, goal, c, n) {
                        lemma_covered(o, goal, c, n);
                    }
                }
            }
            return SearchResult::Finished;
        }
        let mut best: usize = 0;
        let mut i: usize = 1;
        assert(cheapest(self.frontier@.take(1)) == 0);
        while i < self.frontier.len()
            invariant
                self.frontier == old(self).frontier,
                0 <= best < i <= self.frontier@.len(),
                best == cheapest(self.frontier@.take(i as int)),
            decreases self.frontier.len() - i,
        {
            assert(self.frontier@.take(i + 1).drop_last() =~= self.frontier@.take(i as int));
            if self.frontier[i].0 < self.frontier[best].0 {
                best = i;
            }
            i = i + 1;
        }
        assert(self.frontier@.take(i as int) =~= self.frontier@);
        proof {
            lemma_cheapest(self.frontier@);
        }
        let e = self.frontier[best];
        let cost = e.0;
        let st = e.1;
        let e = self.frontier.remove(best);
        assert(old(self).frontier@[best as int] == e);
        assert(exists|n: nat| greach(self.graph, self.start_mask, st, cost as int, n));
        assert forall|j: int| 0 <= j < self.frontier@.len() implies {
            let q = #[trigger] self.frontier@[j];
            &&& q.1.1 < self.graph.nodes@.len()
            &&& cost <= q.0
            &&& exists|n: nat| greach(self.graph, self.start_mask, q.1, q.0 as int, n)
        } by {
            if j < best {
                assert(self.frontier@[j] == old(self).frontier@[j]);
            } else {
                assert(self.frontier@[j] == old(self).frontier@[j + 1]);
            }
        }
        self.last_cost = cost;
        if st.0 == 0 && st.1 == self.graph.entry {
            proof {
                let goal = (0u64, o.graph.entry);
                assert forall|c: int, n: nat| #[trigger] greach(o.graph, o.start_mask, goal, c, n) && !o.found@ implies cost <= c by {
                    if c <= usize::MAX {
                        lemma_covered(o, goal, c, n);
                        let j = choose|j: int| 0 <= j < o.frontier@.len() && (#[trigger] o.frontier@[j]).0 <= c;
                        assert(o.frontier@[best as int].0 <= o.frontier@[j].0);
                    }
                }
                assert(exists|n: nat| greach(self.graph, self.start_mask, st, cost as int, n));
            }
            self.found = Ghost(true);
            return SearchResult::Found(cost);
        }
        let ghost n0 = choose|n: nat| greach(self.graph, self.start_mask, st, cost as int, n);
        if self.expanded(st) {
            proof {
                if !o.found@ {
                    lemma_pop_done(o, *self, best as int);
                }
            }
        } else {
            proof {
                assert forall|c: int, n: nat| #[trigger] greach(o.graph, o.start_mask, st, c, n) && !o.found@ implies cost <= c by {
                    if c <= usize::MAX {
                        lemma_covered(o, st, c, n);
                        let j = choose|j: int| 0 <= j < o.frontier@.len() && (#[trigger] o.frontier@[j]).0 <= c;
                        assert(o.frontier@[best as int].0 <= o.frontier@[j].0);
                    }
                }
            }
            self.done.push(st);
            self.dist = Ghost(self.dist@.insert(st, cost as nat));
            let ghost rest = self.frontier@;
            let ghost done1 = self.done@;
            let node = st.1;
            let m = st.0;
            let mut k: usize = 0;
            while k < self.graph.edges[node].len()
                invariant
                    self.graph.wf(),
                    queued_ok(self.graph, self.start_mask, self.last_cost as int, self.frontier@),
                    self.dist@ == o.dist@.insert(st, cost as nat),
                    self.found@ == o.found@,
                    self.graph == old(self).graph,
                    self.start_mask == old(self).start_mask,
                    self.last_cost == cost,
                    node < self.graph.nodes@.len(),
                    st == (m, node),
                    greach(self.graph, self.start_mask, st, cost as int, n0),
                    k <= self.graph.edges@[node as int]@.len(),
                    self.done@ == done1,
                    self.frontier@ == rest + moves(self.graph, st, cost, self.graph.edges@[node as int]@.take(k as int)),
                decreases self.graph.edges@[node as int]@.len() - k,
            {
                let edge = self.graph.edges[node][k];
                assert(self.graph.edges@[node as int]@.take(k + 1).drop_last() =~= self.graph.edges@[node as int]@.take(k as int));
                assert(self.graph.edges@[node as int]@.take(k + 1).last() == edge);
                let w = edge.0;
                let v = edge.1;
                match self.follow(m, v) {
                    Some(m2) => {
                        if cost <= usize::MAX - w {
                            let nc = cost + w;
                            let ghost s2 = (m2, v);
                            proof {
                                assert(gstep(self.graph, st, k as int, s2));
                                assert(greach(self.graph, self.start_mask, s2, (cost + w) as int, n0 + 1));
                            }
                            let ghost before = self.frontier@;
                            self.frontier.push((nc, (m2, v)));
                            proof {
                                lemma_queue_push(self.graph, self.start_mask, cost as int, before, (nc, s2), n0 + 1);
                            }
                        }
                    },
                    None => {},
                }
                assert(self.frontier@ =~= rest + moves(self.graph, st, cost, self.graph.edges@[node as int]@.take(k + 1)));
                k = k + 1;
            }
            assert(self.graph.edges@[node as int]@.take(k as int) =~= self.graph.edges@[node as int]@);
            proof {
                if !o.found@ {
                    lemma_expanded(o, *self, best as int, rest);
                }
            }
        }
        SearchResult::Continue
    }
}

/// Every state that moves of total cost `c` reach is expanded already, or something no
/// dearer than `c` is queued.
proof fn lemma_covered(b: CompressedSearch, x: (u64, usize), c: int, n: nat)
    requires
        b.wf(),
        !b.found@,
        greach(b.graph, b.start_mask, x, c, n),
        c <= usize::MAX,
    ensures
        b.done@.contains(x) || exists|j: int| 0 <= j < b.frontier@.len() && (#[trigger] b.frontier@[j]).0 <= c,
    decreases n,
{
    let gr = b.graph;
    if n == 0 {
        if !b.done@.contains(x) {
            let j = choose|j: int| 0 <= j < b.frontier@.len() && #[trigger] b.frontier@[j] == (0usize, (b.start_mask, gr.entry));
            assert(b.frontier@[j].0 <= c);
        }
    } else {
        let (p, i) = choose|p: (u64, usize), i: int|
            #[trigger] gstep(gr, p, i, x) && greach(gr, b.start_mask, p, c - gr.edges@[p.1 as int]@[i].0, (n - 1) as nat);
        let w = gr.edges@[p.1 as int]@[i].0;
        lemma_covered(b, p, c - w, (n - 1) as nat);
        if b.done@.contains(p) && !b.done@.contains(x) {
            assert(b.dist@[p] <= c - w);
            let j = choose|j: int|
                0 <= j < b.frontier@.len() && (#[trigger] b.frontier@[j]).1 == x && b.frontier@[j].0 <= b.dist@[p] + w;
            assert(b.frontier@[j].0 <= c);
        }
    }
}

/// Taking off the queue a state expanded already keeps the invariant.
proof fn lemma_pop_done(o: CompressedSearch, s: CompressedSearch, best: int)
    requires
        o.wf(),
        !o.found@,
        0 <= best < o.frontier@.len(),
        o.done@.contains(o.frontier@[best].1),
        s.frontier@ == o.frontier@.remove(best),
        s.graph == o.graph,
        s.start_mask == o.start_mask,
        s.done == o.done,
        s.dist == o.dist,
    ensures
        s.ucs_ok(),
{
    let gr = o.graph;
    let q0 = o.frontier@;
    let q = s.frontier@;
    if !o.done@.contains((o.start_mask, gr.entry)) {
        let j = choose|j: int| 0 <= j < q0.len() && #[trigger] q0[j] == (0usize, (o.start_mask, gr.entry));
        if j < best {
            assert(q[j] == q0[j]);
        } else if j > best {
            assert(q[j - 1] == q0[j]);
        }
    }
    assert forall|p: (u64, usize), i: int, t: (u64, usize)|
        s.done@.contains(p) && #[trigger] gstep(gr, p, i, t) && s.dist@[p] + gr.edges@[p.1 as int]@[i].0 <= usize::MAX implies s.done@.contains(t)
        || exists|j: int| 0 <= j < q.len() && (#[trigger] q[j]).1 == t && q[j].0 <= s.dist@[p] + gr.edges@[p.1 as int]@[i].0 by {
        if !s.done@.contains(t) {
            let j = choose|j: int|
                0 <= j < q0.len() && (#[trigger] q0[j]).1 == t && q0[j].0 <= o.dist@[p] + gr.edges@[p.1 as int]@[i].0;
            if j < best {
                assert(q[j] == q0[j]);
            } else {
                assert(j != best);
                assert(q[j - 1] == q0[j]);
            }
        }
    }
}

/// Each allowed move along `edges` whose total cost fits is among the queued entries.
proof fn lemma_moves(gr: WaypointGraph, s: (u64, usize), c: usize, edges: Seq<(usize, usize)>)
    ensures
        forall|i: int|
            0 <= i < edges.len() && gmove(gr, s.0, (#[trigger] edges[i]).1 as int) is Some && c + edges[i].0
                <= usize::MAX ==> moves(gr, s, c, edges).contains(
                ((c + edges[i].0) as usize, (gmove(gr, s.0, edges[i].1 as int)->0, edges[i].1)),
            ),
    decreases edges.len(),
{
    if edges.len() > 0 {
        let prev = edges.drop_last();
        lemma_moves(gr, s, c, prev);
        let mv = moves(gr, s, c, edges);
        let mp = moves(gr, s, c, prev);
        assert forall|i: int|
            0 <= i < edges.len() && gmove(gr, s.0, (#[trigger] edges[i]).1 as int) is Some && c + edges[i].0
                <= usize::MAX implies mv.contains(
            ((c + edges[i].0) as usize, (gmove(gr, s.0, edges[i].1 as int)->0, edges[i].1)),
        ) by {
            let x = ((c + edges[i].0) as usize, (gmove(gr, s.0, edges[i].1 as int)->0, edges[i].1));
            if i < edges.len() - 1 {
                assert(prev[i] == edges[i]);
                assert(mp.contains(x));
                let t = choose|t: int| 0 <= t < mp.len() && mp[t] == x;
                assert(mv[t] == mp[t]);
            } else {
                assert(mv[mp.len() as int] == x);
            }
        }
    }
}

/// Expanding the cheapest queued state, and queueing each allowed move from it, keeps the
/// invariant.
proof fn lemma_expanded(o: CompressedSearch, s: CompressedSearch, best: int, rest: Seq<(usize, (u64, usize))>)
    requires
        o.wf(),
        !o.found@,
        0 <= best < o.frontier@.len(),
        !o.done@.contains(o.frontier@[best].1),
        o.frontier@[best].1 != (0u64, o.graph.entry),
        forall|c: int, n: nat|
            #[trigger] greach(o.graph, o.start_mask, o.frontier@[best].1, c, n) ==> o.frontier@[best].0 <= c,
        rest == o.frontier@.remove(best),
        s.graph == o.graph,
        s.start_mask == o.start_mask,
        s.done@ == o.done@.push(o.frontier@[best].1),
        s.dist@ == o.dist@.insert(o.frontier@[best].1, o.frontier@[best].0 as nat),
        s.frontier@ == rest + moves(o.graph, o.frontier@[best].1, o.frontier@[best].0, o.graph.edges@[o.frontier@[best].1.1 as int]@),
    ensures
        s.ucs_ok(),
{
    let gr = o.graph;
    let q0 = o.frontier@;
    let q = s.frontier@;
    let st = q0[best].1;
    let cost = q0[best].0;
    let mv = moves(gr, st, cost, gr.edges@[st.1 as int]@);
    lemma_moves(gr, st, cost, gr.edges@[st.1 as int]@);
    assert forall|x: (u64, usize)| #[trigger] s.done@.contains(x) == (o.done@.contains(x) || x == st) by {
        if o.done@.contains(x) {
            let k = choose|k: int| 0 <= k < o.done@.len() && o.done@[k] == x;
            assert(s.done@[k] == x);
        }
        if x == st {
            assert(s.done@[o.done@.len() as int] == x);
        }
    }
    if !o.done@.contains((o.start_mask, gr.entry)) && st != (o.start_mask, gr.entry) {
        let j = choose|j: int| 0 <= j < q0.len() && #[trigger] q0[j] == (0usize, (o.start_mask, gr.entry));
        if j < best {
            assert(q[j] == q0[j]);
        } else {
            assert(q[j - 1] == q0[j]);
        }
    }
    assert forall|p: (u64, usize)| #[trigger] s.done@.contains(p) implies s.dist@.contains_key(p) && p != (0u64, gr.entry)
        && forall|c: int, n: nat| #[trigger] greach(gr, s.start_mask, p, c, n) ==> s.dist@[p] <= c by {
        if p != st {
            assert(o.done@.contains(p));
        }
    }
    assert forall|p: (u64, usize), i: int, t: (u64, usize)|
        s.done@.contains(p) && #[trigger] gstep(gr, p, i, t) && s.dist@[p] + gr.edges@[p.1 as int]@[i].0 <= usize::MAX implies s.done@.contains(t)
        || exists|j: int| 0 <= j < q.len() && (#[trigger] q[j]).1 == t && q[j].0 <= s.dist@[p] + gr.edges@[p.1 as int]@[i].0 by {
        if !s.done@.contains(t) {
            if p == st {
                let es = gr.edges@[st.1 as int]@;
                assert(es[i] == gr.edges@[p.1 as int]@[i]);
                let x = ((cost + es[i].0) as usize, (gmove(gr, st.0, es[i].1 as int)->0, es[i].1));
                assert(mv.contains(x));
                let t2 = choose|t2: int| 0 <= t2 < mv.len() && mv[t2] == x;
                assert(q[rest.len() + t2] == mv[t2]);
                assert(x.1 == t);
            } else {
                assert(o.done@.contains(p));
                let j = choose|j: int|
                    0 <= j < q0.len() && (#[trigger] q0[j]).1 == t && q0[j].0 <= o.dist@[p] + gr.edges@[p.1 as int]@[i].0;
                if j < best {
                    assert(q[j] == q0[j]);
                } else {
                    assert(j != best);
                    assert(q[j - 1] == q0[j]);
                }
            }
        }
    }
}

} // verus!
