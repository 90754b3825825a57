use vstd::prelude::*;
use std::collections::VecDeque;
use crate::garden::{Cell, Garden};

verus! {

/// A search state: the herbs still to collect, and where the walker stands.
pub type SearchState = (u64, (i64, i64));

/// What one step of a search came to.
#[derive(Clone, Copy, Debug, PartialEq, Eq, Structural)]
pub enum SearchResult {
    /// A goal was reached after this many steps.
    Found(usize),
    /// Work is left.
    Continue,
    /// Nothing is left to explore.
    Finished,
}

/// The state a search over `g` starts from.
pub open spec fn initial(g: Garden) -> SearchState {
    (g.herb_types, g.start)
}

/// `s` is reached from the initial state by a walk of exactly `d` steps.
pub open spec fn reach(g: Garden, s: SearchState, d: nat) -> bool
    decreases d,
{
    if d == 0 {
        s == initial(g)
    } else {
        exists|p: SearchState| reach(g, p, (d - 1) as nat) && #[trigger] g.successors(p).contains(s)
    }
}

pub open spec fn on_grid(g: Garden, p: (i64, i64)) -> bool {
    g.navigable((p.0 as int, p.1 as int))
}

/// `s` is among the expansions recorded in `seen`, by cell.
pub open spec fn expanded_in(seen: Seq<Vec<Vec<u64>>>, s: SearchState) -> bool {
    let r = s.1.0 as int;
    let c = s.1.1 as int;
    0 <= r < seen.len() && 0 <= c < seen[r]@.len() && seen[r]@[c]@.contains(s.0)
}

/// The states of `xs` not in `seen`, in order, each labelled `d`.
pub open spec fn fresh_labelled(seen: Seq<Vec<Vec<u64>>>, xs: Seq<SearchState>, d: usize) -> Seq<
    (usize, SearchState),
>
    decreases xs.len(),
{
    if xs.len() == 0 {
        seq![]
    } else {
        let prev = fresh_labelled(seen, xs.drop_last(), d);
        if expanded_in(seen, xs.last()) {
            prev
        } else {
            prev.push((d, xs.last()))
        }
    }
}

/// A breadth-first search over (herbs left, position), run one dequeue at a time.
pub struct DirectSearch {
    pub garden: Garden,
    pub queue: VecDeque<(usize, SearchState)>,
    /// For each cell, the masks with which it has been expanded.
    pub seen: Vec<Vec<Vec<u64>>>,
    /// The label of the last state taken off the queue.
    pub last_label: usize,
    /// The label with which each expanded state was expanded.
    pub dist: Ghost<Map<SearchState, nat>>,
    /// A goal has been taken off the queue.
    pub found: Ghost<bool>,
}

impl DirectSearch {
    pub open spec fn pending(self) -> Seq<(usize, SearchState)> {
        self.queue@
    }

    pub open spec fn wf(self) -> bool {
        &&& self.base_ok()
        &&& !self.found@ ==> self.bfs_ok()
    }

    /// The initial state is expanded or at the front of the queue; each expanded state is
    /// no goal and was expanded at its shortest distance; and each successor of an
    /// expanded state is expanded or queued no more than one step further.
    pub open spec fn bfs_ok(self) -> bool {
        let g = self.garden;
        let q = self.queue@;
        let d = self.dist@;
        &&& expanded_in(self.seen@, initial(g)) || (q.len() > 0 && q[0] == (0usize, initial(g)))
        &&& forall|s: SearchState|
            #[trigger] expanded_in(self.seen@, s) ==> d.contains_key(s) && d[s] <= self.last_label && !g.goal(s)
                && forall|n: nat| #[trigger] reach(g, s, n) ==> d[s] <= n
        &&& forall|s: SearchState, t: SearchState|
            expanded_in(self.seen@, s) && d[s] + 1 < usize::MAX && #[trigger] g.successors(s).contains(t) ==> expanded_in(
                self.seen@,
                t,
            ) || exists|i: int| 0 <= i < q.len() && (#[trigger] q[i]).1 == t && q[i].0 <= d[s] + 1
    }

    pub open spec fn base_ok(self) -> bool {
        &&& self.garden.wf()
        &&& self.seen@.len() == self.garden.size.0
        &&& forall|r: int| 0 <= r < self.seen@.len() ==> (#[trigger] self.seen@[r])@.len() == self.garden.size.1
        &&& forall|i: int| 0 <= i < self.queue@.len() ==> {
            let e = #[trigger] self.queue@[i];
            &&& reach(self.garden, e.1, e.0 as nat)
            &&& on_grid(self.garden, e.1.1)
            &&& self.last_label <= e.0 <= self.last_label + 1
            &&& e.1.0 & !self.garden.herb_types == 0
        }
        &&& forall|x: SearchState| #[trigger] expanded_in(self.seen@, x) ==> x.0 & !self.garden.herb_types == 0
        &&& forall|i: int, j: int| 0 <= i < j < self.queue@.len() ==> (#[trigger] self.queue@[i]).0 <= (#[trigger] self.queue@[j]).0
    }

    /// A search over `garden` whose queue holds the initial state alone.
    pub fn new(garden: Garden) -> (r: Self)
        requires
            garden.wf(),
        ensures
            r.wf(),
            r.garden == garden,
            r.pending() == seq![(0usize, initial(garden))],
            r.last_label == 0,
            !r.found@,
            forall|x: SearchState| !#[trigger] r.is_expanded(x),
    {
        let rows = garden.size.0;
        let cols = garden.size.1;
        let mut seen: Vec<Vec<Vec<u64>>> = Vec::new();
        let mut r: usize = 0;
        while r < rows
            invariant
                r <= rows,
                seen@.len() == r,
                forall|i: int| 0 <= i < r ==> (#[trigger] seen@[i])@.len() == cols,
                forall|i: int, j: int| 0 <= i < r && 0 <= j < cols ==> (#[trigger] seen@[i]@[j])@.len() == 0,
            decreases rows - r,
        {
            let mut row: Vec<Vec<u64>> = Vec::new();
            let mut c: usize = 0;
            while c < cols
                invariant
                    c <= cols,
                    row@.len() == c,
                    forall|j: int| 0 <= j < c ==> (#[trigger] row@[j])@.len() == 0,
                decreases cols - c,
            {
                row.push(Vec::new());
                c = c + 1;
            }
            seen.push(row);
            r = r + 1;
        }
        let mut queue: VecDeque<(usize, SearchState)> = VecDeque::new();
        let init = (garden.herb_types, garden.start);
        queue.push_back((0, init));
        let s = DirectSearch { garden, queue, seen, last_label: 0, dist: Ghost(Map::empty()), found: Ghost(false) };
        assert(s.queue@ =~= seq![(0usize, initial(garden))]);
        assert(reach(garden, initial(garden), 0));
        let ghost hm = garden.herb_types;
        assert(hm & !hm == 0) by (bit_vector);
        assert forall|x: SearchState| !#[trigger] expanded_in(s.seen@, x) by {
            let r = x.1.0 as int;
            let c = x.1.1 as int;
            if 0 <= r < s.seen@.len() && 0 <= c < s.seen@[r]@.len() {
                assert(s.seen@[r]@[c]@.len() == 0);
            }
        }
        s
    }

    /// `s` has been expanded.
    pub open spec fn is_expanded(self, s: SearchState) -> bool {
        expanded_in(self.seen@, s)
    }

    fn expanded(&self, s: SearchState) -> (r: bool)
        requires
            self.base_ok(),
            on_grid(self.garden, s.1),
        ensures
            r == self.is_expanded(s),
    {
        let r = s.1.0 as usize;
        let c = s.1.1 as usize;
        let mut i: usize = 0;
        let n = self.seen[r][c].len();
        while i < n
            invariant
                self.base_ok(),
                r < self.seen@.len(),
                c < self.seen@[r as int]@.len(),
                r == s.1.0,
                c == s.1.1,
                n == self.seen@[r as int]@[c as int]@.len(),
                i <= n,
                forall|k: int| 0 <= k < i ==> self.seen@[r as int]@[c as int]@[k] != s.0,
            decreases n - i,
        {
            if self.seen[r][c][i] == s.0 {
                return true;
            }
            i = i + 1;
        }
        false
    }

    /// Records `s` as expanded.
    fn mark(&mut self, s: SearchState)
        requires
            old(self).base_ok(),
            on_grid(old(self).garden, s.1),
            s.0 & !old(self).garden.herb_types == 0,
        ensures
            final(self).base_ok(),
            final(self).garden == old(self).garden,
            final(self).queue == old(self).queue,
            final(self).last_label == old(self).last_label,
            final(self).dist == old(self).dist,
            final(self).found == old(self).found,
            forall|x: SearchState| #[trigger] final(self).is_expanded(x) == (old(self).is_expanded(x) || x == s),
    {
        let r = s.1.0 as usize;
        let c = s.1.1 as usize;
        let ghost before = self.seen@;
        let mut row: Vec<Vec<u64>> = Vec::new();
        self.seen.set_and_swap(r, &mut row);
        let mut masks: Vec<u64> = Vec::new();
        row.set_and_swap(c, &mut masks);
        masks.push(s.0);
        row.set_and_swap(c, &mut masks);
        self.seen.set_and_swap(r, &mut row);
        assert forall|k: int| 0 <= k < self.seen@.len() implies (#[trigger] self.seen@[k])@.len()
            == self.garden.size.1 by {
            if k != r {
                assert(self.seen@[k] == before[k]);
            }
        }
        assert forall|x: SearchState| #[trigger] self.is_expanded(x) == (old(self).is_expanded(x) || x == s) by {
            let xr = x.1.0 as int;
            let xc = x.1.1 as int;
            if xr != r && 0 <= xr < self.seen@.len() {
                assert(self.seen@[xr] == before[xr]);
            }
            if xr == r && xc != c && 0 <= xc < self.seen@[xr]@.len() {
                assert(self.seen@[xr]@[xc] == before[xr]@[xc]);
            }
            if xr == r && xc == c {
                assert(self.seen@[xr]@[xc]@ == before[xr]@[xc]@.push(s.0));
                if x.0 == s.0 {
                    assert(self.seen@[xr]@[xc]@.last() == s.0);
                }
                if before[xr]@[xc]@.contains(x.0) {
                    let k = choose|k: int| 0 <= k < before[xr]@[xc]@.len() && before[xr]@[xc]@[k] == x.0;
                    assert(self.seen@[xr]@[xc]@[k] == x.0);
                }
            }
        }
        assert forall|x: SearchState| #[trigger] expanded_in(self.seen@, x) implies x.0 & !self.garden.herb_types == 0 by {
            assert(self.is_expanded(x) == (old(self).is_expanded(x) || x == s));
        }
    }

    /// Takes the front state off the queue. A goal ends the search with its label, which
    /// on the first goal taken off is the shortest distance to it. Otherwise, if not
    /// expanded before, the state is expanded: each of its successors not expanded yet is
    /// queued with the next label. An empty queue before any goal means the goal cannot
    /// be reached.
    pub fn step(&mut self) -> (res: SearchResult)
        requires
            old(self).wf(),
        ensures
            final(self).wf(),
            final(self).garden == old(self).garden,
            final(self).last_label >= old(self).last_label,
            final(self).found@ == (old(self).found@ || res is Found),
            ({
                let q = old(self).pending();
                let g = old(self).garden;
                if q.len() == 0 {
                    &&& res == SearchResult::Finished
                    &&& !old(self).found@ ==> forall|n: nat| n < usize::MAX ==> !#[trigger] reach(g, (0u64, g.start), n)
                    &&& final(self).pending() == q
                    &&& final(self).seen == old(self).seen
                    &&& final(self).last_label == old(self).last_label
                    &&& final(self).dist == old(self).dist
                } else if g.goal(q[0].1) {
                    &&& res == SearchResult::Found(q[0].0)
                    &&& reach(g, q[0].1, q[0].0 as nat)
                    &&& !old(self).found@ ==> forall|n: nat| #[trigger] reach(g, q[0].1, n) ==> q[0].0 <= n
                    &&& final(self).last_label == q[0].0
                    &&& final(self).pending() == q.drop_first()
                    &&& final(self).seen == old(self).seen
                } else if old(self).is_expanded(q[0].1) || q[0].0 == usize::MAX {
                    &&& res == SearchResult::Continue
                    &&& final(self).last_label == q[0].0
                    &&& final(self).pending() == q.drop_first()
                    &&& final(self).seen == old(self).seen
                } else {
                    &&& res == SearchResult::Continue
                    &&& final(self).last_label == q[0].0
                    &&& forall|x: SearchState| #[trigger] final(self).is_expanded(x) == (old(self).is_expanded(x) || x
                        == q[0].1)
                    &&& final(self).pending() == q.drop_first() + fresh_labelled(final(self).seen@, 
                        g.successors(q[0].1),
                        (q[0].0 + 1) as usize,
                    )
                }
            }),
    {
        let ghost o = *self;
        if self.queue.len() == 0 {
            proof {
                let g = o.garden;
                assert forall|n: nat| n < usize::MAX && !o.found@ implies !#[trigger] reach(g, (0u64, g.start), n) by {
                    if reach(g, (0u64, g.start), n) {
                        lemma_covered(o, (0u64, g.start), n);
                    }
                }
            }
            return SearchResult::Finished;
        }
        let e = self.queue[0];
        let dist = e.0;
        let st = e.1;
        let front = self.queue.pop_front();
        match front {
            None => SearchResult::Finished,
            Some(e) => {
                assert(old(self).queue@[0] == e);
                assert(self.queue@ == old(self).queue@.drop_first());
                assert forall|i: int, j: int| 0 <= i < j < self.queue@.len() implies (#[trigger] self.queue@[i]).0 <= (#[trigger] self.queue@[j]).0 by {
                    assert(self.queue@[i] == old(self).queue@[i + 1]);
                    assert(self.queue@[j] == old(self).queue@[j + 1]);
                }
                assert forall|i: int| 0 <= i < self.queue@.len() implies dist <= (#[trigger] self.queue@[i]).0 by {
                    assert(self.queue@[i] == old(self).queue@[i + 1]);
                }
                self.last_label = dist;
                if self.garden.is_end(&st) {
                    proof {
                        if !o.found@ {
                            let g = o.garden;
                            assert forall|n: nat| #[trigger] reach(g, st, n) implies dist <= n by {
                                if n < usize::MAX {
                                    lemma_covered(o, st, n);
                                    let t = choose|t: int| 0 <= t < o.queue@.len() && (#[trigger] o.queue@[t]).0 <= n;
                                    if t > 0 {
                                        assert(o.queue@[0].0 <= o.queue@[t].0);
                                    }
                                }
                            }
                        }
                    }
                    self.found = Ghost(true);
                    return SearchResult::Found(dist);
                }
                if dist == usize::MAX || self.expanded(st) {
                    proof {
                        if !o.found@ {
                            lemma_pop_done(o, *self);
                        }
                    }
                    return SearchResult::Continue;
                }
                proof {
                    let g = o.garden;
                    assert forall|n: nat| #[trigger] reach(g, st, n) && !o.found@ implies dist <= n by {
                        if n < usize::MAX {
                            lemma_covered(o, st, n);
                            let t = choose|t: int| 0 <= t < o.queue@.len() && (#[trigger] o.queue@[t]).0 <= n;
                            if t > 0 {
                                assert(o.queue@[0].0 <= o.queue@[t].0);
                            }
                        }
                    }
                }
                assert(self.seen == old(self).seen);
                self.mark(st);
                let ghost rest = self.queue@;
                let ghost seen0 = self.seen@;
                assert forall|x: SearchState| #[trigger] expanded_in(seen0, x) == (old(self).is_expanded(x) || x == st) by {
                    assert(self.is_expanded(x) == (expanded_in(old(self).seen@, x) || x == st));
                }
                self.dist = Ghost(self.dist@.insert(st, dist as nat));
                let ghost dist1 = self.dist@;
                let next = self.garden.neighbors(&st);
                let mut k: usize = 0;
                while k < next.len()
                    invariant
                        self.base_ok(),
                        st.0 & !self.garden.herb_types == 0,
                        self.found@ == o.found@,
                        self.dist@ == dist1,
                        self.garden == old(self).garden,
                        self.seen@ == seen0,
                        self.last_label == dist,
                        dist < usize::MAX,
                        reach(self.garden, st, dist as nat),
                        next@ == self.garden.successors(st),
                        k <= next.len(),
                        forall|x: SearchState| #[trigger] expanded_in(seen0, x) == (old(self).is_expanded(x) || x == st),
                        self.queue@ == rest + fresh_labelled(self.seen@, next@.take(k as int), (dist + 1) as usize),
                        forall|i: int| 0 <= i < self.queue@.len() ==> dist <= (#[trigger] self.queue@[i]).0,
                    decreases next.len() - k,
                {
                    let n = next[k];
                    assert(next@.take(k + 1).drop_last() =~= next@.take(k as int));
                    assert(next@.take(k + 1).last() == n);
                    proof {
                        assert(self.garden.successors(st).contains(n)) by {
                            assert(self.garden.successors(st)[k as int] == n);
                        }
                        assert(reach(self.garden, n, (dist + 1) as nat));
                        let hm = self.garden.herb_types;
                        let sm = st.0;
                        let yi = (n.1.0 as int, n.1.1 as int);
                        assert(self.garden.successors(st)[k as int] == (self.garden.mask_after(sm, yi), n.1));
                        if let Cell::Herb(h) = self.garden.cell(yi) {
                            let hb = h as u64;
                            assert(sm & !hm == 0 ==> (sm & !(1u64 << hb)) & !hm == 0) by (bit_vector);
                        }
                        let adj = self.garden.adjacent(st.1);
                        assert(adj.contains(n.1)) by {
                            assert(adj[k as int] == n.1);
                        }
                    }
                    if !self.expanded(n) {
                        self.queue.push_back((dist + 1, n));
                        assert(self.queue@ =~= rest + fresh_labelled(self.seen@, next@.take(k + 1), (dist + 1) as usize));
                    } else {
                        assert(self.queue@ =~= rest + fresh_labelled(self.seen@, next@.take(k + 1), (dist + 1) as usize));
                    }
                    k = k + 1;
                }
                assert(next@.take(next@.len() as int) =~= next@);
                proof {
                    if !o.found@ {
                        lemma_expanded(o, *self, rest);
                    }
                }
                SearchResult::Continue
            },
        }
    }
}

/// Every state that `n` steps reach is expanded already, or something no further than
/// `n` is queued.
proof fn lemma_covered(b: DirectSearch, x: SearchState, n: nat)
    requires
        b.base_ok(),
        b.bfs_ok(),
        reach(b.garden, x, n),
        n < usize::MAX,
    ensures
        expanded_in(b.seen@, x) || exists|t: int| 0 <= t < b.queue@.len() && (#[trigger] b.queue@[t]).0 <= n,
    decreases n,
{
    let g = b.garden;
    if n == 0 {
        if !expanded_in(b.seen@, x) {
            assert(b.queue@[0].0 <= n);
        }
    } else {
        let p = choose|p: SearchState| reach(g, p, (n - 1) as nat) && #[trigger] g.successors(p).contains(x);
        lemma_covered(b, p, (n - 1) as nat);
        if expanded_in(b.seen@, p) && !expanded_in(b.seen@, x) {
            assert(b.dist@[p] <= n - 1);
            let t = choose|t: int|
                0 <= t < b.queue@.len() && (#[trigger] b.queue@[t]).1 == x && b.queue@[t].0 <= b.dist@[p] + 1;
            assert(b.queue@[t].0 <= n);
        }
    }
}

/// Taking off the queue a state expanded already, or one at the largest label, keeps the
/// invariant.
proof fn lemma_pop_done(o: DirectSearch, s: DirectSearch)
    requires
        o.base_ok(),
        o.bfs_ok(),
        o.queue@.len() > 0,
        expanded_in(o.seen@, o.queue@[0].1) || o.queue@[0].0 == usize::MAX,
        s.queue@ == o.queue@.drop_first(),
        s.garden == o.garden,
        s.seen == o.seen,
        s.dist == o.dist,
        s.last_label == o.queue@[0].0,
    ensures
        s.bfs_ok(),
{
    let g = s.garden;
    let q0 = o.queue@;
    let q = s.queue@;
    assert forall|x: SearchState| #[trigger] expanded_in(s.seen@, x) implies s.dist@[x] <= s.last_label by {
        assert(o.dist@[x] <= o.last_label);
    }
    assert forall|p: SearchState, b: SearchState|
        expanded_in(s.seen@, p) && s.dist@[p] + 1 < usize::MAX && #[trigger] g.successors(p).contains(b) implies expanded_in(
            s.seen@,
            b,
        ) || exists|t: int| 0 <= t < q.len() && (#[trigger] q[t]).1 == b && q[t].0 <= s.dist@[p] + 1 by {
        if !expanded_in(s.seen@, b) {
            let t = choose|t: int| 0 <= t < q0.len() && (#[trigger] q0[t]).1 == b && q0[t].0 <= o.dist@[p] + 1;
            assert(t != 0);
            assert(q[t - 1] == q0[t]);
        }
    }
}

/// The labelled states are those of `xs` not expanded, each labelled `d`.
proof fn lemma_fresh_labelled(seen: Seq<Vec<Vec<u64>>>, xs: Seq<SearchState>, d: usize)
    ensures
        forall|t: int| 0 <= t < fresh_labelled(seen, xs, d).len() ==> (#[trigger] fresh_labelled(seen, xs, d)[t]).0 == d,
        forall|j: int| 0 <= j < xs.len() && !expanded_in(seen, #[trigger] xs[j]) ==> exists|t: int|
            0 <= t < fresh_labelled(seen, xs, d).len() && #[trigger] fresh_labelled(seen, xs, d)[t] == (d, xs[j]),
    decreases xs.len(),
{
    if xs.len() > 0 {
        let prev = xs.drop_last();
        lemma_fresh_labelled(seen, prev, d);
        let u = fresh_labelled(seen, xs, d);
        let up = fresh_labelled(seen, prev, d);
        assert forall|j: int| 0 <= j < xs.len() && !expanded_in(seen, #[trigger] xs[j]) implies exists|t: int|
            0 <= t < u.len() && #[trigger] u[t] == (d, xs[j]) by {
            if j < xs.len() - 1 {
                assert(prev[j] == xs[j]);
                let t = choose|t: int| 0 <= t < up.len() && #[trigger] up[t] == (d, prev[j]);
                assert(u[t] == up[t]);
            } else {
                assert(u[up.len() as int] == (d, xs[j]));
            }
        }
        assert forall|t: int| 0 <= t < u.len() implies (#[trigger] u[t]).0 == d by {
            if t < up.len() {
                assert(u[t] == up[t]);
            }
        }
    }
}

/// Expanding the state at the front of the queue, and queueing its successors not expanded
/// yet one step further, keeps the invariant.
proof fn lemma_expanded(o: DirectSearch, s: DirectSearch, rest: Seq<(usize, SearchState)>)
    requires
        o.base_ok(),
        o.bfs_ok(),
        o.queue@.len() > 0,
        !expanded_in(o.seen@, o.queue@[0].1),
        !o.garden.goal(o.queue@[0].1),
        o.queue@[0].0 < usize::MAX,
        rest == o.queue@.drop_first(),
        s.base_ok(),
        s.garden == o.garden,
        s.last_label == o.queue@[0].0,
        forall|x: SearchState| #[trigger] expanded_in(s.seen@, x) == (expanded_in(o.seen@, x) || x == o.queue@[0].1),
        s.dist@ == o.dist@.insert(o.queue@[0].1, o.queue@[0].0 as nat),
        forall|n: nat| #[trigger] reach(o.garden, o.queue@[0].1, n) ==> o.queue@[0].0 <= n,
        s.queue@ == rest + fresh_labelled(s.seen@, o.garden.successors(o.queue@[0].1), (o.queue@[0].0 + 1) as usize),
    ensures
        s.bfs_ok(),
{
    let g = o.garden;
    let q0 = o.queue@;
    let d = q0[0].0;
    let st = q0[0].1;
    let q = s.queue@;
    let u = fresh_labelled(s.seen@, g.successors(st), (d + 1) as usize);
    lemma_fresh_labelled(s.seen@, g.successors(st), (d + 1) as usize);
    assert forall|p: SearchState| #[trigger] expanded_in(s.seen@, p) implies s.dist@.contains_key(p) && s.dist@[p]
        <= s.last_label && !g.goal(p) && forall|n: nat| #[trigger] reach(g, p, n) ==> s.dist@[p] <= n by {
        if p != st {
            assert(expanded_in(o.seen@, p));
            assert(o.dist@[p] <= o.last_label);
            assert(o.last_label <= q0[0].0);
        }
    }
    assert forall|p: SearchState, b: SearchState|
        expanded_in(s.seen@, p) && s.dist@[p] + 1 < usize::MAX && #[trigger] g.successors(p).contains(b) implies expanded_in(
            s.seen@,
            b,
        ) || exists|t: int| 0 <= t < q.len() && (#[trigger] q[t]).1 == b && q[t].0 <= s.dist@[p] + 1 by {
        if !expanded_in(s.seen@, b) {
            if p == st {
                let sc = g.successors(st);
                let j = choose|j: int| 0 <= j < sc.len() && sc[j] == b;
                assert(!expanded_in(s.seen@, sc[j]));
                let t = choose|t: int| 0 <= t < u.len() && #[trigger] u[t] == ((d + 1) as usize, sc[j]);
                assert(q[rest.len() + t] == u[t]);
            } else {
                assert(expanded_in(o.seen@, p));
                let t = choose|t: int| 0 <= t < q0.len() && (#[trigger] q0[t]).1 == b && q0[t].0 <= o.dist@[p] + 1;
                assert(t != 0);
                assert(q[t - 1] == q0[t]);
            }
        }
    }
}

} // verus!
