use vstd::prelude::*;
use std::collections::VecDeque;
use crate::direct::SearchResult;
use crate::garden::{Cell, Garden};

verus! {

/// `b` is reached from `a` by a walk of exactly `d` steps over navigable cells.
pub open spec fn walk(g: Garden, a: (i64, i64), b: (i64, i64), d: nat) -> bool
    decreases d,
{
    if d == 0 {
        a == b
    } else {
        exists|p: (i64, i64)| walk(g, a, p, (d - 1) as nat) && #[trigger] g.adjacent(p).contains(b)
    }
}

/// The herb cells and the entry of a garden, with weighted edges between them.
pub struct WaypointGraph {
    /// The cell of each node.
    pub nodes: Vec<(i64, i64)>,
    /// The herb letter of each node; `None` for the entry.
    pub kinds: Vec<Option<u8>>,
    /// For each node, its edges as (distance, target node).
    pub edges: Vec<Vec<(usize, usize)>>,
    /// The node of the entry.
    pub entry: usize,
}

impl WaypointGraph {
    pub open spec fn wf(self) -> bool {
        &&& self.nodes@.len() == self.kinds@.len()
        &&& self.edges@.len() == self.nodes@.len()
        &&& self.entry < self.nodes@.len()
        &&& self.kinds@[self.entry as int] is None
        &&& forall|k: int|
            0 <= k < self.kinds@.len() && k != self.entry ==> match #[trigger] self.kinds@[k] {
                Some(h) => h < 26,
                None => false,
            }
        &&& forall|u: int, i: int|
            0 <= u < self.edges@.len() && 0 <= i < self.edges@[u]@.len() ==> (#[trigger] self.edges@[u]@[i]).1
                < self.nodes@.len()
    }

    /// Each node stands on its cell of `g`, and each edge joins nodes of different kinds
    /// by a walk as long as its weight.
    pub open spec fn drawn_from(self, g: Garden) -> bool {
        &&& self.wf()
        &&& self.nodes@[self.entry as int] == g.start
        &&& forall|k: int|
            0 <= k < self.nodes@.len() ==> g.navigable(
                ((#[trigger] self.nodes@[k]).0 as int, self.nodes@[k].1 as int),
            )
        &&& forall|k: int|
            0 <= k < self.nodes@.len() && k != self.entry ==> g.cell(
                ((#[trigger] self.nodes@[k]).0 as int, self.nodes@[k].1 as int),
            ) == Cell::Herb(self.kinds@[k]->0)
        &&& forall|u: int, i: int|
            0 <= u < self.edges@.len() && 0 <= i < self.edges@[u]@.len() ==> {
                let e = #[trigger] self.edges@[u]@[i];
                &&& walk(g, self.nodes@[u], self.nodes@[e.1 as int], e.0 as nat)
                &&& self.kinds@[u] != self.kinds@[e.1 as int]
                &&& forall|n: nat| #[trigger] walk(g, self.nodes@[u], self.nodes@[e.1 as int], n) ==> e.0 <= n
            }
    }
}

fn grid_of<T: Copy>(rows: usize, cols: usize, x: T) -> (r: Vec<Vec<T>>)
    ensures
        r@.len() == rows,
        forall|i: int| 0 <= i < rows ==> (#[trigger] r@[i])@.len() == cols,
        forall|i: int, j: int| 0 <= i < rows && 0 <= j < cols ==> #[trigger] r@[i]@[j] == x,
{
    let mut r: Vec<Vec<T>> = Vec::new();
    let mut i: usize = 0;
    while i < rows
        invariant
            i <= rows,
            r@.len() == i,
            forall|k: int| 0 <= k < i ==> (#[trigger] r@[k])@.len() == cols,
            forall|k: int, j: int| 0 <= k < i && 0 <= j < cols ==> #[trigger] r@[k]@[j] == x,
        decreases rows - i,
    {
        let mut row: Vec<T> = Vec::new();
        let mut j: usize = 0;
        while j < cols
            invariant
                j <= cols,
                row@.len() == j,
                forall|k: int| 0 <= k < j ==> #[trigger] row@[k] == x,
            decreases cols - j,
        {
            row.push(x);
            j = j + 1;
        }
        r.push(row);
        i = i + 1;
    }
    r
}

fn set_cell<T>(grid: &mut Vec<Vec<T>>, i: usize, j: usize, x: T)
    requires
        i < old(grid)@.len(),
        j < old(grid)@[i as int]@.len(),
    ensures
        final(grid)@.len() == old(grid)@.len(),
        forall|k: int| 0 <= k < final(grid)@.len() && k != i ==> #[trigger] final(grid)@[k] == old(grid)@[k],
        final(grid)@[i as int]@ == old(grid)@[i as int]@.update(j as int, x),
{
    let mut row: Vec<T> = Vec::new();
    grid.set_and_swap(i, &mut row);
    row.set(j, x);
    grid.set_and_swap(i, &mut row);
}

/// `node_at` puts a node on each herb cell and on the entry, and on no other cell: the
/// entry's node on the entry, and each node on its own cell.
pub open spec fn nodes_exact(g: Garden, node_at: Seq<Vec<Option<usize>>>, nodes: Seq<(i64, i64)>, entry: usize) -> bool {
    &&& forall|r: int, c: int|
        0 <= r < g.size.0 && 0 <= c < g.size.1 ==> ((#[trigger] node_at[r]@[c]) is Some <==> (g.grid@[r]@[c] is Herb
            || (r == 0 && c == g.start.1)))
    &&& node_at[0]@[g.start.1 as int] == Some(entry)
    &&& forall|k: int|
        0 <= k < nodes.len() ==> node_at[(#[trigger] nodes[k]).0 as int]@[nodes[k].1 as int] == Some(k as usize)
}

/// The edge list `es` has an edge to node `v`.
pub open spec fn has_edge(es: Seq<(usize, usize)>, v: int) -> bool {
    exists|i: int| 0 <= i < es.len() && (#[trigger] es[i]).1 == v
}

/// Node `u`, with edge list `es`, has an edge to every node of another kind that a walk
/// from it reaches.
pub open spec fn complete_from(g: Garden, gr: WaypointGraph, es: Seq<(usize, usize)>, u: int) -> bool {
    forall|v: usize, n: nat|
        v < gr.nodes@.len() && gr.kinds@[u] != gr.kinds@[v as int] && n <= usize::MAX && #[trigger] walk(
            g,
            gr.nodes@[u],
            gr.nodes@[v as int],
            n,
        ) ==> has_edge(es, v as int)
}

/// Sweeps run in node order: each node before `current` has all its edges, and the current
/// sweep has an edge to each node of another kind on a swept cell.
pub open spec fn edges_ok(
    g: Garden,
    gr: WaypointGraph,
    node_at: Seq<Vec<Option<usize>>>,
    visited: Seq<Vec<bool>>,
    current: usize,
    next: usize,
) -> bool {
    &&& next > 0 ==> current == next - 1
    &&& forall|u: int| 0 <= u < current ==> #[trigger] complete_from(g, gr, gr.edges@[u]@, u)
    &&& next > 0 ==> forall|p: (i64, i64)|
        #[trigger] marked(visited, p) ==> match node_at[p.0 as int]@[p.1 as int] {
            Some(k) => gr.kinds@[k as int] != gr.kinds@[current as int] ==> has_edge(gr.edges@[current as int]@, k as int),
            None => true,
        }
}

/// Builds the waypoint graph of a garden: from each node in turn, a breadth-first sweep
/// over plain cells records an edge to every node of another kind that it meets.
pub struct GraphBuilder {
    pub garden: Garden,
    pub graph: WaypointGraph,
    /// The node standing on each cell, if any.
    pub node_at: Vec<Vec<Option<usize>>>,
    /// The node whose sweep is under way.
    pub current: usize,
    /// The node whose sweep comes next.
    pub next: usize,
    pub queue: VecDeque<(usize, (i64, i64))>,
    pub visited: Vec<Vec<bool>>,
    /// The distance at which each swept cell was reached.
    pub dist: Ghost<Map<(i64, i64), nat>>,
    /// The label of the last cell swept.
    pub level: Ghost<nat>,
}

impl GraphBuilder {
    pub open spec fn wf(self) -> bool {
        &&& self.base_ok()
        &&& self.next > 0 ==> self.sweep_ok()
        &&& edges_ok(self.garden, self.graph, self.node_at@, self.visited@, self.current, self.next)
    }

    /// Within a sweep from `src`: the queue is sorted, its labels lie between `level` and
    /// one more; each swept cell was reached at its shortest distance; and each neighbour
    /// of a swept cell is swept or queued no more than one step further.
    pub open spec fn sweep_ok(self) -> bool {
        let g = self.garden;
        let src = self.graph.nodes@[self.current as int];
        let q = self.queue@;
        let vis = self.visited@;
        let d = self.dist@;
        let l = self.level@;
        &&& marked(vis, src) || (q.len() > 0 && q[0] == (0usize, src))
        &&& forall|i: int| 0 <= i < q.len() ==> l <= (#[trigger] q[i]).0 <= l + 1
        &&& forall|i: int, j: int| 0 <= i < j < q.len() ==> (#[trigger] q[i]).0 <= (#[trigger] q[j]).0
        &&& forall|p: (i64, i64)|
            #[trigger] marked(vis, p) ==> d.contains_key(p) && d[p] <= l && g.navigable((p.0 as int, p.1 as int))
                && forall|n: nat| #[trigger] walk(g, src, p, n) ==> d[p] <= n
        &&& forall|p: (i64, i64), b: (i64, i64)|
            marked(vis, p) && d[p] < usize::MAX && #[trigger] g.adjacent(p).contains(b) ==> marked(vis, b) || exists|t: int|
                0 <= t < q.len() && (#[trigger] q[t]).1 == b && q[t].0 <= d[p] + 1
    }

    pub open spec fn base_ok(self) -> bool {
        let g = self.garden;
        &&& g.wf()
        &&& self.graph.drawn_from(g)
        &&& self.node_at@.len() == g.size.0
        &&& forall|r: int| 0 <= r < g.size.0 ==> (#[trigger] self.node_at@[r])@.len() == g.size.1
        &&& forall|r: int, c: int|
            0 <= r < g.size.0 && 0 <= c < g.size.1 ==> match #[trigger] self.node_at@[r]@[c] {
                Some(k) => k < self.graph.nodes@.len() && self.graph.nodes@[k as int] == (r as i64, c as i64),
                None => true,
            }
        &&& self.visited@.len() == g.size.0
        &&& forall|r: int| 0 <= r < g.size.0 ==> (#[trigger] self.visited@[r])@.len() == g.size.1
        &&& self.current < self.graph.nodes@.len()
        &&& self.next <= self.graph.nodes@.len()
        &&& self.next == 0 ==> self.queue@.len() == 0
        &&& nodes_exact(g, self.node_at@, self.graph.nodes@, self.graph.entry)
        &&& forall|i: int| 0 <= i < self.queue@.len() ==> {
            let e = #[trigger] self.queue@[i];
            &&& walk(g, self.graph.nodes@[self.current as int], e.1, e.0 as nat)
            &&& g.navigable((e.1.0 as int, e.1.1 as int))
        }
    }

    /// A builder for `garden` whose graph has a node for each herb cell and one for the
    /// entry, and no edge yet.
    pub fn new(garden: Garden) -> (b: Self)
        requires
            garden.wf(),
        ensures
            b.wf(),
            b.garden == garden,
            b.next == 0,
            b.queue@.len() == 0,
            forall|u: int| 0 <= u < b.graph.edges@.len() ==> (#[trigger] b.graph.edges@[u])@.len() == 0,
    {
        let rows = garden.size.0;
        let cols = garden.size.1;
        let mut nodes: Vec<(i64, i64)> = Vec::new();
        let mut kinds: Vec<Option<u8>> = Vec::new();
        let mut edges: Vec<Vec<(usize, usize)>> = Vec::new();
        let mut node_at: Vec<Vec<Option<usize>>> = grid_of(rows, cols, None);
        let mut r: usize = 0;
        while r < rows
            invariant
                garden.wf(),
                rows == garden.size.0,
                cols == garden.size.1,
                r <= rows,
                nodes@.len() == kinds@.len(),
                edges@.len() == nodes@.len(),
                forall|u: int| 0 <= u < edges@.len() ==> (#[trigger] edges@[u])@.len() == 0,
                forall|k: int| 0 <= k < kinds@.len() ==> match #[trigger] kinds@[k] {
                    Some(h) => h < 26 && garden.cell((nodes@[k].0 as int, nodes@[k].1 as int)) == Cell::Herb(h),
                    None => false,
                },
                forall|k: int| 0 <= k < nodes@.len() ==> garden.navigable(
                    ((#[trigger] nodes@[k]).0 as int, nodes@[k].1 as int),
                ),
                node_at@.len() == rows,
                forall|i: int| 0 <= i < rows ==> (#[trigger] node_at@[i])@.len() == cols,
                forall|i: int, j: int|
                    0 <= i < rows && 0 <= j < cols ==> match #[trigger] node_at@[i]@[j] {
                        Some(k) => k < nodes@.len() && nodes@[k as int] == (i as i64, j as i64),
                        None => true,
                    },
                forall|i: int, j: int|
                    0 <= i < rows && 0 <= j < cols ==> ((#[trigger] node_at@[i]@[j]) is Some <==> (i < r
                        && garden.grid@[i]@[j] is Herb)),
                forall|k: int|
                    0 <= k < nodes@.len() ==> (#[trigger] nodes@[k]).0 < r && node_at@[nodes@[k].0 as int]@[nodes@[k].1 as int]
                        == Some(k as usize),
            decreases rows - r,
        {
            let mut c: usize = 0;
            while c < cols
                invariant
                    garden.wf(),
                    rows == garden.size.0,
                    cols == garden.size.1,
                    r < rows,
                    c <= cols,
                    nodes@.len() == kinds@.len(),
                    edges@.len() == nodes@.len(),
                    forall|u: int| 0 <= u < edges@.len() ==> (#[trigger] edges@[u])@.len() == 0,
                    forall|k: int| 0 <= k < kinds@.len() ==> match #[trigger] kinds@[k] {
                        Some(h) => h < 26 && garden.cell((nodes@[k].0 as int, nodes@[k].1 as int)) == Cell::Herb(h),
                        None => false,
                    },
                    forall|k: int| 0 <= k < nodes@.len() ==> garden.navigable(
                        ((#[trigger] nodes@[k]).0 as int, nodes@[k].1 as int),
                    ),
                    node_at@.len() == rows,
                    forall|i: int| 0 <= i < rows ==> (#[trigger] node_at@[i])@.len() == cols,
                    forall|i: int, j: int|
                        0 <= i < rows && 0 <= j < cols ==> match #[trigger] node_at@[i]@[j] {
                            Some(k) => k < nodes@.len() && nodes@[k as int] == (i as i64, j as i64),
                            None => true,
                        },
                    forall|i: int, j: int|
                        0 <= i < rows && 0 <= j < cols ==> ((#[trigger] node_at@[i]@[j]) is Some <==> ((i < r || (i == r
                            && j < c)) && garden.grid@[i]@[j] is Herb)),
                    forall|k: int|
                        0 <= k < nodes@.len() ==> ((#[trigger] nodes@[k]).0 < r || (nodes@[k].0 == r && nodes@[k].1 < c))
                            && node_at@[nodes@[k].0 as int]@[nodes@[k].1 as int] == Some(k as usize),
                decreases cols - c,
            {
                let cell = garden.grid[r][c];
                if let Cell::Herb(h) = cell {
                    let k = nodes.len();
                    let ghost before = node_at@;
                    nodes.push((r as i64, c as i64));
                    kinds.push(Some(h));
                    edges.push(Vec::new());
                    set_cell(&mut node_at, r, c, Some(k));
                    assert forall|i: int, j: int|
                        0 <= i < rows && 0 <= j < cols implies match #[trigger] node_at@[i]@[j] {
                            Some(k) => k < nodes@.len() && nodes@[k as int] == (i as i64, j as i64),
                            None => true,
                        } by {
                        if i != r {
                            assert(node_at@[i] == before[i]);
                        }
                    }
                    assert forall|i: int, j: int|
                        0 <= i < rows && 0 <= j < cols implies ((#[trigger] node_at@[i]@[j]) is Some <==> ((i < r || (i == r
                            && j < c + 1)) && garden.grid@[i]@[j] is Herb)) by {
                        if i != r {
                            assert(node_at@[i] == before[i]);
                        }
                    }
                    assert forall|q: int|
                        0 <= q < nodes@.len() implies ((#[trigger] nodes@[q]).0 < r || (nodes@[q].0 == r && nodes@[q].1 < c + 1))
                            && node_at@[nodes@[q].0 as int]@[nodes@[q].1 as int] == Some(q as usize) by {
                        if q < k {
                            let i = nodes@[q].0 as int;
                            if i != r {
                                assert(node_at@[i] == before[i]);
                            }
                        }
                    }
                }
                c = c + 1;
            }
            r = r + 1;
        }
        let entry = nodes.len();
        nodes.push(garden.start);
        kinds.push(None);
        edges.push(Vec::new());
        let ghost before = node_at@;
        set_cell(&mut node_at, 0, garden.start.1 as usize, Some(entry));
        proof {
            assert forall|q: int|
                0 <= q < nodes@.len() implies node_at@[(#[trigger] nodes@[q]).0 as int]@[nodes@[q].1 as int] == Some(q as usize) by {
                if q < entry {
                    let i = nodes@[q].0 as int;
                    if i != 0 {
                        assert(node_at@[i] == before[i]);
                    }
                    assert(garden.grid@[0]@[garden.start.1 as int] == Cell::Open);
                }
            }
            assert forall|i: int, j: int|
                0 <= i < rows && 0 <= j < cols implies ((#[trigger] node_at@[i]@[j]) is Some <==> (garden.grid@[i]@[j] is Herb
                    || (i == 0 && j == garden.start.1))) by {
                if i != 0 {
                    assert(node_at@[i] == before[i]);
                }
            }
        }
        let graph = WaypointGraph { nodes, kinds, edges, entry };
        let b = GraphBuilder {
            garden,
            graph,
            node_at,
            current: 0,
            next: 0,
            queue: VecDeque::new(),
            visited: grid_of(rows, cols, false),
            dist: Ghost(Map::empty()),
            level: Ghost(0),
        };
        b
    }

    /// Every edge of the graph weighs exactly the shortest walk between its two nodes: a
    /// walk that long exists, and none is shorter.
    pub proof fn lemma_edge_is_shortest_walk(self, u: int, i: int)
        requires
            self.wf(),
            0 <= u < self.graph.edges@.len(),
            0 <= i < self.graph.edges@[u]@.len(),
        ensures
            walk(
                self.garden,
                self.graph.nodes@[u],
                self.graph.nodes@[self.graph.edges@[u]@[i].1 as int],
                self.graph.edges@[u]@[i].0 as nat,
            ),
            forall|n: nat|
                #[trigger] walk(
                    self.garden,
                    self.graph.nodes@[u],
                    self.graph.nodes@[self.graph.edges@[u]@[i].1 as int],
                    n,
                ) ==> self.graph.edges@[u]@[i].0 <= n,
    {
    }

    /// Once the builder has finished (its queue empty and every node swept), each node has
    /// an edge to every node of another kind that a walk from it reaches; by
    /// `lemma_edge_is_shortest_walk` that edge weighs the shortest such walk.
    pub proof fn lemma_finished_complete(self, u: int)
        requires
            self.wf(),
            self.queue@.len() == 0,
            self.next == self.graph.nodes@.len(),
            0 <= u < self.graph.nodes@.len(),
        ensures
            complete_from(self.garden, self.graph, self.graph.edges@[u]@, u),
    {
        if u == self.current {
            lemma_sweep_done(self);
        }
    }

    /// Marks `pos` as swept.
    fn mark(&mut self, pos: (i64, i64))
        requires
            old(self).base_ok(),
            old(self).garden.navigable((pos.0 as int, pos.1 as int)),
        ensures
            final(self).base_ok(),
            final(self).garden == old(self).garden,
            final(self).node_at == old(self).node_at,
            final(self).graph == old(self).graph,
            final(self).queue == old(self).queue,
            final(self).current == old(self).current,
            final(self).next == old(self).next,
            final(self).dist == old(self).dist,
            final(self).level == old(self).level,
            forall|x: (i64, i64)| #[trigger] marked(final(self).visited@, x) == (marked(old(self).visited@, x) || x == pos),
    {
        let r = pos.0 as usize;
        let c = pos.1 as usize;
        let ghost before = self.visited@;
        set_cell(&mut self.visited, r, c, true);
        assert forall|i: int| 0 <= i < self.garden.size.0 implies (#[trigger] self.visited@[i])@.len()
            == self.garden.size.1 by {
            if i != r {
                assert(self.visited@[i] == before[i]);
            }
        }
        assert forall|x: (i64, i64)| #[trigger] marked(self.visited@, x) == (marked(before, x) || x == pos) by {
            let xr = x.0 as int;
            if xr != r && 0 <= xr < self.visited@.len() {
                assert(self.visited@[xr] == before[xr]);
            }
        }
    }

    /// Records the edge (`dist`, `k`) from the current node.
    fn record(&mut self, dist: usize, k: usize)
        requires
            old(self).base_ok(),
            k < old(self).graph.nodes@.len(),
            walk(
                old(self).garden,
                old(self).graph.nodes@[old(self).current as int],
                old(self).graph.nodes@[k as int],
                dist as nat,
            ),
            old(self).graph.kinds@[old(self).current as int] != old(self).graph.kinds@[k as int],
            forall|n: nat|
                #[trigger] walk(
                    old(self).garden,
                    old(self).graph.nodes@[old(self).current as int],
                    old(self).graph.nodes@[k as int],
                    n,
                ) ==> dist <= n,
        ensures
            final(self).base_ok(),
            final(self).garden == old(self).garden,
            final(self).graph.nodes == old(self).graph.nodes,
            final(self).graph.kinds == old(self).graph.kinds,
            final(self).graph.entry == old(self).graph.entry,
            final(self).queue == old(self).queue,
            final(self).current == old(self).current,
            final(self).next == old(self).next,
            final(self).dist == old(self).dist,
            final(self).level == old(self).level,
            final(self).node_at == old(self).node_at,
            final(self).visited == old(self).visited,
            final(self).graph.edges@.len() == old(self).graph.edges@.len(),
            forall|v: int| 0 <= v < old(self).graph.edges@.len() && v != old(self).current ==> #[trigger] final(self).graph.edges@[v]
                == old(self).graph.edges@[v],
            final(self).graph.edges@[old(self).current as int]@ == old(self).graph.edges@[old(self).current as int]@.push((dist, k)),
    {
        let u = self.current;
        let ghost before = self.graph.edges@;
        let mut list: Vec<(usize, usize)> = Vec::new();
        self.graph.edges.set_and_swap(u, &mut list);
        list.push((dist, k));
        self.graph.edges.set_and_swap(u, &mut list);
        let ghost g = self.garden;
        let ghost gr = self.graph;
        assert forall|a: int, i: int|
            0 <= a < gr.edges@.len() && 0 <= i < gr.edges@[a]@.len() implies {
                let e = #[trigger] gr.edges@[a]@[i];
                &&& walk(g, gr.nodes@[a], gr.nodes@[e.1 as int], e.0 as nat)
                &&& gr.kinds@[a] != gr.kinds@[e.1 as int]
                &&& e.1 < gr.nodes@.len()
                &&& forall|n: nat| #[trigger] walk(g, gr.nodes@[a], gr.nodes@[e.1 as int], n) ==> e.0 <= n
            } by {
            if a != u {
                assert(gr.edges@[a] == before[a]);
            } else if i < before[a]@.len() {
                assert(gr.edges@[a]@[i] == before[a]@[i]);
            }
        }
    }

    /// The queue is empty and a node's sweep is still to come: the next step starts it.
    pub open spec fn restarts(self) -> bool {
        self.queue@.len() == 0 && self.next < self.graph.nodes@.len()
    }

    /// The node whose sweep the next step works on.
    pub open spec fn sweep_node(self) -> usize {
        if self.restarts() {
            self.next
        } else {
            self.current
        }
    }

    /// The queue that the next step takes its cell from.
    pub open spec fn sweep_queue(self) -> Seq<(usize, (i64, i64))> {
        if self.restarts() {
            seq![(0usize, self.graph.nodes@[self.next as int])]
        } else {
            self.queue@
        }
    }

    /// `p` counts as swept for the next step.
    pub open spec fn was_swept(self, p: (i64, i64)) -> bool {
        !self.restarts() && marked(self.visited@, p)
    }

    /// The edge that meeting `p` at distance `d` adds to node `u`, if any.
    pub open spec fn edge_found(self, p: (i64, i64), d: usize, u: usize) -> Seq<(usize, usize)> {
        match self.node_at@[p.0 as int]@[p.1 as int] {
            Some(k) => if self.graph.kinds@[k as int] != self.graph.kinds@[u as int] {
                seq![(d, k)]
            } else {
                seq![]
            },
            None => seq![],
        }
    }

    /// Takes one cell off the queue of the current sweep, first starting the next node's
    /// sweep when the queue is empty. A cell not swept before is marked; where a node of
    /// another kind stands on it an edge from the current node is recorded; its neighbours
    /// not swept yet are queued one step further.
    pub fn step(&mut self) -> (res: SearchResult)
        requires
            old(self).wf(),
        ensures
            final(self).wf(),
            final(self).garden == old(self).garden,
            final(self).node_at == old(self).node_at,
            final(self).graph.nodes == old(self).graph.nodes,
            final(self).graph.kinds == old(self).graph.kinds,
            final(self).graph.entry == old(self).graph.entry,
            final(self).current == old(self).sweep_node(),
            final(self).next == if old(self).restarts() {
                old(self).next + 1
            } else {
                old(self).next as int
            },
            ({
                let o = old(self);
                let q = o.sweep_queue();
                let u = o.sweep_node();
                if q.len() == 0 {
                    &&& res == SearchResult::Finished
                    &&& final(self).queue@ == q
                    &&& final(self).graph == o.graph
                    &&& final(self).visited == o.visited
                } else if o.was_swept(q[0].1) {
                    &&& res == SearchResult::Continue
                    &&& final(self).queue@ == q.drop_first()
                    &&& final(self).graph == o.graph
                    &&& final(self).visited == o.visited
                } else {
                    let d = q[0].0;
                    let p = q[0].1;
                    &&& res == SearchResult::Continue
                    &&& forall|x: (i64, i64)| #[trigger] marked(final(self).visited@, x) == (o.was_swept(x) || x == p)
                    &&& forall|v: int| 0 <= v < o.graph.edges@.len() && v != u ==> #[trigger] final(self).graph.edges@[v]
                        == o.graph.edges@[v]
                    &&& final(self).graph.edges@[u as int]@ == o.graph.edges@[u as int]@ + o.edge_found(p, d, u)
                    &&& final(self).queue@ == q.drop_first() + if d < usize::MAX {
                        unmarked_labelled(final(self).visited@, o.garden.adjacent(p), (d + 1) as usize)
                    } else {
                        seq![]
                    }
                }
            }),
    {
        self.begin();
        self.sweep()
    }

    /// Starts the next node's sweep where the queue is empty and one is left.
    fn begin(&mut self)
        requires
            old(self).wf(),
        ensures
            final(self).wf(),
            final(self).garden == old(self).garden,
            final(self).node_at == old(self).node_at,
            final(self).graph == old(self).graph,
            final(self).current == old(self).sweep_node(),
            final(self).next == if old(self).restarts() {
                old(self).next + 1
            } else {
                old(self).next as int
            },
            final(self).queue@ == old(self).sweep_queue(),
            forall|x: (i64, i64)| #[trigger] marked(final(self).visited@, x) == old(self).was_swept(x),
            !old(self).restarts() ==> final(self).visited == old(self).visited,
    {
        if self.queue.len() == 0 && self.next < self.graph.nodes.len() {
            self.current = self.next;
            self.next = self.next + 1;
            self.visited = grid_of(self.garden.size.0, self.garden.size.1, false);
            let start = self.graph.nodes[self.current];
            self.queue.push_back((0, start));
            assert(self.queue@ =~= seq![(0usize, start)]);
            assert(walk(self.garden, start, start, 0));
            self.dist = Ghost(Map::empty());
            self.level = Ghost(0);
            assert forall|x: (i64, i64)| !#[trigger] marked(self.visited@, x) by {}
            proof {
                if old(self).next > 0 {
                    lemma_sweep_done(*old(self));
                }
                assert forall|u: int| 0 <= u < self.current implies #[trigger] complete_from(
                    self.garden,
                    self.graph,
                    self.graph.edges@[u]@,
                    u,
) by {
                }
            }
        }
    }

    /// Takes one cell off the queue of the current sweep.
    fn sweep(&mut self) -> (res: SearchResult)
        requires
            old(self).wf(),
        ensures
            final(self).wf(),
            final(self).garden == old(self).garden,
            final(self).node_at == old(self).node_at,
            final(self).graph.nodes == old(self).graph.nodes,
            final(self).graph.kinds == old(self).graph.kinds,
            final(self).graph.entry == old(self).graph.entry,
            final(self).current == old(self).current,
            final(self).next == old(self).next,
            ({
                let o = old(self);
                let q = o.queue@;
                let u = o.current;
                if q.len() == 0 {
                    &&& res == SearchResult::Finished
                    &&& final(self).queue@ == q
                    &&& final(self).graph == o.graph
                    &&& final(self).visited == o.visited
                } else if marked(o.visited@, q[0].1) {
                    &&& res == SearchResult::Continue
                    &&& final(self).queue@ == q.drop_first()
                    &&& final(self).graph == o.graph
                    &&& final(self).visited == o.visited
                } else {
                    let d = q[0].0;
                    let p = q[0].1;
                    &&& res == SearchResult::Continue
                    &&& forall|x: (i64, i64)| #[trigger] marked(final(self).visited@, x) == (marked(o.visited@, x) || x == p)
                    &&& forall|v: int| 0 <= v < o.graph.edges@.len() && v != u ==> #[trigger] final(self).graph.edges@[v]
                        == o.graph.edges@[v]
                    &&& final(self).graph.edges@[u as int]@ == o.graph.edges@[u as int]@ + o.edge_found(p, d, u)
                    &&& final(self).queue@ == q.drop_first() + if d < usize::MAX {
                        unmarked_labelled(final(self).visited@, o.garden.adjacent(p), (d + 1) as usize)
                    } else {
                        seq![]
                    }
                }
            }),
    {
        let ghost o = *self;
        let front = self.queue.pop_front();
        match front {
            None => {
                SearchResult::Finished
            },
            Some(e) => {
                let dist = e.0;
                let pos = e.1;
                assert(o.queue@[0] == e);
                assert(self.queue@ == o.queue@.drop_first());
                let r = pos.0 as usize;
                let c = pos.1 as usize;
                if self.visited[r][c] {
                    proof {
                        if o.next > 0 {
                            lemma_pop_swept(o, *self);
                        }
                    }
                    return SearchResult::Continue;
                }
                proof {
                    if o.next > 0 {
                        let g = o.garden;
                        let src = o.graph.nodes@[o.current as int];
                        assert forall|n: nat| #[trigger] walk(g, src, pos, n) implies dist <= n by {
                            if n <= usize::MAX {
                                lemma_covered(o, pos, n);
                                let t = choose|t: int| 0 <= t < o.queue@.len() && (#[trigger] o.queue@[t]).0 <= n;
                                if t > 0 {
                                    assert(o.queue@[0].0 <= o.queue@[t].0);
                                }
                            }
                        }
                    }
                }
                self.mark(pos);
                self.dist = Ghost(self.dist@.insert(pos, dist as nat));
                self.level = Ghost(dist as nat);
                match self.node_at[r][c] {
                    Some(k) => {
                        let same = match (self.graph.kinds[k], self.graph.kinds[self.current]) {
                            (Some(a), Some(b)) => a == b,
                            (None, None) => true,
                            _ => false,
                        };
                        if !same {
                            self.record(dist, k);
                        } else {
                            assert(o.edge_found(pos, dist, self.current) =~= seq![]);
                        }
                    },
                    None => {},
                }
                assert(self.graph.edges@[self.current as int]@ =~= o.graph.edges@[self.current as int]@ + o.edge_found(pos, dist, self.current));
                let ghost rest = self.queue@;
                let ghost vis0 = self.visited@;
                let ghost graph0 = self.graph;
                let ghost dist1 = self.dist@;
                let ghost level1 = self.level@;
                let next = self.garden.all_neighbors(&pos);
                let mut i: usize = 0;
                while i < next.len()
                    invariant
                        self.base_ok(),
                        self.next > 0,
                        self.dist@ == dist1,
                        self.level@ == level1,
                        self.garden == old(self).garden,
                        self.node_at == old(self).node_at,
                        self.graph.nodes == old(self).graph.nodes,
                        self.graph.kinds == old(self).graph.kinds,
                        self.graph.entry == old(self).graph.entry,
                        self.visited@ == vis0,
                        self.graph == graph0,
                        self.current == o.current,
                        self.next == o.next,
                        walk(self.garden, self.graph.nodes@[self.current as int], pos, dist as nat),
                        next@ == self.garden.adjacent(pos),
                        i <= next.len(),
                        self.queue@ == rest + if dist < usize::MAX {
                            unmarked_labelled(vis0, next@.take(i as int), (dist + 1) as usize)
                        } else {
                            seq![]
                        },
                    decreases next.len() - i,
                {
                    let n = next[i];
                    let nr = n.0 as usize;
                    let nc = n.1 as usize;
                    assert(next@.take(i + 1).drop_last() =~= next@.take(i as int));
                    assert(next@.take(i + 1).last() == n);
                    proof {
                        let adj = self.garden.adjacent(pos);
                        assert(adj.contains(n)) by {
                            assert(adj[i as int] == n);
                        }
                        assert(walk(self.garden, self.graph.nodes@[self.current as int], n, (dist + 1) as nat));
                    }
                    if dist < usize::MAX && !self.visited[nr][nc] {
                        self.queue.push_back((dist + 1, n));
                    }
                    assert(self.queue@ =~= rest + if dist < usize::MAX {
                        unmarked_labelled(vis0, next@.take(i + 1), (dist + 1) as usize)
                    } else {
                        seq![]
                    });
                    i = i + 1;
                }
                assert(next@.take(next@.len() as int) =~= next@);
                proof {
                    if o.next > 0 {
                        lemma_expanded(o, *self, rest, vis0);
                    }
                    lemma_edges_after_sweep(o, *self, pos, dist);
                }
                SearchResult::Continue
            },
        }
    }
}

/// Within a sweep, every cell that a walk of `n` steps reaches from the sweep's node is
/// swept already, or something no further than `n` is queued.
proof fn lemma_covered(b: GraphBuilder, x: (i64, i64), n: nat)
    requires
        b.base_ok(),
        b.sweep_ok(),
        walk(b.garden, b.graph.nodes@[b.current as int], x, n),
        n <= usize::MAX,
    ensures
        marked(b.visited@, x) || exists|t: int| 0 <= t < b.queue@.len() && (#[trigger] b.queue@[t]).0 <= n,
    decreases n,
{
    let g = b.garden;
    let src = b.graph.nodes@[b.current as int];
    if n == 0 {
        if !marked(b.visited@, x) {
            assert(b.queue@[0].0 <= n);
        }
    } else {
        let p = choose|p: (i64, i64)| walk(g, src, p, (n - 1) as nat) && #[trigger] g.adjacent(p).contains(x);
        lemma_covered(b, p, (n - 1) as nat);
        if marked(b.visited@, p) && !marked(b.visited@, x) {
            assert(b.dist@[p] <= n - 1);
            let t = choose|t: int|
                0 <= t < b.queue@.len() && (#[trigger] b.queue@[t]).1 == x && b.queue@[t].0 <= b.dist@[p] + 1;
            assert(b.queue@[t].0 <= n);
        }
    }
}

/// Taking off the queue a cell swept already keeps the sweep's invariant.
proof fn lemma_pop_swept(o: GraphBuilder, s: GraphBuilder)
    requires
        o.base_ok(),
        o.sweep_ok(),
        o.queue@.len() > 0,
        marked(o.visited@, o.queue@[0].1),
        s.queue@ == o.queue@.drop_first(),
        s.garden == o.garden,
        s.graph == o.graph,
        s.current == o.current,
        s.visited == o.visited,
        s.dist == o.dist,
        s.level == o.level,
    ensures
        s.sweep_ok(),
{
    let g = s.garden;
    let q0 = o.queue@;
    let q = s.queue@;
    assert forall|i: int| 0 <= i < q.len() implies s.level@ <= (#[trigger] q[i]).0 <= s.level@ + 1 by {
        assert(q[i] == q0[i + 1]);
    }
    assert forall|i: int, j: int| 0 <= i < j < q.len() implies (#[trigger] q[i]).0 <= (#[trigger] q[j]).0 by {
        assert(q[i] == q0[i + 1]);
        assert(q[j] == q0[j + 1]);
    }
    assert forall|p: (i64, i64), b: (i64, i64)|
        marked(s.visited@, p) && s.dist@[p] < usize::MAX && #[trigger] g.adjacent(p).contains(b) implies marked(
            s.visited@,
            b,
        ) || exists|t: int| 0 <= t < q.len() && (#[trigger] q[t]).1 == b && q[t].0 <= s.dist@[p] + 1 by {
        if !marked(s.visited@, b) {
            let t = choose|t: int| 0 <= t < q0.len() && (#[trigger] q0[t]).1 == b && q0[t].0 <= o.dist@[p] + 1;
            assert(t != 0);
            assert(q[t - 1] == q0[t]);
        }
    }
}

/// The labelled cells are those of `xs` not marked, each labelled `d`.
proof fn lemma_unmarked_labelled(visited: Seq<Vec<bool>>, xs: Seq<(i64, i64)>, d: usize)
    ensures
        forall|t: int| 0 <= t < unmarked_labelled(visited, xs, d).len() ==> (#[trigger] unmarked_labelled(visited, xs, d)[t]).0 == d,
        forall|j: int| 0 <= j < xs.len() && !marked(visited, #[trigger] xs[j]) ==> exists|t: int|
            0 <= t < unmarked_labelled(visited, xs, d).len() && #[trigger] unmarked_labelled(visited, xs, d)[t] == (d, xs[j]),
    decreases xs.len(),
{
    if xs.len() > 0 {
        let prev = xs.drop_last();
        lemma_unmarked_labelled(visited, prev, d);
        let u = unmarked_labelled(visited, xs, d);
        let up = unmarked_labelled(visited, prev, d);
        assert forall|j: int| 0 <= j < xs.len() && !marked(visited, #[trigger] xs[j]) implies exists|t: int|
            0 <= t < u.len() && #[trigger] u[t] == (d, xs[j]) by {
            if j < xs.len() - 1 {
                assert(prev[j] == xs[j]);
                let t = choose|t: int| 0 <= t < up.len() && #[trigger] up[t] == (d, prev[j]);
                assert(u[t] == up[t]);
            } else {
                assert(u[up.len() as int] == (d, xs[j]));
            }
        }
        assert forall|t: int| 0 <= t < u.len() implies (#[trigger] u[t]).0 == d by {
            if t < up.len() {
                assert(u[t] == up[t]);
            }
        }
    }
}

/// Sweeping a cell reached at the front of the queue, and queueing its neighbours not
/// swept yet one step further, keeps the sweep's invariant.
proof fn lemma_expanded(o: GraphBuilder, s: GraphBuilder, rest: Seq<(usize, (i64, i64))>, vis0: Seq<Vec<bool>>)
    requires
        o.base_ok(),
        o.sweep_ok(),
        o.queue@.len() > 0,
        !marked(o.visited@, o.queue@[0].1),
        rest == o.queue@.drop_first(),
        s.base_ok(),
        s.garden == o.garden,
        s.graph.nodes == o.graph.nodes,
        s.current == o.current,
        s.visited@ == vis0,
        forall|x: (i64, i64)| #[trigger] marked(vis0, x) == (marked(o.visited@, x) || x == o.queue@[0].1),
        s.dist@ == o.dist@.insert(o.queue@[0].1, o.queue@[0].0 as nat),
        s.level@ == o.queue@[0].0 as nat,
        forall|n: nat| #[trigger] walk(o.garden, o.graph.nodes@[o.current as int], o.queue@[0].1, n) ==> o.queue@[0].0 <= n,
        s.queue@ == rest + if o.queue@[0].0 < usize::MAX {
            unmarked_labelled(vis0, o.garden.adjacent(o.queue@[0].1), (o.queue@[0].0 + 1) as usize)
        } else {
            seq![]
        },
    ensures
        s.sweep_ok(),
{
    let g = o.garden;
    let q0 = o.queue@;
    let d = q0[0].0;
    let pos = q0[0].1;
    let q = s.queue@;
    let u = if d < usize::MAX {
        unmarked_labelled(vis0, g.adjacent(pos), (d + 1) as usize)
    } else {
        seq![]
    };
    lemma_unmarked_labelled(vis0, g.adjacent(pos), (d + 1) as usize);
    assert(o.level@ <= d);
    assert forall|i: int| 0 <= i < q.len() implies s.level@ <= (#[trigger] q[i]).0 <= s.level@ + 1 by {
        if i < rest.len() {
            assert(q[i] == q0[i + 1]);
            assert(q0[0].0 <= q0[i + 1].0);
        } else {
            assert(q[i] == u[i - rest.len()]);
        }
    }
    assert forall|i: int, j: int| 0 <= i < j < q.len() implies (#[trigger] q[i]).0 <= (#[trigger] q[j]).0 by {
        if j < rest.len() {
            assert(q[i] == q0[i + 1]);
            assert(q[j] == q0[j + 1]);
        } else if i < rest.len() {
            assert(q[i] == q0[i + 1]);
            assert(q[j] == u[j - rest.len()]);
        } else {
            assert(q[i] == u[i - rest.len()]);
            assert(q[j] == u[j - rest.len()]);
        }
    }
    assert forall|p: (i64, i64)| #[trigger] marked(vis0, p) implies s.dist@.contains_key(p) && s.dist@[p] <= s.level@
        && g.navigable((p.0 as int, p.1 as int)) && forall|n: nat|
        #[trigger] walk(g, s.graph.nodes@[s.current as int], p, n) ==> s.dist@[p] <= n by {
        if p != pos {
            assert(marked(o.visited@, p));
        }
    }
    assert forall|p: (i64, i64), b: (i64, i64)|
        marked(vis0, p) && s.dist@[p] < usize::MAX && #[trigger] g.adjacent(p).contains(b) implies marked(vis0, b)
        || exists|t: int| 0 <= t < q.len() && (#[trigger] q[t]).1 == b && q[t].0 <= s.dist@[p] + 1 by {
        if !marked(vis0, b) {
            if p == pos {
                let adj = g.adjacent(pos);
                let j = choose|j: int| 0 <= j < adj.len() && adj[j] == b;
                assert(!marked(vis0, adj[j]));
                let t = choose|t: int| 0 <= t < u.len() && #[trigger] u[t] == ((d + 1) as usize, adj[j]);
                assert(q[rest.len() + t] == u[t]);
            } else {
                assert(marked(o.visited@, p));
                let t = choose|t: int| 0 <= t < q0.len() && (#[trigger] q0[t]).1 == b && q0[t].0 <= o.dist@[p] + 1;
                assert(t != 0);
                assert(q[t - 1] == q0[t]);
            }
        }
    }
}

/// When the current sweep's queue is empty, the current node has all its edges.
proof fn lemma_sweep_done(b: GraphBuilder)
    requires
        b.wf(),
        b.next > 0,
        b.queue@.len() == 0,
    ensures
        complete_from(b.garden, b.graph, b.graph.edges@[b.current as int]@, b.current as int),
{
    let g = b.garden;
    let gr = b.graph;
    let u = b.current as int;
    assert forall|v: usize, n: nat|
        v < gr.nodes@.len() && gr.kinds@[u] != gr.kinds@[v as int] && n <= usize::MAX && #[trigger] walk(
            g,
            gr.nodes@[u],
            gr.nodes@[v as int],
            n,
        ) implies has_edge(gr.edges@[u]@, v as int) by {
        lemma_covered(b, gr.nodes@[v as int], n);
        let p = gr.nodes@[v as int];
        assert(marked(b.visited@, p));
        assert(nodes_exact(g, b.node_at@, gr.nodes@, gr.entry));
        assert(b.node_at@[gr.nodes@[v as int].0 as int]@[gr.nodes@[v as int].1 as int] == Some(v));
        assert(edges_ok(g, gr, b.node_at@, b.visited@, b.current, b.next));
        let k = v as usize;
        assert(gr.kinds@[k as int] != gr.kinds@[b.current as int]);
        assert(has_edge(gr.edges@[b.current as int]@, k as int));
    }
}

/// Sweeping one more cell keeps the edges in order.
proof fn lemma_edges_after_sweep(o: GraphBuilder, s: GraphBuilder, pos: (i64, i64), d: usize)
    requires
        o.wf(),
        o.next > 0,
        s.garden == o.garden,
        s.node_at == o.node_at,
        s.graph.nodes == o.graph.nodes,
        s.graph.kinds == o.graph.kinds,
        s.current == o.current,
        s.next == o.next,
        s.graph.edges@.len() == o.graph.edges@.len(),
        o.garden.navigable((pos.0 as int, pos.1 as int)),
        forall|v: int| 0 <= v < o.graph.edges@.len() && v != o.current ==> #[trigger] s.graph.edges@[v] == o.graph.edges@[v],
        s.graph.edges@[o.current as int]@ == o.graph.edges@[o.current as int]@ + o.edge_found(pos, d, o.current),
        forall|x: (i64, i64)| #[trigger] marked(s.visited@, x) == (marked(o.visited@, x) || x == pos),
    ensures
        edges_ok(s.garden, s.graph, s.node_at@, s.visited@, s.current, s.next),
{
    let cur = o.current as int;
    let old_es = o.graph.edges@[cur]@;
    let es = s.graph.edges@[cur]@;
    assert forall|u: int| 0 <= u < s.current implies #[trigger] complete_from(s.garden, s.graph, s.graph.edges@[u]@, u) by {
        assert(s.graph.edges@[u] == o.graph.edges@[u]);
        assert(complete_from(o.garden, o.graph, o.graph.edges@[u]@, u));
        assert forall|v: usize, n: nat|
            v < s.graph.nodes@.len() && s.graph.kinds@[u] != s.graph.kinds@[v as int] && n <= usize::MAX && #[trigger] walk(
                s.garden,
                s.graph.nodes@[u],
                s.graph.nodes@[v as int],
                n,
            ) implies has_edge(s.graph.edges@[u]@, v as int) by {
            assert(has_edge(o.graph.edges@[u]@, v as int));
        }
    }
    assert forall|p: (i64, i64)| #[trigger] marked(s.visited@, p) implies match s.node_at@[p.0 as int]@[p.1 as int] {
        Some(k) => s.graph.kinds@[k as int] != s.graph.kinds@[cur] ==> has_edge(es, k as int),
        None => true,
    } by {
        match s.node_at@[p.0 as int]@[p.1 as int] {
            Some(k) => {
                if s.graph.kinds@[k as int] != s.graph.kinds@[cur] {
                    if p == pos {
                        assert(o.edge_found(pos, d, o.current) == seq![(d, k)]);
                        assert(es[old_es.len() as int] == (d, k));
                    } else {
                        assert(marked(o.visited@, p));
                        assert(has_edge(old_es, k as int));
                        let i = choose|i: int| 0 <= i < old_es.len() && (#[trigger] old_es[i]).1 == k as int;
                        assert(es[i] == old_es[i]);
                    }
                }
            },
            None => {},
        }
    }
}

/// Cell `p` is marked in `visited`.
pub open spec fn marked(visited: Seq<Vec<bool>>, p: (i64, i64)) -> bool {
    let r = p.0 as int;
    let c = p.1 as int;
    0 <= r < visited.len() && 0 <= c < visited[r]@.len() && visited[r]@[c]
}

/// The cells of `xs` not marked in `visited`, in order, each labelled `d`.
pub open spec fn unmarked_labelled(visited: Seq<Vec<bool>>, xs: Seq<(i64, i64)>, d: usize) -> Seq<
    (usize, (i64, i64)),
>
    decreases xs.len(),
{
    if xs.len() == 0 {
        seq![]
    } else {
        let prev = unmarked_labelled(visited, xs.drop_last(), d);
        if marked(visited, xs.last()) {
            prev
        } else {
            prev.push((d, xs.last()))
        }
    }
}

} // verus!
