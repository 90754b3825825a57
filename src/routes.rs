use vstd::prelude::*;
use crate::compressed::{gmove, greach, gstep};
use crate::direct::{reach, SearchState};
use crate::garden::{has_bit, Cell, Garden};
use crate::graph::{complete_from, has_edge, walk, GraphBuilder};

verus! {

/// Every herb still to collect in `a` is still to collect in `b`.
pub open spec fn within(a: u64, b: u64) -> bool {
    a & !b == 0
}

/// `t` is reached from `s` by exactly `n` steps of the direct search.
pub open spec fn reach_from(g: Garden, s: SearchState, t: SearchState, n: nat) -> bool
    decreases n,
{
    if n == 0 {
        s == t
    } else {
        exists|p: SearchState| reach_from(g, s, p, (n - 1) as nat) && #[trigger] g.successors(p).contains(t)
    }
}

proof fn lemma_reach_then(g: Garden, p: SearchState, t: SearchState, a: nat, b: nat)
    requires
        reach(g, p, a),
        reach_from(g, p, t, b),
    ensures
        reach(g, t, a + b),
    decreases b,
{
    if b > 0 {
        let q = choose|q: SearchState| reach_from(g, p, q, (b - 1) as nat) && #[trigger] g.successors(q).contains(t);
        lemma_reach_then(g, p, q, a, (b - 1) as nat);
        assert(reach(g, t, a + b));
    }
}

/// Following a walk of `n` cells from `x` to `y` with herbs `m` still to collect ends with
/// fewer herbs still to collect; when the walk has a step and `y` holds a herb, its letter
/// is among those collected.
proof fn lemma_walk_lifts(g: Garden, x: (i64, i64), y: (i64, i64), n: nat, m: u64) -> (m2: u64)
    requires
        g.wf(),
        walk(g, x, y, n),
    ensures
        reach_from(g, (m, x), (m2, y), n),
        within(m2, m),
        n > 0 ==> g.navigable((y.0 as int, y.1 as int)),
        n > 0 ==> m2 == g.mask_after(m2, (y.0 as int, y.1 as int)),
    decreases n,
{
    if n == 0 {
        assert(m & !m == 0) by (bit_vector);
        m
    } else {
        let p = choose|p: (i64, i64)| walk(g, x, p, (n - 1) as nat) && #[trigger] g.adjacent(p).contains(y);
        let m1 = lemma_walk_lifts(g, x, p, (n - 1) as nat, m);
        let adj = g.adjacent(p);
        let k = choose|k: int| 0 <= k < adj.len() && adj[k] == y;
        let yi = (y.0 as int, y.1 as int);
        assert(g.navigable(yi)) by {
            assert(g.keep((p.0 - 1, p.1 as int)).contains(y) || g.keep((p.0 + 1, p.1 as int)).contains(y) || g.keep(
                (p.0 as int, p.1 - 1),
            ).contains(y) || g.keep((p.0 as int, p.1 + 1)).contains(y)) by {
                assert(adj.contains(y));
            }
        }
        let m2 = g.mask_after(m1, yi);
        assert(g.successors((m1, p))[k] == (m2, y));
        assert(g.successors((m1, p)).contains((m2, y)));
        assert(reach_from(g, (m, x), (m2, y), n));
        match g.cell(yi) {
            Cell::Herb(h) => {
                assert(h < 26);
                let b = h as u64;
                assert(within(m1 & !(1u64 << b), m1)) by (bit_vector);
                assert((m1 & !(1u64 << b)) & !(1u64 << b) == m1 & !(1u64 << b)) by (bit_vector);
                assert(within(m1, m) && within(m1 & !(1u64 << b), m1) ==> within(m1 & !(1u64 << b), m)) by (bit_vector);
            },
            _ => {},
        }
        m2
    }
}

/// A route of the compressed search that reaches (`gm`, node `u`) at cost `c` is a route of
/// the direct search of `c` steps to node `u`'s cell, with no more herbs left to collect.
proof fn lemma_route_lifts(b: GraphBuilder, s: (u64, usize), c: int, n: nat) -> (dm: u64)
    requires
        b.wf(),
        greach(b.graph, b.garden.herb_types, s, c, n),
    ensures
        c >= 0,
        within(dm, s.0),
        reach(b.garden, (dm, b.graph.nodes@[s.1 as int]), c as nat),
    decreases n,
{
    let g = b.garden;
    let gr = b.graph;
    if n == 0 {
        assert(within(g.herb_types, g.herb_types)) by {
            let m = g.herb_types;
            assert(m & !m == 0) by (bit_vector);
        }
        g.herb_types
    } else {
        let (p, i) = choose|p: (u64, usize), i: int|
            #[trigger] gstep(gr, p, i, s) && greach(gr, g.herb_types, p, c - gr.edges@[p.1 as int]@[i].0, (n - 1) as nat);
        let e = gr.edges@[p.1 as int]@[i];
        let w = e.0;
        let dp = lemma_route_lifts(b, p, c - w, (n - 1) as nat);
        let from = gr.nodes@[p.1 as int];
        let to = gr.nodes@[s.1 as int];
        assert(walk(g, from, to, w as nat));
        assert(gr.kinds@[p.1 as int] != gr.kinds@[e.1 as int]);
        let dm = lemma_walk_lifts(g, from, to, w as nat, dp);
        lemma_reach_then(g, (dp, from), (dm, to), (c - w) as nat, w as nat);
        assert(w > 0) by {
            if w == 0 {
                assert(from == to);
                if p.1 != gr.entry && s.1 != gr.entry {
                    assert(g.cell((from.0 as int, from.1 as int)) == Cell::Herb(gr.kinds@[p.1 as int]->0));
                    assert(g.cell((to.0 as int, to.1 as int)) == Cell::Herb(gr.kinds@[s.1 as int]->0));
                    assert(gr.kinds@[p.1 as int] is Some);
                    assert(gr.kinds@[s.1 as int] is Some);
                } else if p.1 == gr.entry {
                    assert(g.cell((to.0 as int, to.1 as int)) == Cell::Herb(gr.kinds@[s.1 as int]->0));
                } else {
                    assert(g.cell((from.0 as int, from.1 as int)) == Cell::Herb(gr.kinds@[p.1 as int]->0));
                }
            }
        }
        let tc = (to.0 as int, to.1 as int);
        match gr.kinds@[s.1 as int] {
            None => {
                assert(p.0 == 0);
                let pm = p.0;
                assert(within(dp, pm) && pm == 0 && within(dm, dp) ==> within(dm, 0u64)) by (bit_vector);
            },
            Some(h) => {
                assert(s.1 != gr.entry);
                assert(g.cell(tc) == Cell::Herb(h));
                assert(h < 26);
                let hb = h as u64;
                let pm = p.0;
                assert(dm == dm & !(1u64 << hb));
                assert(s.0 == pm & !(1u64 << hb));
                assert(within(dp, pm) && within(dm, dp) && dm == dm & !(1u64 << hb) ==> within(
                    dm,
                    pm & !(1u64 << hb),
                )) by (bit_vector);
            },
        }
        dm
    }
}

/// Every route that the compressed search can take back to the entry with all herbs
/// collected, at cost `c`, is a route of `c` steps from the start to the goal of the
/// direct search: so the direct search never reports more than the compressed one.
pub proof fn lemma_compressed_route_is_direct_route(b: GraphBuilder, c: int, n: nat)
    requires
        b.wf(),
        greach(b.graph, b.garden.herb_types, (0u64, b.graph.entry), c, n),
    ensures
        c >= 0,
        reach(b.garden, (0u64, b.garden.start), c as nat),
{
    let dm = lemma_route_lifts(b, (0u64, b.graph.entry), c, n);
    assert(within(dm, 0u64) ==> dm == 0) by (bit_vector);
}

/// A state that the direct search reaches in `n` steps stands where a walk of `n` steps
/// from the entry leads; and a herb letter crossed off on the way grows on a cell that
/// some walk from the entry reaches.
proof fn lemma_reach_projects(g: Garden, s: SearchState, n: nat, t: u64)
    requires
        g.wf(),
        t < 64,
        reach(g, s, n),
    ensures
        walk(g, g.start, s.1, n),
        has_bit(g.herb_types, t) && !has_bit(s.0, t) ==> exists|p: (i64, i64), m: nat|
            g.navigable((p.0 as int, p.1 as int)) && g.cell((p.0 as int, p.1 as int)) == Cell::Herb(t as u8)
                && #[trigger] walk(g, g.start, p, m),
    decreases n,
{
    if n > 0 {
        let p = choose|p: SearchState| reach(g, p, (n - 1) as nat) && #[trigger] g.successors(p).contains(s);
        lemma_reach_projects(g, p, (n - 1) as nat, t);
        let sc = g.successors(p);
        let k = choose|k: int| 0 <= k < sc.len() && sc[k] == s;
        let adj = g.adjacent(p.1);
        let y = adj[k];
        assert(s == (g.mask_after(p.0, (y.0 as int, y.1 as int)), y));
        assert(adj.contains(y));
        assert(walk(g, g.start, s.1, n));
        let yi = (y.0 as int, y.1 as int);
        assert(g.navigable(yi)) by {
            assert(g.keep((p.1.0 - 1, p.1.1 as int)).contains(y) || g.keep((p.1.0 + 1, p.1.1 as int)).contains(y)
                || g.keep((p.1.0 as int, p.1.1 - 1)).contains(y) || g.keep((p.1.0 as int, p.1.1 + 1)).contains(y));
        }
        if has_bit(g.herb_types, t) && !has_bit(s.0, t) && has_bit(p.0, t) {
            match g.cell(yi) {
                Cell::Herb(h) => {
                    assert(h < 26);
                    let hb = h as u64;
                    let pm = p.0;
                    assert(pm & (1u64 << t) != 0 && (pm & !(1u64 << hb)) & (1u64 << t) == 0 ==> t == hb)
                        by (bit_vector)
                        requires
                            t < 64,
                            hb < 64,
                    ;
                    assert(t == hb);
                    assert(g.cell(yi) == Cell::Herb(t as u8));
                    assert(walk(g, g.start, y, n));
                },
                _ => {},
            }
        }
    }
}

/// A herb letter that grows only on cells no walk from the entry reaches leaves the goal
/// of the direct search unreachable.
pub proof fn lemma_walled_off_herb(g: Garden, t: u64, n: nat)
    requires
        g.wf(),
        t < 64,
        has_bit(g.herb_types, t),
        forall|p: (i64, i64), m: nat|
            g.navigable((p.0 as int, p.1 as int)) && g.cell((p.0 as int, p.1 as int)) == Cell::Herb(t as u8) ==> !#[trigger] walk(
                g,
                g.start,
                p,
                m,
            ),
    ensures
        !reach(g, (0u64, g.start), n),
{
    if reach(g, (0u64, g.start), n) {
        lemma_reach_projects(g, (0u64, g.start), n, t);
        assert(!has_bit(0u64, t)) by {
            assert(0u64 & (1u64 << t) == 0) by (bit_vector);
        }
    }
}

/// Likewise the compressed search: with such a herb letter no route of the waypoint graph
/// of a built garden returns to the entry with every herb collected.
pub proof fn lemma_walled_off_herb_compressed(b: GraphBuilder, t: u64, c: int, n: nat)
    requires
        b.wf(),
        t < 64,
        has_bit(b.garden.herb_types, t),
        forall|p: (i64, i64), m: nat|
            b.garden.navigable((p.0 as int, p.1 as int)) && b.garden.cell((p.0 as int, p.1 as int)) == Cell::Herb(
                t as u8,
            ) ==> !#[trigger] walk(b.garden, b.garden.start, p, m),
    ensures
        !greach(b.graph, b.garden.herb_types, (0u64, b.graph.entry), c, n),
{
    if greach(b.graph, b.garden.herb_types, (0u64, b.graph.entry), c, n) {
        lemma_compressed_route_is_direct_route(b, c, n);
        lemma_walled_off_herb(b.garden, t, c as nat);
    }
}

/// On a finished builder, a state that the direct search reaches in `n` steps is matched
/// by a route of the waypoint graph: one to a node `u` with the same herbs left, of cost
/// `c`, from whose cell a walk of `l` steps leads to the state's cell, with `c + l <= n`.
/// A herb node `u` has its own letter crossed off.
proof fn lemma_route_lowers(b: GraphBuilder, s: SearchState, n: nat) -> (r: (usize, int, nat, nat))
    requires
        b.wf(),
        b.queue@.len() == 0,
        b.next == b.graph.nodes@.len(),
        reach(b.garden, s, n),
        n < usize::MAX,
    ensures
        r.0 < b.graph.nodes@.len(),
        greach(b.graph, b.garden.herb_types, (s.0, r.0), r.1, r.3),
        walk(b.garden, b.graph.nodes@[r.0 as int], s.1, r.2),
        r.1 >= 0,
        r.1 + r.2 <= n,
        r.0 == b.graph.entry || (b.graph.kinds@[r.0 as int] is Some && !has_bit(
            s.0,
            b.graph.kinds@[r.0 as int]->0 as u64,
        )),
    decreases n,
{
    let g = b.garden;
    let gr = b.graph;
    let hm = g.herb_types;
    if n == 0 {
        assert(walk(g, gr.nodes@[gr.entry as int], s.1, 0));
        assert(greach(gr, hm, (s.0, gr.entry), 0, 0));
        (gr.entry, 0, 0, 0)
    } else {
        let p = choose|p: SearchState| reach(g, p, (n - 1) as nat) && #[trigger] g.successors(p).contains(s);
        let (u, c, l, k) = lemma_route_lowers(b, p, (n - 1) as nat);
        let sc = g.successors(p);
        let j = choose|j: int| 0 <= j < sc.len() && sc[j] == s;
        let adj = g.adjacent(p.1);
        let y = adj[j];
        let yi = (y.0 as int, y.1 as int);
        assert(s == (g.mask_after(p.0, yi), y));
        assert(adj.contains(y));
        assert(walk(g, gr.nodes@[u as int], y, l + 1));
        assert(g.navigable(yi)) by {
            assert(g.keep((p.1.0 - 1, p.1.1 as int)).contains(y) || g.keep((p.1.0 + 1, p.1.1 as int)).contains(y)
                || g.keep((p.1.0 as int, p.1.1 - 1)).contains(y) || g.keep((p.1.0 as int, p.1.1 + 1)).contains(y));
        }
        let pm = p.0;
        match g.cell(yi) {
            Cell::Herb(h) => {
                assert(h < 26);
                let hb = h as u64;
                if has_bit(pm, hb) {
                    let v = b.node_at@[yi.0]@[yi.1]->0;
                    assert(b.node_at@[yi.0]@[yi.1] is Some);
                    assert(v < gr.nodes@.len() && gr.nodes@[v as int] == y);
                    assert(v != gr.entry) by {
                        if v == gr.entry {
                            assert(g.grid@[0]@[g.start.1 as int] == Cell::Open);
                        }
                    }
                    assert(gr.kinds@[v as int] is Some);
                    assert(g.cell(yi) == Cell::Herb(gr.kinds@[v as int]->0));
                    assert(gr.kinds@[v as int] == Some(h));
                    if u != gr.entry {
                        let hu = gr.kinds@[u as int]->0;
                        assert(!has_bit(pm, hu as u64));
                        assert(hu != h);
                    }
                    assert(gr.kinds@[u as int] != gr.kinds@[v as int]);
                    b.lemma_finished_complete(u as int);
                    assert(complete_from(g, gr, gr.edges@[u as int]@, u as int));
                    assert(walk(g, gr.nodes@[u as int], gr.nodes@[v as int], l + 1));
                    assert(has_edge(gr.edges@[u as int]@, v as int));
                    let es = gr.edges@[u as int]@;
                    let i = choose|i: int| 0 <= i < es.len() && (#[trigger] es[i]).1 == v as int;
                    let w = es[i].0;
                    assert(w <= l + 1);
                    assert(s.0 == pm & !(1u64 << hb));
                    assert(gmove(gr, pm, v as int) == Some(s.0));
                    assert(gstep(gr, (pm, u), i, (s.0, v)));
                    assert(greach(gr, hm, (s.0, v), c + w, k + 1));
                    assert(walk(g, gr.nodes@[v as int], s.1, 0));
                    assert(!has_bit(pm & !(1u64 << hb), hb)) by {
                        assert((pm & !(1u64 << hb)) & (1u64 << hb) == 0) by (bit_vector)
                            requires
                                hb < 64,
                        ;
                    }
                    (v, c + w, 0, k + 1)
                } else {
                    assert(pm & !(1u64 << hb) == pm) by (bit_vector)
                        requires
                            hb < 64,
                            !(pm & (1u64 << hb) != 0),
                    ;
                    (u, c, l + 1, k)
                }
            },
            _ => (u, c, l + 1, k),
        }
    }
}

/// On a finished builder, a route of `n` steps from the start to the goal of the direct
/// search is matched by a route of the waypoint graph back to the entry with every herb
/// collected, at a cost of at most `n`: so the compressed search never reports more than
/// the direct one.
pub proof fn lemma_direct_route_is_compressed_route(b: GraphBuilder, n: nat) -> (r: (int, nat))
    requires
        b.wf(),
        b.queue@.len() == 0,
        b.next == b.graph.nodes@.len(),
        reach(b.garden, (0u64, b.garden.start), n),
        n < usize::MAX,
    ensures
        r.0 <= n,
        greach(b.graph, b.garden.herb_types, (0u64, b.graph.entry), r.0, r.1),
{
    let g = b.garden;
    let gr = b.graph;
    let (u, c, l, k) = lemma_route_lowers(b, (0u64, g.start), n);
    if u == gr.entry {
        (c, k)
    } else {
        assert(gr.kinds@[u as int] is Some);
        assert(gr.kinds@[u as int] != gr.kinds@[gr.entry as int]);
        b.lemma_finished_complete(u as int);
        assert(walk(g, gr.nodes@[u as int], gr.nodes@[gr.entry as int], l));
        assert(has_edge(gr.edges@[u as int]@, gr.entry as int));
        let es = gr.edges@[u as int]@;
        let i = choose|i: int| 0 <= i < es.len() && (#[trigger] es[i]).1 == gr.entry as int;
        let w = es[i].0;
        assert(w <= l);
        assert(gstep(gr, (0u64, u), i, (0u64, gr.entry)));
        assert(greach(gr, g.herb_types, (0u64, gr.entry), c + w, k + 1));
        (c + w, k + 1)
    }
}

} // verus!
