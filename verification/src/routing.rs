//! Shortest-path routing over the active links (link-state routing): every
//! node learns, for each destination it can reach, the cost of a cheapest
//! route and the first hop of one.

use vstd::prelude::*;
use vstd::set_lib::*;
use crate::network::{NetworkLink, NetworkNode, spec_route_weight};
use crate::table::RoutingTable;

verus! {

// ---------------------------------------------------------------------
// The graph that a node list of length `n` and a link list describe
// ---------------------------------------------------------------------

/// Link `l` is usable and joins `u` and `v` (either way round) at routing
/// cost `w`.
pub open spec fn link_joins(n: int, l: NetworkLink, u: int, v: int, w: int) -> bool {
    &&& l.is_active
    &&& l.node_a < n && l.node_b < n
    &&& w == spec_route_weight(l.link_type)
    &&& ((l.node_a == u && l.node_b == v) || (l.node_a == v && l.node_b == u))
}

/// One step from `u` to `v` of cost `w` over some active link.
pub open spec fn hop(n: int, links: Seq<NetworkLink>, u: int, v: int, w: int) -> bool {
    exists|i: int| 0 <= i < links.len() && link_joins(n, #[trigger] links[i], u, v, w)
}

/// The total cost of a sequence of hop costs.
pub open spec fn walk_cost(ws: Seq<int>) -> int
    decreases ws.len(),
{
    if ws.len() == 0 {
        0
    } else {
        walk_cost(ws.drop_last()) + ws.last()
    }
}

/// `p` visits nodes from `s` to `t`; hop `i` goes from `p[i]` to `p[i + 1]`
/// at cost `ws[i]`.
pub open spec fn is_route(
    n: int,
    links: Seq<NetworkLink>,
    p: Seq<int>,
    ws: Seq<int>,
    s: int,
    t: int,
) -> bool {
    &&& p.len() == ws.len() + 1
    &&& p[0] == s
    &&& p[p.len() - 1] == t
    &&& forall|i: int| 0 <= i < ws.len() ==> hop(n, links, p[i], p[i + 1], #[trigger] ws[i])
}

pub open spec fn reachable(n: int, links: Seq<NetworkLink>, s: int, t: int) -> bool {
    exists|p: Seq<int>, ws: Seq<int>| #[trigger] is_route(n, links, p, ws, s, t)
}

/// `c` is the cost of a cheapest route from `s` to `t`.
pub open spec fn is_shortest(n: int, links: Seq<NetworkLink>, s: int, t: int, c: int) -> bool {
    &&& exists|p: Seq<int>, ws: Seq<int>| #[trigger]
        is_route(n, links, p, ws, s, t) && walk_cost(ws) == c
    &&& forall|p: Seq<int>, ws: Seq<int>| #[trigger]
        is_route(n, links, p, ws, s, t) ==> c <= walk_cost(ws)
}

/// `h` is the node right after `s` on some cheapest route from `s` to `t`.
pub open spec fn is_first_hop(n: int, links: Seq<NetworkLink>, s: int, t: int, h: int) -> bool {
    exists|p: Seq<int>, ws: Seq<int>| #[trigger]
        is_route(n, links, p, ws, s, t) && p.len() >= 2 && p[1] == h && is_shortest(
            n,
            links,
            s,
            t,
            walk_cost(ws),
        )
}

// ---------------------------------------------------------------------
// Facts about hops and walks
// ---------------------------------------------------------------------

proof fn lemma_hop_weight(n: int, links: Seq<NetworkLink>, u: int, v: int, w: int)
    requires
        hop(n, links, u, v, w),
    ensures
        1 <= w <= 3,
        0 <= u < n,
        0 <= v < n,
{
    let i = choose|i: int| 0 <= i < links.len() && link_joins(n, #[trigger] links[i], u, v, w);
    assert(link_joins(n, links[i], u, v, w));
}

proof fn lemma_hop_symmetric(n: int, links: Seq<NetworkLink>, u: int, v: int, w: int)
    requires
        hop(n, links, u, v, w),
    ensures
        hop(n, links, v, u, w),
{
    let i = choose|i: int| 0 <= i < links.len() && link_joins(n, #[trigger] links[i], u, v, w);
    assert(link_joins(n, links[i], v, u, w));
}

proof fn lemma_walk_cost_push(ws: Seq<int>, w: int)
    ensures
        walk_cost(ws.push(w)) == walk_cost(ws) + w,
{
    assert(ws.push(w).drop_last() =~= ws);
}

proof fn lemma_walk_cost_take_step(ws: Seq<int>, i: int)
    requires
        0 <= i < ws.len(),
    ensures
        walk_cost(ws.take(i + 1)) == walk_cost(ws.take(i)) + ws[i],
{
    assert(ws.take(i + 1).drop_last() =~= ws.take(i));
}

/// Costs of the hops of a route lie in `1..=3`.
pub open spec fn weights_in_range(ws: Seq<int>) -> bool {
    forall|i: int| 0 <= i < ws.len() ==> 1 <= #[trigger] ws[i] <= 3
}

proof fn lemma_route_weights(n: int, links: Seq<NetworkLink>, p: Seq<int>, ws: Seq<int>, s: int, t: int)
    requires
        is_route(n, links, p, ws, s, t),
    ensures
        weights_in_range(ws),
        forall|i: int| 1 <= i < p.len() ==> 0 <= #[trigger] p[i] < n,
{
    assert forall|i: int| 0 <= i < ws.len() implies 1 <= #[trigger] ws[i] <= 3 by {
        lemma_hop_weight(n, links, p[i], p[i + 1], ws[i]);
    }
    assert forall|i: int| 1 <= i < p.len() implies 0 <= #[trigger] p[i] < n by {
        lemma_hop_weight(n, links, p[i - 1], p[i], ws[i - 1]);
    }
}

proof fn lemma_walk_cost_bounds(ws: Seq<int>)
    requires
        weights_in_range(ws),
    ensures
        ws.len() <= walk_cost(ws) <= 3 * ws.len(),
    decreases ws.len(),
{
    if ws.len() > 0 {
        assert(weights_in_range(ws.drop_last()));
        lemma_walk_cost_bounds(ws.drop_last());
    }
}

proof fn lemma_walk_cost_prefix(ws: Seq<int>, i: int)
    requires
        weights_in_range(ws),
        0 <= i <= ws.len(),
    ensures
        walk_cost(ws.take(i)) <= walk_cost(ws),
    decreases ws.len() - i,
{
    if i < ws.len() {
        lemma_walk_cost_take_step(ws, i);
        lemma_walk_cost_prefix(ws, i + 1);
        assert(ws.take(ws.len() as int) =~= ws);
    } else {
        assert(ws.take(i) =~= ws);
    }
}

/// A sequence of distinct node indices below `n` has at most `n` entries.
proof fn lemma_distinct_len(p: Seq<int>, n: int)
    requires
        p.no_duplicates(),
        forall|i: int| 0 <= i < p.len() ==> 0 <= #[trigger] p[i] < n,
        0 <= n,
    ensures
        p.len() <= n,
{
    p.unique_seq_to_set();
    lemma_int_range(0, n);
    assert(p.to_set().subset_of(set_int_range(0, n)));
    lemma_len_subset(p.to_set(), set_int_range(0, n));
}

// ---------------------------------------------------------------------
// Directed arcs: each usable link gives one arc each way
// ---------------------------------------------------------------------

pub type Arc = (usize, usize, u32);

pub open spec fn arcs_sound(n: int, links: Seq<NetworkLink>, arcs: Seq<Arc>) -> bool {
    forall|k: int|
        0 <= k < arcs.len() ==> hop(n, links, (#[trigger] arcs[k]).0 as int, arcs[k].1 as int, arcs[k].2 as int)
}

pub open spec fn arcs_complete(n: int, links: Seq<NetworkLink>, arcs: Seq<Arc>) -> bool {
    forall|u: int, v: int, w: int|
        #[trigger] hop(n, links, u, v, w) ==> exists|k: int|
            0 <= k < arcs.len() && (#[trigger] arcs[k]).0 == u && arcs[k].1 == v && arcs[k].2 == w
}

fn build_arcs(n: usize, links: &Vec<NetworkLink>) -> (arcs: Vec<Arc>)
    ensures
        arcs_sound(n as int, links@, arcs@),
        arcs_complete(n as int, links@, arcs@),
{
    let mut arcs: Vec<Arc> = Vec::new();
    let mut i: usize = 0;
    while i < links.len()
        invariant
            i <= links.len(),
            arcs_sound(n as int, links@, arcs@),
            forall|j: int, u: int, v: int, w: int|
                0 <= j < i && #[trigger] link_joins(n as int, links@[j], u, v, w) ==> exists|k: int|
                    0 <= k < arcs.len() && (#[trigger] arcs@[k]).0 == u && arcs@[k].1 == v
                        && arcs@[k].2 == w,
        decreases links.len() - i,
    {
        let l = links[i];
        if l.is_active && l.node_a < n && l.node_b < n {
            let w = l.link_type.route_weight();
            let ghost before = arcs@;
            assert(link_joins(n as int, links@[i as int], l.node_a as int, l.node_b as int, w as int));
            assert(link_joins(n as int, links@[i as int], l.node_b as int, l.node_a as int, w as int));
            arcs.push((l.node_a, l.node_b, w));
            arcs.push((l.node_b, l.node_a, w));
            assert(arcs@ == before.push((l.node_a, l.node_b, w)).push((l.node_b, l.node_a, w)));
            assert forall|j: int, u: int, v: int, ww: int|
                0 <= j < i + 1 && #[trigger] link_joins(n as int, links@[j], u, v, ww) implies exists|k: int|
                    0 <= k < arcs.len() && (#[trigger] arcs@[k]).0 == u && arcs@[k].1 == v
                        && arcs@[k].2 == ww by {
                if j < i {
                    let k = choose|k: int|
                        0 <= k < before.len() && (#[trigger] before[k]).0 == u && before[k].1 == v
                            && before[k].2 == ww;
                    assert(arcs@[k] == before[k]);
                } else {
                    if l.node_a == u && l.node_b == v {
                        assert(arcs@[before.len() as int] == (l.node_a, l.node_b, w));
                    } else {
                        assert(arcs@[before.len() as int + 1] == (l.node_b, l.node_a, w));
                    }
                }
            }
        } else {
            assert forall|j: int, u: int, v: int, ww: int|
                0 <= j < i + 1 && #[trigger] link_joins(n as int, links@[j], u, v, ww) implies exists|k: int|
                    0 <= k < arcs.len() && (#[trigger] arcs@[k]).0 == u && arcs@[k].1 == v
                        && arcs@[k].2 == ww by {
                if j == i {
                    assert(false);
                }
            }
        }
        i = i + 1;
    }
    assert forall|u: int, v: int, w: int| #[trigger] hop(n as int, links@, u, v, w) implies exists|k: int|
        0 <= k < arcs.len() && (#[trigger] arcs@[k]).0 == u && arcs@[k].1 == v && arcs@[k].2 == w by {
        let j = choose|j: int| 0 <= j < links@.len() && link_joins(n as int, #[trigger] links@[j], u, v, w);
        assert(link_joins(n as int, links@[j], u, v, w));
    }
    arcs
}

// ---------------------------------------------------------------------
// Single-source search
// ---------------------------------------------------------------------

pub open spec fn fin(d: u32) -> bool {
    d < u32::MAX
}

/// Every arc out of `u` is relaxed: it offers no cheaper way to its head.
pub open spec fn relaxed(arcs: Seq<Arc>, dist: Seq<u32>, u: int) -> bool {
    forall|k: int|
        0 <= k < arcs.len() && (#[trigger] arcs[k]).0 == u ==> dist[arcs[k].1 as int] <= dist[u]
            + arcs[k].2
}

/// `p`/`ws` is a duplicate-free route from `s` to `v` costing `dist[v]`,
/// and no node on it has a tentative distance above its prefix cost.
pub open spec fn walk_ok(
    n: int,
    links: Seq<NetworkLink>,
    dist: Seq<u32>,
    s: int,
    v: int,
    p: Seq<int>,
    ws: Seq<int>,
) -> bool {
    &&& is_route(n, links, p, ws, s, v)
    &&& walk_cost(ws) == dist[v]
    &&& p.no_duplicates()
    &&& forall|i: int|
        0 <= i < p.len() ==> 0 <= #[trigger] p[i] < n && dist[p[i]] <= walk_cost(ws.take(i))
}

/// The predecessor entry `e` of `v`: a hop `e.0 -> v` costing `e.1`, from a
/// node whose distance is finite and at least `e.1` below that of `v`.
pub open spec fn prev_ok(n: int, links: Seq<NetworkLink>, dist: Seq<u32>, v: int, e: (usize, u32)) -> bool {
    &&& e.0 < n
    &&& hop(n, links, e.0 as int, v, e.1 as int)
    &&& fin(dist[e.0 as int])
    &&& dist[v] >= dist[e.0 as int] + e.1
}

pub open spec fn search_inv(
    n: int,
    links: Seq<NetworkLink>,
    s: int,
    dist: Seq<u32>,
    prev: Seq<Option<(usize, u32)>>,
    walks: Seq<Seq<int>>,
    wws: Seq<Seq<int>>,
) -> bool {
    &&& dist.len() == n && prev.len() == n && walks.len() == n && wws.len() == n
    &&& 0 <= s < n
    &&& 3 * n < u32::MAX
    &&& dist[s] == 0 && prev[s] is None
    &&& forall|v: int|
        0 <= v < n && fin(#[trigger] dist[v]) ==> walk_ok(n, links, dist, s, v, walks[v], wws[v])
            && dist[v] <= 3 * (n - 1)
    &&& forall|v: int| 0 <= v < n && v != s ==> (fin(#[trigger] dist[v]) <==> prev[v] is Some)
    &&& forall|v: int|
        0 <= v < n && (#[trigger] prev[v]) is Some ==> prev_ok(n, links, dist, v, prev[v]->0)
}

pub open spec fn heap_ok(n: int, dist: Seq<u32>, heap: Seq<(usize, u32)>) -> bool {
    forall|k: int|
        0 <= k < heap.len() ==> (#[trigger] heap[k]).0 < n && fin(heap[k].1) && heap[k].1
            >= dist[heap[k].0 as int]
}

/// Every reached node is either still queued at its current distance or
/// has all its arcs relaxed.
pub open spec fn pending_ok(n: int, arcs: Seq<Arc>, dist: Seq<u32>, heap: Seq<(usize, u32)>) -> bool {
    forall|x: int|
        0 <= x < n && fin(#[trigger] dist[x]) ==> heap.contains((x as usize, dist[x])) || relaxed(
            arcs,
            dist,
            x,
        )
}

/// The sum of all tentative distances.
pub open spec fn dist_sum(d: Seq<u32>) -> int
    decreases d.len(),
{
    if d.len() == 0 {
        0
    } else {
        dist_sum(d.drop_last()) + d.last()
    }
}

proof fn lemma_dist_sum_nonneg(d: Seq<u32>)
    ensures
        dist_sum(d) >= 0,
    decreases d.len(),
{
    if d.len() > 0 {
        lemma_dist_sum_nonneg(d.drop_last());
    }
}

proof fn lemma_dist_sum_update(d: Seq<u32>, i: int, x: u32)
    requires
        0 <= i < d.len(),
    ensures
        dist_sum(d.update(i, x)) == dist_sum(d) - d[i] + x,
    decreases d.len(),
{
    if i == d.len() - 1 {
        assert(d.update(i, x).drop_last() =~= d.drop_last());
    } else {
        assert(d.update(i, x).drop_last() =~= d.drop_last().update(i, x));
        lemma_dist_sum_update(d.drop_last(), i, x);
    }
}

proof fn lemma_remove_keeps(h: Seq<(usize, u32)>, m: int, e: (usize, u32))
    requires
        0 <= m < h.len(),
        h.contains(e),
        h[m] != e,
    ensures
        h.remove(m).contains(e),
{
    let j = choose|j: int| 0 <= j < h.len() && h[j] == e;
    if j < m {
        assert(h.remove(m)[j] == e);
    } else {
        assert(h.remove(m)[j - 1] == e);
    }
}

/// Distances that only went down keep walk facts of nodes whose own
/// distance stayed.
proof fn lemma_walk_ok_mono(
    n: int,
    links: Seq<NetworkLink>,
    d1: Seq<u32>,
    d2: Seq<u32>,
    s: int,
    x: int,
    p: Seq<int>,
    ws: Seq<int>,
)
    requires
        walk_ok(n, links, d1, s, x, p, ws),
        d1.len() == n,
        d2.len() == n,
        d2[x] == d1[x],
        forall|y: int| 0 <= y < n ==> #[trigger] d2[y] <= d1[y],
    ensures
        walk_ok(n, links, d2, s, x, p, ws),
{
    assert forall|i: int| 0 <= i < p.len() implies 0 <= #[trigger] p[i] < n && d2[p[i]]
        <= walk_cost(ws.take(i)) by {
        assert(d2[p[i]] <= d1[p[i]]);
    }
}

proof fn lemma_relaxed_mono(n: int, arcs: Seq<Arc>, d1: Seq<u32>, d2: Seq<u32>, x: int)
    requires
        relaxed(arcs, d1, x),
        d1.len() == n,
        d2.len() == n,
        d2[x] == d1[x],
        forall|y: int| 0 <= y < n ==> #[trigger] d2[y] <= d1[y],
        forall|k: int| 0 <= k < arcs.len() ==> (#[trigger] arcs[k]).1 < n,
    ensures
        relaxed(arcs, d2, x),
{
    assert forall|k: int| 0 <= k < arcs.len() && (#[trigger] arcs[k]).0 == x implies d2[arcs[k].1 as int]
        <= d2[x] + arcs[k].2 by {
        assert(d2[arcs[k].1 as int] <= d1[arcs[k].1 as int]);
    }
}

/// Extending the walk of `u` by a cheaper hop to `v` gives a walk of `v`.
proof fn lemma_extend(
    n: int,
    links: Seq<NetworkLink>,
    d1: Seq<u32>,
    s: int,
    u: int,
    v: int,
    w: int,
    pu: Seq<int>,
    wu: Seq<int>,
)
    requires
        walk_ok(n, links, d1, s, u, pu, wu),
        hop(n, links, u, v, w),
        d1[u] + w < d1[v],
        d1.len() == n,
        0 <= v < n,
        0 <= d1[u] + w <= u32::MAX,
    ensures
        walk_ok(n, links, d1.update(v, (d1[u] + w) as u32), s, v, pu.push(v), wu.push(w)),
        pu.push(v).len() <= n,
        d1[u] + w <= 3 * (n - 1),
{
    let d2 = d1.update(v, (d1[u] + w) as u32);
    let pv = pu.push(v);
    let wv = wu.push(w);
    lemma_route_weights(n, links, pu, wu, s, u);
    lemma_hop_weight(n, links, u, v, w);
    // v is not on the walk of u: its distance would be at most d1[u].
    assert forall|i: int| 0 <= i < pu.len() implies pu[i] != v by {
        lemma_walk_cost_prefix(wu, i);
        assert(d1[pu[i]] <= walk_cost(wu.take(i)));
    }
    assert(pv.no_duplicates());
    assert forall|i: int| 0 <= i < wv.len() implies hop(n, links, pv[i], pv[i + 1], #[trigger] wv[i]) by {
        if i < wu.len() {
            assert(pv[i] == pu[i] && pv[i + 1] == pu[i + 1] && wv[i] == wu[i]);
        } else {
            assert(pv[i] == u && pv[i + 1] == v && wv[i] == w);
        }
    }
    assert(is_route(n, links, pv, wv, s, v));
    lemma_walk_cost_push(wu, w);
    assert forall|i: int| 0 <= i < pv.len() implies 0 <= #[trigger] pv[i] < n && d2[pv[i]]
        <= walk_cost(wv.take(i)) by {
        if i < pu.len() {
            assert(wv.take(i) =~= wu.take(i));
            assert(pv[i] == pu[i]);
            assert(pu[i] != v);
        } else {
            assert(wv.take(i) =~= wv);
        }
    }
    assert(walk_ok(n, links, d2, s, v, pv, wv));
    assert(weights_in_range(wv));
    lemma_walk_cost_bounds(wv);
    lemma_distinct_len(pv, n);
}

pub open spec fn search_ok(
    n: int,
    links: Seq<NetworkLink>,
    s: int,
    dist: Seq<u32>,
    prev: Seq<Option<(usize, u32)>>,
) -> bool {
    exists|walks: Seq<Seq<int>>, wws: Seq<Seq<int>>| search_inv(n, links, s, dist, prev, walks, wws)
}

/// Removes and returns a cheapest entry of a non-empty queue.
fn pop_cheapest(heap: &mut Vec<(usize, u32)>) -> (e: (usize, u32))
    requires
        old(heap).len() > 0,
    ensures
        exists|m: int|
            0 <= m < old(heap).len() && e == old(heap)@[m] && final(heap)@ == old(heap)@.remove(m),
        forall|k: int| 0 <= k < old(heap).len() ==> e.1 <= (#[trigger] old(heap)@[k]).1,
{
    let mut m: usize = 0;
    let mut j: usize = 1;
    while j < heap.len()
        invariant
            1 <= j <= heap.len(),
            m < heap.len(),
            forall|k: int| 0 <= k < j ==> heap@[m as int].1 <= (#[trigger] heap@[k]).1,
        decreases heap.len() - j,
    {
        if heap[j].1 < heap[m].1 {
            m = j;
        }
        j = j + 1;
    }
    let e = heap.remove(m);
    e
}

/// Relaxes every arc out of `u`, whose queued distance `c` is current:
/// each head reached more cheaply gets the new distance, `u` as its
/// predecessor and a fresh queue entry.
fn relax_arcs(
    n: usize,
    Ghost(links): Ghost<Seq<NetworkLink>>,
    arcs: &Vec<Arc>,
    s: usize,
    u: usize,
    c: u32,
    dist: &mut Vec<u32>,
    prev: &mut Vec<Option<(usize, u32)>>,
    heap: &mut Vec<(usize, u32)>,
)
    requires
        u < n,
        fin(c),
        old(dist)@[u as int] == c,
        arcs_sound(n as int, links, arcs@),
        search_ok(n as int, links, s as int, old(dist)@, old(prev)@),
        heap_ok(n as int, old(dist)@, old(heap)@),
        forall|x: int|
            0 <= x < n && fin(#[trigger] old(dist)@[x]) && x != u ==> old(heap)@.contains(
                (x as usize, old(dist)@[x]),
            ) || relaxed(arcs@, old(dist)@, x),
    ensures
        search_ok(n as int, links, s as int, final(dist)@, final(prev)@),
        heap_ok(n as int, final(dist)@, final(heap)@),
        pending_ok(n as int, arcs@, final(dist)@, final(heap)@),
        (final(dist)@ == old(dist)@ && final(heap)@ == old(heap)@) || dist_sum(final(dist)@)
            < dist_sum(old(dist)@),
{
    let ghost dist0 = dist@;
    let ghost heap0 = heap@;
    let ghost (w0, ww0) = choose|walks: Seq<Seq<int>>, wws: Seq<Seq<int>>|
        search_inv(n as int, links, s as int, dist@, prev@, walks, wws);
    let ghost mut walks: Seq<Seq<int>> = w0;
    let ghost mut wws: Seq<Seq<int>> = ww0;
    let mut k: usize = 0;
    while k < arcs.len()
        invariant
            u < n,
            fin(c),
            dist@[u as int] == c,
            k <= arcs.len(),
            arcs_sound(n as int, links, arcs@),
            search_inv(n as int, links, s as int, dist@, prev@, walks, wws),
            heap_ok(n as int, dist@, heap@),
            forall|x: int|
                0 <= x < n && fin(#[trigger] dist@[x]) && x != u ==> heap@.contains(
                    (x as usize, dist@[x]),
                ) || relaxed(arcs@, dist@, x),
            forall|k2: int|
                0 <= k2 < k && (#[trigger] arcs@[k2]).0 == u ==> dist@[arcs@[k2].1 as int] <= c
                    + arcs@[k2].2,
            dist0.len() == n,
            (dist@ == dist0 && heap@ == heap0) || dist_sum(dist@) < dist_sum(dist0),
        decreases arcs.len() - k,
    {
        let (a, v, w) = arcs[k];
        assert(arcs@[k as int] == (a, v, w));
        if a == u {
            proof {
                lemma_hop_weight(n as int, links, a as int, v as int, w as int);
            }
            let ghost d1 = dist@;
            assert(walk_ok(n as int, links, d1, s as int, u as int, walks[u as int], wws[u as int]));
            assert(c <= 3 * (n - 1));
            let alt = c + w;
            if alt < dist[v] {
                let ghost d2 = d1.update(v as int, alt);
                let ghost prev1 = prev@;
                let ghost heap1 = heap@;
                proof {
                    lemma_extend(n as int, links, d1, s as int, u as int, v as int, w as int,
                        walks[u as int], wws[u as int]);
                    lemma_dist_sum_update(d1, v as int, alt);
                    assert(v != u);
                    assert(v != s);
                    assert forall|y: int| 0 <= y < n implies #[trigger] d2[y] <= d1[y] by {}
                }
                dist.set(v, alt);
                prev.set(v, Some((u, w)));
                heap.push((v, alt));
                proof {
                    let pv = walks[u as int].push(v as int);
                    let wv = wws[u as int].push(w as int);
                    let walks1 = walks;
                    let wws1 = wws;
                    walks = walks.update(v as int, pv);
                    wws = wws.update(v as int, wv);
                    assert(dist@ == d2);
                    assert forall|x: int|
                        0 <= x < n && fin(#[trigger] d2[x]) implies walk_ok(n as int, links, d2, s as int, x, walks[x], wws[x])
                            && d2[x] <= 3 * (n - 1) by {
                        if x != v {
                            assert(fin(d1[x]));
                            lemma_walk_ok_mono(n as int, links, d1, d2, s as int, x, walks1[x], wws1[x]);
                        }
                    }
                    assert forall|x: int| 0 <= x < n && x != s implies (fin(#[trigger] d2[x]) <==> prev@[x] is Some) by {
                        if x != v {
                            assert(d2[x] == d1[x]);
                            assert(prev@[x] == prev1[x]);
                        }
                    }
                    assert forall|x: int| 0 <= x < n && (#[trigger] prev@[x]) is Some implies prev_ok(n as int, links, d2, x, prev@[x]->0) by {
                        if x != v {
                            assert(prev@[x] == prev1[x]);
                            assert(prev_ok(n as int, links, d1, x, prev1[x]->0));
                            let e = prev1[x]->0;
                            assert(d2[e.0 as int] <= d1[e.0 as int]);
                        } else {
                            assert(prev@[x]->0 == (u, w));
                        }
                    }
                    assert(search_inv(n as int, links, s as int, dist@, prev@, walks, wws));
                    assert forall|kk: int| 0 <= kk < heap@.len() implies (#[trigger] heap@[kk]).0 < n && fin(heap@[kk].1)
                        && heap@[kk].1 >= d2[heap@[kk].0 as int] by {
                        if kk < heap1.len() {
                            assert(heap@[kk] == heap1[kk]);
                            assert(d2[heap1[kk].0 as int] <= d1[heap1[kk].0 as int]);
                        } else {
                            assert(heap@[kk] == (v, alt));
                        }
                    }
                    assert forall|x: int|
                        0 <= x < n && fin(#[trigger] d2[x]) && x != u implies heap@.contains((x as usize, d2[x]))
                            || relaxed(arcs@, d2, x) by {
                        if x == v {
                            assert(heap@[heap1.len() as int] == (v, alt));
                        } else {
                            assert(d2[x] == d1[x]);
                            if heap1.contains((x as usize, d1[x])) {
                                let jj = choose|jj: int| 0 <= jj < heap1.len() && heap1[jj] == (x as usize, d1[x]);
                                assert(heap@[jj] == heap1[jj]);
                            } else {
                                assert forall|kk: int| 0 <= kk < arcs@.len() implies (#[trigger] arcs@[kk]).1 < n by {
                                    lemma_hop_weight(n as int, links, arcs@[kk].0 as int, arcs@[kk].1 as int, arcs@[kk].2 as int);
                                }
                                lemma_relaxed_mono(n as int, arcs@, d1, d2, x);
                            }
                        }
                    }
                    assert forall|k2: int|
                        0 <= k2 < k + 1 && (#[trigger] arcs@[k2]).0 == u implies d2[arcs@[k2].1 as int] <= c
                            + arcs@[k2].2 by {
                        if k2 < k {
                            assert(d2[arcs@[k2].1 as int] <= d1[arcs@[k2].1 as int]);
                        }
                    }
                }
            }
        }
        k = k + 1;
    }
    proof {
        assert(relaxed(arcs@, dist@, u as int));
        assert(search_inv(n as int, links, s as int, dist@, prev@, walks, wws));
    }
}

/// Label-correcting search from `s` with a queue ordered by tentative cost:
/// pops a cheapest entry, skips it if stale, and otherwise relaxes every
/// arc out of its node.
fn search(
    n: usize,
    Ghost(links): Ghost<Seq<NetworkLink>>,
    arcs: &Vec<Arc>,
    s: usize,
) -> (res: (Vec<u32>, Vec<Option<(usize, u32)>>))
    requires
        s < n,
        3 * n < u32::MAX,
        arcs_sound(n as int, links, arcs@),
        arcs_complete(n as int, links, arcs@),
    ensures
        search_done(n as int, links, s as int, res.0@, res.1@),
{
    let mut dist: Vec<u32> = Vec::new();
    let mut prev: Vec<Option<(usize, u32)>> = Vec::new();
    let mut i: usize = 0;
    while i < n
        invariant
            i <= n,
            s < n,
            dist@.len() == i,
            prev@.len() == i,
            forall|j: int| 0 <= j < i ==> #[trigger] dist@[j] == (if j == s { 0u32 } else { u32::MAX }),
            forall|j: int| 0 <= j < i ==> (#[trigger] prev@[j]) is None,
        decreases n - i,
    {
        if i == s {
            dist.push(0);
        } else {
            dist.push(u32::MAX);
        }
        prev.push(None);
        i = i + 1;
    }
    let mut heap: Vec<(usize, u32)> = Vec::new();
    heap.push((s, 0));
    proof {
        let walks: Seq<Seq<int>> = Seq::new(n as nat, |j: int| seq![s as int]);
        let wws: Seq<Seq<int>> = Seq::new(n as nat, |j: int| Seq::<int>::empty());
        assert(walks[s as int] =~= seq![s as int]);
        assert(walk_ok(n as int, links, dist@, s as int, s as int, walks[s as int], wws[s as int])) by {
            assert(wws[s as int].take(0) =~= Seq::<int>::empty());
        }
        assert(heap@[0] == (s, 0u32));
        assert(search_inv(n as int, links, s as int, dist@, prev@, walks, wws));
    }
    while heap.len() > 0
        invariant
            s < n,
            3 * n < u32::MAX,
            arcs_sound(n as int, links, arcs@),
            arcs_complete(n as int, links, arcs@),
            search_ok(n as int, links, s as int, dist@, prev@),
            dist@.len() == n,
            heap_ok(n as int, dist@, heap@),
            pending_ok(n as int, arcs@, dist@, heap@),
        decreases dist_sum(dist@), heap.len(),
    {
        let ghost heap0 = heap@;
        let ghost d_start = dist@;
        let (u, c) = pop_cheapest(&mut heap);
        let ghost m = choose|m: int| 0 <= m < heap0.len() && (u, c) == heap0[m] && heap@ == heap0.remove(m);
        assert(heap0[m] == (u, c));
        assert(heap@.len() == heap0.len() - 1);
        assert(heap0[m].0 < n && fin(c) && c >= dist@[u as int]);
        assert forall|x: int|
            0 <= x < n && fin(#[trigger] dist@[x]) && (x != u || c != dist@[u as int]) implies heap@.contains(
            (x as usize, dist@[x]),
        ) || relaxed(arcs@, dist@, x) by {
            if heap0.contains((x as usize, dist@[x])) {
                lemma_remove_keeps(heap0, m, (x as usize, dist@[x]));
            }
        }
        assert forall|k: int| 0 <= k < heap@.len() implies (#[trigger] heap@[k]).0 < n && fin(
            heap@[k].1,
        ) && heap@[k].1 >= dist@[heap@[k].0 as int] by {
            if k < m {
                assert(heap@[k] == heap0[k]);
            } else {
                assert(heap@[k] == heap0[k + 1]);
            }
        }
        if c == dist[u] {
            let ghost d_before = dist@;
            let ghost h_before = heap@;
            relax_arcs(n, Ghost(links), arcs, s, u, c, &mut dist, &mut prev, &mut heap);
            assert((dist@ == d_before && heap@.len() < heap0.len()) || dist_sum(dist@) < dist_sum(d_before));
        }
        proof {
            lemma_dist_sum_nonneg(dist@);
        }
        assert(dist_sum(dist@) < dist_sum(d_start) || (dist_sum(dist@) == dist_sum(d_start) && heap.len() < heap0.len()));
    }
    proof {
        assert forall|x: int| 0 <= x < n && fin(#[trigger] dist@[x]) implies relaxed(arcs@, dist@, x) by {
            assert(!heap@.contains((x as usize, dist@[x])));
        }
        lemma_search_done(n as int, links, arcs@, s as int, dist@, prev@);
    }
    (dist, prev)
}

/// What a finished search establishes about distances and predecessors.
pub open spec fn search_done(
    n: int,
    links: Seq<NetworkLink>,
    s: int,
    dist: Seq<u32>,
    prev: Seq<Option<(usize, u32)>>,
) -> bool {
    &&& dist.len() == n && prev.len() == n
    &&& 0 <= s < n
    &&& 3 * n < u32::MAX
    &&& dist[s] == 0 && prev[s] is None
    &&& forall|t: int| 0 <= t < n ==> (fin(#[trigger] dist[t]) <==> reachable(n, links, s, t))
    &&& forall|t: int|
        0 <= t < n && fin(#[trigger] dist[t]) ==> is_shortest(n, links, s, t, dist[t] as int)
    &&& forall|t: int| 0 <= t < n && v_ne(t, s) ==> (fin(#[trigger] dist[t]) <==> prev[t] is Some)
    &&& forall|t: int|
        0 <= t < n && (#[trigger] prev[t]) is Some ==> {
            let e = prev[t]->0;
            &&& e.0 < n
            &&& hop(n, links, e.0 as int, t, e.1 as int)
            &&& fin(dist[e.0 as int])
            &&& dist[t] == dist[e.0 as int] + e.1
        }
}

pub open spec fn v_ne(a: int, b: int) -> bool {
    a != b
}

/// Once every reached node is relaxed, no route is cheaper than the
/// distance of any node on it.
proof fn lemma_route_prefix_bound(
    n: int,
    links: Seq<NetworkLink>,
    arcs: Seq<Arc>,
    s: int,
    dist: Seq<u32>,
    p: Seq<int>,
    ws: Seq<int>,
    t: int,
    i: int,
)
    requires
        arcs_complete(n, links, arcs),
        forall|x: int| 0 <= x < n && fin(#[trigger] dist[x]) ==> relaxed(arcs, dist, x),
        forall|x: int| 0 <= x < n && fin(#[trigger] dist[x]) ==> dist[x] <= 3 * (n - 1),
        dist.len() == n,
        0 <= s < n,
        dist[s] == 0,
        3 * n < u32::MAX,
        is_route(n, links, p, ws, s, t),
        0 <= i < p.len(),
    ensures
        0 <= p[i] < n,
        fin(dist[p[i]]),
        dist[p[i]] <= walk_cost(ws.take(i)),
    decreases i,
{
    if i == 0 {
        assert(ws.take(0) =~= Seq::<int>::empty());
    } else {
        lemma_route_prefix_bound(n, links, arcs, s, dist, p, ws, t, i - 1);
        let a = p[i - 1];
        let b = p[i];
        let w = ws[i - 1];
        assert(hop(n, links, a, b, w));
        lemma_hop_weight(n, links, a, b, w);
        let k = choose|k: int| 0 <= k < arcs.len() && (#[trigger] arcs[k]).0 == a && arcs[k].1 == b && arcs[k].2 == w;
        assert(relaxed(arcs, dist, a));
        assert(dist[arcs[k].1 as int] <= dist[a] + arcs[k].2);
        lemma_walk_cost_take_step(ws, i - 1);
    }
}

proof fn lemma_search_done(
    n: int,
    links: Seq<NetworkLink>,
    arcs: Seq<Arc>,
    s: int,
    dist: Seq<u32>,
    prev: Seq<Option<(usize, u32)>>,
)
    requires
        arcs_complete(n, links, arcs),
        search_ok(n, links, s, dist, prev),
        forall|x: int| 0 <= x < n && fin(#[trigger] dist[x]) ==> relaxed(arcs, dist, x),
    ensures
        search_done(n, links, s, dist, prev),
{
    let (walks, wws) = choose|walks: Seq<Seq<int>>, wws: Seq<Seq<int>>|
        search_inv(n, links, s, dist, prev, walks, wws);
    assert(search_inv(n, links, s, dist, prev, walks, wws));
    assert forall|t: int| 0 <= t < n implies (fin(#[trigger] dist[t]) <==> reachable(n, links, s, t)) by {
        if fin(dist[t]) {
            assert(walk_ok(n, links, dist, s, t, walks[t], wws[t]));
            assert(is_route(n, links, walks[t], wws[t], s, t));
        }
        if reachable(n, links, s, t) {
            let (p, ws) = choose|p: Seq<int>, ws: Seq<int>| #[trigger] is_route(n, links, p, ws, s, t);
            lemma_route_prefix_bound(n, links, arcs, s, dist, p, ws, t, p.len() - 1);
        }
    }
    assert forall|t: int| 0 <= t < n && fin(#[trigger] dist[t]) implies is_shortest(n, links, s, t, dist[t] as int) by {
        assert(walk_ok(n, links, dist, s, t, walks[t], wws[t]));
        assert(is_route(n, links, walks[t], wws[t], s, t) && walk_cost(wws[t]) == dist[t]);
        assert forall|p: Seq<int>, ws: Seq<int>| #[trigger] is_route(n, links, p, ws, s, t) implies dist[t] <= walk_cost(ws) by {
            lemma_route_prefix_bound(n, links, arcs, s, dist, p, ws, t, p.len() - 1);
            assert(ws.take(ws.len() as int) =~= ws);
        }
    }
    assert forall|t: int| 0 <= t < n && v_ne(t, s) implies (fin(#[trigger] dist[t]) <==> prev[t] is Some) by {
        assert(t != s);
    }
    assert forall|t: int| 0 <= t < n && (#[trigger] prev[t]) is Some implies {
        let e = prev[t]->0;
        &&& e.0 < n
        &&& hop(n, links, e.0 as int, t, e.1 as int)
        &&& fin(dist[e.0 as int])
        &&& dist[t] == dist[e.0 as int] + e.1
    } by {
        let e = prev[t]->0;
        assert(prev_ok(n, links, dist, t, e));
        assert(hop(n, links, e.0 as int, t, e.1 as int));
        let k = choose|k: int| 0 <= k < arcs.len() && (#[trigger] arcs[k]).0 == e.0 && arcs[k].1 == t && arcs[k].2 == e.1;
        assert(relaxed(arcs, dist, e.0 as int));
        assert(dist[arcs[k].1 as int] <= dist[e.0 as int] + arcs[k].2);
    }
}

proof fn lemma_walk_cost_prepend(w: int, ws: Seq<int>)
    ensures
        walk_cost(seq![w] + ws) == w + walk_cost(ws),
    decreases ws.len(),
{
    let full = seq![w] + ws;
    if ws.len() == 0 {
        assert(full.drop_last() =~= Seq::<int>::empty());
        assert(full.last() == w);
        assert(walk_cost(full.drop_last()) == 0);
    } else {
        assert(full.drop_last() =~= seq![w] + ws.drop_last());
        assert(full.last() == ws.last());
        lemma_walk_cost_prepend(w, ws.drop_last());
    }
}

/// A hop `a -> p[0]` in front of a route from `p[0]` gives a route from `a`.
proof fn lemma_route_prepend(
    n: int,
    links: Seq<NetworkLink>,
    a: int,
    w: int,
    p: Seq<int>,
    ws: Seq<int>,
    t: int,
)
    requires
        is_route(n, links, p, ws, p[0], t),
        hop(n, links, a, p[0], w),
    ensures
        is_route(n, links, seq![a] + p, seq![w] + ws, a, t),
        walk_cost(seq![w] + ws) == w + walk_cost(ws),
{
    let p2 = seq![a] + p;
    let w2 = seq![w] + ws;
    assert forall|i: int| 0 <= i < w2.len() implies hop(n, links, p2[i], p2[i + 1], #[trigger] w2[i]) by {
        if i == 0 {
            assert(p2[0] == a && p2[1] == p[0] && w2[0] == w);
        } else {
            assert(p2[i] == p[i - 1] && p2[i + 1] == p[i] && w2[i] == ws[i - 1]);
        }
    }
    lemma_walk_cost_prepend(w, ws);
}

/// The first hop from `s` towards `t`, found by following predecessors
/// back from `t` until the one whose predecessor is `s`.
fn first_hop(
    n: usize,
    Ghost(links): Ghost<Seq<NetworkLink>>,
    s: usize,
    dist: &Vec<u32>,
    prev: &Vec<Option<(usize, u32)>>,
    t: usize,
) -> (h: Option<usize>)
    requires
        search_done(n as int, links, s as int, dist@, prev@),
        t < n,
        t != s,
    ensures
        h is Some <==> fin(dist@[t as int]),
        h matches Some(x) ==> is_first_hop(n as int, links, s as int, t as int, x as int),
{
    let mut curr = t;
    let ghost mut sp: Seq<int> = seq![t as int];
    let ghost mut sws: Seq<int> = Seq::empty();
    loop
        invariant
            search_done(n as int, links, s as int, dist@, prev@),
            t < n,
            t != s,
            curr < n,
            curr != s,
            curr == t || fin(dist@[curr as int]),
            sp[0] == curr,
            is_route(n as int, links, sp, sws, curr as int, t as int),
            walk_cost(sws) + dist@[curr as int] == dist@[t as int],
        decreases dist@[curr as int],
    {
        assert(v_ne(curr as int, s as int));
        match prev[curr] {
            None => {
                assert(curr == t);
                return None;
            },
            Some((pn, w)) => {
                assert(prev@[curr as int] is Some);
                proof {
                    lemma_hop_weight(n as int, links, pn as int, curr as int, w as int);
                    lemma_route_prepend(n as int, links, pn as int, w as int, sp, sws, t as int);
                }
                if pn == s {
                    proof {
                        let fp = seq![s as int] + sp;
                        let fw = seq![w as int] + sws;
                        assert(fin(dist@[t as int]));
                        assert(is_route(n as int, links, fp, fw, s as int, t as int));
                        assert(walk_cost(fw) == dist@[t as int]);
                        assert(fp[1] == curr);
                        assert(is_shortest(n as int, links, s as int, t as int, walk_cost(fw)));
                    }
                    return Some(curr);
                }
                proof {
                    sp = seq![pn as int] + sp;
                    sws = seq![w as int] + sws;
                }
                curr = pn;
            },
        }
    }
}

/// Node `d` is another node, with address `ip`, that `s` can reach.
pub open spec fn route_target(
    nodes: Seq<NetworkNode>,
    links: Seq<NetworkLink>,
    s: int,
    ip: u32,
    d: int,
) -> bool {
    &&& 0 <= d < nodes.len()
    &&& d != s
    &&& nodes[d].ip == ip
    &&& reachable(nodes.len() as int, links, s, d)
}

/// `d` is the last node below `upto` that is a route target for `ip`.
pub open spec fn last_target_below(
    nodes: Seq<NetworkNode>,
    links: Seq<NetworkLink>,
    s: int,
    ip: u32,
    d: int,
    upto: int,
) -> bool {
    &&& route_target(nodes, links, s, ip, d)
    &&& d < upto
    &&& forall|d2: int| d < d2 < upto ==> !#[trigger] route_target(nodes, links, s, ip, d2)
}

/// The maps hold exactly one entry per address of a node below `upto` that
/// `s` reaches: the cost of a cheapest route to the last such node and the
/// first hop of one.
pub open spec fn table_agrees(
    nodes: Seq<NetworkNode>,
    links: Seq<NetworkLink>,
    s: int,
    hops: Map<u32, usize>,
    costs: Map<u32, u32>,
    upto: int,
) -> bool {
    &&& forall|ip: u32| #[trigger] hops.dom().contains(ip) <==> costs.dom().contains(ip)
    &&& forall|ip: u32|
        #[trigger] costs.dom().contains(ip) <==> exists|d: int|
            d < upto && #[trigger] route_target(nodes, links, s, ip, d)
    &&& forall|ip: u32, d: int|
        costs.dom().contains(ip) && #[trigger] last_target_below(nodes, links, s, ip, d, upto) ==> {
            &&& is_shortest(nodes.len() as int, links, s, d, costs[ip] as int)
            &&& is_first_hop(nodes.len() as int, links, s, d, hops[ip] as int)
        }
}

/// The routing table of node `s`.
pub open spec fn table_correct(
    nodes: Seq<NetworkNode>,
    links: Seq<NetworkLink>,
    s: int,
    table: RoutingTable,
) -> bool {
    table_agrees(nodes, links, s, table.hops(), table.costs(), nodes.len() as int)
}

fn build_table(
    nodes: &Vec<NetworkNode>,
    Ghost(links): Ghost<Seq<NetworkLink>>,
    s: usize,
    dist: &Vec<u32>,
    prev: &Vec<Option<(usize, u32)>>,
) -> (table: RoutingTable)
    requires
        search_done(nodes.len() as int, links, s as int, dist@, prev@),
    ensures
        table_correct(nodes@, links, s as int, table),
{
    let n = nodes.len();
    let mut table = RoutingTable::new();
    let mut d: usize = 0;
    while d < n
        invariant
            n == nodes.len(),
            d <= n,
            search_done(n as int, links, s as int, dist@, prev@),
            table_agrees(nodes@, links, s as int, table.hops(), table.costs(), d as int),
        decreases n - d,
    {
        let ghost h0 = table.hops();
        let ghost c0 = table.costs();
        let mut found = false;
        if d != s {
            let hop_opt = first_hop(n, Ghost(links), s, dist, prev, d);
            assert(fin(dist@[d as int]) <==> reachable(n as int, links, s as int, d as int));
            if let Some(h) = hop_opt {
                let ip = nodes[d].ip;
                table.set_route(ip, h);
                table.set_cost(ip, dist[d]);
                found = true;
                proof {
                    assert(route_target(nodes@, links, s as int, ip, d as int));
                    assert forall|ip2: u32| #[trigger] table.hops().dom().contains(ip2) <==> table.costs().dom().contains(ip2) by {
                        if ip2 != ip {
                            assert(h0.dom().contains(ip2) <==> c0.dom().contains(ip2));
                        }
                    }
                    assert forall|ip2: u32| #[trigger] table.costs().dom().contains(ip2) <==> exists|dd: int|
                        dd < d + 1 && #[trigger] route_target(nodes@, links, s as int, ip2, dd) by {
                        if ip2 != ip {
                            if exists|dd: int| dd < d + 1 && #[trigger] route_target(nodes@, links, s as int, ip2, dd) {
                                let dd = choose|dd: int| dd < d + 1 && #[trigger] route_target(nodes@, links, s as int, ip2, dd);
                                assert(dd != d);
                                assert(c0.dom().contains(ip2));
                            }
                            if c0.dom().contains(ip2) {
                                let dd = choose|dd: int| dd < d && #[trigger] route_target(nodes@, links, s as int, ip2, dd);
                                assert(dd < d + 1 && route_target(nodes@, links, s as int, ip2, dd));
                            }
                        } else {
                            assert(d < d + 1 && route_target(nodes@, links, s as int, ip2, d as int));
                        }
                    }
                    assert forall|ip2: u32, dd: int|
                        table.costs().dom().contains(ip2) && #[trigger] last_target_below(nodes@, links, s as int, ip2, dd, d + 1) implies {
                            &&& is_shortest(n as int, links, s as int, dd, table.costs()[ip2] as int)
                            &&& is_first_hop(n as int, links, s as int, dd, table.hops()[ip2] as int)
                        } by {
                        if ip2 == ip {
                            if dd != d {
                                assert(!route_target(nodes@, links, s as int, ip2, d as int));
                            }
                        } else {
                            assert(!route_target(nodes@, links, s as int, ip2, d as int));
                            assert(last_target_below(nodes@, links, s as int, ip2, dd, d as int));
                            assert(c0.dom().contains(ip2));
                        }
                    }
                }
            }
        }
        proof {
            if !found {
                assert forall|ip2: u32| !#[trigger] route_target(nodes@, links, s as int, ip2, d as int) by {}
                assert forall|ip2: u32| #[trigger] table.costs().dom().contains(ip2) <==> exists|dd: int|
                    dd < d + 1 && #[trigger] route_target(nodes@, links, s as int, ip2, dd) by {
                    if exists|dd: int| dd < d + 1 && #[trigger] route_target(nodes@, links, s as int, ip2, dd) {
                        let dd = choose|dd: int| dd < d + 1 && #[trigger] route_target(nodes@, links, s as int, ip2, dd);
                        assert(dd != d);
                        assert(dd < d && route_target(nodes@, links, s as int, ip2, dd));
                    }
                }
                assert forall|ip2: u32, dd: int|
                    table.costs().dom().contains(ip2) && #[trigger] last_target_below(nodes@, links, s as int, ip2, dd, d + 1) implies {
                        &&& is_shortest(n as int, links, s as int, dd, table.costs()[ip2] as int)
                        &&& is_first_hop(n as int, links, s as int, dd, table.hops()[ip2] as int)
                    } by {
                    assert(last_target_below(nodes@, links, s as int, ip2, dd, d as int));
                }
            }
        }
        d = d + 1;
    }
    table
}

/// Recomputes every node's routing table: for each node, each other node it
/// can reach over active links gets an entry under its IP address with the
/// cost of a cheapest route and the first hop of such a route.
pub fn update_routing_tables(nodes: &Vec<NetworkNode>, links: &Vec<NetworkLink>) -> (tables: Vec<
    RoutingTable,
>)
    requires
        3 * nodes.len() < u32::MAX,
    ensures
        tables.len() == nodes.len(),
        forall|s: int| 0 <= s < nodes.len() ==> table_correct(nodes@, links@, s, #[trigger] tables@[s]),
{
    let n = nodes.len();
    let arcs = build_arcs(n, links);
    let mut tables: Vec<RoutingTable> = Vec::new();
    let mut s: usize = 0;
    while s < n
        invariant
            n == nodes.len(),
            3 * n < u32::MAX,
            s <= n,
            arcs_sound(n as int, links@, arcs@),
            arcs_complete(n as int, links@, arcs@),
            tables.len() == s,
            forall|i: int| 0 <= i < s ==> table_correct(nodes@, links@, i, #[trigger] tables@[i]),
        decreases n - s,
    {
        let (dist, prev) = search(n, Ghost(links@), &arcs, s);
        let table = build_table(nodes, Ghost(links@), s, &dist, &prev);
        tables.push(table);
        s = s + 1;
    }
    tables
}

// ---------------------------------------------------------------------
// Laws
// ---------------------------------------------------------------------

proof fn lemma_walk_cost_reverse(ws: Seq<int>)
    ensures
        walk_cost(ws.reverse()) == walk_cost(ws),
    decreases ws.len(),
{
    if ws.len() > 0 {
        assert(ws.reverse() =~= seq![ws.last()] + ws.drop_last().reverse());
        lemma_walk_cost_prepend(ws.last(), ws.drop_last().reverse());
        lemma_walk_cost_reverse(ws.drop_last());
    }
}

proof fn lemma_route_reverse(n: int, links: Seq<NetworkLink>, p: Seq<int>, ws: Seq<int>, a: int, b: int)
    requires
        is_route(n, links, p, ws, a, b),
    ensures
        is_route(n, links, p.reverse(), ws.reverse(), b, a),
        walk_cost(ws.reverse()) == walk_cost(ws),
{
    let rp = p.reverse();
    let rw = ws.reverse();
    let m = ws.len() as int;
    assert forall|i: int| 0 <= i < rw.len() implies hop(n, links, rp[i], rp[i + 1], #[trigger] rw[i]) by {
        let j = m - 1 - i;
        assert(rp[i] == p[j + 1] && rp[i + 1] == p[j] && rw[i] == ws[j]);
        assert(hop(n, links, p[j], p[j + 1], ws[j]));
        lemma_hop_symmetric(n, links, p[j], p[j + 1], ws[j]);
    }
    lemma_walk_cost_reverse(ws);
}

/// Links carry traffic both ways: a cheapest route from `a` to `b` costs
/// exactly as much as a cheapest route from `b` to `a`.
pub proof fn law_shortest_symmetric(n: int, links: Seq<NetworkLink>, a: int, b: int, c: int)
    requires
        is_shortest(n, links, a, b, c),
    ensures
        is_shortest(n, links, b, a, c),
{
    let (p, ws) = choose|p: Seq<int>, ws: Seq<int>| #[trigger]
        is_route(n, links, p, ws, a, b) && walk_cost(ws) == c;
    lemma_route_reverse(n, links, p, ws, a, b);
    assert(is_route(n, links, p.reverse(), ws.reverse(), b, a));
    assert forall|q: Seq<int>, qs: Seq<int>| #[trigger] is_route(n, links, q, qs, b, a) implies c <= walk_cost(qs) by {
        lemma_route_reverse(n, links, q, qs, b, a);
        assert(is_route(n, links, q.reverse(), qs.reverse(), a, b));
    }
}

/// Cheapest-route costs are unique.
proof fn lemma_shortest_unique(n: int, links: Seq<NetworkLink>, a: int, b: int, c1: int, c2: int)
    requires
        is_shortest(n, links, a, b, c1),
        is_shortest(n, links, a, b, c2),
    ensures
        c1 == c2,
{
    let (p, ws) = choose|p: Seq<int>, ws: Seq<int>| #[trigger]
        is_route(n, links, p, ws, a, b) && walk_cost(ws) == c1;
    let (q, qs) = choose|q: Seq<int>, qs: Seq<int>| #[trigger]
        is_route(n, links, q, qs, a, b) && walk_cost(qs) == c2;
}

pub open spec fn distinct_ips(nodes: Seq<NetworkNode>) -> bool {
    forall|i: int, j: int|
        0 <= i < nodes.len() && 0 <= j < nodes.len() && i != j ==> #[trigger] nodes[i].ip
            != #[trigger] nodes[j].ip
}

/// In a network whose nodes have distinct addresses, node `a` knows a route
/// to `b` exactly when `b` knows one to `a`, and both tables record the same
/// cost.
pub proof fn law_route_costs_symmetric(
    nodes: Seq<NetworkNode>,
    links: Seq<NetworkLink>,
    a: int,
    b: int,
    ta: RoutingTable,
    tb: RoutingTable,
)
    requires
        distinct_ips(nodes),
        0 <= a < nodes.len(),
        0 <= b < nodes.len(),
        a != b,
        table_correct(nodes, links, a, ta),
        table_correct(nodes, links, b, tb),
    ensures
        ta.costs().dom().contains(nodes[b].ip) <==> tb.costs().dom().contains(nodes[a].ip),
        ta.costs().dom().contains(nodes[b].ip) ==> ta.costs()[nodes[b].ip] == tb.costs()[nodes[a].ip],
{
    let n = nodes.len() as int;
    let ipa = nodes[a].ip;
    let ipb = nodes[b].ip;
    if ta.costs().dom().contains(ipb) {
        let d = choose|d: int| d < n && #[trigger] route_target(nodes, links, a, ipb, d);
        assert(nodes[d].ip == nodes[b].ip);
        assert(d == b);
        let (p, ws) = choose|p: Seq<int>, ws: Seq<int>| #[trigger] is_route(n, links, p, ws, a, b);
        lemma_route_reverse(n, links, p, ws, a, b);
        assert(route_target(nodes, links, b, ipa, a));
        assert(tb.costs().dom().contains(ipa));
        assert forall|d2: int| a < d2 < n implies !#[trigger] route_target(nodes, links, b, ipa, d2) by {
            if route_target(nodes, links, b, ipa, d2) {
                assert(nodes[d2].ip == nodes[a].ip);
            }
        }
        assert(last_target_below(nodes, links, b, ipa, a, n));
        assert forall|d2: int| b < d2 < n implies !#[trigger] route_target(nodes, links, a, ipb, d2) by {
            if route_target(nodes, links, a, ipb, d2) {
                assert(nodes[d2].ip == nodes[b].ip);
            }
        }
        assert(last_target_below(nodes, links, a, ipb, b, n));
        let ca = ta.costs()[ipb] as int;
        let cb = tb.costs()[ipa] as int;
        assert(is_shortest(n, links, a, b, ca));
        assert(is_shortest(n, links, b, a, cb));
        law_shortest_symmetric(n, links, a, b, ca);
        lemma_shortest_unique(n, links, b, a, ca, cb);
    }
    if tb.costs().dom().contains(ipa) {
        let d = choose|d: int| d < n && #[trigger] route_target(nodes, links, b, ipa, d);
        assert(nodes[d].ip == nodes[a].ip);
        assert(d == a);
        let (p, ws) = choose|p: Seq<int>, ws: Seq<int>| #[trigger] is_route(n, links, p, ws, b, a);
        lemma_route_reverse(n, links, p, ws, b, a);
        assert(route_target(nodes, links, a, ipb, b));
    }
}

/// Dropping the first hop of a route leaves a route from its second node.
proof fn lemma_route_suffix(n: int, links: Seq<NetworkLink>, p: Seq<int>, ws: Seq<int>, s: int, t: int)
    requires
        is_route(n, links, p, ws, s, t),
        ws.len() >= 1,
    ensures
        is_route(n, links, p.skip(1), ws.skip(1), p[1], t),
        hop(n, links, s, p[1], ws[0]),
        walk_cost(ws) == ws[0] + walk_cost(ws.skip(1)),
{
    let q = p.skip(1);
    let qs = ws.skip(1);
    assert forall|i: int| 0 <= i < qs.len() implies hop(n, links, q[i], q[i + 1], #[trigger] qs[i]) by {
        assert(q[i] == p[i + 1] && q[i + 1] == p[i + 2] && qs[i] == ws[i + 1]);
        assert(hop(n, links, p[i + 1], p[i + 2], ws[i + 1]));
    }
    assert(hop(n, links, p[0], p[1], ws[0]));
    assert(ws =~= seq![ws[0]] + qs);
    lemma_walk_cost_prepend(ws[0], qs);
}

/// In a network whose nodes have distinct addresses, forwarding by next hops
/// makes progress: if node `a` has a route to node `t`, its next hop `h` is
/// a neighbour over a link of weight `w`, and either `h` is `t` and the
/// recorded cost is `w`, or `h` has a route to `t` whose recorded cost is
/// exactly `w` less. Following next hops therefore reaches `t` along a
/// cheapest route.
pub proof fn law_next_hop_progress(
    nodes: Seq<NetworkNode>,
    links: Seq<NetworkLink>,
    tables: Seq<RoutingTable>,
    a: int,
    t: int,
)
    requires
        distinct_ips(nodes),
        tables.len() == nodes.len(),
        forall|s: int| 0 <= s < nodes.len() ==> table_correct(nodes, links, s, #[trigger] tables[s]),
        0 <= a < nodes.len(),
        0 <= t < nodes.len(),
        a != t,
        tables[a].costs().dom().contains(nodes[t].ip),
    ensures
        ({
            let ip = nodes[t].ip;
            let h = tables[a].hops()[ip] as int;
            let c = tables[a].costs()[ip] as int;
            &&& tables[a].hops().dom().contains(ip)
            &&& 0 <= h < nodes.len()
            &&& h != a
            &&& exists|w: int| #[trigger]
                hop(nodes.len() as int, links, a, h, w) && 1 <= w && (if h == t {
                    c == w
                } else {
                    tables[h].costs().dom().contains(ip) && c == w + tables[h].costs()[ip]
                })
        }),
{
    let n = nodes.len() as int;
    let ip = nodes[t].ip;
    let ta = tables[a];
    assert(table_correct(nodes, links, a, ta));
    let d = choose|d: int| d < n && #[trigger] route_target(nodes, links, a, ip, d);
    assert(nodes[d].ip == nodes[t].ip);
    assert(d == t);
    assert forall|d2: int| t < d2 < n implies !#[trigger] route_target(nodes, links, a, ip, d2) by {
        if route_target(nodes, links, a, ip, d2) {
            assert(nodes[d2].ip == nodes[t].ip);
        }
    }
    assert(last_target_below(nodes, links, a, ip, t, n));
    let c = ta.costs()[ip] as int;
    let h = ta.hops()[ip] as int;
    assert(is_shortest(n, links, a, t, c));
    assert(is_first_hop(n, links, a, t, h));
    let (p, ws) = choose|p: Seq<int>, ws: Seq<int>| #[trigger]
        is_route(n, links, p, ws, a, t) && p.len() >= 2 && p[1] == h && is_shortest(n, links, a, t, walk_cost(ws));
    lemma_shortest_unique(n, links, a, t, c, walk_cost(ws));
    lemma_route_suffix(n, links, p, ws, a, t);
    let w = ws[0];
    lemma_hop_weight(n, links, a, h, w);
    let q = p.skip(1);
    let qs = ws.skip(1);
    lemma_route_weights(n, links, q, qs, h, t);
    lemma_walk_cost_bounds(qs);
    if h == a {
        // The rest of the route already goes from `a` to `t`, more cheaply.
        assert(is_route(n, links, q, qs, a, t));
        assert(c <= walk_cost(qs));
        assert(false);
    }
    if h == t {
        // The single hop `a -> t` is a route too.
        let p1 = seq![a, t];
        let w1 = seq![w];
        assert forall|i: int| 0 <= i < w1.len() implies hop(n, links, p1[i], p1[i + 1], #[trigger] w1[i]) by {
            assert(p1[0] == a && p1[1] == t && w1[0] == w);
        }
        assert(is_route(n, links, p1, w1, a, t));
        lemma_walk_cost_prepend(w, Seq::<int>::empty());
        assert(w1 =~= seq![w] + Seq::<int>::empty());
        assert(c <= walk_cost(w1));
        assert(c == w);
    } else {
        assert(reachable(n, links, h, t));
        assert(route_target(nodes, links, h, ip, t));
        let th = tables[h];
        assert(table_correct(nodes, links, h, th));
        assert(th.costs().dom().contains(ip));
        assert forall|d2: int| t < d2 < n implies !#[trigger] route_target(nodes, links, h, ip, d2) by {
            if route_target(nodes, links, h, ip, d2) {
                assert(nodes[d2].ip == nodes[t].ip);
            }
        }
        assert(last_target_below(nodes, links, h, ip, t, n));
        let ch = th.costs()[ip] as int;
        assert(is_shortest(n, links, h, t, ch));
        assert(ch <= walk_cost(qs));
        let (r, rs) = choose|r: Seq<int>, rs: Seq<int>| #[trigger]
            is_route(n, links, r, rs, h, t) && walk_cost(rs) == ch;
        lemma_route_prepend(n, links, a, w, r, rs, t);
        assert(is_route(n, links, seq![a] + r, seq![w] + rs, a, t));
        assert(c <= w + ch);
        assert(c == w + ch);
    }
    assert(hop(n, links, a, h, w));
}

/// The links that can carry traffic among `n` nodes: the active ones whose
/// two ends are nodes.
pub open spec fn usable_links(n: int, links: Seq<NetworkLink>) -> Seq<NetworkLink> {
    links.filter(|l: NetworkLink| l.is_active && l.node_a < n && l.node_b < n)
}

proof fn lemma_hop_usable(n: int, links: Seq<NetworkLink>, u: int, v: int, w: int)
    ensures
        hop(n, links, u, v, w) == hop(n, usable_links(n, links), u, v, w),
{
    let pred = |l: NetworkLink| l.is_active && l.node_a < n && l.node_b < n;
    let f = links.filter(pred);
    assert(f == usable_links(n, links));
    if hop(n, links, u, v, w) {
        let i = choose|i: int| 0 <= i < links.len() && link_joins(n, #[trigger] links[i], u, v, w);
        links.lemma_filter_contains(pred, i);
        let j = choose|j: int| 0 <= j < f.len() && f[j] == links[i];
        assert(link_joins(n, f[j], u, v, w));
    }
    if hop(n, f, u, v, w) {
        let j = choose|j: int| 0 <= j < f.len() && link_joins(n, #[trigger] f[j], u, v, w);
        assert(f.contains(f[j]));
        links.lemma_filter_contains_rev(pred, f[j]);
        let i = choose|i: int| 0 <= i < links.len() && links[i] == f[j];
        assert(link_joins(n, links[i], u, v, w));
    }
}

/// Inactive links and links to missing nodes play no part in routing: a
/// table is correct for a network exactly when it is correct for the same
/// nodes with only the usable links.
pub proof fn law_routing_ignores_unusable_links(
    nodes: Seq<NetworkNode>,
    links: Seq<NetworkLink>,
    s: int,
    table: RoutingTable,
)
    ensures
        table_correct(nodes, links, s, table) == table_correct(
            nodes,
            usable_links(nodes.len() as int, links),
            s,
            table,
        ),
{
    let n = nodes.len() as int;
    let ul = usable_links(n, links);
    assert forall|u: int, v: int, w: int| #[trigger] hop(n, links, u, v, w) == hop(n, ul, u, v, w) by {
        lemma_hop_usable(n, links, u, v, w);
    }
    assert forall|p: Seq<int>, ws: Seq<int>, a: int, b: int| #[trigger] is_route(n, links, p, ws, a, b)
        == is_route(n, ul, p, ws, a, b) by {
        if is_route(n, links, p, ws, a, b) {
            assert forall|i: int| 0 <= i < ws.len() implies hop(n, ul, p[i], p[i + 1], #[trigger] ws[i]) by {
                assert(hop(n, links, p[i], p[i + 1], ws[i]));
            }
        }
        if is_route(n, ul, p, ws, a, b) {
            assert forall|i: int| 0 <= i < ws.len() implies hop(n, links, p[i], p[i + 1], #[trigger] ws[i]) by {
                assert(hop(n, ul, p[i], p[i + 1], ws[i]));
            }
        }
    }
    assert forall|a: int, b: int| #[trigger] reachable(n, links, a, b) == reachable(n, ul, a, b) by {
        if reachable(n, links, a, b) {
            let (p, ws) = choose|p: Seq<int>, ws: Seq<int>| #[trigger] is_route(n, links, p, ws, a, b);
            assert(is_route(n, ul, p, ws, a, b));
        }
        if reachable(n, ul, a, b) {
            let (p, ws) = choose|p: Seq<int>, ws: Seq<int>| #[trigger] is_route(n, ul, p, ws, a, b);
            assert(is_route(n, links, p, ws, a, b));
        }
    }
    assert forall|a: int, b: int, c: int| #[trigger] is_shortest(n, links, a, b, c) == is_shortest(n, ul, a, b, c) by {
        if is_shortest(n, links, a, b, c) {
            let (p, ws) = choose|p: Seq<int>, ws: Seq<int>| #[trigger]
                is_route(n, links, p, ws, a, b) && walk_cost(ws) == c;
            assert(is_route(n, ul, p, ws, a, b));
            assert forall|q: Seq<int>, qs: Seq<int>| #[trigger] is_route(n, ul, q, qs, a, b) implies c <= walk_cost(qs) by {
                assert(is_route(n, links, q, qs, a, b));
            }
        }
        if is_shortest(n, ul, a, b, c) {
            let (p, ws) = choose|p: Seq<int>, ws: Seq<int>| #[trigger]
                is_route(n, ul, p, ws, a, b) && walk_cost(ws) == c;
            assert(is_route(n, links, p, ws, a, b));
            assert forall|q: Seq<int>, qs: Seq<int>| #[trigger] is_route(n, links, q, qs, a, b) implies c <= walk_cost(qs) by {
                assert(is_route(n, ul, q, qs, a, b));
            }
        }
    }
    assert forall|a: int, b: int, h: int| #[trigger] is_first_hop(n, links, a, b, h) == is_first_hop(n, ul, a, b, h) by {
        if is_first_hop(n, links, a, b, h) {
            let (p, ws) = choose|p: Seq<int>, ws: Seq<int>| #[trigger]
                is_route(n, links, p, ws, a, b) && p.len() >= 2 && p[1] == h && is_shortest(n, links, a, b, walk_cost(ws));
            assert(is_route(n, ul, p, ws, a, b));
            assert(is_shortest(n, ul, a, b, walk_cost(ws)));
        }
        if is_first_hop(n, ul, a, b, h) {
            let (p, ws) = choose|p: Seq<int>, ws: Seq<int>| #[trigger]
                is_route(n, ul, p, ws, a, b) && p.len() >= 2 && p[1] == h && is_shortest(n, ul, a, b, walk_cost(ws));
            assert(is_route(n, links, p, ws, a, b));
            assert(is_shortest(n, links, a, b, walk_cost(ws)));
        }
    }
    assert forall|ip: u32, d: int| #[trigger] route_target(nodes, links, s, ip, d) == route_target(nodes, ul, s, ip, d) by {
        assert(reachable(n, links, s, d) == reachable(n, ul, s, d));
    }
    assert forall|ip: u32, d: int, upto: int| #[trigger] last_target_below(nodes, links, s, ip, d, upto)
        == last_target_below(nodes, ul, s, ip, d, upto) by {
        assert(route_target(nodes, links, s, ip, d) == route_target(nodes, ul, s, ip, d));
        if last_target_below(nodes, links, s, ip, d, upto) {
            assert forall|d2: int| d < d2 < upto implies !#[trigger] route_target(nodes, ul, s, ip, d2) by {
                assert(!route_target(nodes, links, s, ip, d2));
            }
        }
        if last_target_below(nodes, ul, s, ip, d, upto) {
            assert forall|d2: int| d < d2 < upto implies !#[trigger] route_target(nodes, links, s, ip, d2) by {
                assert(!route_target(nodes, ul, s, ip, d2));
            }
        }
    }
    let hops = table.hops();
    let costs = table.costs();
    assert forall|ip: u32| #[trigger] costs.dom().contains(ip) implies ((exists|d: int|
        d < n && #[trigger] route_target(nodes, links, s, ip, d)) == (exists|d: int|
        d < n && #[trigger] route_target(nodes, ul, s, ip, d))) by {
        if exists|d: int| d < n && #[trigger] route_target(nodes, links, s, ip, d) {
            let d = choose|d: int| d < n && #[trigger] route_target(nodes, links, s, ip, d);
            assert(route_target(nodes, ul, s, ip, d));
        }
        if exists|d: int| d < n && #[trigger] route_target(nodes, ul, s, ip, d) {
            let d = choose|d: int| d < n && #[trigger] route_target(nodes, ul, s, ip, d);
            assert(route_target(nodes, links, s, ip, d));
        }
    }
    if table_correct(nodes, links, s, table) {
        assert forall|ip: u32| #[trigger] costs.dom().contains(ip) <==> exists|d: int|
            d < n && #[trigger] route_target(nodes, ul, s, ip, d) by {
            if exists|d: int| d < n && #[trigger] route_target(nodes, ul, s, ip, d) {
                let d = choose|d: int| d < n && #[trigger] route_target(nodes, ul, s, ip, d);
                assert(route_target(nodes, links, s, ip, d));
            }
        }
        assert forall|ip: u32, d: int|
            costs.dom().contains(ip) && #[trigger] last_target_below(nodes, ul, s, ip, d, n) implies {
                &&& is_shortest(n, ul, s, d, costs[ip] as int)
                &&& is_first_hop(n, ul, s, d, hops[ip] as int)
            } by {
            assert(last_target_below(nodes, links, s, ip, d, n));
            assert(is_shortest(n, links, s, d, costs[ip] as int));
            assert(is_first_hop(n, links, s, d, hops[ip] as int));
        }
    }
    if table_correct(nodes, ul, s, table) {
        assert forall|ip: u32| #[trigger] costs.dom().contains(ip) <==> exists|d: int|
            d < n && #[trigger] route_target(nodes, links, s, ip, d) by {
            if exists|d: int| d < n && #[trigger] route_target(nodes, links, s, ip, d) {
                let d = choose|d: int| d < n && #[trigger] route_target(nodes, links, s, ip, d);
                assert(route_target(nodes, ul, s, ip, d));
            }
        }
        assert forall|ip: u32, d: int|
            costs.dom().contains(ip) && #[trigger] last_target_below(nodes, links, s, ip, d, n) implies {
                &&& is_shortest(n, links, s, d, costs[ip] as int)
                &&& is_first_hop(n, links, s, d, hops[ip] as int)
            } by {
            assert(last_target_below(nodes, ul, s, ip, d, n));
            assert(is_shortest(n, ul, s, d, costs[ip] as int));
            assert(is_first_hop(n, ul, s, d, hops[ip] as int));
        }
    }
}

} // verus!
