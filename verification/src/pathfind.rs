//! Heuristic-guided weighted shortest-path search over the built network.
//!
//! The frontier is ordered by accumulated cost plus a caller-supplied
//! per-vertex heuristic estimate (all-zero for a pure least-cost search);
//! the lowest-priority vertex is settled, its incident edges relaxed, and
//! parent pointers record every strict improvement. Ties in priority break
//! toward the smaller vertex handle, so runs are reproducible.
//!
//! Costs are unsigned integers. The geometric policy measures the Euclidean
//! norm of the coordinate difference in decimicro-degrees, rounded down —
//! a planar approximation, not a geodesic distance — and falls back to zero
//! whenever either endpoint is not a stored node.

use vstd::prelude::*;

use crate::entity::{Entity, EntityId};
use crate::graph::{spec_store_get, Edge, Network};

verus! {

/// Largest cost a single edge can carry under any policy: unit and
/// kind-based costs are tiny, and a geometric cost is the root of a sum of
/// two squares of differences of 32-bit values.
pub const MAX_EDGE_COST: u64 = 0x400000000;

/// How edge costs are computed.
#[derive(Clone, Copy, PartialEq, Eq, Structural, Debug)]
pub enum CostPolicy {
    /// Every edge costs one: path cost is hop count.
    Unit,
    /// Each endpoint contributes a fixed weight by entity kind: relations
    /// one, ways two, nodes four.
    ByKind,
    /// Euclidean norm of the decimicro-degree coordinate difference when
    /// both endpoints are stored nodes, zero otherwise.
    Geometric,
}

/// The fixed weight of an entity kind under the kind-based policy.
pub open spec fn spec_kind_score(id: EntityId) -> u64 {
    match id {
        EntityId::Relation(_) => 1,
        EntityId::Way(_) => 2,
        EntityId::Node(_) => 4,
    }
}

/// Whether `r` is the floor square root of `x`.
pub open spec fn is_sqrt(r: int, x: int) -> bool {
    0 <= r && r * r <= x && x < (r + 1) * (r + 1)
}

/// The integer square root: the unique `r >= 0` with
/// `r * r <= x < (r + 1) * (r + 1)`.
pub open spec fn spec_isqrt(x: int) -> int {
    choose|r: int| is_sqrt(r, x)
}

/// Any two brackets of the same value coincide.
pub proof fn lemma_isqrt_unique(x: int, r1: int, r2: int)
    requires
        0 <= r1 && r1 * r1 <= x < (r1 + 1) * (r1 + 1),
        0 <= r2 && r2 * r2 <= x < (r2 + 1) * (r2 + 1),
    ensures
        r1 == r2,
{
    assert(r1 == r2) by (nonlinear_arith)
        requires
            0 <= r1 && r1 * r1 <= x < (r1 + 1) * (r1 + 1),
            0 <= r2 && r2 * r2 <= x < (r2 + 1) * (r2 + 1),
    ;
}

/// Floor square root of a 128-bit value; always fits 64 bits.
pub fn isqrt(x: u128) -> (r: u64)
    ensures
        r as int == spec_isqrt(x as int),
        (r as int) * (r as int) <= x as int,
        (x as int) < (r as int + 1) * (r as int + 1),
{
    let mut lo: u128 = 0;
    let mut hi: u128 = 0x10000000000000000;
    proof {
        assert((hi as int) * (hi as int) > x as int) by (nonlinear_arith)
            requires
                hi as int == 0x10000000000000000,
                x as int <= 0xffffffffffffffffffffffffffffffff,
        ;
    }
    while lo + 1 < hi
        invariant
            0 <= lo < hi <= 0x10000000000000000,
            (lo as int) * (lo as int) <= x as int,
            (x as int) < (hi as int) * (hi as int),
        decreases hi - lo,
    {
        let mid = lo + (hi - lo) / 2;
        proof {
            assert(lo < mid < hi);
            assert((mid as int) * (mid as int) < 0x100000000000000000000000000000000)
                by (nonlinear_arith)
                requires
                    0 <= mid as int,
                    (mid as int) < 0x10000000000000000,
            ;
        }
        if mid * mid <= x {
            lo = mid;
        } else {
            hi = mid;
        }
    }
    proof {
        assert(hi == lo + 1);
        assert(is_sqrt(lo as int, x as int));
        let q = spec_isqrt(x as int);
        assert(is_sqrt(q, x as int));
        lemma_isqrt_unique(x as int, q, lo as int);
    }
    lo as u64
}

/// The cost of edge `k` under a policy, as a function of the network alone.
pub open spec fn spec_edge_cost(net: Network, policy: CostPolicy, k: int) -> u64 {
    let e = net.edges@[k];
    match policy {
        CostPolicy::Unit => 1,
        CostPolicy::ByKind => (spec_kind_score(net.index.ids@[e.a as int]) + spec_kind_score(
            net.index.ids@[e.b as int],
        )) as u64,
        CostPolicy::Geometric => {
            let ia = net.index.ids@[e.a as int];
            let ib = net.index.ids@[e.b as int];
            match (spec_store_get(net.store.entities@, ia), spec_store_get(
                net.store.entities@,
                ib,
            )) {
                (Some(Entity::Node(na)), Some(Entity::Node(nb))) => {
                    let dlat = na.decimicro_lat as int - nb.decimicro_lat as int;
                    let dlon = na.decimicro_lon as int - nb.decimicro_lon as int;
                    spec_isqrt(dlat * dlat + dlon * dlon) as u64
                },
                _ => 0,
            }
        },
    }
}

/// Computes the cost of edge `k`; never more than `MAX_EDGE_COST`.
pub fn edge_cost(net: &Network, policy: CostPolicy, k: usize) -> (c: u64)
    requires
        net.wf(),
        k < net.edges@.len(),
    ensures
        c == spec_edge_cost(*net, policy, k as int),
        c <= MAX_EDGE_COST,
{
    let e = &net.edges[k];
    proof {
        assert(net.edges@[k as int].a < net.index.ids@.len());
    }
    match policy {
        CostPolicy::Unit => 1,
        CostPolicy::ByKind => {
            let sa = kind_score(net.index.ids[e.a]);
            let sb = kind_score(net.index.ids[e.b]);
            sa + sb
        },
        CostPolicy::Geometric => {
            let ia = net.index.ids[e.a];
            let ib = net.index.ids[e.b];
            let oa = net.store_get(ia);
            let ob = net.store_get(ib);
            match (oa, ob) {
                (Some(Entity::Node(na)), Some(Entity::Node(nb))) => {
                    let dlat: i64 = (na.decimicro_lat as i64) - (nb.decimicro_lat as i64);
                    let dlon: i64 = (na.decimicro_lon as i64) - (nb.decimicro_lon as i64);
                    proof {
                        assert(dlat * dlat >= 0 && dlon * dlon >= 0 && dlat * dlat
                            < 0x10000000000000000 && dlon * dlon < 0x10000000000000000)
                            by (nonlinear_arith)
                            requires
                                -0x100000000 < dlat as int,
                                (dlat as int) < 0x100000000,
                                -0x100000000 < dlon as int,
                                (dlon as int) < 0x100000000,
                        ;
                    }
                    let d2: u128 = ((dlat as i128 * dlat as i128) + (dlon as i128
                        * dlon as i128)) as u128;
                    let r = isqrt(d2);
                    proof {
                        assert(r as int <= 0x400000000) by (nonlinear_arith)
                            requires
                                (r as int) * (r as int) <= d2 as int,
                                (d2 as int) < 0x20000000000000000,
                        ;
                    }
                    r
                },
                _ => 0,
            }
        },
    }
}

/// The fixed weight of an entity kind under the kind-based policy.
pub fn kind_score(id: EntityId) -> (s: u64)
    ensures
        s == spec_kind_score(id),
{
    match id {
        EntityId::Relation(_) => 1,
        EntityId::Way(_) => 2,
        EntityId::Node(_) => 4,
    }
}

/// A usize sequence as an int sequence.
pub open spec fn to_int_seq(es: Seq<usize>) -> Seq<int> {
    es.map_values(|x: usize| x as int)
}

/// Whether an edge joins the two handles, in either orientation.
pub open spec fn edge_connects(e: Edge, u: int, w: int) -> bool {
    (e.a == u && e.b == w) || (e.a == w && e.b == u)
}

/// The endpoint of `e` other than `v`.
pub open spec fn edge_other(e: Edge, v: int) -> int {
    if e.a == v {
        e.b as int
    } else {
        e.a as int
    }
}

/// `vs` lists the vertices and `es` the edge indices of a walk through the
/// network: consecutive vertices are joined by the listed edges.
pub open spec fn is_path(net: Network, vs: Seq<usize>, es: Seq<int>) -> bool {
    &&& vs.len() == es.len() + 1
    &&& forall|k: int|
        0 <= k < es.len() ==> 0 <= #[trigger] es[k] < net.edges@.len() && edge_connects(
            net.edges@[es[k]],
            vs[k] as int,
            vs[k + 1] as int,
        )
}

/// The total cost of a walk's edges.
pub open spec fn path_cost(net: Network, policy: CostPolicy, es: Seq<int>) -> int
    decreases es.len(),
{
    if es.len() == 0 {
        0
    } else {
        spec_edge_cost(net, policy, es[0]) + path_cost(net, policy, es.drop_first())
    }
}

/// Whether some walk joins `src` to `dst`.
pub open spec fn spec_reachable(net: Network, src: usize, dst: usize) -> bool {
    exists|vs: Seq<usize>, es: Seq<int>|
        is_path(net, vs, es) && vs.len() > 0 && vs[0] == src && vs.last() == dst
}

/// The per-vertex record the search keeps: every reached vertex other than
/// the start has a parent pointer naming a settled predecessor, the edge
/// that improves it, the resulting accumulated cost, and a hop count one
/// more than its parent's.
pub open spec fn chain_step_ok(
    net: Network,
    policy: CostPolicy,
    g: Seq<Option<u128>>,
    parent: Seq<Option<(usize, usize)>>,
    hops: Seq<int>,
    settled: Seq<bool>,
    w: int,
) -> bool {
    match parent[w] {
        Some(pe) => match (g[w], g[pe.0 as int]) {
            (Some(gw), Some(gu)) => {
                &&& (pe.0 as int) < g.len()
                &&& (pe.1 as int) < net.edges@.len()
                &&& settled[pe.0 as int]
                &&& edge_connects(net.edges@[pe.1 as int], pe.0 as int, w)
                &&& gw == gu + spec_edge_cost(net, policy, pe.1 as int)
                &&& hops[w] == hops[pe.0 as int] + 1
            },
            _ => false,
        },
        None => false,
    }
}

/// The search's parent-chain invariant over all reached vertices.
#[verifier::opaque]
pub open spec fn chain_inv(
    net: Network,
    policy: CostPolicy,
    src: usize,
    g: Seq<Option<u128>>,
    parent: Seq<Option<(usize, usize)>>,
    hops: Seq<int>,
    settled: Seq<bool>,
) -> bool {
    &&& g[src as int] == Some(0u128)
    &&& parent[src as int] is None
    &&& hops[src as int] == 0
    &&& forall|w: int|
        0 <= w < g.len() && w != src && (#[trigger] g[w]) is Some ==> chain_step_ok(
            net,
            policy,
            g,
            parent,
            hops,
            settled,
            w,
        )
}

/// Accumulated costs stay small: each is at most the hop count times the
/// largest edge cost, and hop counts never exceed the settled count.
#[verifier::opaque]
pub open spec fn g_bounded(g: Seq<Option<u128>>, hops: Seq<int>, ns: int) -> bool {
    forall|w: int|
        0 <= w < g.len() ==> match #[trigger] g[w] {
            Some(gw) => 0 <= hops[w] <= ns && gw as int <= hops[w] * (MAX_EDGE_COST as int),
            None => true,
        }
}

/// Every settled vertex has been relaxed: each of its incident edges leads
/// to a reached vertex.
pub open spec fn settled_closed(net: Network, settled: Seq<bool>, g: Seq<Option<u128>>) -> bool {
    forall|u: int, k: int|
        #![trigger settled[u], net.edges@[k]]
        0 <= u < settled.len() && settled[u] && 0 <= k < net.edges@.len() && (net.edges@[k].a == u
            || net.edges@[k].b == u) ==> g[edge_other(net.edges@[k], u)] is Some
}

/// How many vertices are settled.
pub open spec fn num_settled(s: Seq<bool>) -> nat
    decreases s.len(),
{
    if s.len() == 0 {
        0
    } else {
        (if s[0] {
            1nat
        } else {
            0nat
        }) + num_settled(s.drop_first())
    }
}

/// A table with no vertex settled counts zero.
pub proof fn lemma_num_settled_zero(s: Seq<bool>)
    requires
        forall|i: int| 0 <= i < s.len() ==> !s[i],
    ensures
        num_settled(s) == 0,
    decreases s.len(),
{
    if s.len() > 0 {
        assert(forall|i: int| 0 <= i < s.drop_first().len() ==> s.drop_first()[i] == s[i + 1]);
        lemma_num_settled_zero(s.drop_first());
    }
}

/// The settled count never exceeds the vertex count.
pub proof fn lemma_num_settled_le(s: Seq<bool>)
    ensures
        num_settled(s) <= s.len(),
    decreases s.len(),
{
    if s.len() > 0 {
        lemma_num_settled_le(s.drop_first());
    }
}

/// Settling one more vertex raises the settled count by one.
pub proof fn lemma_num_settled_update(s: Seq<bool>, i: int)
    requires
        0 <= i < s.len(),
        !s[i],
    ensures
        num_settled(s.update(i, true)) == num_settled(s) + 1,
    decreases s.len(),
{
    let s2 = s.update(i, true);
    if i == 0 {
        assert(s2.drop_first() =~= s.drop_first());
    } else {
        assert(s2.drop_first() =~= s.drop_first().update(i - 1, true));
        lemma_num_settled_update(s.drop_first(), i - 1);
    }
}

/// A walk that starts inside a set of reached vertices closed under the
/// edge relation ends inside it.
pub proof fn lemma_closed_path(net: Network, g: Seq<Option<u128>>, vs: Seq<usize>, es: Seq<int>)
    requires
        net.wf(),
        g.len() == net.index.ids@.len(),
        is_path(net, vs, es),
        vs.len() > 0,
        g[vs[0] as int] is Some,
        forall|k: int|
            0 <= k < net.edges@.len() ==> ((g[(#[trigger] net.edges@[k]).a as int] is Some) <==> (
            g[net.edges@[k].b as int] is Some)),
    ensures
        g[vs.last() as int] is Some,
    decreases es.len(),
{
    if es.len() > 0 {
        let e = net.edges@[es[0]];
        assert(edge_connects(e, vs[0] as int, vs[1] as int));
        assert(g[vs[1] as int] is Some);
        let vs2 = vs.drop_first();
        let es2 = es.drop_first();
        assert(is_path(net, vs2, es2)) by {
            assert forall|k: int|
                0 <= k < es2.len() implies 0 <= #[trigger] es2[k] < net.edges@.len()
                && edge_connects(net.edges@[es2[k]], vs2[k] as int, vs2[k + 1] as int) by {
                assert(es2[k] == es[k + 1]);
                assert(vs2[k] == vs[k + 1]);
                assert(vs2[k + 1] == vs[k + 2]);
            }
        }
        lemma_closed_path(net, g, vs2, es2);
        assert(vs2.last() == vs.last());
    } else {
        assert(vs.last() == vs[0]);
    }
}


/// The accumulated cost at a vertex as an integer; minus one when the
/// vertex is unreached.
pub open spec fn g_at(g: Seq<Option<u128>>, u: int) -> int {
    match g[u] {
        Some(x) => x as int,
        None => -1,
    }
}

/// An all-zero heuristic table: the search degenerates to pure least-cost.
pub open spec fn zero_heur(h: Seq<u64>) -> bool {
    forall|i: int| 0 <= i < h.len() ==> h[i] == 0
}

/// Lower-bound soundness of the settled region: no walk from `src` to a
/// settled vertex costs less than that vertex's accumulated cost.
#[verifier::opaque]
pub open spec fn lb_ok(
    net: Network,
    policy: CostPolicy,
    src: usize,
    g: Seq<Option<u128>>,
    settled: Seq<bool>,
) -> bool {
    forall|u: int, vs: Seq<usize>, es: Seq<int>|
        #![trigger settled[u], is_path(net, vs, es)]
        0 <= u < settled.len() && settled[u] && is_path(net, vs, es) && vs.len() > 0 && vs[0]
            == src && vs.last() as int == u ==> path_cost(net, policy, es) >= g_at(g, u)
}

/// Quantitative relaxation of the settled region: every edge out of a
/// settled vertex has been offered, so the far endpoint is reached at a
/// cost no worse than the settled cost plus that edge's.
pub open spec fn rel_ok(
    net: Network,
    policy: CostPolicy,
    g: Seq<Option<u128>>,
    settled: Seq<bool>,
) -> bool {
    forall|u: int, k: int|
        #![trigger settled[u], net.edges@[k]]
        0 <= u < settled.len() && settled[u] && 0 <= k < net.edges@.len() && (net.edges@[k].a == u
            || net.edges@[k].b == u) ==> g[edge_other(net.edges@[k], u)] is Some && (!settled[
            edge_other(net.edges@[k], u)] ==> g_at(g, edge_other(net.edges@[k], u)) <= g_at(g, u)
            + spec_edge_cost(net, policy, k))
}

/// Walk costs are never negative.
pub proof fn lemma_path_cost_nonneg(net: Network, policy: CostPolicy, es: Seq<int>)
    ensures
        path_cost(net, policy, es) >= 0,
    decreases es.len(),
{
    if es.len() > 0 {
        lemma_path_cost_nonneg(net, policy, es.drop_first());
    }
}

/// A walk's cost splits off its last edge.
pub proof fn lemma_path_cost_snoc(net: Network, policy: CostPolicy, es: Seq<int>)
    requires
        es.len() > 0,
    ensures
        path_cost(net, policy, es) == path_cost(net, policy, es.drop_last()) + spec_edge_cost(
            net,
            policy,
            es.last(),
        ),
    decreases es.len(),
{
    if es.len() == 1 {
        assert(es.drop_last() =~= Seq::<int>::empty());
        assert(es.drop_first() =~= Seq::<int>::empty());
    } else {
        lemma_path_cost_snoc(net, policy, es.drop_first());
        assert(es.drop_first().drop_last() =~= es.drop_last().drop_first());
        assert(es.drop_first().last() == es.last());
        assert(es.drop_last()[0] == es[0]);
    }
}

/// Under unit costs, a walk's cost is its edge count: together with the
/// search's minimality guarantee under a zero heuristic, the cost returned
/// for the unit policy is the least possible number of edges — the
/// breadth-first hop count — between the two vertices.
pub proof fn lemma_unit_cost_is_length(net: Network, es: Seq<int>)
    ensures
        path_cost(net, CostPolicy::Unit, es) == es.len(),
    decreases es.len(),
{
    if es.len() > 0 {
        lemma_unit_cost_is_length(net, es.drop_first());
    }
}

/// In a lower-bound-sound, fully relaxed state with `m` the cheapest
/// reached unsettled vertex, every walk from `src` costs at least its
/// endpoint's accumulated cost if the endpoint is settled, and at least
/// `m`'s accumulated cost otherwise.
pub proof fn lemma_frontier_lb(
    net: Network,
    policy: CostPolicy,
    src: usize,
    g: Seq<Option<u128>>,
    settled: Seq<bool>,
    m: int,
    vs: Seq<usize>,
    es: Seq<int>,
)
    requires
        net.wf(),
        g.len() == net.index.ids@.len(),
        settled.len() == g.len(),
        src < g.len(),
        settled[src as int],
        g_at(g, src as int) == 0,
        lb_ok(net, policy, src, g, settled),
        rel_ok(net, policy, g, settled),
        0 <= m < g.len(),
        g[m] is Some,
        !settled[m],
        forall|i: int|
            0 <= i < g.len() && !settled[i] && (#[trigger] g[i]) is Some ==> g_at(g, m) <= g_at(
                g,
                i,
            ),
        is_path(net, vs, es),
        vs.len() > 0,
        vs[0] == src,
    ensures
        settled[vs.last() as int] ==> path_cost(net, policy, es) >= g_at(g, vs.last() as int),
        !settled[vs.last() as int] ==> path_cost(net, policy, es) >= g_at(g, m),
    decreases es.len(),
{
    reveal(lb_ok);
    let v = vs.last() as int;
    if es.len() == 0 {
        assert(vs.last() == vs[0]);
        assert(settled[v]);
        lemma_path_cost_nonneg(net, policy, es);
    } else {
        let vs2 = vs.drop_last();
        let es2 = es.drop_last();
        assert(is_path(net, vs2, es2)) by {
            assert forall|k: int|
                0 <= k < es2.len() implies 0 <= #[trigger] es2[k] < net.edges@.len()
                && edge_connects(net.edges@[es2[k]], vs2[k] as int, vs2[k + 1] as int) by {
                assert(es2[k] == es[k]);
                assert(vs2[k] == vs[k]);
                assert(vs2[k + 1] == vs[k + 1]);
            }
        }
        assert(vs2[0] == vs[0]);
        assert(vs2.len() > 0);
        lemma_path_cost_snoc(net, policy, es);
        let p = vs2.last() as int;
        let ek = es.last();
        assert(edge_connects(net.edges@[ek], p, v)) by {
            assert(es[es.len() - 1] == ek);
            assert(vs2.last() == vs[vs.len() - 2]);
        }
        let e = net.edges@[ek];
        assert(e.a < g.len() && e.b < g.len());
        assert(0 <= p < g.len() && 0 <= v < g.len());
        if settled[v] {
            // The settled endpoint's bound is exactly what lb_ok states of
            // this walk.
            assert(path_cost(net, policy, es) >= g_at(g, v));
        } else {
            lemma_frontier_lb(net, policy, src, g, settled, m, vs2, es2);
            if settled[p] {
                assert(edge_other(e, p) == v);
                assert(g[v] is Some);
                assert(g_at(g, v) <= g_at(g, p) + spec_edge_cost(net, policy, ek));
                assert(path_cost(net, policy, es2) >= g_at(g, p));
                assert(g_at(g, m) <= g_at(g, v));
                assert(path_cost(net, policy, es) >= g_at(g, m));
            } else {
                assert(path_cost(net, policy, es2) >= g_at(g, m));
                assert(spec_edge_cost(net, policy, ek) >= 0);
                assert(path_cost(net, policy, es) >= g_at(g, m));
            }
        }
    }
}

/// The relaxation ledger: every settled vertex other than `m` is fully
/// relaxed, and `m` is relaxed over the first `k` edges.
#[verifier::opaque]
pub open spec fn relaxed_upto(
    net: Network,
    policy: CostPolicy,
    g: Seq<Option<u128>>,
    settled: Seq<bool>,
    m: int,
    k: int,
) -> bool {
    forall|u: int, kk: int|
        #![trigger settled[u], net.edges@[kk]]
        0 <= u < g.len() && settled[u] && 0 <= kk < net.edges@.len() && (u != m || kk < k) && (
        net.edges@[kk].a == u || net.edges@[kk].b == u) ==> g[edge_other(net.edges@[kk], u)]
            is Some && (!settled[edge_other(net.edges@[kk], u)] ==> g_at(
            g,
            edge_other(net.edges@[kk], u),
        ) <= g_at(g, u) + spec_edge_cost(net, policy, kk))
}

/// One successful relaxation step keeps every working invariant: the
/// improved vertex gets a sound parent record, costs stay bounded, and the
/// relaxed-edges ledger extends by the edge just offered.
#[verifier::rlimit(100)]
proof fn lemma_relax_update(
    net: Network,
    policy: CostPolicy,
    src: usize,
    m: usize,
    k: usize,
    w: usize,
    gm: u128,
    c: u64,
    nd: u128,
    g0: Seq<Option<u128>>,
    parent0: Seq<Option<(usize, usize)>>,
    hops0: Seq<int>,
    g1: Seq<Option<u128>>,
    parent1: Seq<Option<(usize, usize)>>,
    hops1: Seq<int>,
    settled: Seq<bool>,
)
    requires
        net.wf(),
        g0.len() == net.index.ids@.len(),
        parent0.len() == g0.len(),
        hops0.len() == g0.len(),
        settled.len() == g0.len(),
        src < g0.len(),
        m < g0.len(),
        w < g0.len(),
        (k as int) < net.edges@.len(),
        net.edges@[k as int].a == m || net.edges@[k as int].b == m,
        edge_other(net.edges@[k as int], m as int) == w as int,
        settled[src as int],
        settled[m as int],
        !settled[w as int],
        g0[m as int] == Some(gm),
        c == spec_edge_cost(net, policy, k as int),
        c <= MAX_EDGE_COST,
        nd as int == gm as int + c as int,
        match g0[w as int] {
            Some(gw) => (nd as int) < gw as int,
            None => true,
        },
        gm as int <= hops0[m as int] * (MAX_EDGE_COST as int),
        hops0[m as int] + 1 <= num_settled(settled) as int,
        chain_inv(net, policy, src, g0, parent0, hops0, settled),
        g_bounded(g0, hops0, num_settled(settled) as int),
        forall|u: int, kk: int|
            #![trigger settled[u], net.edges@[kk]]
            0 <= u < g0.len() && settled[u] && 0 <= kk < net.edges@.len() && (u != m as int || kk
                < k as int) && (net.edges@[kk].a == u || net.edges@[kk].b == u) ==> g0[edge_other(
                net.edges@[kk],
                u,
            )] is Some && (!settled[edge_other(net.edges@[kk], u)] ==> g_at(
                g0,
                edge_other(net.edges@[kk], u),
            ) <= g_at(g0, u) + spec_edge_cost(net, policy, kk)),
        g1 == g0.update(w as int, Some(nd)),
        parent1 == parent0.update(w as int, Some((m, k))),
        hops1 == hops0.update(w as int, hops0[m as int] + 1),
    ensures
        chain_inv(net, policy, src, g1, parent1, hops1, settled),
        g_bounded(g1, hops1, num_settled(settled) as int),
        forall|u: int, kk: int|
            #![trigger settled[u], net.edges@[kk]]
            0 <= u < g0.len() && settled[u] && 0 <= kk < net.edges@.len() && (u != m as int || kk
                < k + 1) && (net.edges@[kk].a == u || net.edges@[kk].b == u) ==> g1[edge_other(
                net.edges@[kk],
                u,
            )] is Some && (!settled[edge_other(net.edges@[kk], u)] ==> g_at(
                g1,
                edge_other(net.edges@[kk], u),
            ) <= g_at(g1, u) + spec_edge_cost(net, policy, kk)),
{
    reveal(chain_inv);
    reveal(g_bounded);
    let n = g0.len();
    assert(w != src);
    assert(w != m);
    assert(chain_step_ok(net, policy, g1, parent1, hops1, settled, w as int)) by {
        assert(edge_connects(net.edges@[k as int], m as int, w as int));
    }
    assert forall|x: int|
        0 <= x < n && x != src && (#[trigger] g1[x]) is Some implies chain_step_ok(
        net,
        policy,
        g1,
        parent1,
        hops1,
        settled,
        x,
    ) by {
        if x != w as int {
            assert(g1[x] == g0[x]);
            assert(chain_step_ok(net, policy, g0, parent0, hops0, settled, x));
            match parent0[x] {
                Some(pe) => {
                    assert(settled[pe.0 as int]);
                    assert(pe.0 != w);
                },
                None => {},
            }
        }
    }
    assert(g_bounded(g1, hops1, num_settled(settled) as int)) by {
        assert forall|x: int| 0 <= x < n implies match #[trigger] g1[x] {
            Some(gx) => 0 <= hops1[x] <= num_settled(settled) as int && gx as int <= hops1[x] * (
            MAX_EDGE_COST as int),
            None => true,
        } by {
            if x == w as int {
                assert(hops1[x] == hops0[m as int] + 1);
                assert(c as int <= MAX_EDGE_COST as int);
                assert(nd as int <= hops0[m as int] * (MAX_EDGE_COST as int) + (
                MAX_EDGE_COST as int));
                assert(hops0[m as int] * (MAX_EDGE_COST as int) + (MAX_EDGE_COST as int) == (
                hops0[m as int] + 1) * (MAX_EDGE_COST as int)) by (nonlinear_arith);
            } else {
                assert(g1[x] == g0[x] && hops1[x] == hops0[x]);
            }
        }
    }
    assert forall|u: int, kk: int|
        #![trigger settled[u], net.edges@[kk]]
        0 <= u < g0.len() && settled[u] && 0 <= kk < net.edges@.len() && (u != m as int || kk < k
            + 1) && (net.edges@[kk].a == u || net.edges@[kk].b == u) implies g1[edge_other(
        net.edges@[kk],
        u,
    )] is Some && (!settled[edge_other(net.edges@[kk], u)] ==> g_at(
        g1,
        edge_other(net.edges@[kk], u),
    ) <= g_at(g1, u) + spec_edge_cost(net, policy, kk)) by {
        let x = edge_other(net.edges@[kk], u);
        assert(u != w as int);
        assert(g1[u] == g0[u]);
        if x == w as int {
            if u == m as int && kk == k as int {
                assert(g_at(g1, x) == nd as int);
                assert(g_at(g1, u) == gm as int);
            } else {
                assert(g0[x] is Some);
                assert((nd as int) < g_at(g0, x));
                assert(!settled[x] ==> g_at(g0, x) <= g_at(g0, u) + spec_edge_cost(
                    net,
                    policy,
                    kk,
                ));
            }
        } else {
            assert(g1[x] == g0[x]);
        }
    }
}

/// Relaxes every edge incident to the just-settled vertex `m`: an unsettled
/// neighbor whose accumulated cost strictly improves gets the new cost, a
/// parent pointer through that edge, and a hop count one beyond `m`'s.
/// Afterwards every settled vertex, `m` included, is fully relaxed.
#[verifier::rlimit(100)]
#[verifier::spinoff_prover]
fn relax_incident(
    net: &Network,
    policy: CostPolicy,
    src: usize,
    dst: usize,
    m: usize,
    gm: u128,
    g: &mut Vec<Option<u128>>,
    parent: &mut Vec<Option<(usize, usize)>>,
    settled: &Vec<bool>,
    hops_in: Ghost<Seq<int>>,
) -> (hops_out: Ghost<Seq<int>>)
    requires
        net.wf(),
        src < net.index.ids@.len(),
        dst < net.index.ids@.len(),
        old(g)@.len() == net.index.ids@.len(),
        old(parent)@.len() == net.index.ids@.len(),
        settled@.len() == net.index.ids@.len(),
        hops_in@.len() == net.index.ids@.len(),
        m < net.index.ids@.len(),
        settled@[src as int],
        settled@[m as int],
        old(g)@[m as int] == Some(gm),
        gm as int <= hops_in@[m as int] * (MAX_EDGE_COST as int),
        hops_in@[m as int] + 1 <= num_settled(settled@) as int,
        chain_inv(*net, policy, src, old(g)@, old(parent)@, hops_in@, settled@),
        g_bounded(old(g)@, hops_in@, num_settled(settled@) as int),
        forall|w: int| 0 <= w < settled@.len() && #[trigger] settled@[w] ==> old(g)@[w] is Some,
        forall|u: int, kk: int|
            #![trigger settled@[u], net.edges@[kk]]
            0 <= u < settled@.len() && settled@[u] && u != m && 0 <= kk < net.edges@.len() && (
            net.edges@[kk].a == u || net.edges@[kk].b == u) ==> old(g)@[edge_other(
                net.edges@[kk],
                u,
            )] is Some && (!settled@[edge_other(net.edges@[kk], u)] ==> g_at(
                old(g)@,
                edge_other(net.edges@[kk], u),
            ) <= g_at(old(g)@, u) + spec_edge_cost(*net, policy, kk)),
    ensures
        final(g)@.len() == old(g)@.len(),
        final(parent)@.len() == old(parent)@.len(),
        hops_out@.len() == hops_in@.len(),
        chain_inv(*net, policy, src, final(g)@, final(parent)@, hops_out@, settled@),
        g_bounded(final(g)@, hops_out@, num_settled(settled@) as int),
        forall|w: int| 0 <= w < settled@.len() && #[trigger] settled@[w] ==> final(g)@[w] is Some,
        settled_closed(*net, settled@, final(g)@),
        rel_ok(*net, policy, final(g)@, settled@),
        forall|w: int|
            0 <= w < settled@.len() && #[trigger] settled@[w] ==> final(g)@[w] == old(g)@[w],
{
    let n = g.len();
    let ghost g_entry = g@;
    let ghost mut hops: Seq<int> = hops_in@;
    let ecount = net.edges.len();
    let mut k: usize = 0;
    proof {
        assert(relaxed_upto(*net, policy, g@, settled@, m as int, 0)) by {
            reveal(relaxed_upto);
        }
    }
    while k < ecount
        invariant
            net.wf(),
            src < n,
            n == net.index.ids@.len(),
            ecount == net.edges@.len(),
            0 <= k <= ecount,
            g@.len() == n,
            parent@.len() == n,
            settled@.len() == n,
            hops.len() == n,
            m < n,
            settled@[src as int],
            settled@[m as int],
            g@[m as int] == Some(gm),
            gm as int <= hops[m as int] * (MAX_EDGE_COST as int),
            hops[m as int] + 1 <= num_settled(settled@) as int,
            chain_inv(*net, policy, src, g@, parent@, hops, settled@),
            g_bounded(g@, hops, num_settled(settled@) as int),
            forall|w: int| 0 <= w < n && #[trigger] settled@[w] ==> g@[w] is Some,
            g_entry == old(g)@,
            forall|w: int| 0 <= w < n && #[trigger] settled@[w] ==> g@[w] == g_entry[w],
            relaxed_upto(*net, policy, g@, settled@, m as int, k as int),
        decreases ecount - k,
    {
        let ghost gk = g@;
        let ea = net.edges[k].a;
        let eb = net.edges[k].b;
        if ea == m || eb == m {
            let w = if ea == m {
                eb
            } else {
                ea
            };
            proof {
                assert(net.edges@[k as int].a < n && net.edges@[k as int].b < n);
                assert(edge_other(net.edges@[k as int], m as int) == w as int);
            }
            if !settled[w] {
                let c = edge_cost(net, policy, k);
                proof {
                    lemma_num_settled_le(settled@);
                    assert(hops[m as int] * (MAX_EDGE_COST as int) + (MAX_EDGE_COST as int) <= (
                    n as int + 1) * (MAX_EDGE_COST as int)) by (nonlinear_arith)
                        requires
                            hops[m as int] + 1 <= n as int + 1,
                            MAX_EDGE_COST as int > 0,
                    ;
                }
                let nd: u128 = gm + (c as u128);
                let improves: bool = match g[w] {
                    None => true,
                    Some(gw) => nd < gw,
                };
                if improves {
                    let ghost g0 = g@;
                    let ghost parent0 = parent@;
                    let ghost hops0 = hops;
                    g.set(w, Some(nd));
                    parent.set(w, Some((m, k)));
                    proof {
                        hops = hops.update(w as int, hops0[m as int] + 1);
                        reveal(relaxed_upto);
                        lemma_relax_update(
                            *net,
                            policy,
                            src,
                            m,
                            k,
                            w,
                            gm,
                            c,
                            nd,
                            g0,
                            parent0,
                            hops0,
                            g@,
                            parent@,
                            hops,
                            settled@,
                        );
                        assert(relaxed_upto(*net, policy, g@, settled@, m as int, k + 1));
                    }
                } else {
                    proof {
                        assert(g@[w as int] is Some);
                        assert(g_at(g@, w as int) <= nd as int);
                        assert(relaxed_upto(*net, policy, g@, settled@, m as int, k + 1)) by {
                            reveal(relaxed_upto);
                            assert(g_at(g@, m as int) == gm as int);
                        }
                    }
                }
            } else {
                proof {
                    assert(g@[w as int] is Some);
                    assert(relaxed_upto(*net, policy, g@, settled@, m as int, k + 1)) by {
                        reveal(relaxed_upto);
                    }
                }
            }
        } else {
            proof {
                assert(relaxed_upto(*net, policy, g@, settled@, m as int, k + 1)) by {
                    reveal(relaxed_upto);
                    assert(!(net.edges@[k as int].a == m as int || net.edges@[k as int].b
                        == m as int));
                }
            }
        }
        k += 1;
    }
    proof {
        reveal(relaxed_upto);
        assert(settled_closed(*net, settled@, g@));
        assert(rel_ok(*net, policy, g@, settled@));
    }
    Ghost(hops)
}

/// Rebuilds the settled walk from `src` to `dst` by following parent
/// pointers backward; its cost is exactly the accumulated cost at `dst`.
#[verifier::rlimit(100)]
fn rebuild_walk(
    net: &Network,
    policy: CostPolicy,
    src: usize,
    dst: usize,
    total: u128,
    g: &Vec<Option<u128>>,
    parent: &Vec<Option<(usize, usize)>>,
    settled: &Vec<bool>,
    hops_in: Ghost<Seq<int>>,
) -> (vs: Vec<usize>)
    requires
        net.wf(),
        g@.len() == net.index.ids@.len(),
        parent@.len() == net.index.ids@.len(),
        settled@.len() == net.index.ids@.len(),
        hops_in@.len() == net.index.ids@.len(),
        src < net.index.ids@.len(),
        dst < net.index.ids@.len(),
        chain_inv(*net, policy, src, g@, parent@, hops_in@, settled@),
        g_bounded(g@, hops_in@, num_settled(settled@) as int),
        g@[dst as int] == Some(total),
    ensures
        vs@.len() > 0,
        vs@[0] == src,
        vs@.last() == dst,
        exists|es: Seq<int>| is_path(*net, vs@, es) && path_cost(*net, policy, es) == total,
{
    let n = g.len();
    let ghost hops = hops_in@;
    let mut vs: Vec<usize> = Vec::new();
    let mut es: Vec<usize> = Vec::new();
    vs.push(dst);
    proof {
        reveal(chain_inv);
        reveal(g_bounded);
    }
    let mut cur: usize = dst;
    while cur != src
        invariant
            net.wf(),
            n == net.index.ids@.len(),
            g@.len() == n,
            parent@.len() == n,
            hops.len() == n,
            settled@.len() == n,
            chain_inv(*net, policy, src, g@, parent@, hops, settled@),
            g_bounded(g@, hops, num_settled(settled@) as int),
            dst < n,
            cur < n,
            g@[cur as int] is Some,
            vs@.len() == es@.len() + 1,
            vs@.len() > 0,
            vs@[0] == cur,
            vs@.last() == dst,
            g@[dst as int] == Some(total),
            forall|k: int|
                0 <= k < es@.len() ==> (#[trigger] es@[k]) < net.edges@.len() && edge_connects(
                    net.edges@[es@[k] as int],
                    vs@[k] as int,
                    vs@[k + 1] as int,
                ),
            g@[cur as int].unwrap() as int + path_cost(*net, policy, to_int_seq(es@))
                == total as int,
        decreases hops[cur as int],
    {
        proof {
            reveal(chain_inv);
            assert(chain_step_ok(*net, policy, g@, parent@, hops, settled@, cur as int));
        }
        let pe = parent[cur].unwrap();
        let u = pe.0;
        let e = pe.1;
        let ghost old_es = es@;
        vs.insert(0, u);
        es.insert(0, e);
        proof {
            reveal(chain_inv);
            reveal(g_bounded);
            let esm = to_int_seq(es@);
            let old_esm = to_int_seq(old_es);
            assert(esm =~= seq![e as int] + old_esm);
            assert(esm.drop_first() =~= old_esm);
            assert(path_cost(*net, policy, esm) == spec_edge_cost(*net, policy, e as int)
                + path_cost(*net, policy, old_esm));
            assert(0 <= hops[u as int]);
        }
        cur = u;
    }
    proof {
        let esm = to_int_seq(es@);
        assert(is_path(*net, vs@, esm)) by {
            assert forall|k: int|
                0 <= k < esm.len() implies 0 <= #[trigger] esm[k] < net.edges@.len()
                && edge_connects(net.edges@[esm[k]], vs@[k] as int, vs@[k + 1] as int) by {
                assert(esm[k] == es@[k] as int);
            }
        }
        reveal(chain_inv);
        assert(g@[src as int].unwrap() == 0);
        assert(path_cost(*net, policy, esm) == total as int);
        assert(vs@[0] == src && vs@.last() == dst);
    }
    vs
}

/// Heuristic-guided least-cost search from `src` to `dst`.
///
/// `heur` supplies one admissible cost-to-go estimate per vertex; the
/// all-zero table makes the search a pure least-cost one. On success the
/// returned vertex list is a real walk of the network from `src` to `dst`,
/// and the returned total is the exact cost of that walk's edges under the
/// chosen policy; `None` is returned exactly when no walk joins the two
/// vertices.
#[verifier::rlimit(100)]
pub fn astar(
    net: &Network,
    src: usize,
    dst: usize,
    policy: CostPolicy,
    heur: &Vec<u64>,
) -> (r: Option<(u128, Vec<usize>)>)
    requires
        net.wf(),
        src < net.index.ids@.len(),
        dst < net.index.ids@.len(),
        heur@.len() == net.index.ids@.len(),
    ensures
        match r {
            Some(res) => {
                &&& res.1@.len() > 0
                &&& res.1@[0] == src
                &&& res.1@.last() == dst
                &&& exists|es: Seq<int>|
                    is_path(*net, res.1@, es) && path_cost(*net, policy, es) == res.0
                &&& spec_reachable(*net, src, dst)
                &&& zero_heur(heur@) ==> forall|vs: Seq<usize>, es: Seq<int>|
                    is_path(*net, vs, es) && vs.len() > 0 && vs[0] == src && vs.last() == dst
                        ==> path_cost(*net, policy, es) >= res.0
            },
            None => !spec_reachable(*net, src, dst),
        },
{
    let n = net.index.ids.len();
    let mut g: Vec<Option<u128>> = Vec::new();
    let mut parent: Vec<Option<(usize, usize)>> = Vec::new();
    let mut settled: Vec<bool> = Vec::new();
    let ghost mut hops: Seq<int> = Seq::new(n as nat, |i: int| 0);
    let mut i: usize = 0;
    while i < n
        invariant
            0 <= i <= n,
            g@.len() == i,
            parent@.len() == i,
            settled@.len() == i,
            forall|w: int| 0 <= w < i ==> g@[w] is None,
            forall|w: int| 0 <= w < i ==> parent@[w] is None,
            forall|w: int| 0 <= w < i ==> !settled@[w],
        decreases n - i,
    {
        g.push(None);
        parent.push(None);
        settled.push(false);
        i += 1;
    }
    proof {
        lemma_num_settled_zero(settled@);
        reveal(lb_ok);
        reveal(chain_inv);
        reveal(g_bounded);
    }
    g.set(src, Some(0));

    loop
        invariant
            net.wf(),
            src < n,
            dst < n,
            n == net.index.ids@.len(),
            heur@.len() == n,
            g@.len() == n,
            parent@.len() == n,
            settled@.len() == n,
            hops.len() == n,
            chain_inv(*net, policy, src, g@, parent@, hops, settled@),
            g_bounded(g@, hops, num_settled(settled@) as int),
            settled_closed(*net, settled@, g@),
            rel_ok(*net, policy, g@, settled@),
            zero_heur(heur@) ==> lb_ok(*net, policy, src, g@, settled@),
            forall|w: int| 0 <= w < n && #[trigger] settled@[w] ==> g@[w] is Some,
            !settled@[dst as int],
            settled@[src as int] || (num_settled(settled@) == 0 && forall|w: int|
                0 <= w < n && w != src ==> g@[w] is None),
        decreases n - num_settled(settled@),
    {
        proof {
            lemma_num_settled_le(settled@);
        }
        // Select the unsettled reached vertex of least priority, breaking
        // ties toward the smaller handle.
        let mut best: Option<(usize, u128)> = None;
        let mut i: usize = 0;
        while i < n
            invariant
                n == g@.len(),
                n == settled@.len(),
                n == heur@.len(),
                0 <= i <= n,
                g_bounded(g@, hops, num_settled(settled@) as int),
                hops.len() == n,
                match best {
                    Some(b) => b.0 < n && !settled@[b.0 as int] && g@[b.0 as int] is Some && b.1
                        as int == g_at(g@, b.0 as int) + heur@[b.0 as int] && forall|w: int|
                        0 <= w < i && !settled@[w] && (#[trigger] g@[w]) is Some ==> b.1 as int
                            <= g_at(g@, w) + heur@[w],
                    None => forall|w: int|
                        0 <= w < i ==> !(!settled@[w] && (#[trigger] g@[w]) is Some),
                },
            decreases n - i,
        {
            if !settled[i] && g[i].is_some() {
                proof {
                    lemma_num_settled_le(settled@);
                    assert(g@[i as int] is Some);
                }
                let gi = g[i].unwrap();
                proof {
                    reveal(g_bounded);
                    assert(gi as int <= hops[i as int] * (MAX_EDGE_COST as int));
                    assert(hops[i as int] * (MAX_EDGE_COST as int) <= (n as int) * (
                    MAX_EDGE_COST as int)) by (nonlinear_arith)
                        requires
                            hops[i as int] <= n as int,
                            MAX_EDGE_COST as int > 0,
                    ;
                }
                let prio = gi + (heur[i] as u128);
                match best {
                    None => {
                        best = Some((i, prio));
                    },
                    Some(b) => {
                        if prio < b.1 {
                            best = Some((i, prio));
                        }
                    },
                }
            }
            i += 1;
        }

        match best {
            None => {
                // The frontier is empty: everything reached is settled and
                // relaxed, so the reached set is closed and excludes `dst`.
                proof {
                    reveal(chain_inv);
                    assert forall|k: int|
                        0 <= k < net.edges@.len() implies ((g@[(
                    #[trigger] net.edges@[k]).a as int] is Some) <==> (g@[net.edges@[k].b as int]
                        is Some)) by {
                        let e = net.edges@[k];
                        assert(e.a < n && e.b < n);
                        if g@[e.a as int] is Some {
                            assert(settled@[e.a as int]);
                            assert(g@[edge_other(e, e.a as int)] is Some);
                        }
                        if g@[e.b as int] is Some {
                            assert(settled@[e.b as int]);
                            assert(g@[edge_other(e, e.b as int)] is Some);
                        }
                    }
                    if spec_reachable(*net, src, dst) {
                        let (vs, es) = choose|vs: Seq<usize>, es: Seq<int>|
                            is_path(*net, vs, es) && vs.len() > 0 && vs[0] == src && vs.last()
                                == dst;
                        lemma_closed_path(*net, g@, vs, es);
                        assert(g@[dst as int] is Some);
                        assert(settled@[dst as int]);
                    }
                }
                return None;
            },
            Some(b) => {
                let m = b.0;
                let ghost old_settled = settled@;
                settled.set(m, true);
                proof {
                    lemma_num_settled_update(old_settled, m as int);
                    lemma_num_settled_le(settled@);
                    assert(settled@[src as int] || m == src);
                    assert(chain_inv(*net, policy, src, g@, parent@, hops, settled@)) by {
                        reveal(chain_inv);
                        assert forall|x: int|
                            0 <= x < g@.len() && x != src && (#[trigger] g@[x])
                                is Some implies chain_step_ok(
                            *net,
                            policy,
                            g@,
                            parent@,
                            hops,
                            settled@,
                            x,
                        ) by {
                            assert(chain_step_ok(
                                *net,
                                policy,
                                g@,
                                parent@,
                                hops,
                                old_settled,
                                x,
                            ));
                            match parent@[x] {
                                Some(pe) => {
                                    assert(old_settled[pe.0 as int]);
                                    assert(settled@[pe.0 as int]);
                                },
                                None => {},
                            }
                        }
                    }
                    assert(g_bounded(g@, hops, num_settled(settled@) as int)) by {
                        reveal(g_bounded);
                    }
                    // Settling the cheapest frontier vertex keeps the
                    // settled region lower-bound sound (zero heuristic).
                    assert(zero_heur(heur@) ==> lb_ok(*net, policy, src, g@, settled@)) by {
                        reveal(lb_ok);
                        reveal(chain_inv);
                        if zero_heur(heur@) {
                            assert forall|u: int, vs: Seq<usize>, es: Seq<int>|
                                #![trigger settled@[u], is_path(*net, vs, es)]
                                0 <= u < settled@.len() && settled@[u] && is_path(*net, vs, es)
                                    && vs.len() > 0 && vs[0] == src && vs.last() as int
                                    == u implies path_cost(*net, policy, es) >= g_at(g@, u) by {
                                if u == m as int && !old_settled[u] {
                                    if m == src {
                                        lemma_path_cost_nonneg(*net, policy, es);
                                    } else {
                                        assert(old_settled[src as int]);
                                        assert(g_at(g@, src as int) == 0);
                                        assert forall|i: int|
                                            0 <= i < g@.len() && !old_settled[i] && (
                                            #[trigger] g@[i]) is Some implies g_at(g@, m as int)
                                            <= g_at(g@, i) by {
                                            assert(b.1 as int <= g_at(g@, i) + heur@[i]);
                                            assert(heur@[i] == 0 && heur@[m as int] == 0);
                                        }
                                        lemma_frontier_lb(
                                            *net,
                                            policy,
                                            src,
                                            g@,
                                            old_settled,
                                            m as int,
                                            vs,
                                            es,
                                        );
                                    }
                                } else {
                                    assert(old_settled[u]);
                                }
                            }
                        }
                    }
                }

                if m == dst {
                    let total = g[dst].unwrap();
                    let vs = rebuild_walk(net, policy, src, dst, total, &g, &parent, &settled, Ghost(hops));
                    proof {
                        assert(zero_heur(heur@) ==> forall|vs2: Seq<usize>, es2: Seq<int>|
                            is_path(*net, vs2, es2) && vs2.len() > 0 && vs2[0] == src
                                && vs2.last() == dst ==> path_cost(*net, policy, es2)
                                >= total as int) by {
                            if zero_heur(heur@) {
                                assert forall|vs2: Seq<usize>, es2: Seq<int>|
                                    is_path(*net, vs2, es2) && vs2.len() > 0 && vs2[0] == src
                                        && vs2.last() == dst implies path_cost(*net, policy, es2)
                                    >= total as int by {
                                    reveal(lb_ok);
                                    assert(settled@[dst as int]);
                                    assert(path_cost(*net, policy, es2) >= g_at(
                                        g@,
                                        dst as int,
                                    ));
                                }
                            }
                        }
                    }
                    return Some((total, vs));
                }

                // Relax every edge incident to the settled vertex.
                let gm = g[m].unwrap();
                proof {
                    reveal(g_bounded);
                    // Vertices settled earlier stay relaxed after the new
                    // settling: their far endpoints can only have left the
                    // unsettled side.
                    assert forall|u: int, kk: int|
                        #![trigger settled@[u], net.edges@[kk]]
                        0 <= u < settled@.len() && settled@[u] && u != m as int && 0 <= kk
                            < net.edges@.len() && (net.edges@[kk].a == u || net.edges@[kk].b
                            == u) implies g@[edge_other(net.edges@[kk], u)] is Some && (!settled@[
                        edge_other(net.edges@[kk], u)] ==> g_at(g@, edge_other(net.edges@[kk], u))
                            <= g_at(g@, u) + spec_edge_cost(*net, policy, kk)) by {
                        assert(old_settled[u]);
                    }
                }
                let ghost g_before = g@;
                let gh = relax_incident(
                    net,
                    policy,
                    src,
                    dst,
                    m,
                    gm,
                    &mut g,
                    &mut parent,
                    &settled,
                    Ghost(hops),
                );
                proof {
                    hops = gh@;
                    // Relaxation touches unsettled costs only, so the
                    // settled region's lower bounds are untouched.
                    assert(zero_heur(heur@) ==> lb_ok(*net, policy, src, g@, settled@)) by {
                        reveal(lb_ok);
                        reveal(chain_inv);
                        if zero_heur(heur@) {
                            assert forall|u: int, vs: Seq<usize>, es: Seq<int>|
                                #![trigger settled@[u], is_path(*net, vs, es)]
                                0 <= u < settled@.len() && settled@[u] && is_path(*net, vs, es)
                                    && vs.len() > 0 && vs[0] == src && vs.last() as int
                                    == u implies path_cost(*net, policy, es) >= g_at(g@, u) by {
                                assert(g@[u] == g_before[u]);
                                assert(path_cost(*net, policy, es) >= g_at(g_before, u));
                            }
                        }
                    }
                }
            },
        }
    }
}

} // verus!
