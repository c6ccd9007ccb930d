//! Multi-source region partitioning: frontiers grow outward from labeled
//! seed vertices in breadth-first waves, every reached vertex is assigned
//! the label and seed path of the first frontier that touches it, and the
//! first contact between two different frontiers is recorded as the
//! boundary of that label pair.
//!
//! The processing order is part of the contract: seeds are enqueued in the
//! order of the seed list (callers wanting the lexicographic convention pass
//! the list sorted by label), incident edges are scanned in edge-insertion
//! order, and the whole run is a pure function of the network and the seed
//! list, stated by `spec_partition`.

use vstd::prelude::*;

use std::collections::VecDeque;

use crate::entity::EntityId;
use crate::graph::{id_pos, Edge, EdgeLabel, Network};
use crate::strutil::{lex_le, lex_lt, str_eq, str_le};

verus! {

/// One partition seed: a region label and the entity whose vertex the
/// region grows from.
#[derive(Clone, Debug)]
pub struct Seed {
    pub label: String,
    pub id: EntityId,
}

/// A vertex's region assignment: the owning label and the path of entity
/// identifiers from the owning seed to this vertex.
#[derive(Clone, Debug)]
pub struct Assignment {
    pub label: String,
    pub path: Vec<EntityId>,
}

/// A recorded boundary between regions `a` and `b` (with `a` before `b`
/// lexicographically): the path from `a`'s seed through the crossing edge
/// to `b`'s seed.
#[derive(Clone, Debug)]
pub struct Boundary {
    pub a: String,
    pub b: String,
    pub path: Vec<EntityId>,
}

/// The result of one partitioning run: a region assignment per vertex
/// handle (unreached vertices stay unassigned), and the first-discovered
/// boundary per region pair.
#[derive(Debug)]
pub struct Partition {
    pub regions: Vec<Option<Assignment>>,
    pub boundaries: Vec<Boundary>,
}

/// A fatal precondition violation: the named seed does not resolve to any
/// vertex of the graph.
#[derive(Clone, Debug)]
pub struct PartitionError {
    pub label: String,
    pub id: EntityId,
}

/// The partitioner's whole working state, as a ghost record: the region
/// table, the FIFO frontier queue, and the boundary list.
#[verifier::ext_equal]
pub ghost struct PartState {
    pub regions: Seq<Option<(String, Seq<EntityId>)>>,
    pub queue: Seq<(String, Seq<EntityId>, int)>,
    pub bounds: Seq<((String, String), Seq<EntityId>)>,
}

/// A region entry as the model sees it.
pub open spec fn assign_view(a: Option<Assignment>) -> Option<(String, Seq<EntityId>)> {
    match a {
        Some(x) => Some((x.label, x.path@)),
        None => None,
    }
}

/// The region table as the model sees it.
pub open spec fn regions_view(v: Seq<Option<Assignment>>) -> Seq<Option<(String, Seq<EntityId>)>> {
    v.map_values(|a: Option<Assignment>| assign_view(a))
}

/// The frontier queue as the model sees it.
pub open spec fn queue_view(q: Seq<(String, Vec<EntityId>, usize)>) -> Seq<
    (String, Seq<EntityId>, int),
> {
    q.map_values(|t: (String, Vec<EntityId>, usize)| (t.0, t.1@, t.2 as int))
}

/// The boundary list as the model sees it.
pub open spec fn bounds_view(bs: Seq<Boundary>) -> Seq<((String, String), Seq<EntityId>)> {
    bs.map_values(|b: Boundary| ((b.a, b.b), b.path@))
}

/// The three working structures bundled as one model state.
pub open spec fn cur_state(
    regions: Seq<Option<Assignment>>,
    queue: Seq<(String, Vec<EntityId>, usize)>,
    bounds: Seq<Boundary>,
) -> PartState {
    PartState {
        regions: regions_view(regions),
        queue: queue_view(queue),
        bounds: bounds_view(bounds),
    }
}

/// How many vertices are still unassigned.
pub open spec fn none_count(rs: Seq<Option<(String, Seq<EntityId>)>>) -> nat
    decreases rs.len(),
{
    if rs.len() == 0 {
        0
    } else {
        (if rs[0] is None {
            1nat
        } else {
            0nat
        }) + none_count(rs.drop_first())
    }
}

/// Assigning a previously unassigned vertex lowers the unassigned count by
/// one.
pub proof fn lemma_none_count_update(
    rs: Seq<Option<(String, Seq<EntityId>)>>,
    i: int,
    x: (String, Seq<EntityId>),
)
    requires
        0 <= i < rs.len(),
        rs[i] is None,
    ensures
        none_count(rs.update(i, Some(x))) + 1 == none_count(rs),
    decreases rs.len(),
{
    let rs2 = rs.update(i, Some(x));
    if i == 0 {
        assert(rs2.drop_first() =~= rs.drop_first());
    } else {
        assert(rs2.drop_first() =~= rs.drop_first().update(i - 1, Some(x)));
        lemma_none_count_update(rs.drop_first(), i - 1, x);
    }
}

/// Whether a boundary for the canonical key `(ka, kb)` is already recorded.
pub open spec fn bkey_has(
    bs: Seq<((String, String), Seq<EntityId>)>,
    ka: Seq<char>,
    kb: Seq<char>,
) -> bool {
    exists|i: int| 0 <= i < bs.len() && (#[trigger] bs[i]).0.0@ == ka && bs[i].0.1@ == kb
}

/// The entity identifier an edge label contributes to a growing path: the
/// producing entity for `Via` labels, nothing otherwise.
pub open spec fn label_part(l: EdgeLabel) -> Seq<EntityId> {
    match l {
        EdgeLabel::Via(id) => seq![id],
        _ => Seq::empty(),
    }
}

/// One frontier record's visit: scan the edge list from position `k`,
/// handle every edge incident to `v` — claim unseen neighbors, record a
/// first-discovered boundary on meeting a different label, ignore the rest.
pub open spec fn spec_scan(
    edges: Seq<Edge>,
    ids: Seq<EntityId>,
    label: String,
    path: Seq<EntityId>,
    v: int,
    k: int,
    st: PartState,
) -> PartState
    decreases edges.len() - k,
{
    if k < 0 || k >= edges.len() {
        st
    } else {
        let e = edges[k];
        let st2 = if e.a == v || e.b == v {
            let succ: int = if e.a == v {
                e.b as int
            } else {
                e.a as int
            };
            if 0 <= succ < st.regions.len() && succ < ids.len() {
                let succ_id = ids[succ];
                match st.regions[succ] {
                    Some(seen) => {
                        if seen.0@ == label@ {
                            st
                        } else {
                            let key = if lex_le(label@, seen.0@) {
                                (label, seen.0)
                            } else {
                                (seen.0, label)
                            };
                            let full = if lex_le(label@, seen.0@) {
                                path + seen.1.reverse()
                            } else {
                                seen.1 + path.reverse()
                            };
                            if bkey_has(st.bounds, key.0@, key.1@) {
                                st
                            } else {
                                PartState { bounds: st.bounds.push((key, full)), ..st }
                            }
                        }
                    },
                    None => {
                        let np = path + label_part(e.label) + seq![succ_id];
                        PartState {
                            regions: st.regions.update(succ, Some((label, np))),
                            queue: st.queue.push((label, np, succ)),
                            ..st
                        }
                    },
                }
            } else {
                st
            }
        } else {
            st
        };
        spec_scan(edges, ids, label, path, v, k + 1, st2)
    }
}

/// A visit never changes the sum of unassigned vertices and queued records:
/// each claim assigns one vertex and enqueues one record.
pub proof fn lemma_scan_measure(
    edges: Seq<Edge>,
    ids: Seq<EntityId>,
    label: String,
    path: Seq<EntityId>,
    v: int,
    k: int,
    st: PartState,
)
    ensures
        ({
            let r = spec_scan(edges, ids, label, path, v, k, st);
            &&& none_count(r.regions) + r.queue.len() == none_count(st.regions) + st.queue.len()
            &&& r.regions.len() == st.regions.len()
        }),
    decreases edges.len() - k,
{
    if 0 <= k < edges.len() {
        let e = edges[k];
        if e.a == v || e.b == v {
            let succ: int = if e.a == v {
                e.b as int
            } else {
                e.a as int
            };
            if 0 <= succ < st.regions.len() && succ < ids.len() {
                match st.regions[succ] {
                    Some(seen) => {},
                    None => {
                        let np = path + label_part(e.label) + seq![ids[succ]];
                        lemma_none_count_update(st.regions, succ, (label, np));
                    },
                }
            }
        }
        let st2 = spec_scan_step(edges, ids, label, path, v, k, st);
        lemma_scan_measure(edges, ids, label, path, v, k + 1, st2);
    }
}

/// The state after handling the single edge `k` of a visit.
pub open spec fn spec_scan_step(
    edges: Seq<Edge>,
    ids: Seq<EntityId>,
    label: String,
    path: Seq<EntityId>,
    v: int,
    k: int,
    st: PartState,
) -> PartState {
    if k < 0 || k >= edges.len() {
        st
    } else {
        let e = edges[k];
        if e.a == v || e.b == v {
            let succ: int = if e.a == v {
                e.b as int
            } else {
                e.a as int
            };
            if 0 <= succ < st.regions.len() && succ < ids.len() {
                let succ_id = ids[succ];
                match st.regions[succ] {
                    Some(seen) => {
                        if seen.0@ == label@ {
                            st
                        } else {
                            let key = if lex_le(label@, seen.0@) {
                                (label, seen.0)
                            } else {
                                (seen.0, label)
                            };
                            let full = if lex_le(label@, seen.0@) {
                                path + seen.1.reverse()
                            } else {
                                seen.1 + path.reverse()
                            };
                            if bkey_has(st.bounds, key.0@, key.1@) {
                                st
                            } else {
                                PartState { bounds: st.bounds.push((key, full)), ..st }
                            }
                        }
                    },
                    None => {
                        let np = path + label_part(e.label) + seq![succ_id];
                        PartState {
                            regions: st.regions.update(succ, Some((label, np))),
                            queue: st.queue.push((label, np, succ)),
                            ..st
                        }
                    },
                }
            } else {
                st
            }
        } else {
            st
        }
    }
}

/// One scan unfolds into one step followed by the rest.
pub proof fn lemma_scan_unfold(
    edges: Seq<Edge>,
    ids: Seq<EntityId>,
    label: String,
    path: Seq<EntityId>,
    v: int,
    k: int,
    st: PartState,
)
    requires
        0 <= k < edges.len(),
    ensures
        spec_scan(edges, ids, label, path, v, k, st) == spec_scan(
            edges,
            ids,
            label,
            path,
            v,
            k + 1,
            spec_scan_step(edges, ids, label, path, v, k, st),
        ),
{
}

/// The whole frontier expansion: pop the front record, visit it, repeat
/// until the queue is empty; the region table and boundary list remain.
pub open spec fn spec_expand(edges: Seq<Edge>, ids: Seq<EntityId>, st: PartState) -> (
    Seq<Option<(String, Seq<EntityId>)>>,
    Seq<((String, String), Seq<EntityId>)>,
)
    decreases none_count(st.regions) + st.queue.len(),
    via spec_expand_dec
{
    if st.queue.len() == 0 {
        (st.regions, st.bounds)
    } else {
        let ent = st.queue[0];
        let st1 = PartState { queue: st.queue.drop_first(), ..st };
        let st2 = spec_scan(edges, ids, ent.0, ent.1, ent.2, 0, st1);
        spec_expand(edges, ids, st2)
    }
}

#[via_fn]
proof fn spec_expand_dec(edges: Seq<Edge>, ids: Seq<EntityId>, st: PartState) {
    if st.queue.len() > 0 {
        let ent = st.queue[0];
        let st1 = PartState { queue: st.queue.drop_first(), ..st };
        lemma_scan_measure(edges, ids, ent.0, ent.1, ent.2, 0, st1);
    }
}

/// Seeding: resolve each seed in list order, mark its vertex, and enqueue
/// it; fail fast on the first seed whose entity has no vertex.
pub open spec fn spec_init(ids: Seq<EntityId>, seeds: Seq<Seed>, k: int, st: PartState) -> Result<
    PartState,
    Seed,
>
    decreases seeds.len() - k,
{
    if k < 0 || k >= seeds.len() {
        Ok(st)
    } else {
        let sd = seeds[k];
        match id_pos(ids, sd.id) {
            None => Err(sd),
            Some(v) => {
                let path = seq![sd.id];
                let st2 = PartState {
                    regions: st.regions.update(v, Some((sd.label, path))),
                    queue: st.queue.push((sd.label, path, v)),
                    ..st
                };
                spec_init(ids, seeds, k + 1, st2)
            },
        }
    }
}

/// The empty working state over `n` vertices.
pub open spec fn init_part_state(n: nat) -> PartState {
    PartState {
        regions: Seq::new(n, |i: int| None),
        queue: Seq::empty(),
        bounds: Seq::empty(),
    }
}

/// What one partitioning run returns, as a function of the network and the
/// seed list alone.
pub open spec fn spec_partition(net: Network, seeds: Seq<Seed>) -> Result<
    (Seq<Option<(String, Seq<EntityId>)>>, Seq<((String, String), Seq<EntityId>)>),
    Seed,
> {
    match spec_init(net.index.ids@, seeds, 0, init_part_state(net.index.ids@.len())) {
        Err(sd) => Err(sd),
        Ok(st1) => Ok(spec_expand(net.edges@, net.index.ids@, st1)),
    }
}

/// An element-wise copy of a path.
pub fn copy_ids(src: &Vec<EntityId>) -> (r: Vec<EntityId>)
    ensures
        r@ == src@,
{
    let n = src.len();
    let mut r: Vec<EntityId> = Vec::new();
    let mut i: usize = 0;
    while i < n
        invariant
            n == src@.len(),
            0 <= i <= n,
            r@ == src@.subrange(0, i as int),
        decreases n - i,
    {
        r.push(src[i]);
        proof {
            assert(r@ =~= src@.subrange(0, i + 1));
        }
        i += 1;
    }
    proof {
        assert(r@ =~= src@);
    }
    r
}

/// Appends the reverse of `src` to `dst`.
fn append_reversed(dst: &mut Vec<EntityId>, src: &Vec<EntityId>)
    ensures
        final(dst)@ == old(dst)@ + src@.reverse(),
{
    let n = src.len();
    let mut i: usize = 0;
    while i < n
        invariant
            n == src@.len(),
            0 <= i <= n,
            dst@ == old(dst)@ + src@.reverse().subrange(0, i as int),
        decreases n - i,
    {
        dst.push(src[n - 1 - i]);
        proof {
            assert(src@.reverse()[i as int] == src@[n - 1 - i]);
            assert(dst@ =~= old(dst)@ + src@.reverse().subrange(0, i + 1));
        }
        i += 1;
    }
    proof {
        assert(src@.reverse().subrange(0, n as int) =~= src@.reverse());
        assert(dst@ =~= old(dst)@ + src@.reverse());
    }
}

/// Whether the boundary list already holds the key `(x, y)`.
fn bounds_has_key(bs: &Vec<Boundary>, x: &str, y: &str) -> (r: bool)
    ensures
        r == bkey_has(bounds_view(bs@), x@, y@),
{
    let n = bs.len();
    let mut i: usize = 0;
    while i < n
        invariant
            n == bs@.len(),
            0 <= i <= n,
            forall|k: int|
                0 <= k < i ==> !((#[trigger] bs@[k]).a@ == x@ && bs@[k].b@ == y@),
        decreases n - i,
    {
        if str_eq(bs[i].a.as_str(), x) && str_eq(bs[i].b.as_str(), y) {
            proof {
                assert(bounds_view(bs@)[i as int].0.0@ == x@ && bounds_view(bs@)[i as int].0.1@
                    == y@);
            }
            return true;
        }
        i += 1;
    }
    proof {
        assert forall|k: int| 0 <= k < bounds_view(bs@).len() implies !((#[trigger] bounds_view(
            bs@,
        )[k]).0.0@ == x@ && bounds_view(bs@)[k].0.1@ == y@) by {
            assert(bounds_view(bs@)[k] == ((bs@[k].a, bs@[k].b), bs@[k].path@));
        }
    }
    false
}

/// Partitions the network's vertices into labeled regions grown from the
/// given seeds, recording the first-discovered boundary of every pair of
/// adjacent regions.
///
/// Seeds are processed in list order and incident edges in edge-insertion
/// order, so the result is a pure function of the inputs, stated exactly by
/// `spec_partition`. A seed whose entity has no vertex is a configuration
/// error: the run fails immediately, naming that seed's label and
/// identifier, and produces nothing else.
pub fn partition(net: &Network, seeds: &Vec<Seed>) -> (r: Result<Partition, PartitionError>)
    requires
        net.wf(),
    ensures
        match r {
            Ok(p) => {
                &&& spec_partition(*net, seeds@) == Ok::<_, Seed>(
                    (regions_view(p.regions@), bounds_view(p.boundaries@)),
                )
                &&& p.regions@.len() == net.index.ids@.len()
                &&& bounds_wf(bounds_view(p.boundaries@))
            },
            Err(e) => spec_partition(*net, seeds@) == Err::<
                (Seq<Option<(String, Seq<EntityId>)>>, Seq<((String, String), Seq<EntityId>)>),
                _,
            >(Seed { label: e.label, id: e.id }),
        },
{
    let vcount = net.index.ids.len();
    let ghost ids = net.index.ids@;
    let ghost edges = net.edges@;

    let mut regions: Vec<Option<Assignment>> = Vec::new();
    let mut i: usize = 0;
    while i < vcount
        invariant
            0 <= i <= vcount,
            regions@.len() == i,
            forall|k: int| 0 <= k < i ==> regions@[k] is None,
        decreases vcount - i,
    {
        regions.push(None);
        i += 1;
    }
    proof {
        assert(regions_view(regions@) =~= init_part_state(ids.len()).regions);
    }

    let mut queue: VecDeque<(String, Vec<EntityId>, usize)> = VecDeque::new();
    let mut bounds: Vec<Boundary> = Vec::new();

    proof {
        assert(queue_view(queue@) =~= init_part_state(ids.len()).queue);
        assert(bounds_view(bounds@) =~= init_part_state(ids.len()).bounds);
        assert(cur_state(regions@, queue@, bounds@) =~= init_part_state(ids.len()));
    }

    // Seeding pass, in list order, failing fast on an unresolved seed.
    let scount = seeds.len();
    let mut s: usize = 0;
    while s < scount
        invariant
            net.wf(),
            ids == net.index.ids@,
            scount == seeds@.len(),
            0 <= s <= scount,
            regions@.len() == ids.len(),
            spec_init(ids, seeds@, 0, init_part_state(ids.len())) == spec_init(
                ids,
                seeds@,
                s as int,
                cur_state(regions@, queue@, bounds@),
            ),
        decreases scount - s,
    {
        let ghost pre = cur_state(regions@, queue@, bounds@);
        let sd = &seeds[s];
        match net.lookup(sd.id) {
            None => {
                return Err(PartitionError { label: sd.label.clone(), id: sd.id });
            },
            Some(v) => {
                proof {
                    crate::graph::lemma_id_pos(ids, seeds@[s as int].id);
                }
                let label_r = sd.label.clone();
                let label_q = sd.label.clone();
                let mut path_r: Vec<EntityId> = Vec::new();
                path_r.push(sd.id);
                let mut path_q: Vec<EntityId> = Vec::new();
                path_q.push(sd.id);
                proof {
                    assert(path_r@ =~= seq![sd.id]);
                    assert(path_q@ =~= seq![sd.id]);
                }
                regions.set(v, Some(Assignment { label: label_r, path: path_r }));
                queue.push_back((label_q, path_q, v));
                proof {
                    assert(regions_view(regions@) =~= pre.regions.update(
                        v as int,
                        Some((seeds@[s as int].label, seq![seeds@[s as int].id])),
                    ));
                    assert(queue_view(queue@) =~= pre.queue.push(
                        (seeds@[s as int].label, seq![seeds@[s as int].id], v as int),
                    ));
                    assert(bounds_view(bounds@) == pre.bounds);
                    assert(cur_state(regions@, queue@, bounds@) =~= PartState {
                        regions: pre.regions.update(
                            v as int,
                            Some((seeds@[s as int].label, seq![seeds@[s as int].id])),
                        ),
                        queue: pre.queue.push(
                            (seeds@[s as int].label, seq![seeds@[s as int].id], v as int),
                        ),
                        ..pre
                    });
                }
            },
        }
        s += 1;
    }

    // Frontier expansion: pop, visit, repeat.
    let ghost st_seeded = cur_state(regions@, queue@, bounds@);
    while queue.len() > 0
        invariant
            net.wf(),
            ids == net.index.ids@,
            edges == net.edges@,
            regions@.len() == ids.len(),
            spec_expand(edges, ids, st_seeded) == spec_expand(
                edges,
                ids,
                cur_state(regions@, queue@, bounds@),
            ),
        decreases none_count(regions_view(regions@)) + queue@.len(),
    {
        let ghost pre = cur_state(regions@, queue@, bounds@);
        let front = queue.pop_front().unwrap();
        let (label, path, v) = front;
        let ghost st_popped = PartState { queue: pre.queue.drop_first(), ..pre };
        proof {
            assert(queue_view(queue@) =~= pre.queue.drop_first());
            assert(cur_state(regions@, queue@, bounds@) =~= st_popped);
            assert(pre.queue[0] == (label, path@, v as int));
        }

        let ecount = net.edges.len();
        let mut k: usize = 0;
        while k < ecount
            invariant
                net.wf(),
                ids == net.index.ids@,
                edges == net.edges@,
                ecount == edges.len(),
                0 <= k <= ecount,
                regions@.len() == ids.len(),
                spec_scan(edges, ids, label, path@, v as int, 0, st_popped) == spec_scan(
                    edges,
                    ids,
                    label,
                    path@,
                    v as int,
                    k as int,
                    cur_state(regions@, queue@, bounds@),
                ),
            decreases ecount - k,
        {
            let ghost stk = cur_state(regions@, queue@, bounds@);
            let ghost e = edges[k as int];
            let ea = net.edges[k].a;
            let eb = net.edges[k].b;
            if ea == v || eb == v {
                let succ = if ea == v {
                    eb
                } else {
                    ea
                };
                proof {
                    assert(e.a < ids.len() && e.b < ids.len());
                    assert(stk.regions.len() == regions@.len());
                    assert(stk.regions[succ as int] == assign_view(regions@[succ as int]));
                }
                let succ_id = net.index.ids[succ];
                if regions[succ].is_some() {
                    let a0 = regions[succ].as_ref().unwrap();
                    let ghost seen = (a0.label, a0.path@);
                    proof {
                        assert(stk.regions[succ as int] == Some(seen));
                    }
                    let seen_label_matches = str_eq(a0.label.as_str(), label.as_str());
                    let take_first = str_le(label.as_str(), a0.label.as_str());
                    if !seen_label_matches {
                        if take_first {
                            let a = regions[succ].as_ref().unwrap();
                            if !bounds_has_key(&bounds, label.as_str(), a.label.as_str()) {
                                let mut full = copy_ids(&path);
                                append_reversed(&mut full, &a.path);
                                bounds.push(
                                    Boundary {
                                        a: label.clone(),
                                        b: a.label.clone(),
                                        path: full,
                                    },
                                );
                                proof {
                                    assert(bounds_view(bounds@) =~= stk.bounds.push(
                                        ((label, seen.0), path@ + seen.1.reverse()),
                                    ));
                                    assert(cur_state(regions@, queue@, bounds@)
                                        =~= spec_scan_step(
                                        edges,
                                        ids,
                                        label,
                                        path@,
                                        v as int,
                                        k as int,
                                        stk,
                                    ));
                                }
                            }
                        } else {
                            let a = regions[succ].as_ref().unwrap();
                            if !bounds_has_key(&bounds, a.label.as_str(), label.as_str()) {
                                let mut full = copy_ids(&a.path);
                                append_reversed(&mut full, &path);
                                bounds.push(
                                    Boundary {
                                        a: a.label.clone(),
                                        b: label.clone(),
                                        path: full,
                                    },
                                );
                                proof {
                                    assert(bounds_view(bounds@) =~= stk.bounds.push(
                                        ((seen.0, label), seen.1 + path@.reverse()),
                                    ));
                                    assert(cur_state(regions@, queue@, bounds@)
                                        =~= spec_scan_step(
                                        edges,
                                        ids,
                                        label,
                                        path@,
                                        v as int,
                                        k as int,
                                        stk,
                                    ));
                                }
                            }
                        }
                    }
                } else {
                    let ghost np_spec = path@ + label_part(e.label) + seq![ids[succ as int]];
                    let mut np = copy_ids(&path);
                    match &net.edges[k].label {
                        EdgeLabel::Via(id) => np.push(*id),
                        _ => {},
                    }
                    np.push(succ_id);
                    proof {
                        assert(np@ =~= np_spec);
                    }
                    let np_r = copy_ids(&np);
                    regions.set(succ, Some(Assignment { label: label.clone(), path: np_r }));
                    queue.push_back((label.clone(), np, succ));
                    proof {
                        assert(regions_view(regions@) =~= stk.regions.update(
                            succ as int,
                            Some((label, np_spec)),
                        ));
                        assert(queue_view(queue@) =~= stk.queue.push(
                            (label, np_spec, succ as int),
                        ));
                        assert(cur_state(regions@, queue@, bounds@) =~= spec_scan_step(
                            edges,
                            ids,
                            label,
                            path@,
                            v as int,
                            k as int,
                            stk,
                        ));
                    }
                }
            }
            proof {
                let stn = cur_state(regions@, queue@, bounds@);
                assert(regions_view(regions@).len() == regions@.len());
                assert(stn =~= spec_scan_step(edges, ids, label, path@, v as int, k as int, stk));
                lemma_scan_unfold(edges, ids, label, path@, v as int, k as int, stk);
            }
            k += 1;
        }
        proof {
            let stn = cur_state(regions@, queue@, bounds@);
            assert(spec_scan(edges, ids, label, path@, v as int, ecount as int, stn) == stn);
            lemma_scan_measure(edges, ids, label, path@, v as int, 0, st_popped);
        }
    }

    proof {
        let stf = cur_state(regions@, queue@, bounds@);
        assert(stf.queue.len() == 0);
        assert(spec_expand(edges, ids, stf) == (stf.regions, stf.bounds));
        lemma_partition_boundary_keys(
            *net,
            seeds@,
            regions_view(regions@),
            bounds_view(bounds@),
        );
    }
    Ok(Partition { regions, boundaries: bounds })
}


/// Well-formed boundary list: every key is in canonical order (first label
/// strictly before the second), and no key occurs twice.
pub open spec fn bounds_wf(bs: Seq<((String, String), Seq<EntityId>)>) -> bool {
    &&& forall|i: int| 0 <= i < bs.len() ==> lex_lt((#[trigger] bs[i]).0.0@, bs[i].0.1@)
    &&& forall|i: int, j: int|
        0 <= i < j < bs.len() ==> !((#[trigger] bs[i]).0.0@ == (#[trigger] bs[j]).0.0@
            && bs[i].0.1@ == bs[j].0.1@)
}

/// A visit keeps the boundary list well formed: it only adds keys that are
/// canonical and not yet present.
pub proof fn lemma_scan_bounds(
    edges: Seq<Edge>,
    ids: Seq<EntityId>,
    label: String,
    path: Seq<EntityId>,
    v: int,
    k: int,
    st: PartState,
)
    requires
        bounds_wf(st.bounds),
    ensures
        bounds_wf(spec_scan(edges, ids, label, path, v, k, st).bounds),
    decreases edges.len() - k,
{
    if 0 <= k < edges.len() {
        let st2 = spec_scan_step(edges, ids, label, path, v, k, st);
        assert(bounds_wf(st2.bounds)) by {
            let e = edges[k];
            if e.a == v || e.b == v {
                let succ: int = if e.a == v {
                    e.b as int
                } else {
                    e.a as int
                };
                if 0 <= succ < st.regions.len() && succ < ids.len() {
                    match st.regions[succ] {
                        Some(seen) => {
                            if seen.0@ != label@ {
                                crate::strutil::lemma_lex_lt_total(label@, seen.0@);
                                let key = if lex_le(label@, seen.0@) {
                                    (label, seen.0)
                                } else {
                                    (seen.0, label)
                                };
                                assert(lex_lt(key.0@, key.1@));
                                if !bkey_has(st.bounds, key.0@, key.1@) {
                                    let bs2 = st2.bounds;
                                    assert forall|i: int, j: int|
                                        0 <= i < j < bs2.len() implies !((#[trigger] bs2[i]).0.0@
                                        == (#[trigger] bs2[j]).0.0@ && bs2[i].0.1@
                                        == bs2[j].0.1@) by {
                                        if j == bs2.len() - 1 && bs2[i].0.0@ == bs2[j].0.0@
                                            && bs2[i].0.1@ == bs2[j].0.1@ {
                                            assert(st.bounds[i].0.0@ == key.0@ && st.bounds[i].0.1@
                                                == key.1@);
                                            assert(bkey_has(st.bounds, key.0@, key.1@));
                                        }
                                    }
                                }
                            }
                        },
                        None => {},
                    }
                }
            }
        }
        lemma_scan_unfold(edges, ids, label, path, v, k, st);
        lemma_scan_bounds(edges, ids, label, path, v, k + 1, st2);
    }
}

/// The whole expansion keeps the boundary list well formed.
pub proof fn lemma_expand_bounds(edges: Seq<Edge>, ids: Seq<EntityId>, st: PartState)
    requires
        bounds_wf(st.bounds),
    ensures
        bounds_wf(spec_expand(edges, ids, st).1),
    decreases none_count(st.regions) + st.queue.len(),
{
    if st.queue.len() > 0 {
        let ent = st.queue[0];
        let st1 = PartState { queue: st.queue.drop_first(), ..st };
        let st2 = spec_scan(edges, ids, ent.0, ent.1, ent.2, 0, st1);
        lemma_scan_bounds(edges, ids, ent.0, ent.1, ent.2, 0, st1);
        lemma_scan_measure(edges, ids, ent.0, ent.1, ent.2, 0, st1);
        lemma_expand_bounds(edges, ids, st2);
    }
}

/// Seeding never records a boundary, and it never unassigns a vertex.
pub proof fn lemma_init_frame(ids: Seq<EntityId>, seeds: Seq<Seed>, k: int, st: PartState)
    requires
        st.regions.len() == ids.len(),
    ensures
        match spec_init(ids, seeds, k, st) {
            Ok(st2) => st2.bounds == st.bounds && st2.regions.len() == st.regions.len(),
            Err(_) => true,
        },
    decreases seeds.len() - k,
{
    if 0 <= k < seeds.len() {
        let sd = seeds[k];
        match id_pos(ids, sd.id) {
            None => {},
            Some(v) => {
                lemma_id_pos_bound(ids, sd.id, v);
                let path = seq![sd.id];
                let st2 = PartState {
                    regions: st.regions.update(v, Some((sd.label, path))),
                    queue: st.queue.push((sd.label, path, v)),
                    ..st
                };
                lemma_init_frame(ids, seeds, k + 1, st2);
            },
        }
    }
}

/// Every boundary key `(a, b)` of a successful run satisfies `a` strictly
/// before `b` lexicographically, and each key maps to exactly one recorded
/// path, the one fixed at first discovery.
pub proof fn lemma_partition_boundary_keys(
    net: Network,
    seeds: Seq<Seed>,
    rg: Seq<Option<(String, Seq<EntityId>)>>,
    bs: Seq<((String, String), Seq<EntityId>)>,
)
    requires
        spec_partition(net, seeds) == Ok::<_, Seed>((rg, bs)),
    ensures
        bounds_wf(bs),
{
    let st0 = init_part_state(net.index.ids@.len());
    lemma_init_frame(net.index.ids@, seeds, 0, st0);
    match spec_init(net.index.ids@, seeds, 0, st0) {
        Err(_) => {},
        Ok(st1) => {
            assert(bounds_wf(st1.bounds));
            lemma_expand_bounds(net.edges@, net.index.ids@, st1);
        },
    }
}

/// Re-running the partitioner on an unchanged network and seed list yields
/// identical region assignments and an identical boundary list: the result
/// is a function of those two inputs alone.
pub proof fn lemma_partition_deterministic(
    net: Network,
    seeds: Seq<Seed>,
    r1: (Seq<Option<(String, Seq<EntityId>)>>, Seq<((String, String), Seq<EntityId>)>),
    r2: (Seq<Option<(String, Seq<EntityId>)>>, Seq<((String, String), Seq<EntityId>)>),
)
    requires
        spec_partition(net, seeds) == Ok::<_, Seed>(r1),
        spec_partition(net, seeds) == Ok::<_, Seed>(r2),
    ensures
        r1 == r2,
{
}

/// A visit never replaces an assignment that is already made: it claims
/// unassigned vertices only.
pub proof fn lemma_scan_keeps_claims(
    edges: Seq<Edge>,
    ids: Seq<EntityId>,
    label: String,
    path: Seq<EntityId>,
    v: int,
    k: int,
    st: PartState,
    i: int,
)
    requires
        0 <= i < st.regions.len(),
        st.regions[i] is Some,
    ensures
        ({
            let r = spec_scan(edges, ids, label, path, v, k, st);
            &&& r.regions.len() == st.regions.len()
            &&& r.regions[i] == st.regions[i]
        }),
    decreases edges.len() - k,
{
    if 0 <= k < edges.len() {
        let st2 = spec_scan_step(edges, ids, label, path, v, k, st);
        lemma_scan_unfold(edges, ids, label, path, v, k, st);
        lemma_scan_keeps_claims(edges, ids, label, path, v, k + 1, st2, i);
    }
}

/// The first frontier to reach a vertex owns it: an assignment, once made,
/// is never replaced during the rest of the expansion. This is the
/// distance-zero instance of the first-arrival rule; which frontier arrives
/// first at a deeper vertex follows from the queue order.
pub proof fn lemma_first_claim_kept(edges: Seq<Edge>, ids: Seq<EntityId>, st: PartState, i: int)
    requires
        0 <= i < st.regions.len(),
        st.regions[i] is Some,
    ensures
        spec_expand(edges, ids, st).0[i] == st.regions[i],
    decreases none_count(st.regions) + st.queue.len(),
{
    if st.queue.len() > 0 {
        let ent = st.queue[0];
        let st1 = PartState { queue: st.queue.drop_first(), ..st };
        let st2 = spec_scan(edges, ids, ent.0, ent.1, ent.2, 0, st1);
        lemma_scan_keeps_claims(edges, ids, ent.0, ent.1, ent.2, 0, st1, i);
        lemma_scan_measure(edges, ids, ent.0, ent.1, ent.2, 0, st1);
        lemma_first_claim_kept(edges, ids, st2, i);
    }
}

/// A seed whose vertex no later seed shares is assigned its own label, with
/// the one-element path holding its own identifier, in every successful
/// run.
pub proof fn lemma_seed_owns_vertex(
    net: Network,
    seeds: Seq<Seed>,
    k: int,
    v: int,
    rg: Seq<Option<(String, Seq<EntityId>)>>,
    bs: Seq<((String, String), Seq<EntityId>)>,
)
    requires
        spec_partition(net, seeds) == Ok::<_, Seed>((rg, bs)),
        0 <= k < seeds.len(),
        id_pos(net.index.ids@, seeds[k].id) == Some(v),
        forall|j: int|
            k < j < seeds.len() ==> id_pos(net.index.ids@, (#[trigger] seeds[j]).id) != Some(v),
    ensures
        rg[v] == Some((seeds[k].label, seq![seeds[k].id])),
{
    let ids = net.index.ids@;
    let st0 = init_part_state(ids.len());
    lemma_id_pos_bound(ids, seeds[k].id, v);
    lemma_init_claims(ids, seeds, 0, st0, k, v);
    match spec_init(ids, seeds, 0, st0) {
        Err(_) => {},
        Ok(st1) => {
            lemma_first_claim_kept(net.edges@, ids, st1, v);
        },
    }
}

/// A resolved identifier's vertex handle is in range.
pub proof fn lemma_id_pos_bound(ids: Seq<EntityId>, id: EntityId, v: int)
    requires
        id_pos(ids, id) == Some(v),
    ensures
        0 <= v < ids.len(),
{
    crate::graph::lemma_id_pos(ids, id);
}

/// After seeding from position `j`, the vertex of seed `k` (for `k >= j`,
/// with no later seed sharing that vertex) holds seed `k`'s label and
/// one-element path; and seeding keeps the region-table length.
pub proof fn lemma_init_claims(
    ids: Seq<EntityId>,
    seeds: Seq<Seed>,
    j: int,
    st: PartState,
    k: int,
    v: int,
)
    requires
        st.regions.len() == ids.len(),
        0 <= j <= k < seeds.len(),
        id_pos(ids, seeds[k].id) == Some(v),
        0 <= v < st.regions.len(),
        forall|i: int|
            k < i < seeds.len() ==> id_pos(ids, (#[trigger] seeds[i]).id) != Some(v),
    ensures
        match spec_init(ids, seeds, j, st) {
            Ok(st2) => st2.regions.len() == st.regions.len() && st2.regions[v] == Some(
                (seeds[k].label, seq![seeds[k].id]),
            ),
            Err(_) => true,
        },
    decreases seeds.len() - j,
{
    if 0 <= j < seeds.len() {
        let sd = seeds[j];
        match id_pos(ids, sd.id) {
            None => {},
            Some(w) => {
                lemma_id_pos_bound(ids, sd.id, w);
                let path = seq![sd.id];
                let st2 = PartState {
                    regions: st.regions.update(w, Some((sd.label, path))),
                    queue: st.queue.push((sd.label, path, w)),
                    ..st
                };
                if j == k {
                    lemma_init_untouched(ids, seeds, j + 1, st2, v);
                } else {
                    lemma_init_claims(ids, seeds, j + 1, st2, k, v);
                }
            },
        }
    }
}

/// Seeding from position `j` does not touch vertex `v` when no seed at or
/// after `j` resolves to `v`.
pub proof fn lemma_init_untouched(
    ids: Seq<EntityId>,
    seeds: Seq<Seed>,
    j: int,
    st: PartState,
    v: int,
)
    requires
        st.regions.len() == ids.len(),
        0 <= v < st.regions.len(),
        forall|i: int|
            j <= i < seeds.len() ==> id_pos(ids, (#[trigger] seeds[i]).id) != Some(v),
    ensures
        match spec_init(ids, seeds, j, st) {
            Ok(st2) => st2.regions.len() == st.regions.len() && st2.regions[v] == st.regions[v],
            Err(_) => true,
        },
    decreases seeds.len() - j,
{
    if 0 <= j < seeds.len() {
        let sd = seeds[j];
        match id_pos(ids, sd.id) {
            None => {},
            Some(w) => {
                lemma_id_pos_bound(ids, sd.id, w);
                let path = seq![sd.id];
                let st2 = PartState {
                    regions: st.regions.update(w, Some((sd.label, path))),
                    queue: st.queue.push((sd.label, path, w)),
                    ..st
                };
                assert(w != v);
                lemma_init_untouched(ids, seeds, j + 1, st2, v);
            },
        }
    }
}

/// One station code turned into a seed and placed at its ordered position.
pub open spec fn spec_seed_insert(sds: Seq<Seed>, c: crate::graph::SeedCode) -> Seq<Seed>
    decreases sds.len(),
{
    if sds.len() == 0 {
        seq![Seed { label: c.code, id: EntityId::Node(c.node) }]
    } else if lex_lt(c.code@, sds[0].label@) {
        seq![Seed { label: c.code, id: EntityId::Node(c.node) }] + sds
    } else {
        seq![sds[0]] + spec_seed_insert(sds.drop_first(), c)
    }
}

/// The whole code table as a label-sorted seed list.
pub open spec fn spec_seeds_from(codes: Seq<crate::graph::SeedCode>, sds: Seq<Seed>) -> Seq<Seed>
    decreases codes.len(),
{
    if codes.len() == 0 {
        sds
    } else {
        spec_seeds_from(codes.drop_first(), spec_seed_insert(sds, codes[0]))
    }
}

/// Places one code's seed at its ordered position.
fn seed_insert(sds: &mut Vec<Seed>, code: &String, node: i64)
    ensures
        final(sds)@ == spec_seed_insert(
            old(sds)@,
            crate::graph::SeedCode { code: *code, node },
        ),
{
    let ghost c = crate::graph::SeedCode { code: *code, node };
    let n = sds.len();
    let mut i: usize = 0;
    proof {
        assert(sds@.skip(0) =~= sds@);
        assert(sds@.take(0) =~= Seq::<Seed>::empty());
    }
    while i < n
        invariant
            n == sds@.len(),
            0 <= i <= n,
            *sds == *old(sds),
            c == (crate::graph::SeedCode { code: *code, node }),
            spec_seed_insert(old(sds)@, c) == sds@.take(i as int) + spec_seed_insert(
                sds@.skip(i as int),
                c,
            ),
        decreases n - i,
    {
        proof {
            assert(sds@.skip(i as int)[0] == sds@[i as int]);
            assert(sds@.skip(i as int).drop_first() =~= sds@.skip(i + 1));
        }
        if crate::strutil::str_lt(code.as_str(), sds[i].label.as_str()) {
            let ghost pre = sds@;
            sds.insert(i, Seed { label: code.clone(), id: EntityId::Node(node) });
            proof {
                assert(spec_seed_insert(pre.skip(i as int), c) == seq![
                    Seed { label: c.code, id: EntityId::Node(c.node) },
                ] + pre.skip(i as int));
                assert(sds@ =~= pre.take(i as int) + spec_seed_insert(pre.skip(i as int), c));
            }
            return ;
        }
        proof {
            assert(sds@.take(i + 1) =~= sds@.take(i as int) + seq![sds@[i as int]]);
            assert((sds@.take(i as int) + seq![sds@[i as int]]) + spec_seed_insert(
                sds@.skip(i + 1),
                c,
            ) =~= sds@.take(i as int) + (seq![sds@[i as int]] + spec_seed_insert(
                sds@.skip(i + 1),
                c,
            )));
        }
        i += 1;
    }
    let ghost pre = sds@;
    sds.push(Seed { label: code.clone(), id: EntityId::Node(node) });
    proof {
        assert(pre.skip(n as int) =~= Seq::<Seed>::empty());
        assert(spec_seed_insert(pre.skip(n as int), c) == seq![
            Seed { label: c.code, id: EntityId::Node(c.node) },
        ]);
        assert(pre.take(n as int) =~= pre);
        assert(sds@ =~= pre.take(n as int) + spec_seed_insert(pre.skip(n as int), c));
    }
}

/// Every registered station code as a partition seed, sorted by label, so
/// that a run over all stations uses the mandated deterministic seed order.
pub fn seeds_from_codes(net: &Network) -> (r: Vec<Seed>)
    ensures
        r@ == spec_seeds_from(net.codes@, Seq::<Seed>::empty()),
{
    let n = net.codes.len();
    let mut r: Vec<Seed> = Vec::new();
    let mut i: usize = 0;
    proof {
        assert(net.codes@.skip(0) =~= net.codes@);
    }
    while i < n
        invariant
            n == net.codes@.len(),
            0 <= i <= n,
            spec_seeds_from(net.codes@, Seq::<Seed>::empty()) == spec_seeds_from(
                net.codes@.skip(i as int),
                r@,
            ),
        decreases n - i,
    {
        proof {
            assert(net.codes@.skip(i as int)[0] == net.codes@[i as int]);
            assert(net.codes@.skip(i as int).drop_first() =~= net.codes@.skip(i + 1));
        }
        let code = net.codes[i].code.clone();
        let node = net.codes[i].node;
        seed_insert(&mut r, &code, node);
        proof {
            assert((crate::graph::SeedCode { code, node }) == net.codes@[i as int]);
        }
        i += 1;
    }
    proof {
        assert(net.codes@.skip(n as int) =~= Seq::<crate::graph::SeedCode>::empty());
    }
    r
}

} // verus!
