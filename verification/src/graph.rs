//! The network aggregate: entity store, vertex index, and edge set, with the
//! two graph-building conventions the library supports.
//!
//! The graph is an arena of dense integer vertex handles: the vertex index is
//! a bijection between admitted entity identifiers and handles, entities are
//! stored in one owned table, and edges refer to vertices by handle only.

use vstd::prelude::*;

use crate::entity::{
    has_key, key_is, spec_entity_id, spec_entity_tags, spec_has_key, spec_tag_string,
    spec_tag_value, tag_value, Entity, EntityId, NodeData, RelMember, RelationData, Tag, WayData,
};

verus! {

/// Label data carried by an edge: nothing, a relation member's role, or the
/// identifier of the entity that produced the edge.
#[derive(Clone, Debug)]
pub enum EdgeLabel {
    Plain,
    Role(String),
    Via(EntityId),
}

/// An undirected edge between two vertex handles. The graph is a multigraph:
/// several edges may connect the same pair.
#[derive(Clone, Debug)]
pub struct Edge {
    pub a: usize,
    pub b: usize,
    pub label: EdgeLabel,
}

/// Which structural convention turns ways and relations into edges.
///
/// * `EntityCentric`: every entity admitted by the relevance predicate gets a
///   vertex; a way is joined to each of its member nodes by an unlabeled
///   edge, and a relation to each of its members by an edge labeled with the
///   member's role.
/// * `NodeCentric`: only nodes get vertices; a way joins each pair of
///   consecutive member nodes with an edge labeled by the way's identifier,
///   and a stop-area relation joins every pair of its member nodes (ordered
///   by identifier, to avoid reverse duplicates) with an edge labeled by the
///   relation's identifier.
#[derive(Clone, Copy, PartialEq, Eq, Structural, Debug)]
pub enum EdgeModel {
    EntityCentric,
    NodeCentric,
}

/// A station code taken from a node's `ref:crs` tag, resolving to that
/// node's identifier; used to name partition seeds.
#[derive(Clone, Debug)]
pub struct SeedCode {
    pub code: String,
    pub node: i64,
}

/// All retained entities, keyed by identifier.
#[derive(Debug)]
pub struct EntityStore {
    pub entities: Vec<Entity>,
}

/// The bijection between admitted entity identifiers and dense vertex
/// handles. Handle `v` names identifier `ids[v]`; handles are stable once
/// assigned.
#[derive(Debug)]
pub struct VertexIndex {
    pub ids: Vec<EntityId>,
}

/// The built network: store, index, edge set, and the station-code table.
#[derive(Debug)]
pub struct Network {
    pub model: EdgeModel,
    pub store: EntityStore,
    pub index: VertexIndex,
    pub edges: Vec<Edge>,
    pub codes: Vec<SeedCode>,
}

/// Position of an identifier among the indexed identifiers: the first
/// occurrence, if any.
pub open spec fn id_pos(ids: Seq<EntityId>, id: EntityId) -> Option<int>
    decreases ids.len(),
{
    if ids.len() == 0 {
        None
    } else if ids[0] == id {
        Some(0)
    } else {
        match id_pos(ids.drop_first(), id) {
            Some(i) => Some(i + 1),
            None => None,
        }
    }
}

/// Position of the entity with the given identifier in the store.
pub open spec fn store_pos(s: Seq<Entity>, id: EntityId) -> Option<int>
    decreases s.len(),
{
    if s.len() == 0 {
        None
    } else if spec_entity_id(s[0]) == id {
        Some(0)
    } else {
        match store_pos(s.drop_first(), id) {
            Some(i) => Some(i + 1),
            None => None,
        }
    }
}

/// Position of a station code in the code table.
pub open spec fn code_pos(s: Seq<SeedCode>, key: Seq<char>) -> Option<int>
    decreases s.len(),
{
    if s.len() == 0 {
        None
    } else if s[0].code@ == key {
        Some(0)
    } else {
        match code_pos(s.drop_first(), key) {
            Some(i) => Some(i + 1),
            None => None,
        }
    }
}

/// What `id_pos` returns: the first occurrence of `id`, or a guarantee that
/// `id` does not occur.
pub proof fn lemma_id_pos(ids: Seq<EntityId>, id: EntityId)
    ensures
        match id_pos(ids, id) {
            Some(i) => 0 <= i < ids.len() && ids[i] == id && forall|k: int|
                0 <= k < i ==> ids[k] != id,
            None => forall|k: int| 0 <= k < ids.len() ==> ids[k] != id,
        },
    decreases ids.len(),
{
    if ids.len() > 0 && ids[0] != id {
        lemma_id_pos(ids.drop_first(), id);
        match id_pos(ids.drop_first(), id) {
            Some(i) => {
                assert(ids.drop_first()[i] == ids[i + 1]);
                assert forall|k: int| 0 <= k < i + 1 implies ids[k] != id by {
                    if k > 0 {
                        assert(ids.drop_first()[k - 1] == ids[k]);
                    }
                }
            },
            None => {
                assert forall|k: int| 0 <= k < ids.len() implies ids[k] != id by {
                    if k > 0 {
                        assert(ids.drop_first()[k - 1] == ids[k]);
                    }
                }
            },
        }
    }
}

/// An occurrence of `id` preceded only by other identifiers is the one
/// `id_pos` finds.
pub proof fn lemma_id_pos_at(ids: Seq<EntityId>, id: EntityId, i: int)
    requires
        0 <= i < ids.len(),
        ids[i] == id,
        forall|k: int| 0 <= k < i ==> ids[k] != id,
    ensures
        id_pos(ids, id) == Some(i),
{
    lemma_id_pos(ids, id);
    match id_pos(ids, id) {
        Some(j) => {
            if j < i {
                assert(ids[j] != id);
            }
            if i < j {
                assert(ids[i] != id);
            }
        },
        None => {
            assert(ids[i] != id);
        },
    }
}

/// What `store_pos` returns, in the same shape as `lemma_id_pos`.
pub proof fn lemma_store_pos(s: Seq<Entity>, id: EntityId)
    ensures
        match store_pos(s, id) {
            Some(i) => 0 <= i < s.len() && spec_entity_id(s[i]) == id && forall|k: int|
                0 <= k < i ==> spec_entity_id(#[trigger] s[k]) != id,
            None => forall|k: int| 0 <= k < s.len() ==> spec_entity_id(#[trigger] s[k]) != id,
        },
    decreases s.len(),
{
    if s.len() > 0 && spec_entity_id(s[0]) != id {
        lemma_store_pos(s.drop_first(), id);
        match store_pos(s.drop_first(), id) {
            Some(i) => {
                assert(s.drop_first()[i] == s[i + 1]);
                assert forall|k: int| 0 <= k < i + 1 implies spec_entity_id(#[trigger] s[k])
                    != id by {
                    if k > 0 {
                        assert(s.drop_first()[k - 1] == s[k]);
                    }
                }
            },
            None => {
                assert forall|k: int| 0 <= k < s.len() implies spec_entity_id(#[trigger] s[k])
                    != id by {
                    if k > 0 {
                        assert(s.drop_first()[k - 1] == s[k]);
                    }
                }
            },
        }
    }
}

/// An entity with identifier `id` preceded only by entities with other
/// identifiers is the one `store_pos` finds.
pub proof fn lemma_store_pos_at(s: Seq<Entity>, id: EntityId, i: int)
    requires
        0 <= i < s.len(),
        spec_entity_id(s[i]) == id,
        forall|k: int| 0 <= k < i ==> spec_entity_id(#[trigger] s[k]) != id,
    ensures
        store_pos(s, id) == Some(i),
{
    lemma_store_pos(s, id);
    match store_pos(s, id) {
        Some(j) => {
            if j < i {
                assert(spec_entity_id(s[j]) != id);
            }
            if i < j {
                assert(spec_entity_id(s[i]) != id);
            }
        },
        None => {
            assert(spec_entity_id(s[i]) != id);
        },
    }
}

/// What `code_pos` returns, in the same shape as `lemma_id_pos`.
pub proof fn lemma_code_pos(s: Seq<SeedCode>, key: Seq<char>)
    ensures
        match code_pos(s, key) {
            Some(i) => 0 <= i < s.len() && s[i].code@ == key && forall|k: int|
                0 <= k < i ==> (#[trigger] s[k]).code@ != key,
            None => forall|k: int| 0 <= k < s.len() ==> (#[trigger] s[k]).code@ != key,
        },
    decreases s.len(),
{
    if s.len() > 0 && s[0].code@ != key {
        lemma_code_pos(s.drop_first(), key);
        match code_pos(s.drop_first(), key) {
            Some(i) => {
                assert(s.drop_first()[i] == s[i + 1]);
                assert forall|k: int| 0 <= k < i + 1 implies (#[trigger] s[k]).code@ != key by {
                    if k > 0 {
                        assert(s.drop_first()[k - 1] == s[k]);
                    }
                }
            },
            None => {
                assert forall|k: int| 0 <= k < s.len() implies (#[trigger] s[k]).code@ != key by {
                    if k > 0 {
                        assert(s.drop_first()[k - 1] == s[k]);
                    }
                }
            },
        }
    }
}

/// A code entry preceded only by entries with other codes is the one
/// `code_pos` finds.
pub proof fn lemma_code_pos_at(s: Seq<SeedCode>, key: Seq<char>, i: int)
    requires
        0 <= i < s.len(),
        s[i].code@ == key,
        forall|k: int| 0 <= k < i ==> (#[trigger] s[k]).code@ != key,
    ensures
        code_pos(s, key) == Some(i),
{
    lemma_code_pos(s, key);
    match code_pos(s, key) {
        Some(j) => {
            if j < i {
                assert(s[j].code@ != key);
            }
            if i < j {
                assert(s[i].code@ != key);
            }
        },
        None => {
            assert(s[i].code@ != key);
        },
    }
}

/// The vertex index after a lazy lookup of `id`, with the handle returned:
/// the existing handle if `id` is already indexed, else a fresh one.
pub open spec fn spec_get_or_insert(ids: Seq<EntityId>, id: EntityId) -> (Seq<EntityId>, int) {
    match id_pos(ids, id) {
        Some(i) => (ids, i),
        None => (ids.push(id), ids.len() as int),
    }
}

/// The store after keyed insertion of `e`: replaces the entity with the same
/// identifier, or appends.
pub open spec fn spec_store_insert(s: Seq<Entity>, e: Entity) -> Seq<Entity> {
    match store_pos(s, spec_entity_id(e)) {
        Some(i) => s.update(i, e),
        None => s.push(e),
    }
}

/// What a store lookup returns.
pub open spec fn spec_store_get(s: Seq<Entity>, id: EntityId) -> Option<Entity> {
    match store_pos(s, id) {
        Some(i) => Some(s[i]),
        None => None,
    }
}

/// The code table after keyed insertion, replacing an entry with the same
/// code.
pub open spec fn spec_code_insert(s: Seq<SeedCode>, code: String, node: i64) -> Seq<SeedCode> {
    match code_pos(s, code@) {
        Some(i) => s.update(i, SeedCode { code, node }),
        None => s.push(SeedCode { code, node }),
    }
}

/// What a code lookup returns.
pub open spec fn spec_code_get(s: Seq<SeedCode>, key: Seq<char>) -> Option<i64> {
    match code_pos(s, key) {
        Some(i) => Some(s[i].node),
        None => None,
    }
}

impl EntityStore {
    /// The retained entity with the given identifier, if any.
    pub fn get(&self, id: EntityId) -> (r: Option<&Entity>)
        ensures
            match r {
                Some(e) => spec_store_get(self.entities@, id) == Some(*e),
                None => spec_store_get(self.entities@, id) is None,
            },
    {
        let n = self.entities.len();
        let mut i: usize = 0;
        while i < n
            invariant
                n == self.entities@.len(),
                0 <= i <= n,
                forall|k: int| 0 <= k < i ==> spec_entity_id(#[trigger] self.entities@[k]) != id,
            decreases n - i,
        {
            if self.entities[i].id() == id {
                proof {
                    lemma_store_pos_at(self.entities@, id, i as int);
                }
                return Some(&self.entities[i]);
            }
            i += 1;
        }
        proof {
            lemma_store_pos(self.entities@, id);
        }
        None
    }
}

/// The whole of a network's contents, as one ghost record; the builder's
/// contracts are stated over it.
pub ghost struct NetState {
    pub ids: Seq<EntityId>,
    pub entities: Seq<Entity>,
    pub edges: Seq<Edge>,
    pub codes: Seq<SeedCode>,
}

impl Network {
    /// The network's contents as a ghost record.
    pub open spec fn state(self) -> NetState {
        NetState {
            ids: self.index.ids@,
            entities: self.store.entities@,
            edges: self.edges@,
            codes: self.codes@,
        }
    }

    /// Structural invariants: the vertex index is a bijection (no identifier
    /// appears twice), every edge endpoint is a known vertex, and the store
    /// and code table have unique keys.
    pub open spec fn wf(self) -> bool {
        &&& forall|i: int, j: int|
            0 <= i < j < self.index.ids@.len() ==> self.index.ids@[i] != self.index.ids@[j]
        &&& forall|k: int|
            0 <= k < self.edges@.len() ==> (#[trigger] self.edges@[k]).a < self.index.ids@.len()
                && self.edges@[k].b < self.index.ids@.len()
        &&& forall|i: int, j: int|
            0 <= i < j < self.store.entities@.len() ==> spec_entity_id(self.store.entities@[i])
                != spec_entity_id(self.store.entities@[j])
        &&& forall|i: int, j: int|
            0 <= i < j < self.codes@.len() ==> self.codes@[i].code@ != self.codes@[j].code@
    }

    /// An empty network under the given edge convention.
    pub fn new(model: EdgeModel) -> (net: Network)
        ensures
            net.wf(),
            net.model == model,
            net.state().ids == Seq::<EntityId>::empty(),
            net.state().entities == Seq::<Entity>::empty(),
            net.state().edges == Seq::<Edge>::empty(),
            net.state().codes == Seq::<SeedCode>::empty(),
    {
        Network {
            model,
            store: EntityStore { entities: Vec::new() },
            index: VertexIndex { ids: Vec::new() },
            edges: Vec::new(),
            codes: Vec::new(),
        }
    }

    /// The vertex handle for an identifier, creating a fresh vertex on first
    /// reference; repeated calls for the same identifier return the same
    /// handle.
    pub fn index(&mut self, id: EntityId) -> (v: usize)
        requires
            old(self).wf(),
        ensures
            final(self).wf(),
            (final(self).index.ids@, v as int) == spec_get_or_insert(old(self).index.ids@, id),
            v < final(self).index.ids@.len(),
            final(self).index.ids@[v as int] == id,
            final(self).index.ids@.len() >= old(self).index.ids@.len(),
            final(self).model == old(self).model,
            final(self).store == old(self).store,
            final(self).edges == old(self).edges,
            final(self).codes == old(self).codes,
    {
        let n = self.index.ids.len();
        let mut i: usize = 0;
        while i < n
            invariant
                *self == *old(self),
                old(self).wf(),
                n == self.index.ids@.len(),
                0 <= i <= n,
                forall|k: int| 0 <= k < i ==> self.index.ids@[k] != id,
            decreases n - i,
        {
            if self.index.ids[i] == id {
                proof {
                    lemma_id_pos_at(self.index.ids@, id, i as int);
                }
                return i;
            }
            i += 1;
        }
        proof {
            lemma_id_pos(self.index.ids@, id);
        }
        self.index.ids.push(id);
        n
    }

    /// The existing vertex handle for an identifier, if one was assigned.
    pub fn lookup(&self, id: EntityId) -> (r: Option<usize>)
        ensures
            match r {
                Some(v) => id_pos(self.index.ids@, id) == Some(v as int),
                None => id_pos(self.index.ids@, id) is None,
            },
    {
        let n = self.index.ids.len();
        let mut i: usize = 0;
        while i < n
            invariant
                n == self.index.ids@.len(),
                0 <= i <= n,
                forall|k: int| 0 <= k < i ==> self.index.ids@[k] != id,
            decreases n - i,
        {
            if self.index.ids[i] == id {
                proof {
                    lemma_id_pos_at(self.index.ids@, id, i as int);
                }
                return Some(i);
            }
            i += 1;
        }
        proof {
            lemma_id_pos(self.index.ids@, id);
        }
        None
    }

    /// The identifier a vertex handle names, if the handle is known.
    pub fn id_by_idx(&self, v: usize) -> (r: Option<EntityId>)
        ensures
            r == if v < self.index.ids@.len() {
                Some(self.index.ids@[v as int])
            } else {
                None::<EntityId>
            },
    {
        if v < self.index.ids.len() {
            Some(self.index.ids[v])
        } else {
            None
        }
    }

    /// The stored entity a vertex handle names; absent both for unknown
    /// handles and for dangling vertices (referenced but never admitted).
    pub fn obj_by_idx(&self, v: usize) -> (r: Option<&Entity>)
        ensures
            match r {
                Some(e) => v < self.index.ids@.len() && spec_store_get(
                    self.store.entities@,
                    self.index.ids@[v as int],
                ) == Some(*e),
                None => v >= self.index.ids@.len() || spec_store_get(
                    self.store.entities@,
                    self.index.ids@[v as int],
                ) is None,
            },
    {
        match self.id_by_idx(v) {
            Some(id) => self.store_get(id),
            None => None,
        }
    }

    /// The stored entity with the given identifier, if retained.
    pub fn store_get(&self, id: EntityId) -> (r: Option<&Entity>)
        ensures
            match r {
                Some(e) => spec_store_get(self.store.entities@, id) == Some(*e),
                None => spec_store_get(self.store.entities@, id) is None,
            },
    {
        let n = self.store.entities.len();
        let mut i: usize = 0;
        while i < n
            invariant
                n == self.store.entities@.len(),
                0 <= i <= n,
                forall|k: int|
                    0 <= k < i ==> spec_entity_id(#[trigger] self.store.entities@[k]) != id,
            decreases n - i,
        {
            if self.store.entities[i].id() == id {
                proof {
                    lemma_store_pos_at(self.store.entities@, id, i as int);
                }
                return Some(&self.store.entities[i]);
            }
            i += 1;
        }
        proof {
            lemma_store_pos(self.store.entities@, id);
        }
        None
    }

    /// Keyed insertion into the entity store.
    fn store_put(&mut self, e: Entity)
        requires
            old(self).wf(),
        ensures
            final(self).wf(),
            final(self).store.entities@ == spec_store_insert(old(self).store.entities@, e),
            final(self).model == old(self).model,
            final(self).index == old(self).index,
            final(self).edges == old(self).edges,
            final(self).codes == old(self).codes,
    {
        let ghost eid = spec_entity_id(e);
        let id = e.id();
        let n = self.store.entities.len();
        let mut i: usize = 0;
        while i < n
            invariant
                *self == *old(self),
                old(self).wf(),
                n == self.store.entities@.len(),
                0 <= i <= n,
                id == eid,
                eid == spec_entity_id(e),
                forall|k: int|
                    0 <= k < i ==> spec_entity_id(#[trigger] self.store.entities@[k]) != eid,
            decreases n - i,
        {
            if self.store.entities[i].id() == id {
                proof {
                    lemma_store_pos_at(self.store.entities@, eid, i as int);
                    let olds = old(self).store.entities@;
                    assert(spec_store_insert(olds, e) == olds.update(i as int, e));
                    assert(forall|k: int|
                        0 <= k < olds.len() ==> spec_entity_id(
                            #[trigger] olds.update(i as int, e)[k],
                        ) == if k == i as int {
                            eid
                        } else {
                            spec_entity_id(olds[k])
                        });
                }
                self.store.entities.set(i, e);
                return ;
            }
            i += 1;
        }
        proof {
            lemma_store_pos(self.store.entities@, eid);
        }
        self.store.entities.push(e);
    }

    /// Keyed insertion into the station-code table.
    fn code_put(&mut self, code: String, node: i64)
        requires
            old(self).wf(),
        ensures
            final(self).wf(),
            final(self).codes@ == spec_code_insert(old(self).codes@, code, node),
            final(self).model == old(self).model,
            final(self).index == old(self).index,
            final(self).edges == old(self).edges,
            final(self).store == old(self).store,
    {
        let ghost key = code@;
        let n = self.codes.len();
        let mut i: usize = 0;
        while i < n
            invariant
                *self == *old(self),
                old(self).wf(),
                n == self.codes@.len(),
                0 <= i <= n,
                key == code@,
                forall|k: int| 0 <= k < i ==> (#[trigger] self.codes@[k]).code@ != key,
            decreases n - i,
        {
            if crate::strutil::str_eq(self.codes[i].code.as_str(), code.as_str()) {
                proof {
                    lemma_code_pos_at(self.codes@, key, i as int);
                }
                self.codes.set(i, SeedCode { code, node });
                return ;
            }
            i += 1;
        }
        proof {
            lemma_code_pos(self.codes@, key);
        }
        self.codes.push(SeedCode { code, node });
    }

    /// The node identifier registered for a station code, if any.
    pub fn code_get(&self, key: &str) -> (r: Option<i64>)
        ensures
            r == spec_code_get(self.codes@, key@),
    {
        let ghost kv = key@;
        let n = self.codes.len();
        let mut i: usize = 0;
        while i < n
            invariant
                n == self.codes@.len(),
                0 <= i <= n,
                kv == key@,
                forall|k: int| 0 <= k < i ==> (#[trigger] self.codes@[k]).code@ != kv,
            decreases n - i,
        {
            if crate::strutil::str_eq(self.codes[i].code.as_str(), key) {
                proof {
                    lemma_code_pos_at(self.codes@, kv, i as int);
                }
                return Some(self.codes[i].node);
            }
            i += 1;
        }
        proof {
            lemma_code_pos(self.codes@, kv);
        }
        None
    }
}


/// Admission for the node-centric convention: the entity carries a
/// `railway` or a `public_transport` tag.
pub open spec fn spec_rail_tagged(tags: Seq<Tag>) -> bool {
    spec_has_key(tags, "railway"@) || spec_has_key(tags, "public_transport"@)
}

/// Relevance for the entity-centric convention: rail-tagged, or a route
/// tagged as a train route.
pub open spec fn spec_relevant(tags: Seq<Tag>) -> bool {
    spec_rail_tagged(tags) || spec_tag_value(tags, "route"@) == Some("train"@)
}

/// Admission for relations under the node-centric convention: stop areas
/// only.
pub open spec fn spec_stop_area(tags: Seq<Tag>) -> bool {
    spec_tag_value(tags, "public_transport"@) == Some("stop_area"@)
}

/// Whether the tags carry a `railway` or a `public_transport` key.
pub fn rail_tagged(tags: &Vec<Tag>) -> (r: bool)
    ensures
        r == spec_rail_tagged(tags@),
{
    has_key(tags, "railway") || has_key(tags, "public_transport")
}

/// Whether the tags are relevant under the entity-centric convention.
pub fn relevant(tags: &Vec<Tag>) -> (r: bool)
    ensures
        r == spec_relevant(tags@),
{
    rail_tagged(tags) || key_is(tags, "route", "train")
}

/// Whether the tags mark a stop-area relation.
pub fn stop_area(tags: &Vec<Tag>) -> (r: bool)
    ensures
        r == spec_stop_area(tags@),
{
    key_is(tags, "public_transport", "stop_area")
}

/// The empty network contents.
pub open spec fn empty_state() -> NetState {
    NetState {
        ids: Seq::<EntityId>::empty(),
        entities: Seq::<Entity>::empty(),
        edges: Seq::<Edge>::empty(),
        codes: Seq::<SeedCode>::empty(),
    }
}

/// A lazy vertex lookup applied to the whole state.
pub open spec fn spec_state_index(st: NetState, id: EntityId) -> (NetState, int) {
    let (ids2, v) = spec_get_or_insert(st.ids, id);
    (NetState { ids: ids2, ..st }, v)
}

/// Adding a node under the node-centric convention: if admitted, the node
/// gets a vertex, registers its `ref:crs` code if it has one, and is stored.
pub open spec fn spec_add_node_nc(st: NetState, n: NodeData) -> NetState {
    if !spec_rail_tagged(n.tags@) {
        st
    } else {
        let (st1, _v) = spec_state_index(st, EntityId::Node(n.id));
        let st2 = match spec_tag_string(n.tags@, "ref:crs"@) {
            Some(c) => NetState { codes: spec_code_insert(st1.codes, c, n.id), ..st1 },
            None => st1,
        };
        NetState { entities: spec_store_insert(st2.entities, Entity::Node(n)), ..st2 }
    }
}

/// Adding a node under the entity-centric convention: a vertex and the
/// stored entity, nothing else.
pub open spec fn spec_add_node_ec(st: NetState, n: NodeData) -> NetState {
    let (st1, _v) = spec_state_index(st, EntityId::Node(n.id));
    NetState { entities: spec_store_insert(st1.entities, Entity::Node(n)), ..st1 }
}

/// The chain of edges a way contributes under the node-centric convention:
/// one edge per consecutive pair of member nodes, labeled by the way,
/// starting from pair `k`.
pub open spec fn spec_way_chain(st: NetState, way_id: i64, nodes: Seq<i64>, k: int) -> NetState
    decreases nodes.len() - k,
{
    if k < 0 || k + 1 >= nodes.len() {
        st
    } else {
        let (st1, av) = spec_state_index(st, EntityId::Node(nodes[k]));
        let (st2, bv) = spec_state_index(st1, EntityId::Node(nodes[k + 1]));
        let st3 = NetState {
            edges: st2.edges.push(
                Edge {
                    a: av as usize,
                    b: bv as usize,
                    label: EdgeLabel::Via(EntityId::Way(way_id)),
                },
            ),
            ..st2
        };
        spec_way_chain(st3, way_id, nodes, k + 1)
    }
}

/// Adding a way under the node-centric convention.
pub open spec fn spec_add_way_nc(st: NetState, w: WayData) -> NetState {
    if !spec_rail_tagged(w.tags@) {
        st
    } else {
        let st1 = spec_way_chain(st, w.id, w.nodes@, 0);
        NetState { entities: spec_store_insert(st1.entities, Entity::Way(w)), ..st1 }
    }
}

/// The fan of edges a way contributes under the entity-centric convention:
/// one unlabeled edge from the way's vertex to each member node, starting
/// from member `k`.
pub open spec fn spec_way_fan(st: NetState, wv: int, nodes: Seq<i64>, k: int) -> NetState
    decreases nodes.len() - k,
{
    if k < 0 || k >= nodes.len() {
        st
    } else {
        let (st1, nv) = spec_state_index(st, EntityId::Node(nodes[k]));
        let st2 = NetState {
            edges: st1.edges.push(
                Edge { a: wv as usize, b: nv as usize, label: EdgeLabel::Plain },
            ),
            ..st1
        };
        spec_way_fan(st2, wv, nodes, k + 1)
    }
}

/// Adding a way under the entity-centric convention.
pub open spec fn spec_add_way_ec(st: NetState, w: WayData) -> NetState {
    let (st1, wv) = spec_state_index(st, EntityId::Way(w.id));
    let st2 = spec_way_fan(st1, wv, w.nodes@, 0);
    NetState { entities: spec_store_insert(st2.entities, Entity::Way(w)), ..st2 }
}

/// The member node identifiers of a relation, in member order.
pub open spec fn node_members(ms: Seq<RelMember>) -> Seq<i64>
    decreases ms.len(),
{
    if ms.len() == 0 {
        Seq::empty()
    } else {
        let rest = node_members(ms.drop_first());
        match ms[0].member {
            EntityId::Node(n) => seq![n] + rest,
            _ => rest,
        }
    }
}

/// The edges one member node `a` contributes against the members after it
/// in identifier order, under the node-centric convention.
pub open spec fn spec_rel_inner(
    st: NetState,
    rel_id: i64,
    a: i64,
    av: int,
    nodes: Seq<i64>,
    j: int,
) -> NetState
    decreases nodes.len() - j,
{
    if j < 0 || j >= nodes.len() {
        st
    } else {
        let st2 = if a < nodes[j] {
            let (st1, bv) = spec_state_index(st, EntityId::Node(nodes[j]));
            NetState {
                edges: st1.edges.push(
                    Edge {
                        a: av as usize,
                        b: bv as usize,
                        label: EdgeLabel::Via(EntityId::Relation(rel_id)),
                    },
                ),
                ..st1
            }
        } else {
            st
        };
        spec_rel_inner(st2, rel_id, a, av, nodes, j + 1)
    }
}

/// The pairwise edges of a stop-area relation's member nodes, starting from
/// member `i`, under the node-centric convention.
pub open spec fn spec_rel_pairs(st: NetState, rel_id: i64, nodes: Seq<i64>, i: int) -> NetState
    decreases nodes.len() - i,
{
    if i < 0 || i >= nodes.len() {
        st
    } else {
        let (st1, av) = spec_state_index(st, EntityId::Node(nodes[i]));
        let st2 = spec_rel_inner(st1, rel_id, nodes[i], av, nodes, 0);
        spec_rel_pairs(st2, rel_id, nodes, i + 1)
    }
}

/// Adding a relation under the node-centric convention: stop areas connect
/// their member nodes pairwise.
pub open spec fn spec_add_rel_nc(st: NetState, r: RelationData) -> NetState {
    if !spec_stop_area(r.tags@) {
        st
    } else {
        let st1 = spec_rel_pairs(st, r.id, node_members(r.members@), 0);
        NetState { entities: spec_store_insert(st1.entities, Entity::Relation(r)), ..st1 }
    }
}

/// The fan of edges a relation contributes under the entity-centric
/// convention: one role-labeled edge from the relation's vertex to each
/// member, starting from member `k`.
pub open spec fn spec_rel_fan(st: NetState, rv: int, ms: Seq<RelMember>, k: int) -> NetState
    decreases ms.len() - k,
{
    if k < 0 || k >= ms.len() {
        st
    } else {
        let (st1, mv) = spec_state_index(st, ms[k].member);
        let st2 = NetState {
            edges: st1.edges.push(
                Edge { a: rv as usize, b: mv as usize, label: EdgeLabel::Role(ms[k].role) },
            ),
            ..st1
        };
        spec_rel_fan(st2, rv, ms, k + 1)
    }
}

/// Adding a relation under the entity-centric convention.
pub open spec fn spec_add_rel_ec(st: NetState, r: RelationData) -> NetState {
    let (st1, rv) = spec_state_index(st, EntityId::Relation(r.id));
    let st2 = spec_rel_fan(st1, rv, r.members@, 0);
    NetState { entities: spec_store_insert(st2.entities, Entity::Relation(r)), ..st2 }
}

/// Adding a node, under either convention.
pub open spec fn spec_add_node(model: EdgeModel, st: NetState, n: NodeData) -> NetState {
    match model {
        EdgeModel::EntityCentric => spec_add_node_ec(st, n),
        EdgeModel::NodeCentric => spec_add_node_nc(st, n),
    }
}

/// Adding a way, under either convention.
pub open spec fn spec_add_way(model: EdgeModel, st: NetState, w: WayData) -> NetState {
    match model {
        EdgeModel::EntityCentric => spec_add_way_ec(st, w),
        EdgeModel::NodeCentric => spec_add_way_nc(st, w),
    }
}

/// Adding a relation, under either convention.
pub open spec fn spec_add_rel(model: EdgeModel, st: NetState, r: RelationData) -> NetState {
    match model {
        EdgeModel::EntityCentric => spec_add_rel_ec(st, r),
        EdgeModel::NodeCentric => spec_add_rel_nc(st, r),
    }
}

/// Inserting one entity of any kind: the entity-centric convention admits
/// by the relevance predicate before dispatch; the node-centric convention
/// dispatches and lets each kind's admission rule decide.
pub open spec fn spec_insert(model: EdgeModel, st: NetState, e: Entity) -> NetState {
    match model {
        EdgeModel::EntityCentric => if spec_relevant(spec_entity_tags(e)) {
            match e {
                Entity::Node(n) => spec_add_node_ec(st, n),
                Entity::Way(w) => spec_add_way_ec(st, w),
                Entity::Relation(r) => spec_add_rel_ec(st, r),
            }
        } else {
            st
        },
        EdgeModel::NodeCentric => match e {
            Entity::Node(n) => spec_add_node_nc(st, n),
            Entity::Way(w) => spec_add_way_nc(st, w),
            Entity::Relation(r) => spec_add_rel_nc(st, r),
        },
    }
}

/// Folding a whole entity sequence into the network, in order.
pub open spec fn spec_build(model: EdgeModel, st: NetState, es: Seq<Entity>) -> NetState
    decreases es.len(),
{
    if es.len() == 0 {
        st
    } else {
        spec_build(model, spec_insert(model, st, es[0]), es.drop_first())
    }
}

impl Network {
    /// Consumes one node entity, as the edge convention directs.
    pub fn add_node(&mut self, n: NodeData)
        requires
            old(self).wf(),
        ensures
            final(self).wf(),
            final(self).model == old(self).model,
            final(self).state() == spec_add_node(old(self).model, old(self).state(), n),
    {
        let m = self.model;
        match m {
            EdgeModel::EntityCentric => {
                self.index(EntityId::Node(n.id));
                self.store_put(Entity::Node(n));
            },
            EdgeModel::NodeCentric => {
                if !rail_tagged(&n.tags) {
                    return ;
                }
                self.index(EntityId::Node(n.id));
                match tag_value(&n.tags, "ref:crs") {
                    Some(c) => {
                        let code = c.clone();
                        self.code_put(code, n.id);
                    },
                    None => {},
                }
                self.store_put(Entity::Node(n));
            },
        }
    }

    /// Consumes one way entity, as the edge convention directs.
    pub fn add_way(&mut self, w: WayData)
        requires
            old(self).wf(),
        ensures
            final(self).wf(),
            final(self).model == old(self).model,
            final(self).state() == spec_add_way(old(self).model, old(self).state(), w),
    {
        let m = self.model;
        match m {
            EdgeModel::EntityCentric => {
                let wv = self.index(EntityId::Way(w.id));
                let ghost st1 = self.state();
                let n = w.nodes.len();
                let mut k: usize = 0;
                while k < n
                    invariant
                        self.wf(),
                        self.model == old(self).model,
                        st1 == spec_state_index(old(self).state(), EntityId::Way(w.id)).0,
                        wv as int == spec_state_index(old(self).state(), EntityId::Way(w.id)).1,
                        wv < st1.ids.len(),
                        st1.ids.len() <= self.index.ids@.len(),
                        n == w.nodes@.len(),
                        0 <= k <= n,
                        spec_way_fan(st1, wv as int, w.nodes@, 0) == spec_way_fan(
                            self.state(),
                            wv as int,
                            w.nodes@,
                            k as int,
                        ),
                    decreases n - k,
                {
                    let ghost pre = self.state();
                    let node_id = w.nodes[k];
                    let nv = self.index(EntityId::Node(node_id));
                    self.edges.push(Edge { a: wv, b: nv, label: EdgeLabel::Plain });
                    proof {
                        assert(spec_way_fan(pre, wv as int, w.nodes@, k as int) == spec_way_fan(
                            self.state(),
                            wv as int,
                            w.nodes@,
                            k + 1,
                        ));
                    }
                    k += 1;
                }
                self.store_put(Entity::Way(w));
            },
            EdgeModel::NodeCentric => {
                if !rail_tagged(&w.tags) {
                    return ;
                }
                let ghost st0 = self.state();
                let n = w.nodes.len();
                let limit: usize = if n == 0 {
                    0
                } else {
                    n - 1
                };
                let mut k: usize = 0;
                while k < limit
                    invariant
                        self.wf(),
                        self.model == old(self).model,
                        st0 == old(self).state(),
                        n == w.nodes@.len(),
                        limit == if n == 0 {
                            0int
                        } else {
                            n - 1
                        },
                        0 <= k <= limit,
                        spec_way_chain(st0, w.id, w.nodes@, 0) == spec_way_chain(
                            self.state(),
                            w.id,
                            w.nodes@,
                            k as int,
                        ),
                    decreases n - k,
                {
                    let ghost pre = self.state();
                    let a = w.nodes[k];
                    let b = w.nodes[k + 1];
                    let av = self.index(EntityId::Node(a));
                    let bv = self.index(EntityId::Node(b));
                    self.edges.push(
                        Edge { a: av, b: bv, label: EdgeLabel::Via(EntityId::Way(w.id)) },
                    );
                    proof {
                        assert(spec_way_chain(pre, w.id, w.nodes@, k as int) == spec_way_chain(
                            self.state(),
                            w.id,
                            w.nodes@,
                            k + 1,
                        ));
                    }
                    k += 1;
                }
                self.store_put(Entity::Way(w));
            },
        }
    }

    /// Consumes one relation entity, as the edge convention directs.
    pub fn add_rel(&mut self, r: RelationData)
        requires
            old(self).wf(),
        ensures
            final(self).wf(),
            final(self).model == old(self).model,
            final(self).state() == spec_add_rel(old(self).model, old(self).state(), r),
    {
        let m = self.model;
        match m {
            EdgeModel::EntityCentric => {
                let rv = self.index(EntityId::Relation(r.id));
                let ghost st1 = self.state();
                let n = r.members.len();
                let mut k: usize = 0;
                while k < n
                    invariant
                        self.wf(),
                        self.model == old(self).model,
                        st1 == spec_state_index(old(self).state(), EntityId::Relation(r.id)).0,
                        rv as int == spec_state_index(
                            old(self).state(),
                            EntityId::Relation(r.id),
                        ).1,
                        wv_bound_rel(rv as int, st1, self.state()),
                        n == r.members@.len(),
                        0 <= k <= n,
                        spec_rel_fan(st1, rv as int, r.members@, 0) == spec_rel_fan(
                            self.state(),
                            rv as int,
                            r.members@,
                            k as int,
                        ),
                    decreases n - k,
                {
                    let ghost pre = self.state();
                    let member = r.members[k].member;
                    let role = r.members[k].role.clone();
                    let mv = self.index(member);
                    self.edges.push(Edge { a: rv, b: mv, label: EdgeLabel::Role(role) });
                    proof {
                        assert(spec_rel_fan(pre, rv as int, r.members@, k as int) == spec_rel_fan(
                            self.state(),
                            rv as int,
                            r.members@,
                            k + 1,
                        ));
                    }
                    k += 1;
                }
                self.store_put(Entity::Relation(r));
            },
            EdgeModel::NodeCentric => {
                if !stop_area(&r.tags) {
                    return ;
                }
                let ghost st0 = self.state();
                let nodes = collect_node_members(&r.members);
                let n = nodes.len();
                let mut i: usize = 0;
                while i < n
                    invariant
                        self.wf(),
                        self.model == old(self).model,
                        st0 == old(self).state(),
                        nodes@ == node_members(r.members@),
                        n == nodes@.len(),
                        0 <= i <= n,
                        spec_rel_pairs(st0, r.id, nodes@, 0) == spec_rel_pairs(
                            self.state(),
                            r.id,
                            nodes@,
                            i as int,
                        ),
                    decreases n - i,
                {
                    let ghost pre_outer = self.state();
                    let a = nodes[i];
                    let av = self.index(EntityId::Node(a));
                    let ghost st_in = self.state();
                    let mut j: usize = 0;
                    while j < n
                        invariant
                            self.wf(),
                            self.model == old(self).model,
                            n == nodes@.len(),
                            0 <= j <= n,
                            0 <= i < n,
                            a == nodes@[i as int],
                            av < st_in.ids.len(),
                            st_in.ids.len() <= self.index.ids@.len(),
                            spec_rel_inner(st_in, r.id, a, av as int, nodes@, 0)
                                == spec_rel_inner(
                                self.state(),
                                r.id,
                                a,
                                av as int,
                                nodes@,
                                j as int,
                            ),
                        decreases n - j,
                    {
                        let ghost pre = self.state();
                        let b = nodes[j];
                        if a < b {
                            let bv = self.index(EntityId::Node(b));
                            self.edges.push(
                                Edge {
                                    a: av,
                                    b: bv,
                                    label: EdgeLabel::Via(EntityId::Relation(r.id)),
                                },
                            );
                        }
                        proof {
                            assert(spec_rel_inner(pre, r.id, a, av as int, nodes@, j as int)
                                == spec_rel_inner(
                                self.state(),
                                r.id,
                                a,
                                av as int,
                                nodes@,
                                j + 1,
                            ));
                        }
                        j += 1;
                    }
                    proof {
                        assert(spec_rel_inner(st_in, r.id, a, av as int, nodes@, 0)
                            == self.state());
                        assert(spec_rel_pairs(pre_outer, r.id, nodes@, i as int)
                            == spec_rel_pairs(self.state(), r.id, nodes@, i + 1));
                    }
                    i += 1;
                }
                self.store_put(Entity::Relation(r));
            },
        }
    }

    /// Consumes one entity of any kind, applying the convention's admission
    /// rule.
    pub fn insert(&mut self, e: Entity)
        requires
            old(self).wf(),
        ensures
            final(self).wf(),
            final(self).model == old(self).model,
            final(self).state() == spec_insert(old(self).model, old(self).state(), e),
    {
        let m = self.model;
        match m {
            EdgeModel::EntityCentric => {
                if !relevant(e.tags()) {
                    return ;
                }
                match e {
                    Entity::Node(n) => self.add_node(n),
                    Entity::Way(w) => self.add_way(w),
                    Entity::Relation(r) => self.add_rel(r),
                }
            },
            EdgeModel::NodeCentric => {
                match e {
                    Entity::Node(n) => self.add_node(n),
                    Entity::Way(w) => self.add_way(w),
                    Entity::Relation(r) => self.add_rel(r),
                }
            },
        }
    }

    /// Builds a network by consuming a finite entity sequence in order; the
    /// compute half of reading a source file to exhaustion.
    pub fn from_entities(model: EdgeModel, entities: Vec<Entity>) -> (net: Network)
        ensures
            net.wf(),
            net.model == model,
            net.state() == spec_build(model, empty_state(), entities@),
    {
        let ghost all = entities@;
        let mut net = Network::new(model);
        let mut rest = entities;
        while rest.len() > 0
            invariant
                net.wf(),
                net.model == model,
                spec_build(model, empty_state(), all) == spec_build(model, net.state(), rest@),
            decreases rest@.len(),
        {
            let ghost pre = rest@;
            let e = rest.remove(0);
            proof {
                assert(rest@ =~= pre.drop_first());
            }
            net.insert(e);
        }
        net
    }
}

/// The member node identifiers of a relation, in member order, as a vector.
fn collect_node_members(ms: &Vec<RelMember>) -> (nodes: Vec<i64>)
    ensures
        nodes@ == node_members(ms@),
{
    let n = ms.len();
    let mut nodes: Vec<i64> = Vec::new();
    let mut i: usize = 0;
    proof {
        assert(ms@.skip(0) =~= ms@);
    }
    while i < n
        invariant
            n == ms@.len(),
            0 <= i <= n,
            nodes@ + node_members(ms@.skip(i as int)) == node_members(ms@),
        decreases n - i,
    {
        proof {
            assert(ms@.skip(i as int)[0] == ms@[i as int]);
            assert(ms@.skip(i as int).drop_first() =~= ms@.skip(i + 1));
        }
        match ms[i].member {
            EntityId::Node(nid) => {
                nodes.push(nid);
                proof {
                    assert(nodes@ + node_members(ms@.skip(i + 1)) =~= node_members(ms@));
                }
            },
            _ => {},
        }
        i += 1;
    }
    proof {
        assert(node_members(ms@.skip(n as int)) =~= Seq::<i64>::empty());
        assert(nodes@ =~= nodes@ + node_members(ms@.skip(n as int)));
    }
    nodes
}

/// Bound linking a fan origin's handle to the growing index: the handle was
/// valid in the earlier state and the index only grows.
pub open spec fn wv_bound_rel(v: int, early: NetState, cur: NetState) -> bool {
    v < early.ids.len() && early.ids.len() <= cur.ids.len()
}

} // verus!
