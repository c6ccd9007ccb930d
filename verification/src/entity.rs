//! The entity data model: identifiers, tags, and the three entity kinds
//! (node, way, relation) that the source stream produces.
//!
//! Latitude and longitude are carried as decimicro-degrees (degrees times
//! ten million), the integer fixed-point form the source data uses; the
//! library never works in floating point.

use vstd::prelude::*;

verus! {

/// Identifier of an entity. The three kinds are distinct namespaces: a node
/// and a way with the same numeric value are different entities.
#[derive(Clone, Copy, PartialEq, Eq, Structural, Debug)]
pub enum EntityId {
    Node(i64),
    Way(i64),
    Relation(i64),
}

/// Rank of the identifier's kind in the total order: nodes, then ways, then
/// relations.
pub open spec fn kind_rank(id: EntityId) -> int {
    match id {
        EntityId::Node(_) => 0,
        EntityId::Way(_) => 1,
        EntityId::Relation(_) => 2,
    }
}

/// The numeric part of an identifier.
pub open spec fn id_num(id: EntityId) -> i64 {
    match id {
        EntityId::Node(n) => n,
        EntityId::Way(n) => n,
        EntityId::Relation(n) => n,
    }
}

/// Total order on identifiers: by kind, then by numeric value.
pub open spec fn id_lt(a: EntityId, b: EntityId) -> bool {
    kind_rank(a) < kind_rank(b) || (kind_rank(a) == kind_rank(b) && id_num(a) < id_num(b))
}

impl EntityId {
    /// Strict comparison in the total order on identifiers.
    pub fn lt(&self, other: &EntityId) -> (r: bool)
        ensures
            r == id_lt(*self, *other),
    {
        let ra: u8 = match self {
            EntityId::Node(_) => 0,
            EntityId::Way(_) => 1,
            EntityId::Relation(_) => 2,
        };
        let rb: u8 = match other {
            EntityId::Node(_) => 0,
            EntityId::Way(_) => 1,
            EntityId::Relation(_) => 2,
        };
        if ra != rb {
            ra < rb
        } else {
            let na: i64 = match self {
                EntityId::Node(n) => *n,
                EntityId::Way(n) => *n,
                EntityId::Relation(n) => *n,
            };
            let nb: i64 = match other {
                EntityId::Node(n) => *n,
                EntityId::Way(n) => *n,
                EntityId::Relation(n) => *n,
            };
            na < nb
        }
    }
}

/// One key/value tag on an entity.
#[derive(Clone, Debug)]
pub struct Tag {
    pub key: String,
    pub value: String,
}

/// The first tag whose key is `key`, if any, as the stored string.
pub open spec fn spec_tag_string(tags: Seq<Tag>, key: Seq<char>) -> Option<String>
    decreases tags.len(),
{
    if tags.len() == 0 {
        None
    } else if tags[0].key@ == key {
        Some(tags[0].value)
    } else {
        spec_tag_string(tags.drop_first(), key)
    }
}

/// The value of the first tag whose key is `key`, if any.
pub open spec fn spec_tag_value(tags: Seq<Tag>, key: Seq<char>) -> Option<Seq<char>> {
    match spec_tag_string(tags, key) {
        Some(s) => Some(s@),
        None => None,
    }
}

/// Whether some tag has the key `key`.
pub open spec fn spec_has_key(tags: Seq<Tag>, key: Seq<char>) -> bool {
    spec_tag_value(tags, key) is Some
}

/// Looks up the first tag with the given key.
pub fn tag_value<'a>(tags: &'a Vec<Tag>, key: &str) -> (r: Option<&'a String>)
    ensures
        match r {
            Some(v) => spec_tag_string(tags@, key@) == Some(*v),
            None => spec_tag_string(tags@, key@) is None,
        },
{
    let n = tags.len();
    let mut i: usize = 0;
    proof {
        assert(tags@.skip(0) =~= tags@);
    }
    while i < n
        invariant
            n == tags@.len(),
            0 <= i <= n,
            spec_tag_string(tags@, key@) == spec_tag_string(tags@.skip(i as int), key@),
        decreases n - i,
    {
        proof {
            assert(tags@.skip(i as int)[0] == tags@[i as int]);
            assert(tags@.skip(i as int).drop_first() =~= tags@.skip(i + 1));
        }
        if crate::strutil::str_eq(tags[i].key.as_str(), key) {
            return Some(&tags[i].value);
        }
        i += 1;
    }
    None
}

/// Whether some tag has the given key.
pub fn has_key(tags: &Vec<Tag>, key: &str) -> (r: bool)
    ensures
        r == spec_has_key(tags@, key@),
{
    tag_value(tags, key).is_some()
}

/// Whether the first tag with the given key has exactly the given value.
pub fn key_is(tags: &Vec<Tag>, key: &str, value: &str) -> (r: bool)
    ensures
        r == (spec_tag_value(tags@, key@) == Some(value@)),
{
    match tag_value(tags, key) {
        Some(v) => crate::strutil::str_eq(v.as_str(), value),
        None => false,
    }
}

/// A node: a point with coordinates in decimicro-degrees.
#[derive(Clone, Debug)]
pub struct NodeData {
    pub id: i64,
    pub tags: Vec<Tag>,
    pub decimicro_lat: i32,
    pub decimicro_lon: i32,
}

/// A way: an ordered sequence of member node identifiers; the order defines
/// a path.
#[derive(Clone, Debug)]
pub struct WayData {
    pub id: i64,
    pub tags: Vec<Tag>,
    pub nodes: Vec<i64>,
}

/// One member of a relation: an entity reference and its role.
#[derive(Clone, Debug)]
pub struct RelMember {
    pub member: EntityId,
    pub role: String,
}

/// A relation: an ordered sequence of (member, role) pairs.
#[derive(Clone, Debug)]
pub struct RelationData {
    pub id: i64,
    pub tags: Vec<Tag>,
    pub members: Vec<RelMember>,
}

/// An entity of any of the three kinds.
#[derive(Clone, Debug)]
pub enum Entity {
    Node(NodeData),
    Way(WayData),
    Relation(RelationData),
}

/// The identifier of an entity.
pub open spec fn spec_entity_id(e: Entity) -> EntityId {
    match e {
        Entity::Node(n) => EntityId::Node(n.id),
        Entity::Way(w) => EntityId::Way(w.id),
        Entity::Relation(r) => EntityId::Relation(r.id),
    }
}

/// The tags of an entity.
pub open spec fn spec_entity_tags(e: Entity) -> Seq<Tag> {
    match e {
        Entity::Node(n) => n.tags@,
        Entity::Way(w) => w.tags@,
        Entity::Relation(r) => r.tags@,
    }
}

impl Entity {
    /// The identifier of this entity.
    pub fn id(&self) -> (r: EntityId)
        ensures
            r == spec_entity_id(*self),
    {
        match self {
            Entity::Node(n) => EntityId::Node(n.id),
            Entity::Way(w) => EntityId::Way(w.id),
            Entity::Relation(r) => EntityId::Relation(r.id),
        }
    }

    /// The tags of this entity.
    pub fn tags(&self) -> (r: &Vec<Tag>)
        ensures
            r@ == spec_entity_tags(*self),
    {
        match self {
            Entity::Node(n) => &n.tags,
            Entity::Way(w) => &w.tags,
            Entity::Relation(r) => &r.tags,
        }
    }
}

} // verus!
