//! Tabulation of tag values: how many retained entities of one kind carry
//! each value of a given tag key, as a value-sorted table. The compute half
//! of the kind-summary report; printing the table is the caller's business.

use vstd::prelude::*;

use crate::entity::{spec_entity_tags, spec_tag_string, tag_value, Entity};
use crate::strutil::{lex_lt, str_eq, str_lt};

verus! {

/// The three entity kinds, for selecting which entities a report covers.
#[derive(Clone, Copy, PartialEq, Eq, Structural, Debug)]
pub enum EntityKind {
    Node,
    Way,
    Relation,
}

/// The kind of an entity.
pub open spec fn spec_kind_of(e: Entity) -> EntityKind {
    match e {
        Entity::Node(_) => EntityKind::Node,
        Entity::Way(_) => EntityKind::Way,
        Entity::Relation(_) => EntityKind::Relation,
    }
}

/// One row of the report: a tag value and how often it occurred.
#[derive(Clone, Debug)]
pub struct TagCount {
    pub value: String,
    pub count: u64,
}

/// A counter stepped by one, stopping at its ceiling.
pub open spec fn sat_inc(c: u64) -> u64 {
    if c < u64::MAX {
        (c + 1) as u64
    } else {
        u64::MAX
    }
}

/// One observation added to a value-sorted table: the matching row's count
/// rises by one, or a fresh row is inserted at its ordered position.
pub open spec fn spec_hist_add(h: Seq<TagCount>, value: String) -> Seq<TagCount>
    decreases h.len(),
{
    if h.len() == 0 {
        seq![TagCount { value, count: 1 }]
    } else if h[0].value@ == value@ {
        seq![TagCount { value: h[0].value, count: sat_inc(h[0].count) }] + h.drop_first()
    } else if lex_lt(value@, h[0].value@) {
        seq![TagCount { value, count: 1 }] + h
    } else {
        seq![h[0]] + spec_hist_add(h.drop_first(), value)
    }
}

/// The full table over an entity sequence: each entity of the chosen kind
/// whose tags hold `key` contributes its value of that tag.
pub open spec fn spec_histogram(
    s: Seq<Entity>,
    kind: EntityKind,
    key: Seq<char>,
    h: Seq<TagCount>,
) -> Seq<TagCount>
    decreases s.len(),
{
    if s.len() == 0 {
        h
    } else {
        let h2 = if spec_kind_of(s[0]) == kind {
            match spec_tag_string(spec_entity_tags(s[0]), key) {
                Some(v) => spec_hist_add(h, v),
                None => h,
            }
        } else {
            h
        };
        spec_histogram(s.drop_first(), kind, key, h2)
    }
}

/// The kind of an entity.
pub fn kind_of(e: &Entity) -> (k: EntityKind)
    ensures
        k == spec_kind_of(*e),
{
    match e {
        Entity::Node(_) => EntityKind::Node,
        Entity::Way(_) => EntityKind::Way,
        Entity::Relation(_) => EntityKind::Relation,
    }
}

/// Adds one observation of `value` to the sorted table.
fn hist_add(h: &mut Vec<TagCount>, value: &String)
    ensures
        final(h)@ == spec_hist_add(old(h)@, *value),
{
    let n = h.len();
    let mut i: usize = 0;
    proof {
        assert(h@.skip(0) =~= h@);
        assert(h@.take(0) =~= Seq::<TagCount>::empty());
    }
    while i < n
        invariant
            n == h@.len(),
            0 <= i <= n,
            *h == *old(h),
            spec_hist_add(old(h)@, *value) == h@.take(i as int) + spec_hist_add(
                h@.skip(i as int),
                *value,
            ),
        decreases n - i,
    {
        proof {
            assert(h@.skip(i as int)[0] == h@[i as int]);
            assert(h@.skip(i as int).drop_first() =~= h@.skip(i + 1));
        }
        if str_eq(h[i].value.as_str(), value.as_str()) {
            let ghost pre = h@;
            let c = h[i].count;
            let newcount = if c < u64::MAX {
                c + 1
            } else {
                u64::MAX
            };
            let row = TagCount { value: h[i].value.clone(), count: newcount };
            proof {
                assert(row.value == pre[i as int].value);
                assert(row.count == sat_inc(pre[i as int].count));
            }
            h.set(i, row);
            proof {
                assert(spec_hist_add(pre.skip(i as int), *value) == seq![
                    TagCount { value: pre[i as int].value, count: sat_inc(pre[i as int].count) },
                ] + pre.skip(i as int).drop_first());
                assert(h@ =~= pre.take(i as int) + spec_hist_add(pre.skip(i as int), *value));
            }
            return ;
        }
        if str_lt(value.as_str(), h[i].value.as_str()) {
            let ghost pre = h@;
            h.insert(i, TagCount { value: value.clone(), count: 1 });
            proof {
                assert(spec_hist_add(pre.skip(i as int), *value) == seq![
                    TagCount { value: *value, count: 1 },
                ] + pre.skip(i as int));
                assert(h@ =~= pre.take(i as int) + spec_hist_add(pre.skip(i as int), *value));
            }
            return ;
        }
        proof {
            assert(h@.take(i + 1) =~= h@.take(i as int) + seq![h@[i as int]]);
            assert((h@.take(i as int) + seq![h@[i as int]]) + spec_hist_add(h@.skip(i + 1), *value)
                =~= h@.take(i as int) + (seq![h@[i as int]] + spec_hist_add(h@.skip(i + 1), *value)));
        }
        i += 1;
    }
    let ghost pre = h@;
    h.push(TagCount { value: value.clone(), count: 1 });
    proof {
        assert(pre.skip(n as int) =~= Seq::<TagCount>::empty());
        assert(spec_hist_add(pre.skip(n as int), *value) == seq![TagCount { value: *value, count: 1 }]);
        assert(pre.take(n as int) =~= pre);
        assert(h@ =~= pre.take(n as int) + spec_hist_add(pre.skip(n as int), *value));
    }
}

/// Tabulates, for every value of tag `key` carried by entities of the given
/// kind, how many such entities carry it; rows come out sorted by value.
pub fn tag_value_counts(entities: &Vec<Entity>, kind: EntityKind, key: &str) -> (r: Vec<TagCount>)
    ensures
        r@ == spec_histogram(entities@, kind, key@, Seq::<TagCount>::empty()),
{
    let n = entities.len();
    let mut r: Vec<TagCount> = Vec::new();
    let mut i: usize = 0;
    proof {
        assert(entities@.skip(0) =~= entities@);
    }
    while i < n
        invariant
            n == entities@.len(),
            0 <= i <= n,
            spec_histogram(entities@, kind, key@, Seq::<TagCount>::empty()) == spec_histogram(
                entities@.skip(i as int),
                kind,
                key@,
                r@,
            ),
        decreases n - i,
    {
        proof {
            assert(entities@.skip(i as int)[0] == entities@[i as int]);
            assert(entities@.skip(i as int).drop_first() =~= entities@.skip(i + 1));
        }
        let e = &entities[i];
        if kind_of(e) == kind {
            match tag_value(e.tags(), key) {
                Some(v) => {
                    let value = v.clone();
                    hist_add(&mut r, &value);
                },
                None => {},
            }
        }
        i += 1;
    }
    proof {
        assert(entities@.skip(n as int) =~= Seq::<Entity>::empty());
    }
    r
}

} // verus!
