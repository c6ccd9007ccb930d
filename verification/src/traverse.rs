//! Preorder traversal of an entity's member tree: a relation opens into its
//! members, a way into its member nodes, a node is a leaf; entities absent
//! from the store contribute nothing. The traversal is iterative over an
//! explicit stack, so arbitrarily deep member nesting cannot exhaust the
//! call stack, and it is depth-bounded by a caller-chosen limit, so member
//! cycles cannot run it forever.

use vstd::prelude::*;

use crate::entity::{Entity, EntityId};
use crate::graph::{spec_store_get, EntityStore};

verus! {

/// The member identifiers an entity opens into.
pub open spec fn spec_children(e: Entity) -> Seq<EntityId> {
    match e {
        Entity::Node(_) => Seq::empty(),
        Entity::Way(w) => w.nodes@.map_values(|n: i64| EntityId::Node(n)),
        Entity::Relation(r) => r.members@.map_values(|m: crate::entity::RelMember| m.member),
    }
}

/// The preorder listing of the member tree under `id`: the entity itself at
/// its depth, then each member's subtree in member order, one level deeper,
/// for at most `fuel` levels. An identifier absent from the store lists
/// nothing.
pub open spec fn spec_tree(s: Seq<Entity>, id: EntityId, depth: int, fuel: nat) -> Seq<
    (usize, EntityId),
>
    decreases fuel, 0int,
{
    if fuel == 0 {
        Seq::empty()
    } else {
        match spec_store_get(s, id) {
            None => Seq::empty(),
            Some(e) => seq![(depth as usize, id)] + spec_tree_list(
                s,
                spec_children(e),
                depth + 1,
                (fuel - 1) as nat,
            ),
        }
    }
}

/// The concatenated preorder listings of a list of sibling subtrees.
pub open spec fn spec_tree_list(s: Seq<Entity>, ids: Seq<EntityId>, depth: int, fuel: nat) -> Seq<
    (usize, EntityId),
>
    decreases fuel, 1int, ids.len(),
{
    if ids.len() == 0 {
        Seq::empty()
    } else {
        spec_tree(s, ids[0], depth, fuel) + spec_tree_list(s, ids.drop_first(), depth, fuel)
    }
}

/// The member identifiers an entity opens into, as a vector.
fn children_of(e: &Entity) -> (r: Vec<EntityId>)
    ensures
        r@ == spec_children(*e),
{
    match e {
        Entity::Node(_) => {
            let r: Vec<EntityId> = Vec::new();
            proof {
                assert(r@ =~= spec_children(*e));
            }
            r
        },
        Entity::Way(w) => {
            let n = w.nodes.len();
            let mut r: Vec<EntityId> = Vec::new();
            let mut i: usize = 0;
            while i < n
                invariant
                    n == w.nodes@.len(),
                    0 <= i <= n,
                    r@.len() == i,
                    forall|k: int| 0 <= k < i ==> r@[k] == EntityId::Node(w.nodes@[k]),
                decreases n - i,
            {
                r.push(EntityId::Node(w.nodes[i]));
                i += 1;
            }
            proof {
                assert(r@ =~= spec_children(*e));
            }
            r
        },
        Entity::Relation(rel) => {
            let n = rel.members.len();
            let mut r: Vec<EntityId> = Vec::new();
            let mut i: usize = 0;
            while i < n
                invariant
                    n == rel.members@.len(),
                    0 <= i <= n,
                    r@.len() == i,
                    forall|k: int| 0 <= k < i ==> r@[k] == rel.members@[k].member,
                decreases n - i,
            {
                r.push(rel.members[i].member);
                i += 1;
            }
            proof {
                assert(r@ =~= spec_children(*e));
            }
            r
        },
    }
}

/// What the unprocessed stack still owes the output: the listing of the top
/// item's subtree, then the one below it, and so on downward.
pub open spec fn spec_stack_rest(s: Seq<Entity>, stack: Seq<(usize, EntityId, usize)>) -> Seq<
    (usize, EntityId),
>
    decreases stack.len(),
{
    if stack.len() == 0 {
        Seq::empty()
    } else {
        let top = stack.last();
        spec_tree(s, top.1, top.0 as int, top.2 as nat) + spec_stack_rest(s, stack.drop_last())
    }
}

/// Lists the member tree under `root` in preorder, each entry paired with
/// its depth, descending at most `depth_limit` levels below the root.
pub fn member_tree(store: &EntityStore, root: EntityId, depth_limit: usize) -> (r: Vec<
    (usize, EntityId),
>)
    ensures
        r@ == spec_tree(store.entities@, root, 0, depth_limit as nat),
{
    let ghost s = store.entities@;
    let ghost total = spec_tree(s, root, 0, depth_limit as nat);
    let mut out: Vec<(usize, EntityId)> = Vec::new();
    let mut stack: Vec<(usize, EntityId, usize)> = Vec::new();
    stack.push((0, root, depth_limit));
    proof {
        assert(stack@.drop_last() =~= Seq::<(usize, EntityId, usize)>::empty());
        assert(spec_stack_rest(s, Seq::<(usize, EntityId, usize)>::empty()) =~= Seq::<
            (usize, EntityId),
        >::empty());
        assert(stack@.last() == (0usize, root, depth_limit));
        assert(spec_stack_rest(s, stack@) =~= total);
    }
    while stack.len() > 0
        invariant
            s == store.entities@,
            out@ + spec_stack_rest(s, stack@) == total,
            forall|k: int|
                0 <= k < stack@.len() ==> (#[trigger] stack@[k]).0 + stack@[k].2
                    <= usize::MAX,
        decreases spec_stack_rest(s, stack@).len(), stack@.len(),
    {
        let ghost stack0 = stack@;
        let ghost rest0 = spec_stack_rest(s, stack0);
        let top = stack.pop().unwrap();
        let (depth, id, fuel) = top;
        proof {
            assert(stack@ =~= stack0.drop_last());
            assert(rest0 == spec_tree(s, id, depth as int, fuel as nat) + spec_stack_rest(
                s,
                stack@,
            ));
        }
        if fuel == 0 {
            proof {
                assert(spec_tree(s, id, depth as int, 0) =~= Seq::<(usize, EntityId)>::empty());
                assert(rest0 =~= spec_stack_rest(s, stack@));
            }
            continue ;
        }
        match store.get(id) {
            None => {
                proof {
                    assert(spec_tree(s, id, depth as int, fuel as nat) =~= Seq::<
                        (usize, EntityId),
                    >::empty());
                    assert(rest0 =~= spec_stack_rest(s, stack@));
                }
            },
            Some(e) => {
                let ghost kids = spec_children(*e);
                out.push((depth, id));
                let children = children_of(e);
                let ghost below = spec_stack_rest(s, stack@);
                proof {
                    assert(stack0.last() == (depth, id, fuel));
                    assert(depth + fuel <= usize::MAX);
                }
                let mut j = children.len();
                while j > 0
                    invariant
                        s == store.entities@,
                        0 <= j <= children@.len(),
                        children@ == kids,
                        depth + fuel <= usize::MAX,
                        fuel >= 1,
                        forall|k: int|
                            0 <= k < stack@.len() ==> (#[trigger] stack@[k]).0 + stack@[k].2
                                <= usize::MAX,
                        spec_stack_rest(s, stack@) == spec_tree_list(
                            s,
                            kids.skip(j as int),
                            depth + 1,
                            (fuel - 1) as nat,
                        ) + below,
                    decreases j,
                {
                    let ghost st_pre = stack@;
                    j = j - 1;
                    stack.push((depth + 1, children[j], fuel - 1));
                    proof {
                        assert(stack@.drop_last() =~= st_pre);
                        assert(stack@.last() == (((depth + 1) as usize), children@[j as int], (
                        (fuel - 1) as usize)));
                        assert(kids.skip(j as int)[0] == kids[j as int]);
                        assert(kids.skip(j as int).drop_first() =~= kids.skip(j + 1));
                        assert(spec_tree_list(s, kids.skip(j as int), depth + 1, (fuel - 1) as nat)
                            == spec_tree(s, kids[j as int], depth + 1, (fuel - 1) as nat)
                            + spec_tree_list(s, kids.skip(j + 1), depth + 1, (fuel - 1) as nat));
                    }
                }
                proof {
                    assert(kids.skip(0) =~= kids);
                    assert(spec_tree(s, id, depth as int, fuel as nat) == seq![
                        ((depth as usize), id),
                    ] + spec_tree_list(s, kids, depth + 1, (fuel - 1) as nat));
                    assert(out@ + spec_stack_rest(s, stack@) =~= total);
                    assert(spec_stack_rest(s, stack@).len() < rest0.len());
                }
            },
        }
    }
    proof {
        assert(spec_stack_rest(s, stack@) =~= Seq::<(usize, EntityId)>::empty());
        assert(out@ =~= total);
    }
    out
}

} // verus!
