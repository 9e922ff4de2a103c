//! Where the entries of a well-formed tree lie, and where a split puts them.

use crate::entity::Entity;
use crate::geometry::Bounds;
use crate::model::{first_index, goes_to, lemma_filter_push, lemma_first_index, stays, NodeView};
use vstd::prelude::*;

verus! {

/// The entries that lie within quadrant `idx` of `region`.
pub open spec fn fits(region: Bounds, idx: int) -> spec_fn((Entity, Bounds)) -> bool {
    |m: (Entity, Bounds)| region.spec_split(idx).spec_contains(m.1)
}

/// The entries that lie within no quadrant of `region`.
pub open spec fn fits_none(region: Bounds) -> spec_fn((Entity, Bounds)) -> bool {
    |m: (Entity, Bounds)| forall|i: int| 0 <= i < 4 ==> !region.spec_split(i).spec_contains(m.1)
}

/// Every node of a well-formed tree is the root of a well-formed tree.
pub proof fn lemma_subtree_wf(tree: NodeView, path: Seq<int>)
    requires
        tree.wf(),
        tree.has(path),
    ensures
        tree.at(path).wf(),
    decreases path.len(),
{
    if path.len() > 0 {
        lemma_subtree_wf(tree.children[path[0]], path.drop_first());
    }
}

/// Every node of a well-formed tree covers a part of the square of the tree.
pub proof fn lemma_subtree_within(tree: NodeView, path: Seq<int>)
    requires
        tree.wf(),
        tree.has(path),
    ensures
        tree.bounds.spec_contains(tree.at(path).bounds),
    decreases path.len(),
{
    if path.len() > 0 {
        let child = tree.children[path[0]];
        lemma_subtree_within(child, path.drop_first());
        tree.bounds.lemma_split_is_region(path[0]);
        tree.bounds.lemma_contains_trans(child.bounds, child.at(path.drop_first()).bounds);
    }
}

/// In a well-formed tree, every member of every node lies within the square of
/// the node that holds it, and crosses a midline of that node unless the node is a
/// leaf.
pub proof fn lemma_members_lie_within_their_node(tree: NodeView, path: Seq<int>, j: int)
    requires
        tree.wf(),
        tree.has(path),
        0 <= j < tree.at(path).members.len(),
    ensures
        tree.at(path).bounds.spec_contains(tree.at(path).members[j].1),
        !tree.at(path).is_leaf() ==> tree.at(path).bounds.spec_quadrant(
            tree.at(path).members[j].1,
        ).is_none(),
{
    lemma_subtree_wf(tree, path);
    let node = tree.at(path);
    assert(node.placed(node.members[j]));
}

/// In a well-formed tree, the node where an extent belongs is well-formed and
/// covers a part of the tree, and the descent for the extent stops at it.
pub proof fn lemma_find_node_facts(tree: NodeView, extent: Bounds)
    requires
        tree.wf(),
    ensures
        tree.find_node(extent).wf(),
        tree.bounds.spec_contains(tree.find_node(extent).bounds),
        tree.find_node(extent).route(extent).is_none(),
    decreases tree,
{
    match tree.route(extent) {
        Some(i) => {
            let child = tree.children[i];
            lemma_find_node_facts(child, extent);
            tree.bounds.lemma_split_is_region(i);
            tree.bounds.lemma_contains_trans(child.bounds, child.find_node(extent).bounds);
        },
        None => {},
    }
}

/// In a well-formed tree, the node where an extent within the tree belongs
/// contains the extent, and none of its children does.
pub proof fn lemma_find_node_contains(tree: NodeView, extent: Bounds)
    requires
        tree.wf(),
        tree.bounds.spec_contains(extent),
    ensures
        tree.find_node(extent).bounds.spec_contains(extent),
        forall|i: int|
            0 <= i < tree.find_node(extent).children.len() ==> !(#[trigger] tree.find_node(
                extent,
            ).children[i]).bounds.spec_contains(extent),
    decreases tree,
{
    match tree.route(extent) {
        Some(i) => {
            tree.bounds.lemma_quadrant_is_the_containing_one(extent, i);
            lemma_find_node_contains(tree.children[i], extent);
        },
        None => {
            assert forall|i: int| 0 <= i < tree.children.len() implies !(
            #[trigger] tree.children[i]).bounds.spec_contains(extent) by {
                tree.bounds.lemma_quadrant_is_the_containing_one(extent, i);
            }
        },
    }
}

/// In a well-formed tree, a node that contains an extent, and none of whose
/// children does, is the node where the extent belongs: there is one such node.
pub proof fn lemma_find_node_is_the_smallest_that_contains(
    tree: NodeView,
    extent: Bounds,
    path: Seq<int>,
)
    requires
        tree.wf(),
        tree.has(path),
        tree.at(path).bounds.spec_contains(extent),
        forall|i: int|
            0 <= i < tree.at(path).children.len() ==> !(#[trigger] tree.at(path).children[i]).bounds.spec_contains(
                extent,
            ),
    ensures
        tree.find_node(extent) == tree.at(path),
    decreases path.len(),
{
    if path.len() == 0 {
        if let Some(i) = tree.route(extent) {
            tree.bounds.lemma_quadrant_is_the_containing_one(extent, i);
            assert(tree.children[i].bounds.spec_contains(extent));
        }
    } else {
        let i = path[0];
        let child = tree.children[i];
        lemma_subtree_within(child, path.drop_first());
        child.bounds.lemma_contains_trans(child.at(path.drop_first()).bounds, extent);
        tree.bounds.lemma_split_is_region(i);
        tree.bounds.lemma_contains_trans(child.bounds, extent);
        tree.bounds.lemma_quadrant_is_the_containing_one(extent, i);
        lemma_find_node_is_the_smallest_that_contains(child, extent, path.drop_first());
    }
}

/// No square lies within two quadrants of a region.
pub proof fn lemma_quadrants_are_disjoint(region: Bounds, inner: Bounds, i: int, j: int)
    requires
        region.spec_is_region(),
        region.spec_can_split(),
        0 <= i < 4,
        0 <= j < 4,
        region.spec_split(i).spec_contains(inner),
        region.spec_split(j).spec_contains(inner),
    ensures
        i == j,
{
}

/// Two tests that agree on every item of a sequence keep the same items.
proof fn lemma_filter_agree(
    s: Seq<(Entity, Bounds)>,
    p: spec_fn((Entity, Bounds)) -> bool,
    q: spec_fn((Entity, Bounds)) -> bool,
)
    requires
        forall|j: int| 0 <= j < s.len() ==> p(#[trigger] s[j]) == q(s[j]),
    ensures
        s.filter(p) == s.filter(q),
    decreases s.len(),
{
    reveal(Seq::filter);
    if s.len() > 0 {
        let front = s.drop_last();
        assert forall|j: int| 0 <= j < front.len() implies p(#[trigger] front[j]) == q(
            front[j],
        ) by {
            assert(front[j] == s[j]);
        }
        lemma_filter_agree(front, p, q);
        assert(p(s[s.len() - 1]) == q(s[s.len() - 1]));
    }
}

/// An `add` that splits a leaf puts each member, and the entity added, into the
/// one quadrant that contains it, and leaves at the node, now internal, those that
/// no quadrant contains; each in the order in which the leaf held them, the
/// entity added last.
pub proof fn lemma_split_routes_by_containment(leaf: NodeView, entity: Entity, extent: Bounds)
    requires
        leaf.wf(),
        leaf.bounds.spec_contains(extent),
        leaf.splits_on_add(),
    ensures
        ({
            let all = leaf.members.push((entity, extent));
            let after = leaf.add(entity, extent);
            &&& after.bounds == leaf.bounds
            &&& after.children.len() == 4
            &&& after.members == all.filter(fits_none(leaf.bounds))
            &&& forall|i: int|
                0 <= i < 4 ==> (#[trigger] after.children[i]).is_leaf() && after.children[i].bounds
                    == leaf.bounds.spec_split(i) && after.children[i].members == all.filter(
                    fits(leaf.bounds, i),
                )
        }),
{
    let region = leaf.bounds;
    let all = leaf.members.push((entity, extent));
    let after = leaf.add(entity, extent);
    assert(after == leaf.divided(all));
    assert forall|j: int| 0 <= j < all.len() implies region.spec_contains((#[trigger] all[j]).1) by {
        if j < leaf.members.len() {
            assert(leaf.placed(leaf.members[j]));
        }
    }
    assert forall|j: int| 0 <= j < all.len() implies stays(region)(#[trigger] all[j]) == fits_none(
        region,
    )(all[j]) by {
        let m = all[j];
        region.lemma_quadrant_is_the_containing_one(m.1, 0);
        region.lemma_quadrant_is_the_containing_one(m.1, 1);
        region.lemma_quadrant_is_the_containing_one(m.1, 2);
        region.lemma_quadrant_is_the_containing_one(m.1, 3);
    }
    lemma_filter_agree(all, stays(region), fits_none(region));
    assert forall|i: int| 0 <= i < 4 implies (#[trigger] after.children[i]).is_leaf()
        && after.children[i].bounds == region.spec_split(i) && after.children[i].members
        == all.filter(fits(region, i)) by {
        assert forall|j: int| 0 <= j < all.len() implies goes_to(region, i)(#[trigger] all[j])
            == fits(region, i)(all[j]) by {
            region.lemma_quadrant_is_the_containing_one(all[j].1, i);
        }
        lemma_filter_agree(all, goes_to(region, i), fits(region, i));
    }
}

/// Members that hold an entity at some position hold it at a first position.
proof fn lemma_some_is_first(members: Seq<(Entity, Bounds)>, entity: Entity, j: int)
    requires
        0 <= j < members.len(),
        members[j].0 == entity,
    ensures
        first_index(members, entity).is_some(),
{
    lemma_first_index(members, entity);
}

/// After an `add`, the node where the extent belongs holds the entity.
pub proof fn lemma_added_is_held(tree: NodeView, entity: Entity, extent: Bounds)
    ensures
        tree.add(entity, extent).holds(entity, extent),
    decreases tree,
{
    let after = tree.add(entity, extent);
    let entry = (entity, extent);
    match tree.route(extent) {
        Some(i) => {
            lemma_added_is_held(tree.children[i], entity, extent);
            assert(after.route(extent) == Some(i));
            assert(after.find_node(extent) == after.children[i].find_node(extent));
        },
        None => {
            let all = tree.members.push(entry);
            if tree.splits_on_add() {
                let region = tree.bounds;
                match region.spec_quadrant(extent) {
                    Some(i) => {
                        assert(after.route(extent) == Some(i));
                        lemma_filter_push(tree.members, entry, goes_to(region, i));
                        let sent = after.children[i].members;
                        lemma_some_is_first(sent, entity, sent.len() - 1);
                        assert(after.children[i].find_node(extent) == after.children[i]);
                        assert(after.find_node(extent) == after.children[i]);
                    },
                    None => {
                        assert(after.route(extent).is_none());
                        lemma_filter_push(tree.members, entry, stays(region));
                        lemma_some_is_first(after.members, entity, after.members.len() - 1);
                    },
                }
            } else {
                assert(after.route(extent).is_none());
                lemma_some_is_first(all, entity, all.len() - 1);
            }
        },
    }
}

/// An `insert` again of what was just inserted changes nothing.
pub proof fn lemma_insert_is_idempotent(tree: NodeView, entity: Entity, extent: Bounds)
    ensures
        tree.insert(entity, extent).holds(entity, extent),
        tree.insert(entity, extent).insert(entity, extent) == tree.insert(entity, extent),
{
    lemma_added_is_held(tree, entity, extent);
}

} // verus!
