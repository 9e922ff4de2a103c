//! How a relocation relates to an `insert` and to a removal followed by an
//! `insert`.

use crate::capacity::{
    lemma_add_capacity, lemma_add_within_capacity, lemma_refile_within_capacity,
};
use crate::entity::Entity;
use crate::geometry::Bounds;
use crate::merging::{
    lemma_add_keeps_tidy, lemma_refile_keeps_tidy, lemma_remove_keeps_tidy,
    lemma_tidy_is_no_empty_subtree,
};
use crate::model::{first_index, lemma_first_index, NodeView, CAPACITY};
use crate::placement::{lemma_added_is_held, lemma_find_node_facts};
use vstd::prelude::*;

verus! {

/// Where one of `nodes` from `from` on files the entity, the first that does
/// decides under which extent it is filed among them.
proof fn lemma_filed_among_first(nodes: Seq<NodeView>, from: int, entity: Entity) -> (k: int)
    requires
        0 <= from,
        NodeView::filed_among(nodes, from, entity).is_some(),
    ensures
        from <= k < nodes.len(),
        nodes[k].filed(entity) == NodeView::filed_among(nodes, from, entity),
    decreases nodes.len() - from,
{
    if nodes[from].filed(entity).is_some() {
        from
    } else {
        lemma_filed_among_first(nodes, from + 1, entity)
    }
}

/// An entity that one of `nodes` files is filed among them.
proof fn lemma_filed_among_some(nodes: Seq<NodeView>, from: int, k: int, entity: Entity)
    requires
        0 <= from <= k < nodes.len(),
        nodes[k].filed(entity).is_some(),
    ensures
        NodeView::filed_among(nodes, from, entity).is_some(),
    decreases k - from,
{
    if from < k && nodes[from].filed(entity).is_none() {
        lemma_filed_among_some(nodes, from + 1, k, entity);
    }
}

/// An entity that the node where some extent belongs holds is filed in the tree.
pub proof fn lemma_held_is_filed(tree: NodeView, entity: Entity, extent: Bounds)
    requires
        tree.holds(entity, extent),
    ensures
        tree.filed(entity).is_some(),
    decreases tree,
{
    match tree.route(extent) {
        Some(i) => {
            lemma_held_is_filed(tree.children[i], entity, extent);
            if first_index(tree.members, entity).is_none() {
                lemma_filed_among_some(tree.children, 0, i, entity);
            }
        },
        None => {},
    }
}

/// In a well-formed tree, the extent under which an entity is filed lies within
/// the tree, and the node where that extent belongs holds the entity.
pub proof fn lemma_filed_is_held(tree: NodeView, entity: Entity)
    requires
        tree.wf(),
        tree.filed(entity).is_some(),
    ensures
        tree.bounds.spec_contains(tree.filed(entity).unwrap()),
        tree.holds(entity, tree.filed(entity).unwrap()),
        tree.entry_at(entity, tree.filed(entity).unwrap()) == Some(
            (entity, tree.filed(entity).unwrap()),
        ),
    decreases tree,
{
    lemma_first_index(tree.members, entity);
    match first_index(tree.members, entity) {
        Some(j) => {
            assert(tree.placed(tree.members[j]));
        },
        None => {
            let k = lemma_filed_among_first(tree.children, 0, entity);
            let child = tree.children[k];
            let from = child.filed(entity).unwrap();
            lemma_filed_is_held(child, entity);
            tree.bounds.lemma_split_is_region(k);
            tree.bounds.lemma_contains_trans(child.bounds, from);
            tree.bounds.lemma_quadrant_is_the_containing_one(from, k);
            assert(tree.route(from) == Some(k));
        },
    }
}

/// An extent within the node where `from` belongs takes the way of `from` down to
/// that node.
proof fn lemma_same_way(tree: NodeView, from: Bounds, extent: Bounds)
    requires
        tree.wf(),
        tree.find_node(from).bounds.spec_contains(extent),
        tree.route(from).is_some(),
    ensures
        tree.route(extent) == tree.route(from),
        tree.bounds.spec_contains(extent),
{
    let i = tree.route(from).unwrap();
    let child = tree.children[i];
    lemma_find_node_facts(child, from);
    child.bounds.lemma_contains_trans(child.find_node(from).bounds, extent);
    tree.bounds.lemma_split_is_region(i);
    tree.bounds.lemma_contains_trans(child.bounds, extent);
    tree.bounds.lemma_quadrant_is_the_containing_one(extent, i);
}

/// What an `add` leaves is no leaf without members.
proof fn lemma_add_is_not_empty(tree: NodeView, entity: Entity, extent: Bounds)
    ensures
        !tree.add(entity, extent).is_empty_leaf(),
{
}

/// Adding below an internal node and removing at that node can be done in either
/// order.
proof fn lemma_down_commutes(tree: NodeView, entity: Entity, from: Bounds, extent: Bounds)
    requires
        tree.wf(),
        tree.find_node(from).route(extent).is_some(),
        tree.find_node(from).bounds.spec_contains(extent),
    ensures
        tree.add(entity, extent).remove_walk(entity, from) == (
            tree.remove_walk(entity, from).0.add(entity, extent),
            tree.remove_walk(entity, from).1,
        ),
        !tree.remove_walk(entity, from).0.is_leaf(),
        tree.route(from).is_some() ==> !tree.remove_walk(entity, from).1,
    decreases tree,
{
    let added = tree.add(entity, extent);
    match tree.route(from) {
        Some(i) => {
            lemma_same_way(tree, from, extent);
            let child = tree.children[i];
            lemma_down_commutes(child, entity, from, extent);
            let (removed, walking) = child.remove_walk(entity, from);
            assert(added.route(from) == Some(i));
            assert(added.children[i] == child.add(entity, extent));
            let node_a = NodeView {
                children: added.children.update(i, removed.add(entity, extent)),
                ..added
            };
            lemma_add_is_not_empty(removed, entity, extent);
            assert(!node_a.children[i].is_empty_leaf());
            let node_r = NodeView { children: tree.children.update(i, removed), ..tree };
            assert(!node_r.children[i].is_empty_leaf());
            assert(tree.remove_walk(entity, from) == (node_r, false));
            assert(node_r.route(extent) == Some(i));
            assert(node_a.children =~= node_r.children.update(i, removed.add(entity, extent)));
        },
        None => {
            assert(added.route(from).is_none());
        },
    }
}

/// Filing an entity anew at its node is removing it and adding it again, where
/// the removal merges nothing and the `add` splits nothing.
proof fn lemma_refile_is_remove_then_add(
    tree: NodeView,
    entity: Entity,
    from: Bounds,
    extent: Bounds,
)
    requires
        tree.wf(),
        tree.holds(entity, from),
        tree.find_node(from).placed((entity, extent)),
        tree.merged(entity, from).is_none(),
        !(tree.find_node(from).is_leaf() && tree.find_node(from).members.len() > CAPACITY
            && tree.find_node(from).bounds.spec_can_split()),
    ensures
        tree.refile(entity, from, extent) == tree.remove(entity, from).add(entity, extent),
    decreases tree,
{
    match tree.route(from) {
        Some(i) => {
            lemma_same_way(tree, from, extent);
            let child = tree.children[i];
            lemma_refile_is_remove_then_add(child, entity, from, extent);
            let (removed, walking) = child.remove_walk(entity, from);
            let node = NodeView { children: tree.children.update(i, removed), ..tree };
            assert(tree.remove(entity, from) == node);
            assert(node.route(extent) == Some(i));
            assert(tree.children.update(i, child.refile(entity, from, extent))
                =~= node.children.update(i, removed.add(entity, extent)));
        },
        None => {
            lemma_first_index(tree.members, entity);
            let removed = tree.remove(entity, from);
            assert(removed.route(extent).is_none());
        },
    }
}

/// An extent that belongs at the node where `from` belongs leads to that node:
/// the two descents are one.
pub proof fn lemma_same_node(tree: NodeView, from: Bounds, extent: Bounds)
    requires
        tree.wf(),
        tree.find_node(from).bounds.spec_contains(extent),
        tree.find_node(from).route(extent).is_none(),
    ensures
        tree.find_node(extent) == tree.find_node(from),
        tree.route(extent) == tree.route(from),
    decreases tree,
{
    match tree.route(from) {
        Some(i) => {
            lemma_same_way(tree, from, extent);
            lemma_same_node(tree.children[i], from, extent);
        },
        None => {},
    }
}

/// What is done at the node where an extent belongs is done the same whichever
/// extent that belongs at this node leads there.
proof fn lemma_same_node_same_result(tree: NodeView, entity: Entity, from: Bounds, extent: Bounds)
    requires
        tree.wf(),
        tree.find_node(from).bounds.spec_contains(extent),
        tree.find_node(from).route(extent).is_none(),
    ensures
        tree.refile(entity, extent, extent) == tree.refile(entity, from, extent),
    decreases tree,
{
    match tree.route(from) {
        Some(i) => {
            lemma_same_way(tree, from, extent);
            lemma_same_node_same_result(tree.children[i], entity, from, extent);
        },
        None => {},
    }
}

/// A removal at an internal node leaves the node where an extent belongs that
/// fits into a quadrant of that node as it is.
proof fn lemma_remove_above(tree: NodeView, entity: Entity, from: Bounds, extent: Bounds)
    requires
        tree.wf(),
        tree.find_node(from).bounds.spec_contains(extent),
        tree.find_node(from).route(extent).is_some(),
    ensures
        tree.remove(entity, from).find_node(extent) == tree.find_node(extent),
        !tree.remove(entity, from).is_leaf(),
    decreases tree,
{
    let removed = tree.remove(entity, from);
    match tree.route(from) {
        Some(i) => {
            lemma_same_way(tree, from, extent);
            let child = tree.children[i];
            lemma_remove_above(child, entity, from, extent);
            let below = child.remove_walk(entity, from).0;
            let node = NodeView { children: tree.children.update(i, below), ..tree };
            assert(!node.children[i].is_empty_leaf());
            assert(removed == node);
            assert(removed.route(extent) == Some(i));
        },
        None => {
            assert(removed.children == tree.children);
            assert(removed.route(extent) == tree.route(extent));
        },
    }
}

/// A relocation of an entity that is not filed is an `insert`.
pub proof fn lemma_relocate_of_unfiled_is_insert(tree: NodeView, entity: Entity, extent: Bounds)
    requires
        tree.filed(entity).is_none(),
    ensures
        tree.relocate(entity, extent) == tree.insert(entity, extent),
{
    if tree.holds(entity, extent) {
        lemma_held_is_filed(tree, entity, extent);
    }
}

/// A relocation leaves an entity that the node where the new extent belongs
/// holds at that node, filed anew; any other entity that is filed it removes
/// and adds again; and one that is not filed it adds.
pub proof fn lemma_relocate_is_refile_or_remove_then_add(
    tree: NodeView,
    entity: Entity,
    extent: Bounds,
)
    requires
        tree.wf(),
    ensures
        tree.relocate(entity, extent) == if tree.holds(entity, extent) {
            tree.refile(entity, extent, extent)
        } else {
            match tree.filed(entity) {
                Some(from) => tree.remove(entity, from).add(entity, extent),
                None => tree.add(entity, extent),
            }
        },
{
    if !tree.holds(entity, extent) {
        if let Some(from) = tree.filed(entity) {
            let node = tree.find_node(from);
            lemma_filed_is_held(tree, entity);
            if node.bounds.spec_contains(extent) {
                if node.route(extent).is_none() {
                    lemma_same_node(tree, from, extent);
                }
                lemma_down_commutes(tree, entity, from, extent);
            }
        }
    }
}

/// An entity that is filed anew at the node where an extent belongs is held there.
proof fn lemma_refiled_is_held(tree: NodeView, entity: Entity, extent: Bounds)
    requires
        tree.holds(entity, extent),
    ensures
        tree.refile(entity, extent, extent).holds(entity, extent),
    decreases tree,
{
    let after = tree.refile(entity, extent, extent);
    match tree.route(extent) {
        Some(i) => {
            lemma_refiled_is_held(tree.children[i], entity, extent);
            assert(after.route(extent) == Some(i));
            assert(after.find_node(extent) == after.children[i].find_node(extent));
        },
        None => {
            lemma_first_index(tree.members, entity);
            lemma_first_index(after.members, entity);
            assert(after.route(extent).is_none());
            assert(after.members[after.members.len() - 1].0 == entity);
        },
    }
}

/// After a relocation, the node where the new extent belongs holds the entity.
pub proof fn lemma_relocated_is_held(tree: NodeView, entity: Entity, extent: Bounds)
    requires
        tree.wf(),
    ensures
        tree.relocate(entity, extent).holds(entity, extent),
{
    lemma_relocate_is_refile_or_remove_then_add(tree, entity, extent);
    if tree.holds(entity, extent) {
        lemma_refiled_is_held(tree, entity, extent);
    } else {
        match tree.filed(entity) {
            Some(from) => {
                lemma_added_is_held(tree.remove(entity, from), entity, extent);
            },
            None => {
                lemma_added_is_held(tree, entity, extent);
            },
        }
    }
}

/// A relocation of an entity within the node at which it is filed is its removal
/// followed by an `insert`, where
/// - the removal merges nothing,
/// - the node where the new extent belongs does not hold the entity once it is
///   removed, so that the `insert` adds it, and
/// - the entity does not stay at a leaf that holds more than [`CAPACITY`]
///   members and can be split, which the `insert` would split.
pub proof fn lemma_relocate_within_node_is_remove_then_insert(
    tree: NodeView,
    entity: Entity,
    extent: Bounds,
)
    requires
        tree.wf(),
        tree.filed(entity).is_some(),
        tree.find_node(tree.filed(entity).unwrap()).bounds.spec_contains(extent),
        tree.merged(entity, tree.filed(entity).unwrap()).is_none(),
        !tree.remove(entity, tree.filed(entity).unwrap()).holds(entity, extent),
        tree.find_node(tree.filed(entity).unwrap()).route(extent).is_none() ==> !(tree.find_node(
            tree.filed(entity).unwrap(),
        ).is_leaf() && tree.find_node(tree.filed(entity).unwrap()).members.len() > CAPACITY
            && tree.find_node(tree.filed(entity).unwrap()).bounds.spec_can_split()),
    ensures
        tree.relocate(entity, extent) == tree.remove(entity, tree.filed(entity).unwrap()).insert(
            entity,
            extent,
        ),
{
    let from = tree.filed(entity).unwrap();
    let node = tree.find_node(from);
    lemma_relocate_is_refile_or_remove_then_add(tree, entity, extent);
    lemma_filed_is_held(tree, entity);
    if node.route(extent).is_none() {
        lemma_same_node(tree, from, extent);
        lemma_same_node_same_result(tree, entity, from, extent);
        lemma_refile_is_remove_then_add(tree, entity, from, extent);
    } else {
        lemma_remove_above(tree, entity, from, extent);
    }
}

/// Whether a relocation leaves an empty subtree in a tree that had none: only
/// where the `add` that is part of it splits a node and sends nothing down.
pub proof fn lemma_relocate_leaves_no_empty_subtree(tree: NodeView, entity: Entity, extent: Bounds)
    requires
        tree.wf(),
        tree.no_empty_subtree(),
    ensures
        tree.relocate(entity, extent).no_empty_subtree() == (tree.holds(entity, extent)
            || match tree.filed(entity) {
            Some(from) => !tree.remove(entity, from).strands(entity, extent),
            None => !tree.strands(entity, extent),
        }),
{
    lemma_tidy_is_no_empty_subtree(tree);
    lemma_tidy_is_no_empty_subtree(tree.relocate(entity, extent));
    lemma_relocate_is_refile_or_remove_then_add(tree, entity, extent);
    if tree.holds(entity, extent) {
        lemma_refile_keeps_tidy(tree, entity, extent, extent);
    } else {
        match tree.filed(entity) {
            Some(from) => {
                lemma_remove_keeps_tidy(tree, entity, from);
                lemma_add_keeps_tidy(tree.remove(entity, from), entity, extent);
            },
            None => {
                lemma_add_keeps_tidy(tree, entity, extent);
            },
        }
    }
}

/// Whether a relocation leaves the leaves of a tree within capacity that were
/// within it: where it leaves the entity at its node; and where it adds the
/// entity, unless the `add` overfills a leaf, or the removal before it has merged
/// into a node that holds more than [`CAPACITY`] members and the `add` does not
/// split that node again.
pub proof fn lemma_relocate_within_capacity(tree: NodeView, entity: Entity, extent: Bounds)
    requires
        tree.wf(),
        tree.leaves_within_capacity(),
    ensures
        tree.relocate(entity, extent).leaves_within_capacity() == (tree.holds(entity, extent)
            || match tree.filed(entity) {
            Some(from) => tree.remove(entity, from).leaves_within_capacity_but(extent)
                && !tree.remove(entity, from).overfills(entity, extent),
            None => !tree.overfills(entity, extent),
        }),
{
    lemma_relocate_is_refile_or_remove_then_add(tree, entity, extent);
    if tree.holds(entity, extent) {
        lemma_refile_within_capacity(tree, entity, extent, extent);
    } else {
        match tree.filed(entity) {
            Some(from) => {
                lemma_add_capacity(tree.remove(entity, from), entity, extent);
            },
            None => {
                lemma_add_within_capacity(tree, entity, extent);
            },
        }
    }
}

} // verus!
