//! The operations keep a well-formed tree well-formed.

use crate::entity::Entity;
use crate::geometry::Bounds;
use crate::model::{first_index, goes_to, lemma_first_index, stays, swap_removed, NodeView};
use vstd::prelude::*;

verus! {

/// Adding an entity whose extent lies within a well-formed tree leaves the tree
/// well-formed, over the same square.
pub proof fn lemma_add_wf(tree: NodeView, entity: Entity, extent: Bounds)
    requires
        tree.wf(),
        tree.bounds.spec_contains(extent),
    ensures
        tree.add(entity, extent).wf(),
        tree.add(entity, extent).bounds == tree.bounds,
    decreases tree,
{
    let after = tree.add(entity, extent);
    match tree.route(extent) {
        Some(i) => {
            let child = tree.children[i];
            tree.bounds.lemma_quadrant_is_the_containing_one(extent, i);
            lemma_add_wf(child, entity, extent);
            assert forall|k: int| 0 <= k < after.children.len() implies (
            #[trigger] after.children[k]).bounds == after.bounds.spec_split(k)
                && after.children[k].wf() by {
                if k != i {
                    assert(after.children[k] == tree.children[k]);
                }
            }
            assert forall|j: int| 0 <= j < after.members.len() implies after.placed(
                #[trigger] after.members[j],
            ) by {
                assert(tree.placed(tree.members[j]));
            }
        },
        None => {
            let all = tree.members.push((entity, extent));
            assert forall|j: int| 0 <= j < all.len() implies tree.bounds.spec_contains(
                (#[trigger] all[j]).1,
            ) by {
                if j < tree.members.len() {
                    assert(tree.placed(tree.members[j]));
                }
            }
            if tree.splits_on_add() {
                lemma_divided_wf(tree, all);
            } else {
                assert forall|j: int| 0 <= j < after.members.len() implies after.placed(
                    #[trigger] after.members[j],
                ) by {
                    if j < tree.members.len() {
                        assert(tree.placed(tree.members[j]));
                    }
                }
            }
        },
    }
}

/// A leaf that can be split, divided over entities that lie within it, is a
/// well-formed internal node.
proof fn lemma_divided_wf(leaf: NodeView, all: Seq<(Entity, Bounds)>)
    requires
        leaf.bounds.spec_is_region(),
        leaf.bounds.spec_can_split(),
        forall|j: int| 0 <= j < all.len() ==> leaf.bounds.spec_contains((#[trigger] all[j]).1),
    ensures
        leaf.divided(all).wf(),
{
    let node = leaf.divided(all);
    let region = leaf.bounds;
    assert forall|j: int| 0 <= j < node.members.len() implies node.placed(
        #[trigger] node.members[j],
    ) by {
        let m = node.members[j];
        all.lemma_filter_pred(stays(region), j);
        all.lemma_filter_contains_rev(stays(region), m);
    }
    assert forall|i: int| 0 <= i < node.children.len() implies (#[trigger] node.children[i]).bounds
        == node.bounds.spec_split(i) && node.children[i].wf() by {
        let child = node.children[i];
        region.lemma_split_is_region(i);
        assert forall|j: int| 0 <= j < child.members.len() implies child.placed(
            #[trigger] child.members[j],
        ) by {
            let m = child.members[j];
            all.lemma_filter_pred(goes_to(region, i), j);
            all.lemma_filter_contains_rev(goes_to(region, i), m);
            region.lemma_quadrant_is_the_containing_one(m.1, i);
        }
    }
}

/// Removing an entity leaves a well-formed tree well-formed, over the same
/// square.
pub proof fn lemma_remove_wf(tree: NodeView, entity: Entity, extent: Bounds)
    requires
        tree.wf(),
    ensures
        tree.remove_walk(entity, extent).0.wf(),
        tree.remove_walk(entity, extent).0.bounds == tree.bounds,
    decreases tree,
{
    let after = tree.remove_walk(entity, extent).0;
    match tree.route(extent) {
        Some(i) => {
            let (child, walking) = tree.children[i].remove_walk(entity, extent);
            lemma_remove_wf(tree.children[i], entity, extent);
            let node = NodeView { children: tree.children.update(i, child), ..tree };
            assert forall|k: int| 0 <= k < node.children.len() implies (
            #[trigger] node.children[k]).bounds == node.bounds.spec_split(k)
                && node.children[k].wf() by {
                if k != i {
                    assert(node.children[k] == tree.children[k]);
                }
            }
            assert forall|j: int| 0 <= j < after.members.len() implies after.placed(
                #[trigger] after.members[j],
            ) by {
                assert(tree.placed(tree.members[j]));
            }
        },
        None => {
            lemma_first_index(tree.members, entity);
            match first_index(tree.members, entity) {
                Some(idx) => {
                    assert forall|j: int| 0 <= j < after.members.len() implies after.placed(
                        #[trigger] after.members[j],
                    ) by {
                        if j == idx {
                            assert(tree.placed(tree.members[tree.members.len() - 1]));
                        } else {
                            assert(tree.placed(tree.members[j]));
                        }
                    }
                },
                None => {},
            }
        },
    }
}

/// Filing an entity anew, under an extent that belongs at the node where it is
/// filed, leaves a well-formed tree well-formed.
pub proof fn lemma_refile_wf(tree: NodeView, entity: Entity, from: Bounds, extent: Bounds)
    requires
        tree.wf(),
        tree.find_node(from).placed((entity, extent)),
    ensures
        tree.refile(entity, from, extent).wf(),
        tree.refile(entity, from, extent).bounds == tree.bounds,
    decreases tree,
{
    let after = tree.refile(entity, from, extent);
    match tree.route(from) {
        Some(i) => {
            lemma_refile_wf(tree.children[i], entity, from, extent);
            assert forall|k: int| 0 <= k < after.children.len() implies (
            #[trigger] after.children[k]).bounds == after.bounds.spec_split(k)
                && after.children[k].wf() by {
                if k != i {
                    assert(after.children[k] == tree.children[k]);
                }
            }
            assert forall|j: int| 0 <= j < after.members.len() implies after.placed(
                #[trigger] after.members[j],
            ) by {
                assert(tree.placed(tree.members[j]));
            }
        },
        None => {
            lemma_first_index(tree.members, entity);
            match first_index(tree.members, entity) {
                Some(idx) => {
                    let kept = swap_removed(tree.members, idx);
                    assert forall|j: int| 0 <= j < after.members.len() implies after.placed(
                        #[trigger] after.members[j],
                    ) by {
                        if j == kept.len() {
                        } else if j == idx {
                            assert(tree.placed(tree.members[tree.members.len() - 1]));
                        } else {
                            assert(tree.placed(tree.members[j]));
                        }
                    }
                },
                None => {},
            }
        },
    }
}

} // verus!
