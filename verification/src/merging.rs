//! Subtrees without entries: a removal leaves none behind, and only a split that
//! sends nothing down makes one.

use crate::entity::Entity;
use crate::geometry::Bounds;
use crate::model::{first_index, goes_to, lemma_first_index, NodeView};
use vstd::prelude::*;

verus! {

impl NodeView {
    /// Whether no leaf of the tree holds a member.
    pub open spec fn all_leaves_empty(self) -> bool
        decreases self,
    {
        if self.is_leaf() {
            self.members.len() == 0
        } else {
            forall|i: int|
                0 <= i < self.children.len() ==> (#[trigger] self.children[i]).all_leaves_empty()
        }
    }

    /// Whether the tree has no internal node below which every leaf is empty.
    pub open spec fn no_empty_subtree(self) -> bool
        decreases self,
    {
        self.is_leaf() || (!self.all_leaves_empty() && forall|i: int|
            0 <= i < self.children.len() ==> (#[trigger] self.children[i]).no_empty_subtree())
    }

    /// Whether the tree has no internal node whose children are all leaves
    /// without members.
    pub open spec fn tidy(self) -> bool
        decreases self,
    {
        self.is_leaf() || (!self.children_all_empty() && forall|i: int|
            0 <= i < self.children.len() ==> (#[trigger] self.children[i]).tidy())
    }

    /// Whether an `add` of `(entity, extent)` splits the node where `extent`
    /// belongs and sends nothing down: every member of that node, and `extent`,
    /// crosses a midline of the node.
    pub open spec fn strands(self, entity: Entity, extent: Bounds) -> bool {
        let node = self.find_node(extent);
        let all = node.members.push((entity, extent));
        node.splits_on_add() && forall|j: int|
            0 <= j < all.len() ==> node.bounds.spec_quadrant((#[trigger] all[j]).1).is_none()
    }
}

/// An internal node below which every leaf is empty is found exactly where one is
/// found whose children are all empty leaves.
pub proof fn lemma_tidy_is_no_empty_subtree(tree: NodeView)
    ensures
        tree.tidy() == tree.no_empty_subtree(),
        tree.tidy() && !tree.is_empty_leaf() ==> !tree.all_leaves_empty(),
    decreases tree,
{
    if !tree.is_leaf() {
        assert forall|i: int| 0 <= i < tree.children.len() implies (
        #[trigger] tree.children[i]).tidy() == tree.children[i].no_empty_subtree() && (
        tree.children[i].tidy() && !tree.children[i].is_empty_leaf()
            ==> !tree.children[i].all_leaves_empty()) by {
            lemma_tidy_is_no_empty_subtree(tree.children[i]);
        }
        if tree.tidy() {
            let k = choose|k: int|
                0 <= k < tree.children.len() && !(#[trigger] tree.children[k]).is_empty_leaf();
            assert(!tree.children[k].all_leaves_empty());
        }
        if tree.no_empty_subtree() && tree.children_all_empty() {
            assert forall|i: int| 0 <= i < tree.children.len() implies (
            #[trigger] tree.children[i]).all_leaves_empty() by {
                assert(tree.children[i].is_empty_leaf());
            }
        }
    }
}

/// A removal leaves a tidy tree tidy; and where it turns a subtree into an empty
/// leaf, the merging goes on above it.
pub proof fn lemma_remove_keeps_tidy(tree: NodeView, entity: Entity, extent: Bounds)
    requires
        tree.tidy(),
    ensures
        tree.remove_walk(entity, extent).0.tidy(),
        tree.remove_walk(entity, extent).0.is_empty_leaf() && !tree.is_empty_leaf()
            ==> tree.remove_walk(entity, extent).1,
    decreases tree,
{
    match tree.route(extent) {
        Some(i) => {
            let (child, walking) = tree.children[i].remove_walk(entity, extent);
            lemma_remove_keeps_tidy(tree.children[i], entity, extent);
            let node = NodeView { children: tree.children.update(i, child), ..tree };
            if !(walking && node.children_all_empty()) {
                assert forall|k: int| 0 <= k < node.children.len() implies (
                #[trigger] node.children[k]).tidy() by {
                    if k != i {
                        assert(node.children[k] == tree.children[k]);
                    }
                }
                if node.children_all_empty() {
                    let k = choose|k: int|
                        0 <= k < tree.children.len() && !(
                        #[trigger] tree.children[k]).is_empty_leaf();
                    assert(node.children[k].is_empty_leaf());
                    assert(false);
                }
            }
        },
        None => {
            lemma_first_index(tree.members, entity);
        },
    }
}

/// An `add` leaves a tidy tree tidy unless it splits a node and sends nothing
/// down; and the tree it leaves is no empty leaf.
pub proof fn lemma_add_keeps_tidy(tree: NodeView, entity: Entity, extent: Bounds)
    requires
        tree.tidy(),
    ensures
        tree.add(entity, extent).tidy() == !tree.strands(entity, extent),
        !tree.add(entity, extent).is_empty_leaf(),
    decreases tree,
{
    let after = tree.add(entity, extent);
    match tree.route(extent) {
        Some(i) => {
            lemma_add_keeps_tidy(tree.children[i], entity, extent);
            assert(!after.children[i].is_empty_leaf());
            assert(tree.strands(entity, extent) == tree.children[i].strands(entity, extent));
            if !tree.strands(entity, extent) {
                assert forall|k: int| 0 <= k < after.children.len() implies (
                #[trigger] after.children[k]).tidy() by {
                    if k != i {
                        assert(after.children[k] == tree.children[k]);
                    }
                }
            } else {
                assert(!after.children[i].tidy());
            }
        },
        None => {
            if tree.splits_on_add() {
                let region = tree.bounds;
                let all = tree.members.push((entity, extent));
                if tree.strands(entity, extent) {
                    assert forall|i: int| 0 <= i < after.children.len() implies (
                    #[trigger] after.children[i]).is_empty_leaf() by {
                        let sent = all.filter(goes_to(region, i));
                        if sent.len() > 0 {
                            all.lemma_filter_pred(goes_to(region, i), 0);
                            assert(sent.contains(sent[0]));
                            all.lemma_filter_contains_rev(goes_to(region, i), sent[0]);
                        }
                    }
                } else {
                    let j = choose|j: int|
                        0 <= j < all.len() && !region.spec_quadrant((#[trigger] all[j]).1).is_none();
                    let i = region.spec_quadrant(all[j].1).unwrap();
                    all.lemma_filter_contains(goes_to(region, i), j);
                    assert(!after.children[i].is_empty_leaf());
                    assert forall|k: int| 0 <= k < after.children.len() implies (
                    #[trigger] after.children[k]).tidy() by {
                        assert(after.children[k].is_leaf());
                    }
                }
            } else {
                assert(after.members.len() > 0);
                assert(after.children == tree.children);
            }
        },
    }
}

/// Filing an entity anew changes neither the shape of the tree nor which of its
/// leaves are empty.
pub proof fn lemma_refile_keeps_tidy(tree: NodeView, entity: Entity, from: Bounds, extent: Bounds)
    ensures
        tree.refile(entity, from, extent).tidy() == tree.tidy(),
        tree.refile(entity, from, extent).is_empty_leaf() == tree.is_empty_leaf(),
    decreases tree,
{
    let after = tree.refile(entity, from, extent);
    match tree.route(from) {
        Some(i) => {
            lemma_refile_keeps_tidy(tree.children[i], entity, from, extent);
            assert forall|k: int| 0 <= k < tree.children.len() implies (
            #[trigger] after.children[k]).tidy() == tree.children[k].tidy()
                && after.children[k].is_empty_leaf() == tree.children[k].is_empty_leaf() by {
                if k != i {
                    assert(after.children[k] == tree.children[k]);
                }
            }
            if tree.children_all_empty() {
                assert forall|k: int| 0 <= k < after.children.len() implies (
                #[trigger] after.children[k]).is_empty_leaf() by {
                    assert(tree.children[k].is_empty_leaf());
                }
            }
            if after.children_all_empty() {
                assert forall|k: int| 0 <= k < tree.children.len() implies (
                #[trigger] tree.children[k]).is_empty_leaf() by {
                    assert(after.children[k].is_empty_leaf());
                }
            }
            if tree.tidy() {
                assert forall|k: int| 0 <= k < after.children.len() implies (
                #[trigger] after.children[k]).tidy() by {
                    assert(tree.children[k].tidy());
                }
            }
            if after.tidy() {
                assert forall|k: int| 0 <= k < tree.children.len() implies (
                #[trigger] tree.children[k]).tidy() by {
                    assert(after.children[k].tidy());
                }
            }
        },
        None => {
            lemma_first_index(tree.members, entity);
            match first_index(tree.members, entity) {
                Some(j) => {
                    assert(after.children == tree.children);
                },
                None => {},
            }
        },
    }
}

/// After a removal from a tree without empty subtrees, the tree has no empty
/// subtree: the merging has discarded each that the removal made.
pub proof fn lemma_remove_leaves_no_empty_subtree(tree: NodeView, entity: Entity, extent: Bounds)
    requires
        tree.no_empty_subtree(),
    ensures
        tree.remove(entity, extent).no_empty_subtree(),
{
    lemma_tidy_is_no_empty_subtree(tree);
    lemma_remove_keeps_tidy(tree, entity, extent);
    lemma_tidy_is_no_empty_subtree(tree.remove(entity, extent));
}

/// After an `add` to a tree without empty subtrees, the tree has an empty subtree
/// in one case alone: the `add` has split a node of which every member, and the
/// entity added, crosses a midline, so that its four new leaves are empty.
pub proof fn lemma_add_leaves_no_empty_subtree(tree: NodeView, entity: Entity, extent: Bounds)
    requires
        tree.no_empty_subtree(),
    ensures
        tree.add(entity, extent).no_empty_subtree() == !tree.strands(entity, extent),
        tree.insert(entity, extent).no_empty_subtree() == (tree.holds(entity, extent)
            || !tree.strands(entity, extent)),
{
    lemma_tidy_is_no_empty_subtree(tree);
    lemma_add_keeps_tidy(tree, entity, extent);
    lemma_tidy_is_no_empty_subtree(tree.add(entity, extent));
}

/// Filing an entity anew at its node makes no empty subtree and discards none.
pub proof fn lemma_refile_leaves_no_empty_subtree(
    tree: NodeView,
    entity: Entity,
    from: Bounds,
    extent: Bounds,
)
    ensures
        tree.refile(entity, from, extent).no_empty_subtree() == tree.no_empty_subtree(),
{
    lemma_tidy_is_no_empty_subtree(tree);
    lemma_refile_keeps_tidy(tree, entity, from, extent);
    lemma_tidy_is_no_empty_subtree(tree.refile(entity, from, extent));
}

} // verus!
