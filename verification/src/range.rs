//! What a range query lists, and why quadrants that are too far away can be
//! passed over.

use crate::entity::Entity;
use crate::geometry::{Bounds, Position};
use crate::model::NodeView;
use vstd::prelude::*;

verus! {

/// The entries whose extent has a point nearer to `target` than the distance whose
/// square is `max_sq`.
pub open spec fn within(target: Position, max_sq: int) -> spec_fn((Entity, Bounds)) -> bool {
    |m: (Entity, Bounds)| m.1.spec_min_sq_dist(target) < max_sq
}

impl NodeView {
    /// What a range query lists: the entries of the tree that are within the
    /// distance, in the order of [`NodeView::contents`].
    pub open spec fn in_range(self, target: Position, max_sq: int) -> Seq<(Entity, Bounds)> {
        self.contents().filter(within(target, max_sq))
    }

    /// A measure of the tree: two for each node and one for each entry.
    pub open spec fn weight(self) -> nat
        decreases self, 0nat,
    {
        2 + self.members.len() + Self::weight_among(self.children, 0)
    }

    /// The measure of `nodes` from position `from` on.
    pub open spec fn weight_among(nodes: Seq<NodeView>, from: int) -> nat
        decreases nodes, nodes.len() - from,
    {
        if 0 <= from < nodes.len() {
            nodes[from].weight() + Self::weight_among(nodes, from + 1)
        } else {
            0
        }
    }
}

/// Every entry of a well-formed tree lies within the square of the tree.
pub proof fn lemma_contents_contained(tree: NodeView, m: (Entity, Bounds))
    requires
        tree.wf(),
        tree.contents().contains(m),
    ensures
        tree.bounds.spec_contains(m.1),
    decreases tree, 0nat,
{
    let below = NodeView::contents_among(tree.children, 0);
    let j = choose|j: int| 0 <= j < tree.contents().len() && tree.contents()[j] == m;
    if j < tree.members.len() {
        assert(tree.placed(tree.members[j]));
    } else {
        assert(below[j - tree.members.len()] == m);
        lemma_among_contained(tree, 0, m);
    }
}

/// Every entry of the children of a well-formed node lies within the node.
proof fn lemma_among_contained(tree: NodeView, from: int, m: (Entity, Bounds))
    requires
        tree.wf(),
        0 <= from,
        NodeView::contents_among(tree.children, from).contains(m),
    ensures
        tree.bounds.spec_contains(m.1),
    decreases tree.children, tree.children.len() - from,
{
    if from < tree.children.len() {
        let child = tree.children[from];
        let first = child.contents();
        let rest = NodeView::contents_among(tree.children, from + 1);
        let j = choose|j: int| 0 <= j < (first + rest).len() && (first + rest)[j] == m;
        if j < first.len() {
            assert(first[j] == m);
            lemma_contents_contained(child, m);
            tree.bounds.lemma_split_is_region(from);
            tree.bounds.lemma_contains_trans(child.bounds, m.1);
        } else {
            assert(rest[j - first.len()] == m);
            lemma_among_contained(tree, from + 1, m);
        }
    }
}

/// A range query lists an entry exactly if the tree holds it and its extent has a
/// point nearer to the target than the distance.
pub proof fn lemma_in_range_is_exact(
    tree: NodeView,
    target: Position,
    max_sq: int,
    m: (Entity, Bounds),
)
    ensures
        tree.in_range(target, max_sq).contains(m) <==> tree.contents().contains(m)
            && m.1.spec_min_sq_dist(target) < max_sq,
{
    let pred = within(target, max_sq);
    let all = tree.contents();
    if all.filter(pred).contains(m) {
        let j = choose|j: int| 0 <= j < all.filter(pred).len() && all.filter(pred)[j] == m;
        all.lemma_filter_pred(pred, j);
        all.lemma_filter_contains_rev(pred, m);
    }
    if all.contains(m) && pred(m) {
        let j = choose|j: int| 0 <= j < all.len() && all[j] == m;
        all.lemma_filter_contains(pred, j);
    }
}

/// No entry of a well-formed tree is within a distance of the target that the
/// square of the tree itself is not within.
pub proof fn lemma_far_tree_has_nothing_in_range(tree: NodeView, target: Position, max_sq: int)
    requires
        tree.wf(),
        tree.bounds.spec_min_sq_dist(target) >= max_sq,
    ensures
        tree.in_range(target, max_sq) =~= Seq::empty(),
{
    let found = tree.in_range(target, max_sq);
    if found.len() > 0 {
        let m = found[0];
        tree.contents().lemma_filter_pred(within(target, max_sq), 0);
        assert(found.contains(m));
        tree.contents().lemma_filter_contains_rev(within(target, max_sq), m);
        lemma_contents_contained(tree, m);
        tree.bounds.lemma_contained_is_no_nearer(m.1, target);
    }
}

} // verus!
