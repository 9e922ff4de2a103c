//! How many members the leaves hold: which operations keep them within
//! [`CAPACITY`], and which do not.

use crate::entity::Entity;
use crate::geometry::Bounds;
use crate::model::{first_index, goes_to, lemma_first_index, NodeView, CAPACITY};
use vstd::prelude::*;

verus! {

/// Whether every item of `all` goes to quadrant `idx` of `region`.
pub open spec fn all_go_to(region: Bounds, all: Seq<(Entity, Bounds)>, idx: int) -> bool {
    forall|j: int| 0 <= j < all.len() ==> region.spec_quadrant((#[trigger] all[j]).1) == Some(idx)
}

/// Whether more than [`CAPACITY`] items of `all` go to quadrant `idx` of `region`.
pub open spec fn crowded(region: Bounds, all: Seq<(Entity, Bounds)>, idx: int) -> bool {
    all.filter(goes_to(region, idx)).len() > CAPACITY
}

impl NodeView {
    /// Whether every leaf of the tree holds at most [`CAPACITY`] members.
    pub open spec fn leaves_within_capacity(self) -> bool
        decreases self,
    {
        if self.is_leaf() {
            self.members.len() <= CAPACITY
        } else {
            forall|i: int|
                0 <= i < self.children.len() ==> (
                #[trigger] self.children[i]).leaves_within_capacity()
        }
    }

    /// Whether every leaf of the tree holds at most [`CAPACITY`] members, but for
    /// the node where `extent` belongs.
    pub open spec fn leaves_within_capacity_but(self, extent: Bounds) -> bool
        decreases self,
    {
        match self.route(extent) {
            Some(i) => self.children[i].leaves_within_capacity_but(extent) && forall|k: int|
                0 <= k < self.children.len() && k != i ==> (
                #[trigger] self.children[k]).leaves_within_capacity(),
            None => self.is_leaf() || forall|k: int|
                0 <= k < self.children.len() ==> (
                #[trigger] self.children[k]).leaves_within_capacity(),
        }
    }

    /// Whether an `add` of `(entity, extent)` leaves more than [`CAPACITY`]
    /// members in the leaf where `extent` belongs, or in one of the quadrants
    /// that this leaf is split into.
    pub open spec fn overfills(self, entity: Entity, extent: Bounds) -> bool {
        let node = self.find_node(extent);
        let all = node.members.push((entity, extent));
        node.is_leaf() && if node.splits_on_add() {
            crowded(node.bounds, all, 0) || crowded(node.bounds, all, 1) || crowded(
                node.bounds,
                all,
                2,
            ) || crowded(node.bounds, all, 3)
        } else {
            node.members.len() >= CAPACITY
        }
    }

    /// The outermost node whose children a removal of `entity` at `extent`
    /// discards, as it is before the removal; none where the removal merges
    /// nothing.
    pub open spec fn merged(self, entity: Entity, extent: Bounds) -> Option<NodeView>
        decreases self,
    {
        match self.route(extent) {
            Some(i) => {
                let (child, walking) = self.children[i].remove_walk(entity, extent);
                let node = NodeView { children: self.children.update(i, child), ..self };
                if walking && node.children_all_empty() {
                    Some(self)
                } else {
                    self.children[i].merged(entity, extent)
                }
            },
            None => None,
        }
    }
}

/// A test keeps every item of a sequence exactly where every item passes it.
proof fn lemma_filter_keeps_all(
    s: Seq<(Entity, Bounds)>,
    pred: spec_fn((Entity, Bounds)) -> bool,
)
    ensures
        s.filter(pred).len() <= s.len(),
        s.filter(pred).len() == s.len() <==> forall|j: int| 0 <= j < s.len() ==> pred(#[trigger] s[j]),
    decreases s.len(),
{
    reveal(Seq::filter);
    if s.len() > 0 {
        let front = s.drop_last();
        lemma_filter_keeps_all(front, pred);
        if s.filter(pred).len() == s.len() {
            assert forall|j: int| 0 <= j < s.len() implies pred(#[trigger] s[j]) by {
                if j < front.len() {
                    assert(front[j] == s[j]);
                }
            }
        }
        if forall|j: int| 0 <= j < s.len() ==> pred(#[trigger] s[j]) {
            assert forall|j: int| 0 <= j < front.len() implies pred(#[trigger] front[j]) by {
                assert(front[j] == s[j]);
            }
            assert(pred(s[s.len() - 1]));
        }
    }
}

/// After an `add`, every leaf holds at most [`CAPACITY`] members exactly where
/// every leaf but the one where the extent belongs did, and the `add` does not
/// overfill that one.
pub proof fn lemma_add_capacity(tree: NodeView, entity: Entity, extent: Bounds)
    ensures
        tree.add(entity, extent).leaves_within_capacity() == (tree.leaves_within_capacity_but(
            extent,
        ) && !tree.overfills(entity, extent)),
    decreases tree,
{
    let after = tree.add(entity, extent);
    match tree.route(extent) {
        Some(i) => {
            lemma_add_capacity(tree.children[i], entity, extent);
            assert(tree.overfills(entity, extent) == tree.children[i].overfills(entity, extent));
            assert forall|k: int| 0 <= k < tree.children.len() && k != i implies (
            #[trigger] after.children[k]) == tree.children[k] by {}
            if after.leaves_within_capacity() {
                assert(after.children[i].leaves_within_capacity());
                assert forall|k: int| 0 <= k < tree.children.len() && k != i implies (
                #[trigger] tree.children[k]).leaves_within_capacity() by {
                    assert(after.children[k].leaves_within_capacity());
                }
            }
            if tree.leaves_within_capacity_but(extent) && !tree.overfills(entity, extent) {
                assert forall|k: int| 0 <= k < after.children.len() implies (
                #[trigger] after.children[k]).leaves_within_capacity() by {
                    if k != i {
                        assert(tree.children[k].leaves_within_capacity());
                    }
                }
            }
        },
        None => {
            if tree.splits_on_add() {
                let region = tree.bounds;
                let all = tree.members.push((entity, extent));
                assert forall|i: int| 0 <= i < 4 implies (
                #[trigger] after.children[i]).leaves_within_capacity() == !crowded(
                    region,
                    all,
                    i,
                ) by {
                    assert(after.children[i].members == all.filter(goes_to(region, i)));
                }
                if !tree.overfills(entity, extent) {
                    assert forall|i: int| 0 <= i < after.children.len() implies (
                    #[trigger] after.children[i]).leaves_within_capacity() by {}
                } else {
                    let i = if crowded(region, all, 0) {
                        0int
                    } else if crowded(region, all, 1) {
                        1int
                    } else if crowded(region, all, 2) {
                        2int
                    } else {
                        3int
                    };
                    assert(!after.children[i].leaves_within_capacity());
                }
            } else if !tree.is_leaf() {
                assert(after.children == tree.children);
            }
        },
    }
}

/// In a tree whose leaves are within capacity, the leaf where an extent belongs
/// is, and so is every other.
pub proof fn lemma_within_capacity_everywhere(tree: NodeView, extent: Bounds)
    requires
        tree.leaves_within_capacity(),
    ensures
        tree.leaves_within_capacity_but(extent),
        tree.find_node(extent).is_leaf() ==> tree.find_node(extent).members.len() <= CAPACITY,
    decreases tree,
{
    match tree.route(extent) {
        Some(i) => {
            lemma_within_capacity_everywhere(tree.children[i], extent);
        },
        None => {},
    }
}

/// An `add` to a tree whose leaves are within capacity leaves them within it
/// unless it overfills the leaf where the extent belongs: the leaf is full, and it
/// cannot be split, or all its members and the extent go to one and the same
/// quadrant.
pub proof fn lemma_add_within_capacity(tree: NodeView, entity: Entity, extent: Bounds)
    requires
        tree.leaves_within_capacity(),
    ensures
        tree.add(entity, extent).leaves_within_capacity() == !tree.overfills(entity, extent),
        tree.insert(entity, extent).leaves_within_capacity() == (tree.holds(entity, extent)
            || !tree.overfills(entity, extent)),
        tree.overfills(entity, extent) == ({
            let node = tree.find_node(extent);
            let all = node.members.push((entity, extent));
            node.is_leaf() && node.members.len() == CAPACITY && (!node.bounds.spec_can_split()
                || all_go_to(node.bounds, all, 0) || all_go_to(node.bounds, all, 1) || all_go_to(
                node.bounds,
                all,
                2,
            ) || all_go_to(node.bounds, all, 3))
        }),
{
    lemma_add_capacity(tree, entity, extent);
    lemma_within_capacity_everywhere(tree, extent);
    let node = tree.find_node(extent);
    let all = node.members.push((entity, extent));
    if node.splits_on_add() {
        assert(all.len() == CAPACITY + 1);
        assert forall|i: int| 0 <= i < 4 implies crowded(node.bounds, all, i) == all_go_to(
            node.bounds,
            all,
            i,
        ) by {
            lemma_filter_keeps_all(all, goes_to(node.bounds, i));
            if all_go_to(node.bounds, all, i) {
                assert forall|j: int| 0 <= j < all.len() implies goes_to(node.bounds, i)(
                    #[trigger] all[j],
                ) by {}
            }
        }
    }
}

/// A removal from a tree whose leaves are within capacity leaves them within it
/// unless the outermost node that it turns back into a leaf holds more than
/// [`CAPACITY`] members itself.
pub proof fn lemma_remove_within_capacity(tree: NodeView, entity: Entity, extent: Bounds)
    requires
        tree.leaves_within_capacity(),
    ensures
        tree.remove(entity, extent).leaves_within_capacity() == match tree.merged(
            entity,
            extent,
        ) {
            Some(node) => node.members.len() <= CAPACITY,
            None => true,
        },
    decreases tree,
{
    let after = tree.remove(entity, extent);
    match tree.route(extent) {
        Some(i) => {
            let (child, walking) = tree.children[i].remove_walk(entity, extent);
            lemma_remove_within_capacity(tree.children[i], entity, extent);
            let node = NodeView { children: tree.children.update(i, child), ..tree };
            if !(walking && node.children_all_empty()) {
                assert(after == node);
                if child.leaves_within_capacity() {
                    assert forall|k: int| 0 <= k < node.children.len() implies (
                    #[trigger] node.children[k]).leaves_within_capacity() by {
                        if k != i {
                            assert(node.children[k] == tree.children[k]);
                        }
                    }
                } else {
                    assert(!node.children[i].leaves_within_capacity());
                }
            }
        },
        None => {
            lemma_first_index(tree.members, entity);
            match first_index(tree.members, entity) {
                Some(j) => {
                    assert(after.children == tree.children);
                },
                None => {},
            }
        },
    }
}

/// Filing an entity anew at its node changes the number of members of no node.
pub proof fn lemma_refile_within_capacity(
    tree: NodeView,
    entity: Entity,
    from: Bounds,
    extent: Bounds,
)
    ensures
        tree.refile(entity, from, extent).leaves_within_capacity()
            == tree.leaves_within_capacity(),
        tree.refile(entity, from, extent).is_leaf() == tree.is_leaf(),
    decreases tree,
{
    let after = tree.refile(entity, from, extent);
    match tree.route(from) {
        Some(i) => {
            lemma_refile_within_capacity(tree.children[i], entity, from, extent);
            assert forall|k: int| 0 <= k < tree.children.len() implies (
            #[trigger] after.children[k]).leaves_within_capacity()
                == tree.children[k].leaves_within_capacity() by {
                if k != i {
                    assert(after.children[k] == tree.children[k]);
                }
            }
            if tree.leaves_within_capacity() {
                assert forall|k: int| 0 <= k < after.children.len() implies (
                #[trigger] after.children[k]).leaves_within_capacity() by {
                    assert(tree.children[k].leaves_within_capacity());
                }
            }
            if after.leaves_within_capacity() {
                assert forall|k: int| 0 <= k < tree.children.len() implies (
                #[trigger] tree.children[k]).leaves_within_capacity() by {
                    assert(after.children[k].leaves_within_capacity());
                }
            }
        },
        None => {
            lemma_first_index(tree.members, entity);
            match first_index(tree.members, entity) {
                Some(j) => {
                    assert(after.children == tree.children);
                },
                None => {},
            }
        },
    }
}

} // verus!
