//! Whether a removal undoes the `insert` before it.

use crate::entity::Entity;
use crate::geometry::Bounds;
use crate::model::{
    first_index, goes_to, lemma_filter_push, lemma_first_index, lemma_is_first, stays,
    swap_removed, NodeView,
};
use vstd::prelude::*;

verus! {

impl NodeView {
    /// Whether the node where `extent` belongs is a leaf without members, below a
    /// parent whose other children are leaves without members too.
    pub open spec fn lonely(self, extent: Bounds) -> bool
        decreases self,
    {
        match self.route(extent) {
            Some(i) => (self.children[i].route(extent).is_none() && self.children_all_empty())
                || self.children[i].lonely(extent),
            None => false,
        }
    }

    /// Whether removing an entity that was just added under `extent` gives back
    /// the tree as it was before.
    ///
    /// Where the `add` has split a leaf: only if the merging undoes the split, which
    /// it does where the entity went down to a quadrant and every other member
    /// stayed above. Where it has not: unless the entity was alone in a leaf among
    /// empty leaves, which the merging then discards.
    pub open spec fn undone_by_remove(self, extent: Bounds) -> bool {
        let node = self.find_node(extent);
        if node.splits_on_add() {
            node.bounds.spec_quadrant(extent).is_some() && forall|j: int|
                0 <= j < node.members.len() ==> node.bounds.spec_quadrant(
                    (#[trigger] node.members[j]).1,
                ).is_none()
        } else {
            !self.lonely(extent)
        }
    }
}

/// An entity appended to members that do not hold it is found at the end, and
/// removing it there gives the members back.
proof fn lemma_find_appended(members: Seq<(Entity, Bounds)>, entity: Entity, extent: Bounds)
    requires
        first_index(members, entity).is_none(),
    ensures
        first_index(members.push((entity, extent)), entity) == Some(members.len() as int),
        swap_removed(members.push((entity, extent)), members.len() as int) == members,
{
    lemma_first_index(members, entity);
    let longer = members.push((entity, extent));
    assert forall|k: int| 0 <= k < members.len() implies (#[trigger] longer[k]).0 != entity by {
        assert(longer[k] == members[k]);
    }
    lemma_is_first(longer, entity, members.len() as int);
    assert(swap_removed(longer, members.len() as int) =~= members);
}

/// What a test keeps of members that do not hold an entity does not hold it.
proof fn lemma_filtered_holds_not(
    members: Seq<(Entity, Bounds)>,
    entity: Entity,
    pred: spec_fn((Entity, Bounds)) -> bool,
)
    requires
        first_index(members, entity).is_none(),
    ensures
        first_index(members.filter(pred), entity).is_none(),
{
    lemma_first_index(members, entity);
    let kept = members.filter(pred);
    lemma_first_index(kept, entity);
    if let Some(j) = first_index(kept, entity) {
        assert(kept.contains(kept[j]));
        members.lemma_filter_contains_rev(pred, kept[j]);
        let k = choose|k: int| 0 <= k < members.len() && members[k] == kept[j];
        assert(members[k].0 != entity);
    }
}

/// A test that every item passes keeps the sequence as it is, and one that no item
/// passes keeps nothing.
proof fn lemma_filter_all_or_none(
    s: Seq<(Entity, Bounds)>,
    pred: spec_fn((Entity, Bounds)) -> bool,
)
    ensures
        (forall|j: int| 0 <= j < s.len() ==> pred(#[trigger] s[j])) ==> s.filter(pred) == s,
        (forall|j: int| 0 <= j < s.len() ==> !pred(#[trigger] s[j])) <==> s.filter(pred).len() == 0,
    decreases s.len(),
{
    reveal(Seq::filter);
    if s.len() > 0 {
        let front = s.drop_last();
        lemma_filter_all_or_none(front, pred);
        if forall|j: int| 0 <= j < s.len() ==> pred(#[trigger] s[j]) {
            assert forall|j: int| 0 <= j < front.len() implies pred(#[trigger] front[j]) by {
                assert(front[j] == s[j]);
            }
            assert(pred(s[s.len() - 1]));
            assert(front.push(s.last()) =~= s);
        }
        if forall|j: int| 0 <= j < s.len() ==> !pred(#[trigger] s[j]) {
            assert forall|j: int| 0 <= j < front.len() implies !pred(#[trigger] front[j]) by {
                assert(front[j] == s[j]);
            }
            assert(!pred(s[s.len() - 1]));
        }
        if s.filter(pred).len() == 0 {
            assert forall|j: int| 0 <= j < s.len() implies !pred(#[trigger] s[j]) by {
                if j < front.len() {
                    assert(front[j] == s[j]);
                }
            }
        }
    }
}

/// An `add` followed by the removal of what was added, at a leaf that the `add`
/// has split.
proof fn lemma_split_then_remove(leaf: NodeView, entity: Entity, extent: Bounds)
    requires
        leaf.route(extent).is_none(),
        leaf.splits_on_add(),
        first_index(leaf.members, entity).is_none(),
    ensures
        (leaf.add(entity, extent).remove_walk(entity, extent).0 == leaf) == leaf.undone_by_remove(
            extent,
        ),
{
    let region = leaf.bounds;
    let entry = (entity, extent);
    let all = leaf.members.push(entry);
    let split = leaf.add(entity, extent);
    let back = split.remove_walk(entity, extent).0;
    lemma_filter_push(leaf.members, entry, stays(region));
    lemma_filtered_holds_not(leaf.members, entity, stays(region));
    lemma_filter_all_or_none(leaf.members, stays(region));
    match region.spec_quadrant(extent) {
        Some(i) => {
            assert(split.route(extent) == Some(i));
            let sent = leaf.members.filter(goes_to(region, i));
            lemma_filter_push(leaf.members, entry, goes_to(region, i));
            lemma_filtered_holds_not(leaf.members, entity, goes_to(region, i));
            lemma_find_appended(sent, entity, extent);
            assert(split.children[i].members == sent.push(entry));
            let (child, walking) = split.children[i].remove_walk(entity, extent);
            assert(child == NodeView::leaf(region.spec_split(i), sent));
            assert(walking == (sent.len() == 0));
            let node = NodeView { children: split.children.update(i, child), ..split };
            let all_stay = forall|j: int|
                0 <= j < leaf.members.len() ==> region.spec_quadrant(
                    (#[trigger] leaf.members[j]).1,
                ).is_none();
            if all_stay {
                assert forall|k: int| 0 <= k < node.children.len() implies (
                #[trigger] node.children[k]).is_empty_leaf() by {
                    lemma_filter_all_or_none(leaf.members, goes_to(region, k));
                    lemma_filter_push(leaf.members, entry, goes_to(region, k));
                }
                assert(node.children[i].is_empty_leaf());
                assert(walking && node.children_all_empty());
                assert(back == NodeView { children: Seq::empty(), ..node });
                assert(back.members == leaf.members);
                assert(back.children =~= leaf.children);
            } else {
                let j = choose|j: int|
                    0 <= j < leaf.members.len() && !region.spec_quadrant(
                        (#[trigger] leaf.members[j]).1,
                    ).is_none();
                let k = region.spec_quadrant(leaf.members[j].1).unwrap();
                lemma_filter_all_or_none(leaf.members, goes_to(region, k));
                lemma_filter_push(leaf.members, entry, goes_to(region, k));
                assert(!node.children[k].is_empty_leaf());
                assert(back.children.len() == 4);
            }
        },
        None => {
            assert(split.route(extent).is_none());
            lemma_find_appended(leaf.members.filter(stays(region)), entity, extent);
            assert(back.children.len() == 4);
        },
    }
}

/// An `add` followed by the removal of what was added gives back the tree exactly
/// where [`NodeView::undone_by_remove`] says so; and from an empty leaf the
/// merging goes on above.
proof fn lemma_add_then_remove(tree: NodeView, entity: Entity, extent: Bounds)
    requires
        tree.wf(),
        !tree.holds(entity, extent),
    ensures
        (tree.add(entity, extent).remove_walk(entity, extent).0 == tree) == tree.undone_by_remove(
            extent,
        ),
        tree.is_empty_leaf() ==> tree.add(entity, extent).remove_walk(entity, extent).1,
    decreases tree,
{
    let added = tree.add(entity, extent);
    match tree.route(extent) {
        Some(i) => {
            let before = tree.children[i];
            lemma_add_then_remove(before, entity, extent);
            assert(added.route(extent) == Some(i));
            let (child, walking) = added.children[i].remove_walk(entity, extent);
            let node = NodeView { children: added.children.update(i, child), ..added };
            assert(node.children =~= tree.children.update(i, child));
            let back = added.remove_walk(entity, extent).0;
            if child == before {
                assert(node.children =~= tree.children);
                if tree.find_node(extent).splits_on_add() {
                    assert(!before.is_empty_leaf());
                    assert(!node.children[i].is_empty_leaf());
                } else if tree.children_all_empty() {
                    assert(before.is_empty_leaf());
                    assert(back.children.len() == 0);
                }
            } else {
                if !(walking && node.children_all_empty()) {
                    assert(back.children[i] == child);
                } else {
                    assert(back.children.len() == 0);
                }
                if !tree.find_node(extent).splits_on_add() && before.route(extent).is_none() {
                    lemma_find_appended(before.members, entity, extent);
                }
            }
        },
        None => {
            if tree.splits_on_add() {
                lemma_split_then_remove(tree, entity, extent);
            } else {
                lemma_find_appended(tree.members, entity, extent);
                assert(added.route(extent).is_none());
            }
        },
    }
}

/// An `insert` of an entity, under an extent within the tree and at a node that
/// did not hold it, followed at once by its removal: the tree is as it was before
/// exactly where [`NodeView::undone_by_remove`] holds.
///
/// So it is where the `insert` splits nothing and the tree has no internal node
/// whose children are all empty leaves.
pub proof fn lemma_insert_then_remove(tree: NodeView, entity: Entity, extent: Bounds)
    requires
        tree.wf(),
        tree.bounds.spec_contains(extent),
        !tree.holds(entity, extent),
    ensures
        (tree.insert(entity, extent).remove(entity, extent) == tree) == tree.undone_by_remove(
            extent,
        ),
        !tree.find_node(extent).splits_on_add() && tree.tidy() ==> tree.insert(
            entity,
            extent,
        ).remove(entity, extent) == tree,
{
    lemma_add_then_remove(tree, entity, extent);
    if tree.tidy() {
        lemma_tidy_is_not_lonely(tree, extent);
    }
}

/// In a tree without an internal node whose children are all empty leaves, no
/// leaf is alone among empty leaves.
pub proof fn lemma_tidy_is_not_lonely(tree: NodeView, extent: Bounds)
    requires
        tree.tidy(),
    ensures
        !tree.lonely(extent),
    decreases tree,
{
    match tree.route(extent) {
        Some(i) => {
            lemma_tidy_is_not_lonely(tree.children[i], extent);
        },
        None => {},
    }
}

} // verus!
