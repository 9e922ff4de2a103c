//! The entries of the tree as a bag: each operation adds and takes away exactly
//! what it should, wherever in the tree it files it.

use crate::entity::Entity;
use crate::geometry::Bounds;
use crate::model::{
    first_index, goes_to, lemma_filter_push, lemma_first_index, lemma_is_first, stays,
    swap_removed, NodeView,
};
use crate::relocation::{lemma_filed_is_held, lemma_relocate_is_refile_or_remove_then_add};
use vstd::multiset::Multiset;
use vstd::prelude::*;
use vstd::seq_lib::{
    lemma_multiset_commutative, to_multiset_build, to_multiset_contains, to_multiset_len,
    to_multiset_remove, to_multiset_update,
};

verus! {

impl NodeView {
    /// The entries of the tree, each as often as the tree holds it.
    pub open spec fn entries(self) -> Multiset<(Entity, Bounds)> {
        self.contents().to_multiset()
    }

    /// The entry that a removal of `entity` at `extent` takes away: the first of
    /// `entity` at the node where `extent` belongs.
    pub open spec fn entry_at(self, entity: Entity, extent: Bounds) -> Option<(Entity, Bounds)> {
        let node = self.find_node(extent);
        match first_index(node.members, entity) {
            Some(j) => Some(node.members[j]),
            None => None,
        }
    }
}

/// The first position that holds an entity in one sequence followed by another.
proof fn lemma_first_index_of_both(
    a: Seq<(Entity, Bounds)>,
    b: Seq<(Entity, Bounds)>,
    entity: Entity,
)
    ensures
        first_index(a + b, entity) == match first_index(a, entity) {
            Some(j) => Some(j),
            None => match first_index(b, entity) {
                Some(j) => Some(a.len() + j),
                None => None,
            },
        },
{
    lemma_first_index(a, entity);
    lemma_first_index(b, entity);
    lemma_first_index(a + b, entity);
    match first_index(a, entity) {
        Some(j) => {
            assert((a + b)[j] == a[j]);
            assert forall|k: int| 0 <= k < j implies (#[trigger] (a + b)[k]).0 != entity by {
                assert((a + b)[k] == a[k]);
            }
            lemma_is_first(a + b, entity, j);
        },
        None => {
            match first_index(b, entity) {
                Some(j) => {
                    assert((a + b)[a.len() + j] == b[j]);
                    assert forall|k: int| 0 <= k < a.len() + j implies (#[trigger] (a + b)[k]).0
                        != entity by {
                        if k < a.len() {
                            assert((a + b)[k] == a[k]);
                        } else {
                            assert((a + b)[k] == b[k - a.len()]);
                        }
                    }
                    lemma_is_first(a + b, entity, a.len() + j);
                },
                None => {
                    if let Some(k) = first_index(a + b, entity) {
                        if k < a.len() {
                            assert((a + b)[k] == a[k]);
                        } else {
                            assert((a + b)[k] == b[k - a.len()]);
                        }
                    }
                },
            }
        },
    }
}

/// The extent under which an entity is filed is that of the first entry of the
/// entity among all entries of the tree.
pub proof fn lemma_filed_is_first_entry(tree: NodeView, entity: Entity)
    ensures
        tree.filed(entity) == match first_index(tree.contents(), entity) {
            Some(j) => Some(tree.contents()[j].1),
            None => None,
        },
    decreases tree, 0nat,
{
    let below = NodeView::contents_among(tree.children, 0);
    lemma_first_index(tree.members, entity);
    lemma_first_index_of_both(tree.members, below, entity);
    lemma_filed_among_is_first_entry(tree.children, 0, entity);
    lemma_first_index(below, entity);
}

/// The same for the nodes of a sequence, from position `from` on.
proof fn lemma_filed_among_is_first_entry(nodes: Seq<NodeView>, from: int, entity: Entity)
    ensures
        NodeView::filed_among(nodes, from, entity) == match first_index(
            NodeView::contents_among(nodes, from),
            entity,
        ) {
            Some(j) => Some(NodeView::contents_among(nodes, from)[j].1),
            None => None,
        },
    decreases nodes, nodes.len() - from,
{
    if 0 <= from < nodes.len() {
        let first = nodes[from].contents();
        let rest = NodeView::contents_among(nodes, from + 1);
        lemma_filed_is_first_entry(nodes[from], entity);
        lemma_filed_among_is_first_entry(nodes, from + 1, entity);
        lemma_first_index_of_both(first, rest, entity);
        lemma_first_index(first, entity);
        lemma_first_index(rest, entity);
    }
}

/// The entries of a leaf are its members.
proof fn lemma_entries_of_leaf(leaf: NodeView)
    requires
        leaf.children.len() == 0,
    ensures
        leaf.entries() == leaf.members.to_multiset(),
{
    assert(leaf.contents() =~= leaf.members);
}

/// The entries of an internal node are its members and the entries of its four
/// children.
proof fn lemma_entries_of_four(node: NodeView)
    requires
        node.children.len() == 4,
    ensures
        node.entries() == node.members.to_multiset().add(node.children[0].entries()).add(
            node.children[1].entries(),
        ).add(node.children[2].entries()).add(node.children[3].entries()),
{
    let cs = node.children;
    let a0 = NodeView::contents_among(cs, 0);
    let a1 = NodeView::contents_among(cs, 1);
    let a2 = NodeView::contents_among(cs, 2);
    let a3 = NodeView::contents_among(cs, 3);
    let a4 = NodeView::contents_among(cs, 4);
    assert(a4 =~= Seq::empty());
    assert(a3 =~= cs[3].contents());
    assert(a2 == cs[2].contents() + a3);
    assert(a1 == cs[1].contents() + a2);
    assert(a0 == cs[0].contents() + a1);
    lemma_multiset_commutative(cs[2].contents(), a3);
    lemma_multiset_commutative(cs[1].contents(), a2);
    lemma_multiset_commutative(cs[0].contents(), a1);
    lemma_multiset_commutative(node.members, a0);
    assert(node.entries() =~= node.members.to_multiset().add(cs[0].entries()).add(
        cs[1].entries(),
    ).add(cs[2].entries()).add(cs[3].entries()));
}

/// A split loses no entry and makes none: what stays and what goes to the four
/// quadrants is, taken together, what there was.
proof fn lemma_split_keeps_entries(region: Bounds, all: Seq<(Entity, Bounds)>)
    ensures
        all.to_multiset() == all.filter(stays(region)).to_multiset().add(
            all.filter(goes_to(region, 0)).to_multiset(),
        ).add(all.filter(goes_to(region, 1)).to_multiset()).add(
            all.filter(goes_to(region, 2)).to_multiset(),
        ).add(all.filter(goes_to(region, 3)).to_multiset()),
    decreases all.len(),
{
    let parts = all.filter(stays(region)).to_multiset().add(
        all.filter(goes_to(region, 0)).to_multiset(),
    ).add(all.filter(goes_to(region, 1)).to_multiset()).add(
        all.filter(goes_to(region, 2)).to_multiset(),
    ).add(all.filter(goes_to(region, 3)).to_multiset());
    if all.len() == 0 {
        to_multiset_len(all);
        to_multiset_len(all.filter(stays(region)));
        to_multiset_len(all.filter(goes_to(region, 0)));
        to_multiset_len(all.filter(goes_to(region, 1)));
        to_multiset_len(all.filter(goes_to(region, 2)));
        to_multiset_len(all.filter(goes_to(region, 3)));
        assert(all.to_multiset() =~= parts);
    } else {
        let front = all.drop_last();
        let m = all.last();
        assert(all =~= front.push(m));
        lemma_split_keeps_entries(region, front);
        lemma_filter_push(front, m, stays(region));
        lemma_filter_push(front, m, goes_to(region, 0));
        lemma_filter_push(front, m, goes_to(region, 1));
        lemma_filter_push(front, m, goes_to(region, 2));
        lemma_filter_push(front, m, goes_to(region, 3));
        to_multiset_build(front, m);
        to_multiset_build(front.filter(stays(region)), m);
        to_multiset_build(front.filter(goes_to(region, 0)), m);
        to_multiset_build(front.filter(goes_to(region, 1)), m);
        to_multiset_build(front.filter(goes_to(region, 2)), m);
        to_multiset_build(front.filter(goes_to(region, 3)), m);
        assert(all.to_multiset() =~= parts);
    }
}

/// Members without the one at `j` are the bag of the members without that one.
proof fn lemma_swap_removed_entries(members: Seq<(Entity, Bounds)>, j: int)
    requires
        0 <= j < members.len(),
    ensures
        swap_removed(members, j).to_multiset() == members.to_multiset().remove(members[j]),
        members.to_multiset().count(members[j]) > 0,
{
    let last = members.len() - 1;
    let moved = members.update(j, members.last());
    to_multiset_update(members, j, members.last());
    assert(moved.drop_last() =~= moved.remove(last));
    to_multiset_remove(moved, last);
    assert(members.to_multiset().count(members[j]) > 0) by {
        assert(members.contains(members[j]));
        to_multiset_contains(members, members[j]);
    }
    assert(members.to_multiset().count(members.last()) > 0) by {
        assert(members.contains(members[last]));
        to_multiset_contains(members, members.last());
    }
    assert(swap_removed(members, j).to_multiset() =~= members.to_multiset().remove(members[j]));
}

/// The entries of a node with one child replaced: those of the node without the
/// entries of the child, which the lemma returns, and the entries of the new
/// child.
proof fn lemma_replace_child(node: NodeView, i: int, child: NodeView) -> (rest: Multiset<
    (Entity, Bounds),
>)
    requires
        node.children.len() == 4,
        0 <= i < 4,
    ensures
        node.entries() == rest.add(node.children[i].entries()),
        (NodeView { children: node.children.update(i, child), ..node }).entries() == rest.add(
            child.entries(),
        ),
{
    let after = NodeView { children: node.children.update(i, child), ..node };
    lemma_entries_of_four(node);
    lemma_entries_of_four(after);
    let m = node.members.to_multiset();
    let c = node.children;
    let rest = if i == 0 {
        m.add(c[1].entries()).add(c[2].entries()).add(c[3].entries())
    } else if i == 1 {
        m.add(c[0].entries()).add(c[2].entries()).add(c[3].entries())
    } else if i == 2 {
        m.add(c[0].entries()).add(c[1].entries()).add(c[3].entries())
    } else {
        m.add(c[0].entries()).add(c[1].entries()).add(c[2].entries())
    };
    assert(node.entries() =~= rest.add(node.children[i].entries()));
    assert(after.entries() =~= rest.add(child.entries()));
    rest
}

/// The entries of a node with other members and the same children: those of the
/// node without its members, which the lemma returns, and the new members.
proof fn lemma_replace_members(node: NodeView, members: Seq<(Entity, Bounds)>) -> (rest: Multiset<
    (Entity, Bounds),
>)
    ensures
        node.entries() == rest.add(node.members.to_multiset()),
        (NodeView { members, ..node }).entries() == rest.add(members.to_multiset()),
{
    let after = NodeView { members, ..node };
    let below = NodeView::contents_among(node.children, 0);
    lemma_multiset_commutative(node.members, below);
    lemma_multiset_commutative(members, below);
    let rest = below.to_multiset();
    assert(node.entries() =~= rest.add(node.members.to_multiset()));
    assert(after.entries() =~= rest.add(members.to_multiset()));
    rest
}

/// A node whose children are all leaves without members has the entries that it
/// has without its children.
proof fn lemma_discard_empty_children(node: NodeView)
    requires
        node.children.len() == 4,
        node.children_all_empty(),
    ensures
        (NodeView { children: Seq::empty(), ..node }).entries() == node.entries(),
{
    let after = NodeView { children: Seq::empty(), ..node };
    lemma_entries_of_four(node);
    lemma_entries_of_leaf(after);
    assert(node.children[0].is_empty_leaf());
    assert(node.children[1].is_empty_leaf());
    assert(node.children[2].is_empty_leaf());
    assert(node.children[3].is_empty_leaf());
    lemma_entries_of_leaf(node.children[0]);
    lemma_entries_of_leaf(node.children[1]);
    lemma_entries_of_leaf(node.children[2]);
    lemma_entries_of_leaf(node.children[3]);
    to_multiset_len(node.children[0].members);
    to_multiset_len(node.children[1].members);
    to_multiset_len(node.children[2].members);
    to_multiset_len(node.children[3].members);
    assert(after.entries() =~= node.entries());
}

/// An `add` adds the one entry to the entries of the tree, and changes no other.
pub proof fn lemma_add_entries(tree: NodeView, entity: Entity, extent: Bounds)
    ensures
        tree.add(entity, extent).entries() == tree.entries().insert((entity, extent)),
    decreases tree,
{
    let after = tree.add(entity, extent);
    let entry = (entity, extent);
    match tree.route(extent) {
        Some(i) => {
            let child = tree.children[i].add(entity, extent);
            lemma_add_entries(tree.children[i], entity, extent);
            let rest = lemma_replace_child(tree, i, child);
            assert(after.entries() =~= tree.entries().insert(entry));
        },
        None => {
            to_multiset_build(tree.members, entry);
            if tree.splits_on_add() {
                let all = tree.members.push(entry);
                lemma_split_keeps_entries(tree.bounds, all);
                lemma_entries_of_four(after);
                lemma_entries_of_leaf(after.children[0]);
                lemma_entries_of_leaf(after.children[1]);
                lemma_entries_of_leaf(after.children[2]);
                lemma_entries_of_leaf(after.children[3]);
                lemma_entries_of_leaf(tree);
            } else {
                let rest = lemma_replace_members(tree, tree.members.push(entry));
                assert(after.entries() =~= tree.entries().insert(entry));
            }
        },
    }
}

/// An `insert` adds the one entry, unless the node where the extent belongs holds
/// the entity already.
pub proof fn lemma_insert_entries(tree: NodeView, entity: Entity, extent: Bounds)
    ensures
        tree.insert(entity, extent).entries() == if tree.holds(entity, extent) {
            tree.entries()
        } else {
            tree.entries().insert((entity, extent))
        },
{
    lemma_add_entries(tree, entity, extent);
}

/// A removal takes away one entry, the first of the entity at the node where the
/// extent belongs, and changes no other; where that node does not hold the entity
/// it changes none.
pub proof fn lemma_remove_entries(tree: NodeView, entity: Entity, extent: Bounds)
    ensures
        tree.remove(entity, extent).entries() == match tree.entry_at(entity, extent) {
            Some(entry) => tree.entries().remove(entry),
            None => tree.entries(),
        },
        match tree.entry_at(entity, extent) {
            Some(entry) => entry.0 == entity && tree.entries().count(entry) > 0,
            None => true,
        },
    decreases tree,
{
    let after = tree.remove(entity, extent);
    match tree.route(extent) {
        Some(i) => {
            let (child, walking) = tree.children[i].remove_walk(entity, extent);
            lemma_remove_entries(tree.children[i], entity, extent);
            let node = NodeView { children: tree.children.update(i, child), ..tree };
            let rest = lemma_replace_child(tree, i, child);
            let gone = match tree.entry_at(entity, extent) {
                Some(entry) => tree.entries().remove(entry),
                None => tree.entries(),
            };
            assert(node.entries() =~= gone);
            if walking && node.children_all_empty() {
                lemma_discard_empty_children(node);
            }
        },
        None => {
            lemma_first_index(tree.members, entity);
            match first_index(tree.members, entity) {
                Some(j) => {
                    lemma_swap_removed_entries(tree.members, j);
                    let rest = lemma_replace_members(tree, swap_removed(tree.members, j));
                    assert(after.entries() =~= tree.entries().remove(tree.members[j]));
                },
                None => {},
            }
        },
    }
}

/// Filing an entity anew takes away its entry and adds one under the new extent,
/// and changes no other; where the node does not hold the entity it changes none.
pub proof fn lemma_refile_entries(tree: NodeView, entity: Entity, from: Bounds, extent: Bounds)
    ensures
        tree.refile(entity, from, extent).entries() == match tree.entry_at(entity, from) {
            Some(entry) => tree.entries().remove(entry).insert((entity, extent)),
            None => tree.entries(),
        },
    decreases tree,
{
    let after = tree.refile(entity, from, extent);
    match tree.route(from) {
        Some(i) => {
            let child = tree.children[i].refile(entity, from, extent);
            lemma_refile_entries(tree.children[i], entity, from, extent);
            lemma_remove_entries(tree.children[i], entity, from);
            let rest = lemma_replace_child(tree, i, child);
            let moved = match tree.entry_at(entity, from) {
                Some(entry) => tree.entries().remove(entry).insert((entity, extent)),
                None => tree.entries(),
            };
            assert(after.entries() =~= moved);
        },
        None => {
            lemma_first_index(tree.members, entity);
            match first_index(tree.members, entity) {
                Some(j) => {
                    let kept = swap_removed(tree.members, j);
                    lemma_swap_removed_entries(tree.members, j);
                    to_multiset_build(kept, (entity, extent));
                    let rest = lemma_replace_members(tree, kept.push((entity, extent)));
                    assert(after.entries() =~= tree.entries().remove(tree.members[j]).insert(
                        (entity, extent),
                    ));
                },
                None => {},
            }
        },
    }
}

/// A relocation takes away the entry of the entity that it moves, if the entity
/// is filed, and adds one under the new extent. It changes no other entry.
pub proof fn lemma_relocate_entries(tree: NodeView, entity: Entity, extent: Bounds)
    requires
        tree.wf(),
    ensures
        tree.relocate(entity, extent).entries() == match tree.moved_entry(entity, extent) {
            Some(entry) => tree.entries().remove(entry).insert((entity, extent)),
            None => tree.entries().insert((entity, extent)),
        },
        match tree.moved_entry(entity, extent) {
            Some(entry) => entry.0 == entity && tree.entries().count(entry) > 0,
            None => true,
        },
{
    lemma_relocate_is_refile_or_remove_then_add(tree, entity, extent);
    if tree.holds(entity, extent) {
        lemma_refile_entries(tree, entity, extent, extent);
        lemma_remove_entries(tree, entity, extent);
    } else {
        match tree.filed(entity) {
            Some(from) => {
                lemma_filed_is_held(tree, entity);
                lemma_remove_entries(tree, entity, from);
                lemma_add_entries(tree.remove(entity, from), entity, extent);
            },
            None => {
                lemma_add_entries(tree, entity, extent);
            },
        }
    }
}

} // verus!
