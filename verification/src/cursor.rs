//! The traversal behind a range query: depth first, one entry per step, passing
//! over every quadrant that is too far from the target.

use crate::entity::Entity;
use crate::geometry::{Bounds, Position};
use crate::model::NodeView;
use crate::node::QuadtreeNode;
use crate::range::{lemma_far_tree_has_nothing_in_range, within};
use vstd::prelude::*;

verus! {

/// A traversal of the tree that yields the entries within a distance of a target,
/// one for each call of [`QuadtreeIterator::next`].
///
/// It visits a node, then the children of the node in quadrant order, and does not
/// enter a child whose square is not within the distance. It borrows the tree, so
/// the tree cannot change while the traversal is under way. Once it has yielded
/// nothing it yields nothing again.
pub struct QuadtreeIterator<'a> {
    target: Position,
    max_sqdist: u128,
    /// The node being visited.
    node: &'a QuadtreeNode,
    /// The next member of `node` to look at.
    idx: usize,
    /// The next child of `node` to look at.
    next_child: usize,
    /// The ancestors of `node`, outermost first, each with the child at which the
    /// traversal resumes when it comes back up.
    parents: Vec<(&'a QuadtreeNode, usize)>,
}

/// What is still to come from a node whose members from `idx` on and whose
/// children from `next_child` on have not been looked at.
spec fn ahead(
    node: NodeView,
    idx: int,
    next_child: int,
    pred: spec_fn((Entity, Bounds)) -> bool,
) -> Seq<(Entity, Bounds)> {
    node.members.subrange(idx, node.members.len() as int).filter(pred) + NodeView::contents_among(
        node.children,
        next_child,
    ).filter(pred)
}

/// What is still to come from the ancestors, innermost first.
spec fn pending(
    parents: Seq<(&QuadtreeNode, usize)>,
    pred: spec_fn((Entity, Bounds)) -> bool,
) -> Seq<(Entity, Bounds)>
    decreases parents.len(),
{
    if parents.len() == 0 {
        Seq::empty()
    } else {
        NodeView::contents_among(parents.last().0@.children, parents.last().1 as int).filter(pred)
            + pending(parents.drop_last(), pred)
    }
}

/// The steps that the ancestors still take: one to leave each, and the measure of
/// the children that it has not looked at.
spec fn pending_weight(parents: Seq<(&QuadtreeNode, usize)>) -> nat
    decreases parents.len(),
{
    if parents.len() == 0 {
        0
    } else {
        1 + NodeView::weight_among(parents.last().0@.children, parents.last().1 as int)
            + pending_weight(parents.drop_last())
    }
}

/// Looking at one member: it is what comes next if it is within the distance, and
/// else nothing comes of it.
proof fn lemma_member_step(
    node: NodeView,
    idx: int,
    next_child: int,
    pred: spec_fn((Entity, Bounds)) -> bool,
)
    requires
        0 <= idx < node.members.len(),
    ensures
        ahead(node, idx, next_child, pred) == (if pred(node.members[idx]) {
            seq![node.members[idx]]
        } else {
            Seq::empty()
        }) + ahead(node, idx + 1, next_child, pred),
{
    let len = node.members.len() as int;
    let m = node.members[idx];
    let rest = node.members.subrange(idx + 1, len);
    assert(node.members.subrange(idx, len) =~= seq![m] + rest);
    Seq::filter_distributes_over_add(seq![m], rest, pred);
    assert(seq![m].filter(pred) =~= if pred(m) {
        seq![m]
    } else {
        Seq::empty()
    }) by {
        reveal_with_fuel(Seq::filter, 2);
        assert(seq![m].drop_last() =~= Seq::empty());
    }
    let below = NodeView::contents_among(node.children, next_child).filter(pred);
    assert((seq![m].filter(pred) + rest.filter(pred)) + below =~= seq![m].filter(pred) + (
    rest.filter(pred) + below));
}

/// The entries of the children from `child` on: those of `child`, then those of
/// the children after it.
proof fn lemma_child_step(
    node: NodeView,
    child: int,
    pred: spec_fn((Entity, Bounds)) -> bool,
)
    requires
        0 <= child < node.children.len(),
    ensures
        NodeView::contents_among(node.children, child).filter(pred) == node.children[child].contents().filter(
            pred,
        ) + NodeView::contents_among(node.children, child + 1).filter(pred),
        NodeView::weight_among(node.children, child) == node.children[child].weight()
            + NodeView::weight_among(node.children, child + 1),
{
    Seq::filter_distributes_over_add(
        node.children[child].contents(),
        NodeView::contents_among(node.children, child + 1),
        pred,
    );
}

/// Entering a node: all of its entries are still to come.
proof fn lemma_enter(node: NodeView, pred: spec_fn((Entity, Bounds)) -> bool)
    ensures
        ahead(node, 0, 0, pred) == node.contents().filter(pred),
        node.weight() == 2 + node.members.len() + NodeView::weight_among(node.children, 0),
{
    assert(node.members.subrange(0, node.members.len() as int) =~= node.members);
    Seq::filter_distributes_over_add(
        node.members,
        NodeView::contents_among(node.children, 0),
        pred,
    );
}

/// A node of which nothing is left has nothing to come; one whose members are
/// done has its children to come.
proof fn lemma_exhausted(node: NodeView, next_child: int, pred: spec_fn((Entity, Bounds)) -> bool)
    ensures
        node.members.subrange(node.members.len() as int, node.members.len() as int).filter(pred)
            =~= Seq::empty(),
        next_child >= node.children.len() ==> ahead(
            node,
            node.members.len() as int,
            next_child,
            pred,
        ) =~= Seq::empty() && NodeView::weight_among(node.children, next_child) == 0,
{
    reveal(Seq::filter);
    assert(node.members.subrange(node.members.len() as int, node.members.len() as int)
        =~= Seq::empty());
}

/// Whether the nodes on the way are well-formed and the positions in them exist.
spec fn on_the_way(
    node: &QuadtreeNode,
    idx: usize,
    next_child: usize,
    parents: Seq<(&QuadtreeNode, usize)>,
) -> bool {
    &&& node@.wf()
    &&& idx <= node@.members.len()
    &&& next_child <= node@.children.len()
    &&& forall|k: int|
        0 <= k < parents.len() ==> (#[trigger] parents[k]).0@.wf() && parents[k].1
            <= parents[k].0@.children.len()
}

/// What is still to come in all, from the node being visited and from its
/// ancestors.
spec fn to_come(
    node: &QuadtreeNode,
    idx: usize,
    next_child: usize,
    parents: Seq<(&QuadtreeNode, usize)>,
    pred: spec_fn((Entity, Bounds)) -> bool,
) -> Seq<(Entity, Bounds)> {
    ahead(node@, idx as int, next_child as int, pred) + pending(parents, pred)
}

/// An upper bound on the steps that the traversal still takes.
spec fn steps(
    node: &QuadtreeNode,
    idx: usize,
    next_child: usize,
    parents: Seq<(&QuadtreeNode, usize)>,
) -> nat {
    (node@.members.len() - idx) as nat + NodeView::weight_among(node@.children, next_child as int)
        + pending_weight(parents)
}

impl<'a> QuadtreeIterator<'a> {
    #[verifier::type_invariant]
    spec fn well_formed(self) -> bool {
        on_the_way(self.node, self.idx, self.next_child, self.parents@)
    }

    /// The entries that are listed: those within the distance of the target.
    spec fn pred(self) -> spec_fn((Entity, Bounds)) -> bool {
        within(self.target, self.max_sqdist as int)
    }

    /// The entries that the traversal has yet to yield, in the order in which it
    /// yields them.
    pub closed spec fn remaining(self) -> Seq<(Entity, Bounds)> {
        to_come(self.node, self.idx, self.next_child, self.parents@, self.pred())
    }

    /// Starts a traversal at `root` for the entries nearer to `target` than the
    /// distance whose square is `max_sqdist`.
    pub fn new(root: &'a QuadtreeNode, target: Position, max_sqdist: u128) -> (it: Self)
        requires
            root@.wf(),
        ensures
            it.remaining() == root@.in_range(target, max_sqdist as int),
    {
        let it = QuadtreeIterator {
            target,
            max_sqdist,
            node: root,
            idx: 0,
            next_child: 0,
            parents: Vec::new(),
        };
        proof {
            lemma_enter(root@, it.pred());
            assert(pending(it.parents@, it.pred()) =~= Seq::empty());
        }
        it
    }

    /// Yields the next entry within the distance, or nothing when none is left.
    ///
    /// At each step: a member of the node being visited, if one is left; else the
    /// next child of the node that is within the distance is entered; else the
    /// traversal goes back to the parent and resumes after the child it came from.
    /// It ends when there is no parent to go back to.
    pub fn next(&mut self) -> (r: Option<(Entity, Bounds)>)
        ensures
            match r {
                Some(m) => old(self).remaining() == seq![m] + final(self).remaining(),
                None => old(self).remaining().len() == 0 && final(self).remaining().len() == 0,
            },
    {
        proof {
            use_type_invariant(&*self);
        }
        let target = self.target;
        let max_sqdist = self.max_sqdist;
        let ghost pred = self.pred();
        let ghost all = self.remaining();
        let mut node: &'a QuadtreeNode = self.node;
        let mut idx: usize = self.idx;
        let mut next_child: usize = self.next_child;
        let mut parents: Vec<(&'a QuadtreeNode, usize)> = Vec::new();
        std::mem::swap(&mut parents, &mut self.parents);
        let mut found: Option<(Entity, Bounds)> = None;
        loop
            invariant_except_break
                on_the_way(node, idx, next_child, parents@),
                to_come(node, idx, next_child, parents@, pred) == all,
                found.is_none(),
            invariant
                pred == within(target, max_sqdist as int),
            ensures
                on_the_way(node, idx, next_child, parents@),
                match found {
                    Some(m) => all == seq![m] + to_come(node, idx, next_child, parents@, pred),
                    None => all.len() == 0 && to_come(node, idx, next_child, parents@, pred).len()
                        == 0,
                },
            decreases steps(node, idx, next_child, parents@),
        {
            let members = node.members();
            if idx < members.len() {
                let member = members[idx];
                proof {
                    lemma_member_step(node@, idx as int, next_child as int, pred);
                }
                idx += 1;
                if member.1.min_sq_dist(target) < max_sqdist {
                    proof {
                        let rest = ahead(node@, idx as int, next_child as int, pred);
                        let up = pending(parents@, pred);
                        assert((seq![member] + rest) + up =~= seq![member] + (rest + up));
                    }
                    found = Some(member);
                    break ;
                }
                proof {
                    let rest = ahead(node@, idx as int, next_child as int, pred);
                    assert(Seq::<(Entity, Bounds)>::empty() + rest =~= rest);
                }
            } else {
                let children = node.children();
                if next_child < children.len() {
                    let child = &children[next_child];
                    proof {
                        lemma_child_step(node@, next_child as int, pred);
                        assert(node@.children[next_child as int].wf());
                    }
                    if child.bounds().min_sq_dist(target) < max_sqdist {
                        let ghost above = parents@;
                        proof {
                            lemma_enter(child@, pred);
                            lemma_exhausted(node@, node@.children.len() as int, pred);
                            let mine = child@.contents().filter(pred);
                            let later = NodeView::contents_among(
                                node@.children,
                                next_child + 1,
                            ).filter(pred);
                            let up = pending(above, pred);
                            assert(all =~= (mine + later) + up);
                            assert((mine + later) + up =~= mine + (later + up));
                        }
                        parents.push((node, next_child + 1));
                        proof {
                            assert(parents@.drop_last() =~= above);
                        }
                        node = child;
                        idx = 0;
                        next_child = 0;
                    } else {
                        proof {
                            lemma_far_tree_has_nothing_in_range(child@, target, max_sqdist as int);
                        }
                        next_child += 1;
                        proof {
                            let later = NodeView::contents_among(
                                node@.children,
                                next_child as int,
                            ).filter(pred);
                            assert(Seq::<(Entity, Bounds)>::empty() + later =~= later);
                        }
                    }
                } else {
                    let ghost below = parents@;
                    proof {
                        lemma_exhausted(node@, next_child as int, pred);
                    }
                    match parents.pop() {
                        None => {
                            proof {
                                assert(pending(parents@, pred) =~= Seq::empty());
                            }
                            break ;
                        },
                        Some(frame) => {
                            node = frame.0;
                            idx = node.members().len();
                            next_child = frame.1;
                            proof {
                                assert(below.last() == frame);
                                assert(parents@ =~= below.drop_last());
                                lemma_exhausted(node@, node@.children.len() as int, pred);
                                let later = NodeView::contents_among(
                                    node@.children,
                                    next_child as int,
                                ).filter(pred);
                                let up = pending(parents@, pred);
                                assert(all =~= later + up);
                                assert(Seq::<(Entity, Bounds)>::empty() + later =~= later);
                            }
                        },
                    }
                }
            }
        }
        self.idx = 0;
        self.next_child = 0;
        self.node = node;
        self.next_child = next_child;
        self.idx = idx;
        self.parents = parents;
        found
    }
}

} // verus!
