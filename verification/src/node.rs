//! The nodes of the tree: a quadrant each, with the entities filed at it and its
//! four children, if it has been split.

use crate::entity::Entity;
use crate::error::QuadtreeError;
use crate::geometry::Bounds;
use crate::model::{
    first_index, goes_to, is_first, lemma_filter_push, lemma_first_index, lemma_is_first, stays,
    NodeView, CAPACITY,
};
use crate::wellformed::{lemma_add_wf, lemma_refile_wf, lemma_remove_wf};
use vstd::prelude::*;

verus! {

/// A quadrant of the index. It owns its children; the way up is kept by the
/// operation that came down.
#[derive(Debug)]
pub struct QuadtreeNode {
    bounds: Bounds,
    children: Vec<QuadtreeNode>,
    members: Vec<(Entity, Bounds)>,
}

impl View for QuadtreeNode {
    type V = NodeView;

    closed spec fn view(&self) -> NodeView {
        self.as_view()
    }
}

impl QuadtreeNode {
    /// The node and all below it as a value.
    spec fn as_view(self) -> NodeView
        decreases self,
    {
        NodeView {
            bounds: self.bounds,
            members: self.members@,
            children: Self::views(self.children@),
        }
    }

    /// The views of `nodes`, in their order.
    spec fn views(nodes: Seq<QuadtreeNode>) -> Seq<NodeView>
        decreases nodes,
    {
        if nodes.len() == 0 {
            Seq::empty()
        } else {
            Self::views(nodes.drop_last()).push(nodes.last().as_view())
        }
    }

    /// The views of `nodes`, one by one.
    proof fn views_facts(nodes: Seq<QuadtreeNode>)
        ensures
            Self::views(nodes).len() == nodes.len(),
            forall|i: int| 0 <= i < nodes.len() ==> Self::views(nodes)[i] == (#[trigger] nodes[i])@,
        decreases nodes.len(),
    {
        if nodes.len() > 0 {
            let front = nodes.drop_last();
            Self::views_facts(front);
            assert forall|i: int| 0 <= i < nodes.len() implies Self::views(nodes)[i] == (
            #[trigger] nodes[i])@ by {
                if i < front.len() {
                    assert(front[i] == nodes[i]);
                }
            }
        }
    }

    /// The view of a node, field by field.
    proof fn view_facts(node: QuadtreeNode)
        ensures
            node@.bounds == node.bounds,
            node@.members == node.members@,
            node@.children.len() == node.children@.len(),
            forall|i: int|
                #![trigger node.children@[i]]
                #![trigger node@.children[i]]
                0 <= i < node.children@.len() ==> node@.children[i] == node.children@[i]@,
    {
        Self::views_facts(node.children@);
    }

    /// An empty leaf over `bounds`, if `bounds` is a region: a square that covers
    /// at least one point and only points of the grid.
    pub fn new(bounds: Bounds) -> (r: Option<QuadtreeNode>)
        ensures
            match r {
                Some(node) => bounds.spec_is_region() && node@ == NodeView::leaf(
                    bounds,
                    Seq::empty(),
                ) && node@.wf(),
                None => !bounds.spec_is_region(),
            },
    {
        if bounds.is_region() {
            Some(Self::leaf(bounds))
        } else {
            None
        }
    }

    /// An empty leaf over the region `bounds`.
    pub(crate) fn leaf(bounds: Bounds) -> (node: QuadtreeNode)
        requires
            bounds.spec_is_region(),
        ensures
            node@ == NodeView::leaf(bounds, Seq::empty()),
            node@.wf(),
    {
        let node = QuadtreeNode { bounds, children: Vec::new(), members: Vec::new() };
        proof {
            Self::view_facts(node);
            assert(node@.children =~= Seq::empty());
        }
        node
    }

    /// The extent of the node.
    pub fn bounds(&self) -> (r: Bounds)
        ensures
            r == self@.bounds,
    {
        self.bounds
    }

    /// The entities filed at the node itself.
    pub fn members(&self) -> (r: &Vec<(Entity, Bounds)>)
        ensures
            r@ == self@.members,
    {
        &self.members
    }

    /// The children in quadrant order: none, or four.
    pub fn children(&self) -> (r: &Vec<QuadtreeNode>)
        ensures
            r@.len() == self@.children.len(),
            forall|i: int| 0 <= i < r@.len() ==> (#[trigger] r@[i])@ == self@.children[i],
    {
        proof {
            Self::view_facts(*self);
        }
        &self.children
    }

    /// Whether the node has no children.
    pub fn is_leaf(&self) -> (r: bool)
        ensures
            r == self@.is_leaf(),
    {
        proof {
            Self::view_facts(*self);
        }
        self.children.len() == 0
    }

    /// Finds the first position among the members of this node that holds
    /// `entity`.
    pub fn find(&self, entity: Entity) -> (r: Option<usize>)
        ensures
            match r {
                Some(j) => first_index(self@.members, entity) == Some(j as int) && is_first(
                    self@.members,
                    entity,
                    j as int,
                ),
                None => first_index(self@.members, entity).is_none(),
            },
    {
        let mut j: usize = 0;
        while j < self.members.len()
            invariant
                j <= self.members@.len(),
                forall|k: int| 0 <= k < j ==> (#[trigger] self.members@[k]).0 != entity,
            decreases self.members@.len() - j,
        {
            if self.members[j].0 == entity {
                proof {
                    assert(is_first(self.members@, entity, j as int));
                    lemma_is_first(self.members@, entity, j as int);
                }
                return Some(j);
            }
            j += 1;
        }
        proof {
            lemma_first_index(self.members@, entity);
        }
        None
    }

    /// Picks the child that the descent for `extent` enters from this node.
    pub fn route(&self, extent: Bounds) -> (r: Option<usize>)
        ensures
            match r {
                Some(i) => self@.route(extent) == Some(i as int) && i < 4,
                None => self@.route(extent).is_none(),
            },
    {
        proof {
            Self::view_facts(*self);
        }
        if self.children.len() == 4 {
            self.bounds.quadrant(extent)
        } else {
            None
        }
    }

    /// Descends to the node where `extent` belongs: the first on the way down that
    /// is a leaf or whose midline `extent` crosses.
    pub fn find_node(&self, extent: Bounds) -> (r: &QuadtreeNode)
        ensures
            r@ == self@.find_node(extent),
        decreases self,
    {
        proof {
            Self::view_facts(*self);
        }
        match self.route(extent) {
            Some(i) => self.children[i].find_node(extent),
            None => self,
        }
    }

    /// Appends `member` to the members of this node.
    fn file(&mut self, member: (Entity, Bounds))
        ensures
            final(self)@ == (NodeView { members: old(self)@.members.push(member), ..old(self)@ }),
    {
        proof {
            Self::view_facts(*self);
        }
        self.members.push(member);
        proof {
            Self::view_facts(*self);
            assert(self@.children =~= old(self)@.children);
        }
    }

    /// Splits this leaf over its members and `(entity, extent)`: four new leaves,
    /// one per quadrant, and each member filed in the quadrant that it fits into,
    /// or here where it fits into none.
    fn divide(&mut self, entity: Entity, extent: Bounds)
        requires
            old(self)@.is_leaf(),
            old(self)@.bounds.spec_is_region(),
        ensures
            final(self)@ == old(self)@.divided(old(self)@.members.push((entity, extent))),
    {
        proof {
            Self::view_facts(*self);
        }
        let region = self.bounds;
        let mut all: Vec<(Entity, Bounds)> = Vec::new();
        std::mem::swap(&mut all, &mut self.members);
        all.push((entity, extent));
        assert(all@ == old(self)@.members.push((entity, extent)));
        let mut idx: usize = 0;
        while idx < 4
            invariant
                idx <= 4,
                region.spec_is_region(),
                self.bounds == region,
                self.members@.len() == 0,
                self.children@.len() == idx,
                forall|i: int|
                    0 <= i < idx ==> (#[trigger] self.children@[i])@ == NodeView::leaf(
                        region.spec_split(i),
                        Seq::empty(),
                    ),
            decreases 4 - idx,
        {
            let child = QuadtreeNode {
                bounds: region.split(idx),
                children: Vec::new(),
                members: Vec::new(),
            };
            proof {
                Self::view_facts(child);
                assert(child@.children =~= Seq::empty());
                assert(child@.members =~= Seq::empty());
            }
            self.children.push(child);
            idx += 1;
        }
        assert(all@.take(0).filter(stays(region)) =~= Seq::empty()) by {
            reveal(Seq::filter);
        }
        assert forall|i: int| 0 <= i < 4 implies (#[trigger] self.children@[i])@ == NodeView::leaf(
            region.spec_split(i),
            all@.take(0).filter(goes_to(region, i)),
        ) by {
            reveal(Seq::filter);
            assert(all@.take(0).filter(goes_to(region, i)) =~= Seq::empty());
        }
        let mut k: usize = 0;
        while k < all.len()
            invariant
                k <= all@.len(),
                self.bounds == region,
                self.children@.len() == 4,
                self.members@ == all@.take(k as int).filter(stays(region)),
                forall|i: int|
                    0 <= i < 4 ==> (#[trigger] self.children@[i])@ == NodeView::leaf(
                        region.spec_split(i),
                        all@.take(k as int).filter(goes_to(region, i)),
                    ),
            decreases all@.len() - k,
        {
            let member = all[k];
            proof {
                let done = all@.take(k as int);
                assert(all@.take(k + 1) =~= done.push(member));
                lemma_filter_push(done, member, stays(region));
                assert forall|i: int| 0 <= i < 4 implies all@.take(k + 1).filter(
                    goes_to(region, i),
                ) == if region.spec_quadrant(member.1) == Some(i) {
                    done.filter(goes_to(region, i)).push(member)
                } else {
                    done.filter(goes_to(region, i))
                } by {
                    lemma_filter_push(done, member, goes_to(region, i));
                }
            }
            match region.quadrant(member.1) {
                None => {
                    self.members.push(member);
                },
                Some(i) => {
                    self.children[i].file(member);
                },
            }
            k += 1;
        }
        proof {
            Self::view_facts(*self);
            assert(all@.take(all@.len() as int) =~= all@);
            assert(self@.children =~= old(self)@.divided(all@).children);
        }
    }

    /// Adds `(entity, extent)` below this node. See [`NodeView::add`].
    fn add_within(&mut self, entity: Entity, extent: Bounds)
        requires
            old(self)@.wf(),
        ensures
            final(self)@ == old(self)@.add(entity, extent),
        decreases *old(self),
    {
        proof {
            Self::view_facts(*self);
        }
        match self.route(extent) {
            Some(i) => {
                self.children[i].add_within(entity, extent);
                proof {
                    Self::view_facts(*self);
                    assert(self@.children =~= old(self)@.children.update(
                        i as int,
                        old(self)@.children[i as int].add(entity, extent),
                    ));
                }
            },
            None => {
                if self.children.len() == 0 && self.members.len() >= CAPACITY
                    && self.bounds.can_split() {
                    self.divide(entity, extent);
                } else {
                    self.file((entity, extent));
                }
            },
        }
    }

    /// Files `entity` under `extent` at the node below this one where `extent`
    /// belongs, and splits that node where it is a leaf that is full.
    ///
    /// Fails, and changes nothing, where `extent` does not lie within this node.
    pub fn add(&mut self, entity: Entity, extent: Bounds) -> (r: Result<(), QuadtreeError>)
        requires
            old(self)@.wf(),
        ensures
            final(self)@.wf(),
            final(self)@.bounds == old(self)@.bounds,
            match r {
                Ok(_) => old(self)@.bounds.spec_contains(extent) && final(self)@ == old(self)@.add(
                    entity,
                    extent,
                ),
                Err(_) => !old(self)@.bounds.spec_contains(extent) && final(self)@ == old(self)@,
            },
    {
        proof {
            Self::view_facts(*self);
        }
        if !self.bounds.contains(extent) {
            return Err(QuadtreeError::OutOfBounds);
        }
        self.add_within(entity, extent);
        proof {
            lemma_add_wf(old(self)@, entity, extent);
        }
        Ok(())
    }

    /// Whether all children are leaves without members.
    fn children_all_empty(&self) -> (r: bool)
        ensures
            r == self@.children_all_empty(),
    {
        proof {
            Self::view_facts(*self);
        }
        let mut i: usize = 0;
        while i < self.children.len()
            invariant
                i <= self.children@.len(),
                self@.children.len() == self.children@.len(),
                forall|k: int|
                    0 <= k < self.children@.len() ==> self@.children[k] == (
                    #[trigger] self.children@[k])@,
                forall|k: int| 0 <= k < i ==> (#[trigger] self@.children[k]).is_empty_leaf(),
            decreases self.children@.len() - i,
        {
            let child = &self.children[i];
            proof {
                Self::view_facts(*child);
            }
            if child.children.len() != 0 || child.members.len() != 0 {
                assert(!self@.children[i as int].is_empty_leaf());
                return false;
            }
            i += 1;
        }
        true
    }

    /// Removes `entity` below this node and merges. See [`NodeView::remove_walk`].
    fn remove_within(&mut self, entity: Entity, extent: Bounds) -> (walking: bool)
        requires
            old(self)@.wf(),
        ensures
            (final(self)@, walking) == old(self)@.remove_walk(entity, extent),
        decreases *old(self),
    {
        proof {
            Self::view_facts(*self);
        }
        match self.route(extent) {
            Some(i) => {
                let below = self.children[i].remove_within(entity, extent);
                proof {
                    Self::view_facts(*self);
                    assert(self@.children =~= old(self)@.children.update(
                        i as int,
                        old(self)@.children[i as int].remove_walk(entity, extent).0,
                    ));
                }
                if below && self.children_all_empty() {
                    self.children = Vec::new();
                    proof {
                        Self::view_facts(*self);
                        assert(self@.children =~= Seq::empty());
                    }
                    true
                } else {
                    false
                }
            },
            None => match self.find(entity) {
                Some(j) => {
                    self.members.swap_remove(j);
                    proof {
                        Self::view_facts(*self);
                        assert(self@.children =~= old(self)@.children);
                    }
                    self.members.is_empty()
                },
                None => false,
            },
        }
    }

    /// Removes `entity` from the node below this one where `extent` belongs, if
    /// that node holds it: the last member takes its place. Where that leaves the
    /// node without members, merges on the way back up: each ancestor whose four
    /// children are all leaves without members becomes a leaf, until one is not.
    ///
    /// Returns whether the merging has gone on up to this node: the caller, where
    /// this node is its child, continues it.
    pub fn remove(&mut self, entity: Entity, extent: Bounds) -> (walking: bool)
        requires
            old(self)@.wf(),
        ensures
            final(self)@.wf(),
            final(self)@.bounds == old(self)@.bounds,
            (final(self)@, walking) == old(self)@.remove_walk(entity, extent),
    {
        let walking = self.remove_within(entity, extent);
        proof {
            lemma_remove_wf(old(self)@, entity, extent);
        }
        walking
    }

    /// Files `entity` anew. See [`NodeView::refile`].
    fn refile_within(&mut self, entity: Entity, from: Bounds, extent: Bounds)
        requires
            old(self)@.wf(),
        ensures
            final(self)@ == old(self)@.refile(entity, from, extent),
        decreases *old(self),
    {
        proof {
            Self::view_facts(*self);
        }
        match self.route(from) {
            Some(i) => {
                self.children[i].refile_within(entity, from, extent);
                proof {
                    Self::view_facts(*self);
                    assert(self@.children =~= old(self)@.children.update(
                        i as int,
                        old(self)@.children[i as int].refile(entity, from, extent),
                    ));
                }
            },
            None => match self.find(entity) {
                Some(j) => {
                    self.members.swap_remove(j);
                    self.members.push((entity, extent));
                    proof {
                        Self::view_facts(*self);
                        assert(self@.children =~= old(self)@.children);
                    }
                },
                None => {},
            },
        }
    }

    /// Replaces the entry of `entity` at the node where `from` belongs by one under
    /// `extent`, as the last member of that node. The tree keeps its shape.
    pub(crate) fn refile(&mut self, entity: Entity, from: Bounds, extent: Bounds)
        requires
            old(self)@.wf(),
            old(self)@.find_node(from).placed((entity, extent)),
        ensures
            final(self)@.wf(),
            final(self)@.bounds == old(self)@.bounds,
            final(self)@ == old(self)@.refile(entity, from, extent),
    {
        self.refile_within(entity, from, extent);
        proof {
            lemma_refile_wf(old(self)@, entity, from, extent);
        }
    }

    /// Finds the extent under which `entity` is filed: that of its first entry,
    /// the members of a node coming before those of its children.
    pub fn locate(&self, entity: Entity) -> (r: Option<Bounds>)
        ensures
            r == self@.filed(entity),
        decreases self,
    {
        proof {
            Self::view_facts(*self);
        }
        match self.find(entity) {
            Some(j) => Some(self.members[j].1),
            None => {
                let mut k: usize = 0;
                while k < self.children.len()
                    invariant
                        k <= self.children@.len(),
                        self@.children.len() == self.children@.len(),
                        forall|i: int|
                            0 <= i < self.children@.len() ==> self@.children[i] == (
                            #[trigger] self.children@[i])@,
                        self@.filed(entity) == NodeView::filed_among(self@.children, 0, entity),
                        NodeView::filed_among(self@.children, 0, entity) == NodeView::filed_among(
                            self@.children,
                            k as int,
                            entity,
                        ),
                    decreases self.children@.len() - k,
                {
                    match self.children[k].locate(entity) {
                        Some(b) => {
                            return Some(b);
                        },
                        None => {},
                    }
                    k += 1;
                }
                None
            },
        }
    }
}

impl Clone for QuadtreeNode {
    /// A copy of the node and of all below it.
    fn clone(&self) -> (copy: Self)
        ensures
            copy@ == self@,
        decreases self,
    {
        proof {
            Self::view_facts(*self);
        }
        let mut children: Vec<QuadtreeNode> = Vec::new();
        let mut i: usize = 0;
        while i < self.children.len()
            invariant
                i <= self.children@.len(),
                children@.len() == i,
                forall|k: int| 0 <= k < i ==> (#[trigger] children@[k])@ == self.children@[k]@,
            decreases self.children@.len() - i,
        {
            children.push(self.children[i].clone());
            i += 1;
        }
        let mut members: Vec<(Entity, Bounds)> = Vec::new();
        let mut j: usize = 0;
        while j < self.members.len()
            invariant
                j <= self.members@.len(),
                members@ == self.members@.take(j as int),
            decreases self.members@.len() - j,
        {
            members.push(self.members[j]);
            proof {
                assert(self.members@.take(j + 1) =~= self.members@.take(j as int).push(
                    self.members@[j as int],
                ));
            }
            j += 1;
        }
        let copy = QuadtreeNode { bounds: self.bounds, children, members };
        proof {
            Self::view_facts(copy);
            assert(self.members@.take(self.members@.len() as int) =~= self.members@);
            assert(copy@.children =~= self@.children);
        }
        copy
    }
}

} // verus!
