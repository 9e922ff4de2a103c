//! The tree as a mathematical value, and what each operation of the index makes
//! of it.
//!
//! The executable nodes of [`crate::node`] are viewed as a [`NodeView`]; their
//! contracts say which `NodeView` an operation turns the viewed tree into.

use crate::entity::Entity;
use crate::geometry::Bounds;
use vstd::prelude::*;

verus! {

/// Members that a leaf holds before an `add` splits it.
pub const CAPACITY: usize = 4;

/// A node and all below it: its extent, the entities filed at the node itself, and
/// its children in quadrant order (none, or four).
pub struct NodeView {
    pub bounds: Bounds,
    pub members: Seq<(Entity, Bounds)>,
    pub children: Seq<NodeView>,
}

/// Whether `j` is the first position in `members` that holds `entity`.
pub open spec fn is_first(members: Seq<(Entity, Bounds)>, entity: Entity, j: int) -> bool {
    &&& 0 <= j < members.len()
    &&& members[j].0 == entity
    &&& forall|k: int| 0 <= k < j ==> (#[trigger] members[k]).0 != entity
}

/// The first position in `members` that holds `entity`.
pub open spec fn first_index(members: Seq<(Entity, Bounds)>, entity: Entity) -> Option<int>
    decreases members.len(),
{
    if members.len() == 0 {
        None
    } else {
        match first_index(members.drop_last(), entity) {
            Some(j) => Some(j),
            None => if members.last().0 == entity {
                Some(members.len() - 1)
            } else {
                None
            },
        }
    }
}

/// `members` without position `j`: the last member takes its place.
pub open spec fn swap_removed(members: Seq<(Entity, Bounds)>, j: int) -> Seq<(Entity, Bounds)> {
    members.update(j, members.last()).drop_last()
}

/// The members that stay at a node of extent `region` when it is split: those
/// that cross one of its midlines.
pub open spec fn stays(region: Bounds) -> spec_fn((Entity, Bounds)) -> bool {
    |m: (Entity, Bounds)| region.spec_quadrant(m.1).is_none()
}

/// The members that go to quadrant `idx` when a node of extent `region` is split.
pub open spec fn goes_to(region: Bounds, idx: int) -> spec_fn((Entity, Bounds)) -> bool {
    |m: (Entity, Bounds)| region.spec_quadrant(m.1) == Some(idx)
}

impl NodeView {
    /// A node without children.
    pub open spec fn leaf(bounds: Bounds, members: Seq<(Entity, Bounds)>) -> NodeView {
        NodeView { bounds, members, children: Seq::empty() }
    }

    pub open spec fn is_leaf(self) -> bool {
        self.children.len() == 0
    }

    /// A leaf without members.
    pub open spec fn is_empty_leaf(self) -> bool {
        self.children.len() == 0 && self.members.len() == 0
    }

    /// The child that the descent for `extent` enters from this node: the quadrant
    /// that `extent` fits into. None at a leaf, and where `extent` crosses a
    /// midline of the node.
    pub open spec fn route(self, extent: Bounds) -> Option<int> {
        if self.children.len() == 4 {
            self.bounds.spec_quadrant(extent)
        } else {
            None
        }
    }

    /// Whether this node is where `member` belongs: it lies within the node, and
    /// the descent for it stops here.
    pub open spec fn placed(self, member: (Entity, Bounds)) -> bool {
        self.bounds.spec_contains(member.1) && self.route(member.1).is_none()
    }

    /// Well-formedness. The extent is a region; there are no children or four, and
    /// four only where the region can be split; child `i` covers quadrant `i`;
    /// every member lies within the node that holds it, and at an internal node
    /// crosses a midline.
    pub open spec fn wf(self) -> bool
        decreases self,
    {
        &&& self.bounds.spec_is_region()
        &&& (self.children.len() == 0 || self.children.len() == 4)
        &&& (self.children.len() == 4 ==> self.bounds.spec_can_split())
        &&& forall|j: int| 0 <= j < self.members.len() ==> self.placed(#[trigger] self.members[j])
        &&& forall|i: int|
            0 <= i < self.children.len() ==> (#[trigger] self.children[i]).bounds
                == self.bounds.spec_split(i) && self.children[i].wf()
    }

    /// The node at which the descent for `extent` stops: the first on the way down
    /// that is a leaf or whose midline `extent` crosses.
    pub open spec fn find_node(self, extent: Bounds) -> NodeView
        decreases self,
    {
        match self.route(extent) {
            Some(i) => self.children[i].find_node(extent),
            None => self,
        }
    }

    /// Whether the node at which the descent for `extent` stops holds `entity`.
    pub open spec fn holds(self, entity: Entity, extent: Bounds) -> bool {
        first_index(self.find_node(extent).members, entity).is_some()
    }

    /// This leaf as an internal node over `all`: each of `all` in the quadrant that
    /// it fits into, in the order of `all`, and at the node itself those that cross
    /// a midline.
    pub open spec fn divided(self, all: Seq<(Entity, Bounds)>) -> NodeView {
        NodeView {
            bounds: self.bounds,
            members: all.filter(stays(self.bounds)),
            children: Seq::new(
                4,
                |i: int|
                    NodeView::leaf(self.bounds.spec_split(i), all.filter(goes_to(self.bounds, i))),
            ),
        }
    }

    /// Whether an `add` at this node, the one where a descent has stopped, splits
    /// it: it is a leaf that holds `CAPACITY` members or more and can be split.
    pub open spec fn splits_on_add(self) -> bool {
        self.is_leaf() && self.members.len() >= CAPACITY && self.bounds.spec_can_split()
    }

    /// The tree after `(entity, extent)` was added: at the node where the descent
    /// for `extent` stops, appended to the members, or, where that node splits,
    /// distributed with them over its new quadrants.
    pub open spec fn add(self, entity: Entity, extent: Bounds) -> NodeView
        decreases self,
    {
        match self.route(extent) {
            Some(i) => NodeView {
                children: self.children.update(i, self.children[i].add(entity, extent)),
                ..self
            },
            None => if self.splits_on_add() {
                self.divided(self.members.push((entity, extent)))
            } else {
                NodeView { members: self.members.push((entity, extent)), ..self }
            },
        }
    }

    /// The tree after an `insert`: unchanged where the node at which the descent
    /// stops holds the entity already, else with the entity added.
    pub open spec fn insert(self, entity: Entity, extent: Bounds) -> NodeView {
        if self.holds(entity, extent) {
            self
        } else {
            self.add(entity, extent)
        }
    }

    /// Whether all four children are leaves without members.
    pub open spec fn children_all_empty(self) -> bool {
        forall|i: int| 0 <= i < self.children.len() ==> (#[trigger] self.children[i]).is_empty_leaf()
    }

    /// The tree after `entity` was removed at the node where the descent for
    /// `extent` stops, and whether the upward walk that merges empty quadrants is
    /// still under way when it leaves this node.
    ///
    /// The walk starts where the removal has left a node without members. It
    /// discards the children of each ancestor whose four children are all empty
    /// leaves, and ends at the first ancestor where they are not.
    pub open spec fn remove_walk(self, entity: Entity, extent: Bounds) -> (NodeView, bool)
        decreases self,
    {
        match self.route(extent) {
            Some(i) => {
                let (child, walking) = self.children[i].remove_walk(entity, extent);
                let node = NodeView { children: self.children.update(i, child), ..self };
                if walking && node.children_all_empty() {
                    (NodeView { children: Seq::empty(), ..node }, true)
                } else {
                    (node, false)
                }
            },
            None => match first_index(self.members, entity) {
                Some(j) => (
                    NodeView { members: swap_removed(self.members, j), ..self },
                    self.members.len() == 1,
                ),
                None => (self, false),
            },
        }
    }

    /// The tree after a `remove`.
    pub open spec fn remove(self, entity: Entity, extent: Bounds) -> NodeView {
        self.remove_walk(entity, extent).0
    }

    /// The tree after `entity`, filed at the node where the descent for `from`
    /// stops, was filed anew at that node under `extent`, as its last member.
    pub open spec fn refile(self, entity: Entity, from: Bounds, extent: Bounds) -> NodeView
        decreases self,
    {
        match self.route(from) {
            Some(i) => NodeView {
                children: self.children.update(i, self.children[i].refile(entity, from, extent)),
                ..self
            },
            None => match first_index(self.members, entity) {
                Some(j) => NodeView {
                    members: swap_removed(self.members, j).push((entity, extent)),
                    ..self
                },
                None => self,
            },
        }
    }

    /// The extent under which `entity` is filed: that of its first entry, the
    /// members of a node coming before those of its children, and the children in
    /// quadrant order.
    pub open spec fn filed(self, entity: Entity) -> Option<Bounds>
        decreases self, 0nat,
    {
        match first_index(self.members, entity) {
            Some(j) => Some(self.members[j].1),
            None => Self::filed_among(self.children, 0, entity),
        }
    }

    /// The extent under which `entity` is filed in the first of `nodes`, from
    /// position `from` on, that holds it.
    pub open spec fn filed_among(nodes: Seq<NodeView>, from: int, entity: Entity) -> Option<Bounds>
        decreases nodes, nodes.len() - from,
    {
        if 0 <= from < nodes.len() {
            match nodes[from].filed(entity) {
                Some(b) => Some(b),
                None => Self::filed_among(nodes, from + 1, entity),
            }
        } else {
            None
        }
    }

    /// The entry of `entity` that a relocation to `extent` moves: the one at the
    /// node where `extent` belongs, if that node holds the entity, and else the
    /// one under which the entity is filed; none if it is not filed.
    pub open spec fn moved_entry(self, entity: Entity, extent: Bounds) -> Option<(Entity, Bounds)> {
        let node = self.find_node(extent);
        match first_index(node.members, entity) {
            Some(j) => Some(node.members[j]),
            None => match self.filed(entity) {
                Some(from) => Some((entity, from)),
                None => None,
            },
        }
    }

    /// The tree after a `relocate` of `entity` to `extent`.
    ///
    /// An entity that the node where `extent` belongs holds already stays at that
    /// node, filed anew under `extent`. One that is not filed is added. One that is
    /// filed at a node that still contains `extent`, so that `extent` belongs
    /// further down, is added there first and then removed above. One whose node
    /// no longer contains `extent` is removed and then added from the root.
    pub open spec fn relocate(self, entity: Entity, extent: Bounds) -> NodeView {
        if self.holds(entity, extent) {
            self.refile(entity, extent, extent)
        } else {
            match self.filed(entity) {
                None => self.add(entity, extent),
                Some(from) => if self.find_node(from).bounds.spec_contains(extent) {
                    self.add(entity, extent).remove(entity, from)
                } else {
                    self.remove(entity, from).add(entity, extent)
                },
            }
        }
    }

    /// Whether `path`, a list of quadrants to enter one after the other, leads to a
    /// node of the tree.
    pub open spec fn has(self, path: Seq<int>) -> bool
        decreases path.len(),
    {
        path.len() == 0 || (0 <= path[0] < self.children.len() && self.children[path[0]].has(
            path.drop_first(),
        ))
    }

    /// The node to which `path` leads.
    pub open spec fn at(self, path: Seq<int>) -> NodeView
        decreases path.len(),
    {
        if path.len() == 0 {
            self
        } else {
            self.children[path[0]].at(path.drop_first())
        }
    }

    /// All entries of the tree: the members of a node before those of its
    /// children, the children in quadrant order.
    pub open spec fn contents(self) -> Seq<(Entity, Bounds)>
        decreases self, 0nat,
    {
        self.members + Self::contents_among(self.children, 0)
    }

    /// The entries of `nodes` from position `from` on.
    pub open spec fn contents_among(nodes: Seq<NodeView>, from: int) -> Seq<(Entity, Bounds)>
        decreases nodes, nodes.len() - from,
    {
        if 0 <= from < nodes.len() {
            nodes[from].contents() + Self::contents_among(nodes, from + 1)
        } else {
            Seq::empty()
        }
    }
}

/// What `first_index` finds is the first position that holds the entity, and it
/// finds nothing only where no position holds it.
pub proof fn lemma_first_index(members: Seq<(Entity, Bounds)>, entity: Entity)
    ensures
        match first_index(members, entity) {
            Some(j) => is_first(members, entity, j),
            None => forall|k: int| 0 <= k < members.len() ==> (#[trigger] members[k]).0 != entity,
        },
    decreases members.len(),
{
    if members.len() > 0 {
        let front = members.drop_last();
        lemma_first_index(front, entity);
        assert(forall|k: int| 0 <= k < front.len() ==> front[k] == members[k]);
    }
}

/// The first position that holds the entity is what `first_index` finds.
pub proof fn lemma_is_first(members: Seq<(Entity, Bounds)>, entity: Entity, j: int)
    requires
        is_first(members, entity, j),
    ensures
        first_index(members, entity) == Some(j),
{
    lemma_first_index(members, entity);
}

/// Filtering a sequence with one more item at its end.
pub proof fn lemma_filter_push(
    s: Seq<(Entity, Bounds)>,
    m: (Entity, Bounds),
    pred: spec_fn((Entity, Bounds)) -> bool,
)
    ensures
        s.push(m).filter(pred) == if pred(m) {
            s.filter(pred).push(m)
        } else {
            s.filter(pred)
        },
{
    reveal(Seq::filter);
    assert(s.push(m).drop_last() =~= s);
}

} // verus!
