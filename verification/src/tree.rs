//! The index: the root of the tree and the operations on it.

use crate::cursor::QuadtreeIterator;
use crate::entity::Entity;
use crate::entries::{lemma_insert_entries, lemma_relocate_entries, lemma_remove_entries};
use crate::error::QuadtreeError;
use crate::geometry::{Bounds, Position, UNIT};
use crate::model::NodeView;
use crate::node::QuadtreeNode;
use crate::placement::{lemma_find_node_contains, lemma_find_node_facts};
use vstd::prelude::*;

verus! {

/// A quadtree that files entities by their extent within a fixed square.
///
/// Its view is the tree as a value, the root first. The tree is well-formed
/// ([`NodeView::wf`]) at all times: each entity is filed at the node where the
/// descent for its extent stops, within the square of that node.
#[derive(Debug)]
pub struct Quadtree {
    top: QuadtreeNode,
}

impl View for Quadtree {
    type V = NodeView;

    closed spec fn view(&self) -> NodeView {
        self.top@
    }
}

impl Clone for Quadtree {
    /// A copy of the index.
    fn clone(&self) -> (copy: Self)
        ensures
            copy@ == self@,
    {
        proof {
            use_type_invariant(self);
        }
        Quadtree { top: self.top.clone() }
    }
}

/// The square from the origin with an edge of one unit.
pub open spec fn unit_square() -> Bounds {
    Bounds { pos: Position { x: 0, y: 0 }, size: UNIT }
}

/// The square of a distance.
pub open spec fn squared(dist: u32) -> int {
    dist * dist
}

impl Quadtree {
    #[verifier::type_invariant]
    spec fn well_formed(self) -> bool {
        self.top@.wf()
    }

    /// Takes the root out of the index for an operation on it, and leaves an empty
    /// leaf until the root is put back.
    fn take_top(&mut self) -> (top: QuadtreeNode)
        ensures
            top@ == old(self)@,
            top@.wf(),
    {
        proof {
            use_type_invariant(&*self);
        }
        let mut top = QuadtreeNode::leaf(Bounds { pos: Position { x: 0, y: 0 }, size: 1 });
        std::mem::swap(&mut top, &mut self.top);
        top
    }

    /// An empty index over the unit square.
    pub fn new() -> (tree: Quadtree)
        ensures
            tree@ == NodeView::leaf(unit_square(), Seq::empty()),
            tree@.wf(),
    {
        let bounds = Bounds { pos: Position { x: 0, y: 0 }, size: UNIT };
        Quadtree { top: QuadtreeNode::leaf(bounds) }
    }

    /// An empty index over `bounds`, if `bounds` is a region: a square that
    /// covers at least one point and only points of the grid.
    pub fn with_bounds(bounds: Bounds) -> (r: Option<Quadtree>)
        ensures
            match r {
                Some(tree) => bounds.spec_is_region() && tree@ == NodeView::leaf(
                    bounds,
                    Seq::empty(),
                ) && tree@.wf(),
                None => !bounds.spec_is_region(),
            },
    {
        if bounds.is_region() {
            Some(Quadtree { top: QuadtreeNode::leaf(bounds) })
        } else {
            None
        }
    }

    /// The root of the tree.
    pub fn top(&self) -> (r: &QuadtreeNode)
        ensures
            r@ == self@,
            r@.wf(),
    {
        proof {
            use_type_invariant(self);
        }
        &self.top
    }

    /// The square that the index covers.
    pub fn bounds(&self) -> (r: Bounds)
        ensures
            r == self@.bounds,
            self@.wf(),
    {
        proof {
            use_type_invariant(self);
        }
        self.top.bounds()
    }

    /// Files `entity` under `extent`, at the node where the descent for `extent`
    /// stops. Does nothing where that node holds `entity` already.
    ///
    /// Fails, and changes nothing, where `extent` does not lie within the square
    /// of the index.
    pub fn insert(&mut self, entity: Entity, extent: Bounds) -> (r: Result<(), QuadtreeError>)
        ensures
            final(self)@.wf(),
            final(self)@.bounds == old(self)@.bounds,
            match r {
                Ok(_) => old(self)@.bounds.spec_contains(extent) && final(self)@
                    == old(self)@.insert(entity, extent),
                Err(_) => !old(self)@.bounds.spec_contains(extent) && final(self)@ == old(self)@,
            },
            final(self)@.entries() == if r.is_ok() && !old(self)@.holds(entity, extent) {
                old(self)@.entries().insert((entity, extent))
            } else {
                old(self)@.entries()
            },
    {
        proof {
            lemma_insert_entries(self@, entity, extent);
        }
        let mut top = self.take_top();
        let r = if !top.bounds().contains(extent) {
            Err(QuadtreeError::OutOfBounds)
        } else if top.find_node(extent).find(entity).is_some() {
            Ok(())
        } else {
            top.add(entity, extent)
        };
        self.top = top;
        r
    }

    /// Removes `entity` from the node where the descent for `extent` stops, and
    /// merges the quadrants that this leaves empty. Does nothing where that node
    /// does not hold `entity`.
    pub fn remove(&mut self, entity: Entity, extent: Bounds)
        ensures
            final(self)@.wf(),
            final(self)@.bounds == old(self)@.bounds,
            final(self)@ == old(self)@.remove(entity, extent),
            final(self)@.entries() == match old(self)@.entry_at(entity, extent) {
                Some(entry) => old(self)@.entries().remove(entry),
                None => old(self)@.entries(),
            },
    {
        proof {
            lemma_remove_entries(self@, entity, extent);
        }
        let mut top = self.take_top();
        let _ = top.remove(entity, extent);
        self.top = top;
    }

    /// Finds the extent under which `entity` is filed, if it is.
    pub fn locate(&self, entity: Entity) -> (r: Option<Bounds>)
        ensures
            r == self@.filed(entity),
    {
        self.top.locate(entity)
    }

    /// Brings the index up to date with the new extent of `entity`.
    ///
    /// An entity that the node where `extent` belongs holds already stays at that
    /// node: this is the common case, and it takes one descent. Any other entity
    /// is looked for in the whole tree. One that is not filed is added. One that
    /// is filed at a node that still contains `extent` is added further down, then
    /// removed above. One whose node no longer contains `extent` is removed, then
    /// added from the root.
    ///
    /// Fails, and changes nothing, where `extent` does not lie within the square
    /// of the index.
    pub fn relocate(&mut self, entity: Entity, extent: Bounds) -> (r: Result<(), QuadtreeError>)
        ensures
            final(self)@.wf(),
            final(self)@.bounds == old(self)@.bounds,
            match r {
                Ok(_) => old(self)@.bounds.spec_contains(extent) && final(self)@
                    == old(self)@.relocate(entity, extent),
                Err(_) => !old(self)@.bounds.spec_contains(extent) && final(self)@ == old(self)@,
            },
            final(self)@.entries() == if r.is_err() {
                old(self)@.entries()
            } else {
                match old(self)@.moved_entry(entity, extent) {
                    Some(entry) => old(self)@.entries().remove(entry).insert((entity, extent)),
                    None => old(self)@.entries().insert((entity, extent)),
                }
            },
    {
        let mut top = self.take_top();
        proof {
            lemma_relocate_entries(top@, entity, extent);
        }
        let r = if !top.bounds().contains(extent) {
            Err(QuadtreeError::OutOfBounds)
        } else if top.find_node(extent).find(entity).is_some() {
            proof {
                lemma_find_node_contains(top@, extent);
                lemma_find_node_facts(top@, extent);
            }
            top.refile(entity, extent, extent);
            Ok(())
        } else {
            match top.locate(entity) {
                None => top.add(entity, extent),
                Some(from) => {
                    if top.find_node(from).bounds().contains(extent) {
                        let added = top.add(entity, extent);
                        let _ = top.remove(entity, from);
                        added
                    } else {
                        let _ = top.remove(entity, from);
                        top.add(entity, extent)
                    }
                },
            }
        };
        self.top = top;
        r
    }

    /// Starts a traversal that yields the entries nearer to `target` than
    /// `max_dist`.
    pub fn iter_with_max_dist(&self, target: Position, max_dist: u32) -> (it: QuadtreeIterator<'_>)
        ensures
            it.remaining() == self@.in_range(target, squared(max_dist)),
    {
        proof {
            use_type_invariant(self);
        }
        let dist: u128 = max_dist as u128;
        assert(dist * dist <= 0xffff_ffff * 0xffff_ffff) by (nonlinear_arith)
            requires
                dist <= 0xffff_ffff,
        ;
        QuadtreeIterator::new(&self.top, target, dist * dist)
    }

    /// Lists the entries that have a point nearer to `target` than `max_dist`: all
    /// of them and no others, a node before its children and the children in
    /// quadrant order.
    pub fn query_range(&self, target: Position, max_dist: u32) -> (found: Vec<(Entity, Bounds)>)
        ensures
            found@ == self@.in_range(target, squared(max_dist)),
    {
        let mut it = self.iter_with_max_dist(target, max_dist);
        let mut found: Vec<(Entity, Bounds)> = Vec::new();
        let ghost all = it.remaining();
        loop
            invariant
                found@ + it.remaining() == all,
            ensures
                found@ == all,
            decreases it.remaining().len(),
        {
            match it.next() {
                Some(member) => {
                    found.push(member);
                    proof {
                        assert(found@ + it.remaining() =~= (found@.drop_last() + seq![member])
                            + it.remaining());
                        assert((found@.drop_last() + seq![member]) + it.remaining()
                            =~= found@.drop_last() + (seq![member] + it.remaining()));
                    }
                },
                None => {
                    proof {
                        assert(found@ + it.remaining() =~= found@);
                    }
                    break ;
                },
            }
        }
        found
    }
}

} // verus!
