//! The update of a tick: the relocations of a batch, one after the other.

use crate::entity::Entity;
use crate::geometry::Bounds;
use crate::model::{lemma_filter_push, NodeView};
use crate::tree::Quadtree;
use vstd::prelude::*;

verus! {

/// The step of a tick that brings the index up to date with the extents that have
/// changed.
pub struct SysUpdateQuadtree;

/// The entries whose extent does not lie within `region`.
pub open spec fn outside(region: Bounds) -> spec_fn((Entity, Bounds)) -> bool {
    |m: (Entity, Bounds)| !region.spec_contains(m.1)
}

/// The tree after each entry of `batch` was relocated, in the order of `batch`.
/// An entry whose extent does not lie within the square of the tree is passed
/// over.
pub open spec fn relocated_all(tree: NodeView, batch: Seq<(Entity, Bounds)>) -> NodeView
    decreases batch.len(),
{
    if batch.len() == 0 {
        tree
    } else {
        let before = relocated_all(tree, batch.drop_last());
        if before.bounds.spec_contains(batch.last().1) {
            before.relocate(batch.last().0, batch.last().1)
        } else {
            before
        }
    }
}

impl SysUpdateQuadtree {
    /// Relocates each entity of `batch` to the extent given with it, in order.
    /// Returns the entries that were turned down because their extent does not lie
    /// within the square of the index; the others are all carried out.
    pub fn run(&mut self, quadtree: &mut Quadtree, batch: &Vec<(Entity, Bounds)>) -> (rejected: Vec<
        (Entity, Bounds),
    >)
        ensures
            final(quadtree)@.wf(),
            final(quadtree)@.bounds == old(quadtree)@.bounds,
            final(quadtree)@ == relocated_all(old(quadtree)@, batch@),
            rejected@ == batch@.filter(outside(old(quadtree)@.bounds)),
    {
        let ghost start = quadtree@;
        let region = quadtree.bounds();
        let mut rejected: Vec<(Entity, Bounds)> = Vec::new();
        let mut k: usize = 0;
        assert(batch@.take(0).filter(outside(region)) =~= Seq::empty()) by {
            reveal(Seq::filter);
        }
        while k < batch.len()
            invariant
                k <= batch@.len(),
                quadtree@.wf(),
                quadtree@.bounds == region,
                quadtree@ == relocated_all(start, batch@.take(k as int)),
                rejected@ == batch@.take(k as int).filter(outside(region)),
            decreases batch@.len() - k,
        {
            let entry = batch[k];
            proof {
                let done = batch@.take(k as int);
                assert(batch@.take(k + 1) =~= done.push(entry));
                assert(batch@.take(k + 1).drop_last() =~= done);
                lemma_filter_push(done, entry, outside(region));
            }
            if region.contains(entry.1) {
                let _ = quadtree.relocate(entry.0, entry.1);
            } else {
                rejected.push(entry);
            }
            k += 1;
        }
        assert(batch@.take(batch@.len() as int) =~= batch@);
        rejected
    }
}

} // verus!
