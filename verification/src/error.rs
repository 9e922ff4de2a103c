//! Why the index turns a request down.

use vstd::prelude::*;

verus! {

/// The one way in which an `insert`, an `add` or a `relocate` fails.
#[derive(Clone, Copy, Debug, PartialEq, Eq, Structural)]
pub enum QuadtreeError {
    /// The extent does not lie within the square that the tree, or the node,
    /// covers.
    OutOfBounds,
}

} // verus!
