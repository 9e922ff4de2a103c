//! The identifier under which an entity is indexed.

use vstd::prelude::*;

verus! {

/// An entity of the surrounding world: the slot it lives in and the generation of
/// that slot. The index compares identifiers and never looks inside them.
#[derive(Clone, Copy, Debug, PartialEq, Eq, Structural)]
pub struct Entity {
    pub index: u32,
    pub generation: i32,
}

} // verus!
