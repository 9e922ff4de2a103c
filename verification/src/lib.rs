//! A quadtree over the integer grid that indexes moving, axis-aligned squares and
//! lists those within a distance of a point.
//!
//! The index files each entity at one node of the tree: the first on the way down
//! from the root that is a leaf or whose midline the extent of the entity crosses.
//! A leaf that is full splits into its four quadrants when one more member comes,
//! and quadrants that a removal leaves empty are merged again.
//!
//! - [`geometry`] has the points and squares of the grid, [`entity`] the
//!   identifiers, [`error`] the one error.
//! - [`model`] describes the tree as a value and each operation as a function on
//!   such values; [`range`] does so for the range query.
//! - [`node`], [`tree`], [`cursor`] and [`update`] are the executable index. Their
//!   contracts say which value of the model an operation leaves.
//! - [`wellformed`], [`placement`], [`entries`], [`capacity`], [`merging`],
//!   [`undo`] and [`relocation`] prove what holds of the model: where entries lie,
//!   that none is lost, how many a leaf holds, that no empty subtree stays behind,
//!   and how the operations relate to each other.

pub mod capacity;
pub mod cursor;
pub mod entity;
pub mod entries;
pub mod error;
pub mod geometry;
pub mod merging;
pub mod model;
pub mod node;
pub mod placement;
pub mod range;
pub mod relocation;
pub mod tree;
pub mod undo;
pub mod update;
pub mod wellformed;
