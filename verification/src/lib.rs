//! A tree that splits a region into `2^N` parts at every level, and keeps the chunks of
//! the nodes that a level-of-detail policy asks for: fine around the targets, coarse away
//! from them.
//!
//! Nodes are named by integer coordinates, and the tree relations (child, ancestor, inside
//! a box) are arithmetic on them. The chunks live in an arena with an index from position
//! to slot. An update is staged: prepared, applied, completed.

pub mod arena;
pub mod coords;
pub mod desired;
pub mod integer;
pub mod laws;
pub mod model;
pub mod ops;
pub mod order;
pub mod power;
pub mod refine;
pub mod sample;
pub mod slots;
pub mod tree;

pub use crate::arena::{Arena, ArenaError, Container};
pub use crate::coords::{
    get_chunk_count_at_max_depth, CoordVec, LodVec, OctVec, QuadVec, MAX_DEPTH,
};
pub use crate::integer::ReasonableIntegerLike;
pub use crate::model::Coord;
pub use crate::sample::rand_cv;
pub use crate::tree::{OctTree, QuadTree, Stage, Tree, TreeError};
