//! Solvers for a collection of independent puzzle quests.
//!
//! The heart of the crate is the rectilinear wall-maze navigator: a wall
//! boundary is described by turn/distance instructions, and the crate
//! computes a travel distance from the implicit start to the boundary's
//! final point without ever crossing the boundary.  The navigator is split
//! into geometry primitives, the wall model, the wall-hugging traversal,
//! the path reducer and a small exact reference search.

use vstd::prelude::*;

pub mod bytes;
pub mod geometry;
pub mod hug;
pub mod path;
pub mod quest01;
pub mod quest02;
pub mod quest03;
pub mod quest04;
pub mod quest06;
pub mod quest13;
pub mod quest14;
pub mod quest15;
pub mod quest16;
pub mod reduce;
pub mod search;
pub mod wall;

verus! {

/// Fatal conditions surfaced by the wall-maze navigator.
#[derive(Clone, Copy, PartialEq, Eq, Structural, Debug)]
pub enum NavError {
    /// The instructions do not form a valid rectilinear boundary.
    MalformedWallSpec,
    /// A produced path was found to touch the wall away from its endpoint.
    GeometryInvariantViolation,
    /// The traversal ran out of wall segments before reaching the end.
    TraversalExhausted,
}

} // verus!
