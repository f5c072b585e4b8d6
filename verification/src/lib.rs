//! Core of a procedurally mutating grid maze.
//!
//! The maze is a rooted spanning tree over a fixed grid of cells.  A random
//! walk relocates the tree's root to an adjacent cell on a timer, a
//! synchronizer derives the set of wall segments that separate cells not
//! joined by a tree edge, and a visibility sampler casts rays from an
//! observer against those walls to decide which geometry is revealed.
//!
//! All world-space geometry is carried in doubled integer units (twice the
//! world coordinate), which keeps cell centres and wall midpoints integral.

pub mod chain;
pub mod geometry;
pub mod maze;
pub mod visibility;
pub mod walker;
pub mod walls;
