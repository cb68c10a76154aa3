//! Barnes-Hut gravity simulation on a fixed-point lattice.
//!
//! Positions, velocities and accelerations are integers in units of
//! `1 / ONE` (see `fixed`). Each step rebuilds a quadtree over the bodies
//! (`builder`, in the node arena of `arena`), evaluates every body's
//! acceleration on it with the opening-angle criterion (`force`), and
//! advances velocities then positions by semi-implicit Euler (`physics`).
//!
//! Choices the design makes explicit:
//! - an absent child is the handle `NO_CHILD`, never the root's handle 0;
//! - a body's own leaf pulls it with zero force (its offset is zero), so no
//!   self-exclusion is needed, whatever the softening;
//! - subdivision stops at squares of side 1: two bodies on one lattice
//!   point make the build fail with `BuildError::Degenerate`;
//! - velocities and positions saturate at the limits of the lattice.
pub mod arena;
pub mod builder;
pub mod fixed;
pub mod force;
pub mod physics;
pub mod print;
mod random;
pub mod region;
pub mod simulation;
pub mod spawner;
