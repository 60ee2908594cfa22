//! Barnes-Hut approximation of inverse-square-law forces among point masses
//! in the plane, on exact integer arithmetic.
//!
//! Positions are points of an integer grid ([`base::Scalar`]) and masses are
//! whole numbers ([`base::Mass`]); whoever works with other units scales them
//! to the grid first. In return nothing is ever rounded away: every node of
//! the quadtree keeps the exact total mass and the exact first moments of the
//! bodies beneath it, and what is stated about them is proved for all inputs.
//!
//! - [`barnes_hut::Cell`] is a square region, which can be halved exactly 32
//!   times below the grid.
//! - [`barnes_hut::Quadtree`] is built by inserting bodies one by one. Its
//!   shape depends on the bodies alone, not on their order.
//! - [`barnes_hut::quadtree::QuadtreeForceCalculationIterator`] walks a tree
//!   for one position and yields the bodies that stand for the tree there,
//!   for a given accuracy.
//! - [`barnes_hut::laws`] states what holds of all of them.
//!
//! The force law itself takes a square root, which the grid cannot hold.
//! [`barnes_hut::Quadtree::calc_force`] gives the force on a body as the
//! terms of its sum, each in whole numbers, and the caller adds them up.
pub mod base;
pub mod barnes_hut;
