//! Barnes–Hut approximate gravity on a fixed-point grid.
//!
//! Positions are cells of the domain cube, 32 bits per axis, and masses are
//! integer units: every aggregate that the tree holds is an exact sum, and the
//! acceptance test of the traversal compares exact squared widths. The
//! floating-point force formula is left to the caller, who sums the terms that
//! the traversal hands out.
pub mod z_order;
pub mod celestial_body;
pub mod cosmic_system;
pub mod node;
pub mod celestial_body_extensions;
pub mod simulation;
pub mod theorems;
