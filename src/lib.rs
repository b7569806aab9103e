//! Spatial index and neighbor search of a two-dimensional particle fluid
//! solver, and the button state of the pointer that moves its left wall.
pub mod grid;
pub mod mouse;
pub mod neighbors;
