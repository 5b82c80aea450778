//! A solver for a packing puzzle: six ribbon-shaped pieces are set into a
//! cube of 4×4×4 cells, two along each axis, and a setting is accepted when
//! the number of cells covered an odd number of times equals a target.
//!
//! - [`grid`]: the cube of cells and the count of its odd cells.
//! - [`ruban`]: a piece, its quarter turns, and its projection into a slab of
//!   the cube.
//! - [`trial`]: one setting of the six pieces, and its score.
//! - [`search`]: the enumeration of all settings, and the search for the first
//!   that scores a target.
//! - [`puzzle`]: the six pieces of the puzzle and its target.
//! - [`render`]: the text form of a grid.

pub mod grid;
pub mod puzzle;
pub mod render;
pub mod ruban;
pub mod search;
pub mod trial;
