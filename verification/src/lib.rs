//! A falling-block playfield: a grid of settled cells, one active four-cell
//! piece, and the rules that move, turn, settle and clear them. Every function
//! carries a contract over a mathematical view of the playfield.

pub mod chance;
pub mod changes;
pub mod color;
pub mod frame;
pub mod grid;
pub mod input;
pub mod laws;
pub mod model;
pub mod render;
pub mod shape;
