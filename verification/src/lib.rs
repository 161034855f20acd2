//! A small dense matrix over a flat row-major buffer.
//!
//! The crate has three layers. [`storage`] holds the matrix, its
//! constructors and the access to its cells and rows. [`arith`] adds scalar
//! and matrix arithmetic for cell types that have the four operators.
//! [`render`] turns a matrix into a grid of text. [`layout`] holds the index
//! arithmetic that all of them rest on.
//!
//! Contracts speak of a matrix through its view, [`MatrixView`]: the
//! declared shape and the sequence of cells.

pub mod arith;
pub mod layout;
pub mod render;
pub mod storage;

pub use render::render_grid;
pub use storage::{Matrix, MatrixView, OUT_OF_BOUNDS};
