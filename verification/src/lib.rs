//! A sparse, dimension-generic Game of Life.
//!
//! The lattice is conceptually infinite: only live cells are stored. A board
//! is built for a fixed dimension `n`; its Moore neighborhood (all `3^n - 1`
//! nonzero offset vectors with components in `{-1, 0, 1}`) is enumerated once
//! at construction and cached. Each generation, every live cell with 2 or 3
//! live neighbors survives, and every dead cell with exactly 3 live neighbors
//! is born; everything else dies or stays dead.

pub mod laws;
pub mod life;
pub mod offsets;
pub mod vector;

pub use life::Life;
pub use vector::vec_add;


