//! Chaotic grayscale field generation: a square-spiral indexer, an
//! energy-splatting footprint, and the integer scaffolding (dimension
//! checks, true-modulo coordinate reduction, grid storage) around the
//! transcendental recurrence that fills the grid.

mod coords;
mod field;
mod grid;
mod spiral;
mod splat;

pub use coords::euclid_rem;
pub use field::iteration_count;
pub use field::FieldError;
pub use grid::Grid;
pub use spiral::spiral;
pub use splat::splat_targets;
