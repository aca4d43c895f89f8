//! Sampled two-dimensional fields for potential-flow models.
//!
//! A [`Field`] holds one value for every point of a rectangular grid: the
//! sample in row `j` and column `i` belongs to the `j`-th position along the
//! y-axis and the `i`-th position along the x-axis. The library builds such
//! fields, transforms and superposes them cell by cell, and lays them out as
//! tab- and newline-delimited text. The values themselves are opaque to it:
//! the arithmetic on them is supplied by the caller.

pub mod field;
pub mod text;

pub use field::Field;
pub use field::FieldView;
