//! Sparse matrices stored as parallel arrays of ascending linear keys and values.

pub mod agreement;
pub mod algebra;
pub mod block;
pub mod matrix;
pub mod product;
pub mod transpose;

pub use algebra::{add, mul, mul_const, sub};
pub use block::{copy, get_sub_mat, vstack};
pub use matrix::{convert_to_array, identity, loc, norm, SparseMatrix, SparseView};
pub use product::dot;
pub use transpose::transpose;
