//! Dense and sparse linear algebra over any element type.
//!
//! Matrices are row-major buffers, or sparse matrices stored as ascending
//! linear keys with their values. The library holds the layouts, the data
//! movement and the structure of the algorithms: products, LU, QR, eigenvalue
//! iteration and singular value decomposition. The arithmetic on the elements
//! is the caller's, handed in as functions, and every contract says how the
//! result is made of what these functions returned.

pub mod dense;
pub mod echelon;
pub mod eigen;
pub mod elementwise;
pub mod error;
pub mod givens;
pub mod householder;
pub mod kernel;
pub mod layout;
pub mod lu;
pub mod partition;
pub mod qr;
pub mod reflection;
pub mod rotation;
pub mod rows;
pub mod search;
pub mod solve;
pub mod sparse;
pub mod svd;
pub mod sweep;
