//! Dense linear algebra over a verified fixed-point real type: vectors,
//! matrices and a singular value decomposition by power iteration.
pub mod scalar;
pub mod error;
pub mod vector;
pub mod matrix;
pub mod enums;
pub mod enum_example;
pub mod point;
