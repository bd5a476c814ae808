//! Linear algebra over GF(2): bit matrices, their reduced row-echelon form,
//! and rank, kernel, image and linear-system solutions derived from it.

pub mod matrix;
pub mod model;
pub mod pivots;
pub mod reduction;
pub mod products;
pub mod rank;
pub mod replay;
pub mod image;
pub mod kernel;
pub mod nullspace;
pub mod solving;
pub mod laws;
pub mod gf2_matrix;
pub mod int_gf2_matrix;
pub mod convert;
