//! Recovery of erasure-coded data over the BLS12-381 scalar field.

pub mod field;
pub mod poly;
pub mod domain;
pub mod algebra;
pub mod recovery;
pub mod laws;
pub mod linear;
