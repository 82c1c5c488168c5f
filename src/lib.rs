//! Encoding of sparse constraint matrices as polynomials over evaluation domains of a prime
//! field, the indexing step of a Marlin-style proof system.
//!
//! - `field`: arithmetic modulo the prime `P`, with inversion and batch inversion.
//! - `domain`: power-of-two subgroups, their elements, vanishing polynomial, reindexing,
//!   evaluation and interpolation.
//! - `kernel`: the bivariate kernel of the vanishing polynomial and its batch evaluations.
//! - `matrix`: sparse matrices, their density and column order.
//! - `compose`: the row, column and value polynomials of a matrix.
//! - `codec`: the byte layouts of matrices and of composed bundles.
use vstd::prelude::*;

pub mod codec;
pub mod compose;
pub mod domain;
pub mod field;
pub mod kernel;
pub mod matrix;

verus! {

} // verus!
