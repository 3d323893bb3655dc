//! Polynomial machinery for the prover side of an interactive proof protocol
//! over a finite field: a sparse multivariate polynomial, a univariate round
//! polynomial extracted from it, and a stateful prover that walks through the
//! polynomial one variable at a time, folding in verifier-chosen challenges.

pub mod field;
pub mod polynomial;
pub mod prover;
