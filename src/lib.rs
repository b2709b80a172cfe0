//! An order-k Markov model over characters: counting fixed-length
//! sequences, weighted sampling, prefix submodels and next-character
//! generation with context fallback.

pub mod keys;
pub mod counts;
pub mod text;
pub mod model;
pub mod record;
pub mod generator;
