//! Polynomial commitments of Kate, Zaverucha and Goldberg.
pub mod algebra;
pub mod primality;
pub mod limbs;
pub mod engine;
pub mod bls12_381;
pub mod polynomial;
pub mod kzg;
pub mod laws;
pub mod calls;
