//! The pairing-friendly curve BLS12-381.
pub mod fr;
pub mod g1;
pub mod g2;
pub mod order;
pub mod pairing;
