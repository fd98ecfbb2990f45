//! Stable matching between two sides that rank each other.
//!
//! The executable types live in [`models`]; their mathematical models are in
//! [`preferences`]. Every executable function carries a contract over those
//! models, and the proofs are checked by Verus.

pub mod preferences;
pub mod models;
pub mod checks;
pub mod rounds;
pub mod algorithms;
pub mod text;
pub mod stability;
pub mod optimality;
