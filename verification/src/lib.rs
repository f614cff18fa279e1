//! Additive number-theoretic transforms over binary fields.

pub mod additive_twiddle;
pub mod arith;
pub mod butterfly;
pub mod domain_laws;
pub mod error;
pub mod evaluation;
pub mod field;
pub mod field_laws;
pub mod interleave;
pub mod lane_round;
pub mod laws;
pub mod model;
pub mod packed;
pub mod padding;
pub mod progress;
pub mod request_laws;
pub mod shape;
pub mod single_threaded;
pub mod subspace;
pub mod tower;
pub mod transform_laws;
pub mod twiddle;
