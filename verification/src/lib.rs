//! A minimal fully-connected feedforward neural network: deterministic
//! parameter initialization, forward inference, backpropagation, and a
//! binary persistence format for the parameters.
//!
//! Every scalar the library computes with is the bit pattern of an IEEE-754
//! double-precision value carried in a `u64`; the arithmetic itself crosses
//! into outside crates behind the trusted boundary in `fp`.
pub mod dataset;
pub mod fp;
pub mod matrix;
pub mod model;
pub mod prng;
