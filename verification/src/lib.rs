//! Shape arithmetic, element layout and indexing for dense row-major tensors.
//!
//! The element type of a tensor is a parameter; the numeric kernels that need
//! real arithmetic are supplied by the caller as closures.
pub mod error;
pub mod shape;
pub mod tensor;
pub mod broadcast;
pub mod ops;
pub mod linalg;
pub mod indexing;
pub mod nn;
pub mod autograd;
pub mod creation;
