//! A small dense complex-matrix and vector algebra kernel for quantum-style
//! simulations: complex scalars, vectors and matrices, tensor (Kronecker)
//! products, partial traces over a two-factor tensor space, and unitary
//! time-evolution operators built by a truncated exponential series.
//!
//! Scalars are exact fractions of 128-bit integers standing in for the
//! floating-point components a simulation would use; every operation either
//! returns the exact mathematical result or reports a `KernelError` instead
//! of silently overflowing or dividing by zero.

mod errors;
pub mod rational;
pub mod complex;
pub mod matrix;
pub mod laws;
pub mod vector;
pub mod evolve;
pub mod particles;
pub mod operators;
pub mod lattice;

pub use errors::KernelError;
pub use rational::{Rational, Qv};
pub use complex::{Complex, Cv};
pub use matrix::{Matrix, Mv};
pub use vector::Vector;
pub use particles::ParticleType;
