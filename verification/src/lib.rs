//! A verified simulator for a register of qubits.
//!
//! The state of an `n`-qubit register is a vector of `2^n` complex
//! amplitudes.  Every gate offered here (Hadamard, Pauli-X, controlled-X)
//! maps amplitudes with integer coordinates over a power of `sqrt(2)` to
//! amplitudes of the same shape, so the simulator keeps each amplitude as a
//! pair of integers together with one register-wide scaling exponent: entry
//! `(re, im)` of a register with exponent `shift` stands for the complex
//! number `(re + im*i) / sqrt(2)^shift`.  All arithmetic is exact, and the
//! rule that the squared norms sum to one is a proved equation over
//! integers rather than a floating-point approximation.

pub mod amplitude;
pub mod circuit;
pub mod gate;
pub mod index;
pub mod laws;
pub mod model;
mod rng;
mod sums;
