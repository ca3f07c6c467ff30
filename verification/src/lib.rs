//! An exact simulator for small registers of qubits.
//!
//! A register of `q` qubits is a vector of `2^q` complex amplitudes. Every
//! amplitude is kept as a Gaussian integer over a power of `√2`, which is
//! all that the Hadamard, Pauli and CNOT gates and the Fourier operator on
//! up to two qubits ever produce. Gate application, measurement and every
//! law about them are therefore exact: no rounding, no tolerance.
//!
//! - `complex`, `sums`: Gaussian integers and their finite sums.
//! - `gate`, `state`: matrices, vectors and the product of the two.
//! - `qubits`, `library`, `fourier`: the gates on chosen qubits.
//! - `measure`, `noise`, `random`: sampling, collapse and decoherence, and
//!   the random source they draw from.
//! - `circuit`: a session that owns one vector.
//! - `laws`: what holds of all of the above together.

pub mod circuit;
pub mod complex;
pub mod error;
pub mod fourier;
pub mod gate;
pub mod laws;
pub mod library;
pub mod measure;
pub mod noise;
pub mod qubits;
pub mod random;
pub mod state;
pub mod sums;
