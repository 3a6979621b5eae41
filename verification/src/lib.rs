//! State-vector simulation of small quantum circuits.
//!
//! A [`Gate`] is a validated operator on an ordered list of qubits, a
//! [`Circuit`] an append-only sequence of gates over a fixed number of
//! qubits. Running a circuit embeds each gate into the full state space and
//! applies it to the state, starting from the all-zero basis state.
//!
//! The numeric work (double-double arithmetic, matrix products, determinants)
//! is done by `faer` and `qd`; everything discrete (shapes, target lists, the
//! index mapping of the embedding, labels) is verified here.
pub mod amplitude;
pub mod circuit;
pub mod error;
pub mod gate;
pub mod index;
pub mod matrix;
pub mod unitary;
pub use amplitude::{norm, C, DETERMINANT_TOLERANCE, IDENTITY_TOLERANCE};
pub use circuit::Circuit;
pub use error::Error;
pub use gate::Gate;
pub use matrix::{Matrix, Vector};
pub use unitary::{is_identity, is_unit};
