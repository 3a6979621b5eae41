//! The ways in which building a gate or a circuit can fail.
use vstd::prelude::*;

verus! {

/// Why a gate, a circuit step or an initial state was rejected.
#[derive(Clone, Copy, Debug, PartialEq, Eq, Structural)]
pub enum Error {
    /// The operator is not square, or its dimension is not two to the number
    /// of targets, or an operator of that dimension cannot be held in memory.
    MalformedOperator,
    /// A qubit index occurs twice in one gate's target list.
    DuplicateTarget,
    /// The operator failed the unitarity check.
    NotUnitary,
    /// A qubit index is not below the circuit's qubit count.
    QubitIndexOutOfRange,
    /// A basis index is not below two to the qubit count.
    InvalidInitialIndex,
    /// The circuit has no qubits, so there is nothing to run.
    NoQubits,
}

} // verus!
