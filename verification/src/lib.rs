//! A sparse-state simulator for systems of qubits.
//!
//! The simulator stores only the basis states with non-negligible amplitude,
//! keyed by an arbitrary-width basis index, and keeps the representation
//! normalized, duplicate-free and zero-pruned across every operation.

use vstd::prelude::*;

pub mod amp;
pub mod index;
pub mod inverses;
pub mod sim;

verus! {

/// Error raised when an operation references an identifier that is not live,
/// or when an operand list resolves to a duplicate qubit.
///
/// Either condition is a programming error in the caller; the operation
/// aborts without touching the state.
#[derive(Clone, Copy, Debug, PartialEq, Eq, Structural)]
pub enum UsageError {
    /// The given identifier does not correspond to an allocated qubit.
    UnknownId(usize),
    /// The given identifier appears more than once in one operation's
    /// target and control list.
    DuplicateId(usize),
}

} // verus!
