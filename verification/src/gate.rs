//! Gate descriptors.

use vstd::prelude::*;

verus! {

use crate::model::QState;
use crate::model::apply_cx;
use crate::model::apply_h;
use crate::model::apply_x;

/// One elementary gate, carrying the qubit index or indices it acts on.
#[derive(Clone, Copy, PartialEq, Eq, Structural, Debug)]
pub enum Gate {
    /// Hadamard on the given qubit.
    H(usize),
    /// Pauli-X ("NOT") on the given qubit.
    X(usize),
    /// Controlled-X ("CNOT") with control and target qubit.
    CX(usize, usize),
}

impl Gate {
    /// The qubit indices lie below `n`, and a controlled-X has distinct
    /// control and target.
    pub open spec fn wf(self, n: nat) -> bool {
        match self {
            Gate::H(q) => (q as nat) < n,
            Gate::X(q) => (q as nat) < n,
            Gate::CX(c, t) => (c as nat) < n && (t as nat) < n && c != t,
        }
    }
}

/// The action of a gate on the abstract state.
pub open spec fn apply_gate_spec(st: QState, g: Gate) -> QState {
    match g {
        Gate::H(q) => apply_h(st, q as nat),
        Gate::X(q) => apply_x(st, q as nat),
        Gate::CX(c, t) => apply_cx(st, c as nat, t as nat),
    }
}

} // verus!
