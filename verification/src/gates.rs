//! Plain data carried by a compiled circuit: error kinds, gate descriptions
//! and pending-measurement records, together with their mathematical models.

use vstd::prelude::*;

verus! {

/// The failure kinds of circuit construction.  All are fatal: an operation
/// that fails leaves the builder exactly as it was, and no partially-built
/// circuit is ever usable.
#[derive(Clone, Copy, Debug, PartialEq, Eq, Structural)]
pub enum BuildError {
    /// A handle was referenced after being passed to a consuming operation.
    UseAfterConsume,
    /// A handle appears twice in the input set of one operation.
    AliasingViolation,
    /// Register widths disagree where equality is required.
    DimensionMismatch,
    /// A condition scope was dissolved while a handle allocated inside it
    /// was still live, or a scope token was redeemed out of order.
    ScopeLeak,
    /// The requested qubit count exceeds the simulator capacity.
    ResourceExhausted,
    /// An attempt was made to extend the circuit after finalization.
    CircuitFinalized,
}

/// A rotation angle, expressed exactly as the rational multiple
/// `pi_numer / pi_denom` of pi.
#[derive(Clone, Copy, Debug, PartialEq, Eq, Structural)]
pub struct RotationAngle {
    pub pi_numer: i64,
    pub pi_denom: u64,
}

impl RotationAngle {
    /// A meaningful angle has a non-zero denominator.
    pub open spec fn wf(self) -> bool {
        self.pi_denom >= 1
    }
}

/// The kind of one gate of the compiled circuit.
#[derive(Clone, Debug)]
pub enum GateKind {
    /// Bit flip on each target qubit.
    X,
    /// Phase flip on each target qubit.
    Z,
    /// Hadamard on each target qubit.
    H,
    /// Rotation about the y axis on one target qubit.
    Ry(RotationAngle),
    /// Controlled not: the first target controls a bit flip of the second.
    Cnot,
    /// Controlled phase flip: first target controls, second is flipped.
    Cz,
    /// Exchange of two equal-width halves of the target list.
    Swap,
    /// Bit oracle over a truth table: the targets are a query register
    /// followed by one ancilla; the ancilla is flipped exactly when the
    /// table entry indexed by the query bits is set.
    Table(Vec<bool>),
}

#[verifier::ext_equal]
pub ghost enum GateKindModel {
    X,
    Z,
    H,
    Ry(RotationAngle),
    Cnot,
    Cz,
    Swap,
    Table(Seq<bool>),
}

impl View for GateKind {
    type V = GateKindModel;

    open spec fn view(&self) -> GateKindModel {
        match self {
            GateKind::X => GateKindModel::X,
            GateKind::Z => GateKindModel::Z,
            GateKind::H => GateKindModel::H,
            GateKind::Ry(a) => GateKindModel::Ry(*a),
            GateKind::Cnot => GateKindModel::Cnot,
            GateKind::Cz => GateKindModel::Cz,
            GateKind::Swap => GateKindModel::Swap,
            GateKind::Table(t) => GateKindModel::Table(t@),
        }
    }
}

/// One gate of the compiled circuit.  `targets` are the qubit slots the
/// gate acts on, in order; `controls` are the slots of every control
/// borrowed by the condition scopes that were open when it was emitted
/// (it acts only on the subspace where all controls are one).
#[derive(Clone, Debug)]
pub struct Gate {
    pub kind: GateKind,
    pub targets: Vec<usize>,
    pub controls: Vec<usize>,
}

#[verifier::ext_equal]
pub ghost struct GateModel {
    pub kind: GateKindModel,
    pub targets: Seq<usize>,
    pub controls: Seq<usize>,
}

impl View for Gate {
    type V = GateModel;

    open spec fn view(&self) -> GateModel {
        GateModel { kind: self.kind@, targets: self.targets@, controls: self.controls@ }
    }
}

/// A measurement registered at build time: the slots to read, in order,
/// and whether the full outcome distribution is requested instead of one
/// collapsed sample.
#[derive(Clone, Debug)]
pub struct MeasurementRequest {
    pub slots: Vec<usize>,
    pub stochastic: bool,
}

#[verifier::ext_equal]
pub ghost struct MeasurementModel {
    pub slots: Seq<usize>,
    pub stochastic: bool,
}

impl View for MeasurementRequest {
    type V = MeasurementModel;

    open spec fn view(&self) -> MeasurementModel {
        MeasurementModel { slots: self.slots@, stochastic: self.stochastic }
    }
}

} // verus!
