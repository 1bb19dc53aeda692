//! Oracle synthesis: turning a hidden classical function into a gate
//! sequence of the standard bit oracle used by quantum-query algorithms.

use vstd::prelude::*;

use crate::circuit::{table_dims_ok, CircuitBuilder, QubitHandle, Register};
use crate::gates::{BuildError, GateKindModel, GateModel};
use crate::model::{
    controls_of, single_qubit_gate_step, table_step, xor_oracle_gates, xor_oracle_step,
};

verus! {

/// The hidden classical function an oracle realizes, represented as data so
/// that the synthesizer can pattern-match and emit gates structurally.
pub enum ClassicalFunction {
    /// Output independent of the input.
    Constant(bool),
    /// Output is the parity of the input AND the secret bitstring: the
    /// linear form used by Bernstein-Vazirani and balanced Deutsch-Jozsa
    /// instances.  For any non-zero secret it is genuinely balanced.
    BalancedXor(Vec<bool>),
    /// An explicit truth table, indexed by the query basis state; realized
    /// by direct matrix application, for query widths up to two.
    Table(Vec<bool>),
}

#[verifier::ext_equal]
pub ghost enum ClassicalFunctionModel {
    Constant(bool),
    BalancedXor(Seq<bool>),
    Table(Seq<bool>),
}

impl View for ClassicalFunction {
    type V = ClassicalFunctionModel;

    open spec fn view(&self) -> ClassicalFunctionModel {
        match self {
            ClassicalFunction::Constant(b) => ClassicalFunctionModel::Constant(*b),
            ClassicalFunction::BalancedXor(s) => ClassicalFunctionModel::BalancedXor(s@),
            ClassicalFunction::Table(t) => ClassicalFunctionModel::Table(t@),
        }
    }
}

/// Whether a hidden function fits a query register of the given width.
pub open spec fn oracle_dims_ok(f: ClassicalFunctionModel, width: nat) -> bool {
    match f {
        ClassicalFunctionModel::Constant(_) => true,
        ClassicalFunctionModel::BalancedXor(s) => s.len() == width,
        ClassicalFunctionModel::Table(t) => table_dims_ok(width, t.len()),
    }
}

/// Gate sequence the synthesizer emits for a hidden function, given the
/// query slots, the ancilla slot and the controls open at emission time.
pub open spec fn oracle_gates(qslots: Seq<usize>, anc: usize, f: ClassicalFunctionModel, controls: Seq<usize>) -> Seq<GateModel> {
    match f {
        ClassicalFunctionModel::Constant(bit) => if bit {
            seq![GateModel { kind: GateKindModel::X, targets: seq![anc], controls }]
        } else {
            Seq::empty()
        },
        ClassicalFunctionModel::BalancedXor(s) => xor_oracle_gates(qslots, s, anc, controls),
        ClassicalFunctionModel::Table(t) => seq![
            GateModel { kind: GateKindModel::Table(t), targets: qslots + seq![anc], controls },
        ],
    }
}

fn clone_bools(v: &Vec<bool>) -> (r: Vec<bool>)
    ensures
        r@ == v@,
{
    let mut r: Vec<bool> = Vec::new();
    let mut i: usize = 0;
    while i < v.len()
        invariant
            i <= v@.len(),
            r@ == v@.take(i as int),
        decreases v@.len() - i,
    {
        r.push(v[i]);
        proof {
            assert(v@.take(i as int).push(v@[i as int]) =~= v@.take(i + 1 as int));
        }
        i = i + 1;
    }
    proof {
        assert(v@.take(v@.len() as int) =~= v@);
    }
    r
}

/// Emit the bit oracle for the hidden function `f` over a query register
/// and an ancilla.  `Constant(false)` emits nothing and hands both handles
/// back unchanged; every other form consumes and reissues them.
pub fn synthesize_oracle(b: &mut CircuitBuilder, query: Register, ancilla: QubitHandle, f: &ClassicalFunction) -> (r: Result<
    (Register, QubitHandle),
    BuildError,
>)
    requires
        old(b).wf(),
    ensures
        final(b).wf(),
        match r {
            Ok(p) => {
                &&& !old(b)@.finalized
                &&& old(b)@.register_live(query@)
                &&& old(b)@.qubit_live(ancilla@)
                &&& query@.gen != ancilla@.gen
                &&& oracle_dims_ok(f@, query@.slots.len())
                &&& final(b)@.gates == old(b)@.gates + oracle_gates(
                    query@.slots,
                    ancilla@.slot,
                    f@,
                    controls_of(old(b)@.scopes),
                )
                &&& final(b)@.register_live(p.0@)
                &&& p.0@.slots == query@.slots
                &&& final(b)@.qubit_live(p.1@)
                &&& p.1@.slot == ancilla@.slot
                &&& match f@ {
                    ClassicalFunctionModel::Constant(bit) => if bit {
                        final(b)@ == single_qubit_gate_step(old(b)@, ancilla@, GateKindModel::X)
                            && p.0@ == query@
                    } else {
                        *final(b) == *old(b) && p.0@ == query@ && p.1@ == ancilla@
                    },
                    ClassicalFunctionModel::BalancedXor(s) => final(b)@ == xor_oracle_step(
                        old(b)@,
                        query@,
                        ancilla@,
                        s,
                    ),
                    ClassicalFunctionModel::Table(t) => final(b)@ == table_step(
                        old(b)@,
                        query@,
                        ancilla@,
                        t,
                    ),
                }
            },
            Err(e) => {
                &&& *final(b) == *old(b)
                &&& if old(b)@.finalized {
                    e == BuildError::CircuitFinalized
                } else if !old(b)@.register_live(query@) || !old(b)@.qubit_live(ancilla@) {
                    e == BuildError::UseAfterConsume
                } else if query@.gen == ancilla@.gen {
                    e == BuildError::AliasingViolation
                } else if !oracle_dims_ok(f@, query@.slots.len()) {
                    e == BuildError::DimensionMismatch
                } else {
                    false
                }
            },
        },
{
    if b.is_finalized() {
        return Err(BuildError::CircuitFinalized);
    }
    if !b.register_is_live(&query) || !b.qubit_is_live(&ancilla) {
        return Err(BuildError::UseAfterConsume);
    }
    match f {
        ClassicalFunction::Constant(bit) => {
            if query.same_generation(&ancilla) {
                return Err(BuildError::AliasingViolation);
            }
            if *bit {
                match b.x(ancilla) {
                    Ok(anc2) => {
                        proof {
                            old(b).lemma_wf_model();
                            assert(query@.gen < old(b)@.slots.len());
                            assert(b@.gates =~= old(b)@.gates + oracle_gates(
                                query@.slots,
                                anc2@.slot,
                                f@,
                                controls_of(old(b)@.scopes),
                            ));
                            assert(b@.live[query@.gen as int] == old(b)@.live[query@.gen as int]);
                            assert(b@.slots[query@.gen as int] == old(b)@.slots[query@.gen as int]);
                            assert(b@.register_live(query@));
                        }
                        Ok((query, anc2))
                    },
                    Err(e) => {
                        proof {
                            assert(false);
                        }
                        Err(e)
                    },
                }
            } else {
                proof {
                    assert(b@.gates =~= b@.gates + oracle_gates(
                        query@.slots,
                        ancilla@.slot,
                        f@,
                        controls_of(b@.scopes),
                    ));
                }
                Ok((query, ancilla))
            }
        },
        ClassicalFunction::BalancedXor(s) => {
            if query.same_generation(&ancilla) {
                return Err(BuildError::AliasingViolation);
            }
            if s.len() != query.width() {
                return Err(BuildError::DimensionMismatch);
            }
            match b.xor_oracle(query, ancilla, s) {
                Ok(p) => Ok(p),
                Err(e) => {
                    proof {
                        assert(false);
                    }
                    Err(e)
                },
            }
        },
        ClassicalFunction::Table(t) => {
            if query.same_generation(&ancilla) {
                return Err(BuildError::AliasingViolation);
            }
            let w = query.width();
            let want: usize = if w == 0 { 1 } else if w == 1 { 2 } else { 4 };
            if w > 2 || t.len() != want {
                return Err(BuildError::DimensionMismatch);
            }
            let tc = clone_bools(t);
            match b.apply_table(query, ancilla, tc) {
                Ok(p) => Ok(p),
                Err(e) => {
                    proof {
                        assert(false);
                    }
                    Err(e)
                },
            }
        },
    }
}

} // verus!
