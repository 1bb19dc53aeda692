//! Build-phase checks: handle linearity, the error kinds, the condition
//! scope round trip, the merge/split round trip, and the synthesized gate
//! lists.

use quantum_algorithm::algorithms::{deutsch_jozsa_circuit, superdense_circuit, teleport_circuit};
use quantum_algorithm::circuit::CircuitBuilder;
use quantum_algorithm::gates::{BuildError, GateKind, RotationAngle};
use quantum_algorithm::oracle::{synthesize_oracle, ClassicalFunction};

#[test]
fn use_after_consume_always_fails() {
    let mut b = CircuitBuilder::new(4);
    let q = b.allocate().unwrap();
    let stale = q.clone();
    let q2 = b.h(q).unwrap();
    // the consumed handle is rejected by every operation, in every form
    assert_eq!(b.h(stale.clone()).unwrap_err(), BuildError::UseAfterConsume);
    assert_eq!(b.x(stale.clone()).unwrap_err(), BuildError::UseAfterConsume);
    assert_eq!(b.z(stale.clone()).unwrap_err(), BuildError::UseAfterConsume);
    let other = b.allocate().unwrap();
    assert_eq!(
        b.cnot(stale.clone(), other).unwrap_err(),
        BuildError::UseAfterConsume
    );
    assert_eq!(
        b.merge_qubits(vec![stale.clone()]).unwrap_err(),
        BuildError::UseAfterConsume
    );
    assert_eq!(
        b.begin_condition(stale.clone()).unwrap_err(),
        BuildError::UseAfterConsume
    );
    // the fresh reissue of the same slot still works
    let _ = b.h(q2).unwrap();
}

#[test]
fn aliasing_is_rejected() {
    let mut b = CircuitBuilder::new(4);
    let q = b.allocate().unwrap();
    let twin = q.clone();
    assert_eq!(
        b.merge_qubits(vec![q, twin]).unwrap_err(),
        BuildError::AliasingViolation
    );
    let mut b = CircuitBuilder::new(4);
    let q = b.allocate().unwrap();
    let twin = q.clone();
    assert_eq!(b.cnot(q, twin).unwrap_err(), BuildError::AliasingViolation);
}

#[test]
fn dimension_mismatch_on_unequal_swap() {
    let mut b = CircuitBuilder::new(8);
    let ra = b.allocate_register(2).unwrap();
    let rb = b.allocate_register(3).unwrap();
    assert_eq!(b.swap(ra, rb).unwrap_err(), BuildError::DimensionMismatch);
}

#[test]
fn dimension_mismatch_on_wrong_secret_width() {
    let f = ClassicalFunction::BalancedXor(vec![true, false]);
    match deutsch_jozsa_circuit(3, &f) {
        Err(e) => assert_eq!(e, BuildError::DimensionMismatch),
        Ok(_) => panic!("a two-bit secret must not fit a width-three query"),
    }
    let g = ClassicalFunction::Table(vec![true, false]);
    match deutsch_jozsa_circuit(3, &g) {
        Err(e) => assert_eq!(e, BuildError::DimensionMismatch),
        Ok(_) => panic!("a two-entry table must not fit a width-three query"),
    }
}

#[test]
fn resource_exhausted_at_capacity() {
    let mut b = CircuitBuilder::new(1);
    let _q = b.allocate().unwrap();
    assert_eq!(b.allocate().unwrap_err(), BuildError::ResourceExhausted);
    assert_eq!(
        b.allocate_register(2).unwrap_err(),
        BuildError::ResourceExhausted
    );
}

#[test]
fn circuit_finalized_blocks_extension() {
    let mut b = CircuitBuilder::new(2);
    let q = b.allocate().unwrap();
    b.finalize().unwrap();
    assert!(b.is_finalized());
    assert_eq!(b.h(q).unwrap_err(), BuildError::CircuitFinalized);
    assert_eq!(b.allocate().unwrap_err(), BuildError::CircuitFinalized);
    // finalization is idempotent
    b.finalize().unwrap();
}

#[test]
fn scope_leak_on_live_inner_allocation() {
    let mut b = CircuitBuilder::new(4);
    let c = b.allocate().unwrap();
    let scope = b.begin_condition(c).unwrap();
    let _leaked = b.allocate().unwrap();
    assert_eq!(b.dissolve(scope).unwrap_err(), BuildError::ScopeLeak);
}

#[test]
fn scope_leak_on_finalize_with_open_scope() {
    let mut b = CircuitBuilder::new(4);
    let c = b.allocate().unwrap();
    let _scope = b.begin_condition(c).unwrap();
    assert_eq!(b.finalize().unwrap_err(), BuildError::ScopeLeak);
}

#[test]
fn inner_allocation_consumed_before_dissolve_is_fine() {
    let mut b = CircuitBuilder::new(4);
    let c = b.allocate().unwrap();
    let scope = b.begin_condition(c).unwrap();
    let t = b.allocate().unwrap();
    let t = b.x(t).unwrap();
    let r = b.merge_qubits(vec![t]).unwrap();
    let _m = b.register_measurement(r).unwrap();
    let c = b.dissolve(scope).unwrap();
    let _ = b.h(c).unwrap();
}

#[test]
fn condition_scope_round_trip_is_repeatable() {
    let mut b = CircuitBuilder::new(2);
    let mut c = b.allocate().unwrap();
    let t = b.allocate().unwrap();
    let mut t = Some(t);
    for _ in 0..3 {
        let scope = b.begin_condition(c).unwrap();
        // while the scope is open, gates are conditioned on the control
        let t2 = b.x(t.take().unwrap()).unwrap();
        t = Some(t2);
        c = b.dissolve(scope).unwrap();
        // the returned control is usable exactly like a fresh handle
        c = b.h(c).unwrap();
        c = b.h(c).unwrap();
    }
    let n = b.gate_count();
    // three conditioned bit flips and six hadamards were recorded
    assert_eq!(n, 9);
    assert_eq!(b.gate_at(0).controls, vec![c.slot()]);
}

#[test]
fn merge_split_round_trip_recovers_slots_in_order() {
    let mut b = CircuitBuilder::new(4);
    let mut qs = Vec::new();
    for _ in 0..4 {
        qs.push(b.allocate().unwrap());
    }
    let expected: Vec<usize> = qs.iter().map(|q| q.slot()).collect();
    let mut reg = b.merge_qubits(qs).unwrap();
    assert_eq!(reg.slots(), expected);
    let mut recovered = Vec::new();
    for _ in 0..4 {
        let (first, rest) = b.split_first(reg).unwrap();
        recovered.push(first.expect("non-empty register must split").slot());
        reg = rest;
    }
    assert_eq!(recovered, expected);
    assert_eq!(reg.width(), 0);
    let (none, empty) = b.split_first(reg).unwrap();
    assert!(none.is_none());
    assert_eq!(empty.width(), 0);
}

#[test]
fn constant_false_oracle_emits_nothing() {
    let mut b = CircuitBuilder::new(3);
    let query = b.allocate_register(2).unwrap();
    let anc = b.allocate().unwrap();
    let (_q, _a) =
        synthesize_oracle(&mut b, query, anc, &ClassicalFunction::Constant(false)).unwrap();
    assert_eq!(b.gate_count(), 0);
}

#[test]
fn constant_true_oracle_flips_the_ancilla() {
    let mut b = CircuitBuilder::new(3);
    let query = b.allocate_register(2).unwrap();
    let anc = b.allocate().unwrap();
    let anc_slot = anc.slot();
    let (_q, _a) =
        synthesize_oracle(&mut b, query, anc, &ClassicalFunction::Constant(true)).unwrap();
    assert_eq!(b.gate_count(), 1);
    let g = b.gate_at(0);
    assert!(matches!(g.kind, GateKind::X));
    assert_eq!(g.targets, vec![anc_slot]);
    assert!(g.controls.is_empty());
}

#[test]
fn xor_oracle_emits_one_cnot_per_set_bit() {
    let mut b = CircuitBuilder::new(4);
    let query = b.allocate_register(3).unwrap();
    let slots = query.slots();
    let anc = b.allocate().unwrap();
    let anc_slot = anc.slot();
    let secret = ClassicalFunction::BalancedXor(vec![true, false, true]);
    let (_q, _a) = synthesize_oracle(&mut b, query, anc, &secret).unwrap();
    assert_eq!(b.gate_count(), 2);
    let g0 = b.gate_at(0);
    assert!(matches!(g0.kind, GateKind::Cnot));
    assert_eq!(g0.targets, vec![slots[0], anc_slot]);
    let g1 = b.gate_at(1);
    assert!(matches!(g1.kind, GateKind::Cnot));
    assert_eq!(g1.targets, vec![slots[2], anc_slot]);
}

#[test]
fn built_circuits_report_their_shape() {
    let (cb, e1, e2, m_a, m_b) = superdense_circuit();
    assert_eq!(cb.qubit_count(), 4);
    assert_eq!(cb.gate_count(), 6);
    assert_eq!(cb.measurement_count(), 2);
    assert_eq!((e1.slot(), e2.slot()), (0, 1));
    assert_eq!((m_a.id(), m_b.id()), (0, 1));
    // the encoding phase flip is conditioned on Alice's first bit
    let g = cb.gate_at(2);
    assert!(matches!(g.kind, GateKind::Z));
    assert_eq!(g.controls, vec![0]);
    assert!(cb.is_finalized());

    let angle = RotationAngle { pi_numer: 1, pi_denom: 3 };
    let (cb, m_psi, m_a, m_b) = teleport_circuit(angle);
    assert_eq!(cb.qubit_count(), 3);
    assert_eq!(cb.gate_count(), 7);
    assert!(matches!(cb.gate_at(0).kind, GateKind::Ry(a) if a == angle));
    assert_eq!((m_psi.id(), m_a.id(), m_b.id()), (0, 1, 2));
    assert!(!cb.measurement_at(0).stochastic);
    assert!(cb.measurement_at(2).stochastic);
    assert_eq!(cb.measurement_at(2).slots, vec![2]);
}
