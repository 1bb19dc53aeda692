//! End-to-end checks: the compiled circuits are replayed on the qip
//! state-vector simulator and the measured outcomes are compared with the
//! textbook predictions.

use qip::builder::{LocalBuilder, MeasurementHandle, Qudit, StochasticMeasurementHandle};
use qip::builder_traits::{
    CircuitBuilder as QipCircuitBuilder, CliffordTBuilder, MeasurementBuilder, RotationsBuilder,
    StochasticMeasurementBuilder, UnitaryBuilder,
};
use qip::conditioning::Conditionable;
use qip::Complex;

use quantum_algorithm::algorithms::{
    bernstein_vazirani_circuit, deutsch_circuit, deutsch_jozsa_circuit, superdense_circuit,
    swap_test_circuit, teleport_circuit,
};
use quantum_algorithm::circuit::CircuitBuilder;
use quantum_algorithm::gates::{GateKind, RotationAngle};
use quantum_algorithm::oracle::ClassicalFunction;

enum Out {
    Det(usize, f64),
    Stoch(Vec<f64>),
}

fn take_regs(regs: &mut Vec<Option<Qudit>>, slots: &[usize]) -> Vec<Qudit> {
    slots.iter().map(|s| regs[*s].take().expect("slot in use")).collect()
}

fn put_back(regs: &mut Vec<Option<Qudit>>, slots: &[usize], rs: Vec<Qudit>) {
    for (s, r) in slots.iter().zip(rs.into_iter()) {
        regs[*s] = Some(r);
    }
}

fn table_matrix(table: &[bool], qubits: usize) -> Vec<Complex<f64>> {
    let dim = 1usize << qubits;
    let mut m = vec![Complex::new(0.0, 0.0); dim * dim];
    for col in 0..dim {
        let x = col >> 1;
        let y = col & 1;
        let row = (x << 1) | (y ^ (table[x] as usize));
        m[row * dim + col] = Complex::new(1.0, 0.0);
    }
    m
}

fn apply_base<CB>(b: &mut CB, kind: &GateKind, slots: &[usize], regs: &mut Vec<Option<Qudit>>)
where
    CB: RotationsBuilder<f64, Register = Qudit> + Conditionable,
{
    match kind {
        GateKind::X => {
            for s in slots {
                let r = regs[*s].take().unwrap();
                regs[*s] = Some(b.x(r));
            }
        }
        GateKind::Z => {
            for s in slots {
                let r = regs[*s].take().unwrap();
                regs[*s] = Some(b.z(r));
            }
        }
        GateKind::H => {
            for s in slots {
                let r = regs[*s].take().unwrap();
                regs[*s] = Some(b.h(r));
            }
        }
        GateKind::Ry(angle) => {
            let theta = angle.pi_numer as f64 * std::f64::consts::PI / angle.pi_denom as f64;
            let r = regs[slots[0]].take().unwrap();
            regs[slots[0]] = Some(b.ry(r, theta));
        }
        GateKind::Cnot => {
            let c = regs[slots[0]].take().unwrap();
            let t = regs[slots[1]].take().unwrap();
            let (c, t) = b.cnot(c, t).unwrap();
            regs[slots[0]] = Some(c);
            regs[slots[1]] = Some(t);
        }
        GateKind::Cz => {
            let c = regs[slots[0]].take().unwrap();
            let t = regs[slots[1]].take().unwrap();
            let mut cond = b.condition_with(c);
            let t = cond.z(t);
            let c = cond.dissolve();
            regs[slots[0]] = Some(c);
            regs[slots[1]] = Some(t);
        }
        GateKind::Swap => {
            let w = slots.len() / 2;
            let ra = take_regs(regs, &slots[..w]);
            let rb = take_regs(regs, &slots[w..]);
            let ra = b.merge_registers(ra).unwrap();
            let rb = b.merge_registers(rb).unwrap();
            let (ra, rb) = b.swap(ra, rb).unwrap();
            put_back(regs, &slots[..w], b.split_all_register(ra));
            put_back(regs, &slots[w..], b.split_all_register(rb));
        }
        GateKind::Table(t) => {
            let rs = take_regs(regs, slots);
            let merged = b.merge_registers(rs).unwrap();
            let merged = b.apply_vec_matrix(merged, table_matrix(t, slots.len())).unwrap();
            put_back(regs, slots, b.split_all_register(merged));
        }
    }
}

/// Replay a compiled circuit on the qip simulator, initializing the listed
/// slot groups to classical values, and return every registered
/// measurement's result.
fn run(cb: &CircuitBuilder, inits: &[(Vec<usize>, usize)]) -> Vec<Out> {
    let n = cb.qubit_count();
    let mut b = LocalBuilder::<f64>::default();
    let mut regs: Vec<Option<Qudit>> = (0..n).map(|_| Some(b.qubit())).collect();
    for i in 0..cb.gate_count() {
        let gate = cb.gate_at(i).clone();
        if gate.controls.is_empty() {
            apply_base(&mut b, &gate.kind, &gate.targets, &mut regs);
        } else {
            let ctrls = take_regs(&mut regs, &gate.controls);
            let creg = b.merge_registers(ctrls).unwrap();
            let mut cond = b.condition_with(creg);
            apply_base(&mut cond, &gate.kind, &gate.targets, &mut regs);
            let creg = cond.dissolve();
            let singles = b.split_all_register(creg);
            put_back(&mut regs, &gate.controls, singles);
        }
    }
    enum H {
        Det(MeasurementHandle),
        Stoch(StochasticMeasurementHandle),
    }
    let mut handles: Vec<H> = Vec::new();
    for i in 0..cb.measurement_count() {
        let req = cb.measurement_at(i).clone();
        let rs = take_regs(&mut regs, &req.slots);
        let merged = b.merge_registers(rs).unwrap();
        if req.stochastic {
            let (_, h) = b.measure_stochastic(merged);
            handles.push(H::Stoch(h));
        } else {
            let (_, h) = b.measure(merged);
            handles.push(H::Det(h));
        }
    }
    let mut init_regs: Vec<(Qudit, usize)> = Vec::new();
    for (slots, value) in inits {
        let rs = take_regs(&mut regs, slots);
        let merged = b.merge_registers(rs).unwrap();
        init_regs.push((merged, *value));
    }
    let (_, measured) = b.calculate_state_with_init(init_regs.iter().map(|(r, v)| (r, *v)));
    handles
        .iter()
        .map(|h| match h {
            H::Det(h) => {
                let (v, p) = measured.get_measurement(*h);
                Out::Det(v, p)
            }
            H::Stoch(h) => Out::Stoch(measured.get_stochastic_measurement(*h).to_vec()),
        })
        .collect()
}

fn det(out: &Out) -> (usize, f64) {
    match out {
        Out::Det(v, p) => (*v, *p),
        Out::Stoch(_) => panic!("expected a deterministic measurement"),
    }
}

#[test]
fn deutsch_jozsa_constant_measures_zero() {
    for width in 1..=3usize {
        for bit in [false, true] {
            let (cb, handle) = deutsch_jozsa_circuit(width, &ClassicalFunction::Constant(bit))
                .expect("constant fits every width");
            let outs = run(&cb, &[]);
            let (v, p) = det(&outs[handle.id()]);
            assert_eq!(v, 0);
            assert!((p - 1.0).abs() < 1e-9);
        }
    }
}

#[test]
fn bernstein_vazirani_recovers_secret() {
    let secrets: Vec<Vec<bool>> = vec![
        vec![true],
        vec![true, false],
        vec![false, true, true],
        vec![true, false, true, true],
    ];
    for secret in secrets {
        let (cb, handle) = bernstein_vazirani_circuit(&secret);
        let outs = run(&cb, &[]);
        let (v, p) = det(&outs[handle.id()]);
        let expected: usize = secret
            .iter()
            .enumerate()
            .map(|(i, s)| if *s { 1usize << i } else { 0 })
            .sum();
        assert_eq!(v, expected);
        assert!((p - 1.0).abs() < 1e-9);
    }
}

#[test]
fn deutsch_distinguishes_constant_from_balanced() {
    for (f0, f1) in [(false, false), (false, true), (true, false), (true, true)] {
        let (cb, handle) = deutsch_circuit(f0, f1);
        let outs = run(&cb, &[]);
        let (v, p) = det(&outs[handle.id()]);
        let expected = if f0 == f1 { 0 } else { 1 };
        assert_eq!(v, expected);
        assert!((p - 1.0).abs() < 1e-9);
    }
}

#[test]
fn superdense_coding_transmits_two_bits() {
    for (a1, a2) in [(0usize, 0usize), (0, 1), (1, 0), (1, 1)] {
        let (cb, e1, e2, m_a, m_b) = superdense_circuit();
        let outs = run(&cb, &[(vec![e1.slot()], a1), (vec![e2.slot()], a2)]);
        let (va, pa) = det(&outs[m_a.id()]);
        let (vb, pb) = det(&outs[m_b.id()]);
        assert_eq!((va, vb), (a1, a2));
        assert!((pa * pb - 1.0).abs() < 1e-9);
    }
}

#[test]
fn swap_test_equal_and_distinct_states() {
    let width = 3usize;
    // equal classical states: the ancilla reads zero with certainty
    for v in [0usize, 1, 5] {
        let (cb, ra, rb, m) = swap_test_circuit(width);
        let outs = run(&cb, &[(ra.slots(), v), (rb.slots(), v)]);
        let (anc, p) = det(&outs[m.id()]);
        assert_eq!(anc, 0);
        assert!((p - 1.0).abs() < 1e-9);
    }
    // states differing in at least one bit: zero is read at least half of
    // the time, and never with certainty
    for (va, vb) in [(0usize, 1usize), (1, 0), (1, 1 | 4), (5, 2)] {
        let (cb, ra, rb, m) = swap_test_circuit(width);
        let outs = run(&cb, &[(ra.slots(), va), (rb.slots(), vb)]);
        let (anc, p) = det(&outs[m.id()]);
        let p0 = if anc == 0 { p } else { 1.0 - p };
        assert!(p0 >= 0.5 - 1e-9);
        assert!(p0 < 1.0 - 1e-9);
    }
}

#[test]
fn teleportation_preserves_the_input_distribution() {
    // theta = pi/3: the output qubit must read [cos^2, sin^2] = [0.75, 0.25]
    let angle = RotationAngle { pi_numer: 1, pi_denom: 3 };
    let (cb, _m_psi, _m_a, m_b) = teleport_circuit(angle);
    let outs = run(&cb, &[]);
    match &outs[m_b.id()] {
        Out::Stoch(probs) => {
            assert_eq!(probs.len(), 2);
            assert!((probs[0] - 0.75).abs() < 1e-9);
            assert!((probs[1] - 0.25).abs() < 1e-9);
        }
        Out::Det(_, _) => panic!("output measurement should be stochastic"),
    }
}

#[test]
fn teleportation_various_angles() {
    for denom in [2u64, 4, 5, 6] {
        let angle = RotationAngle { pi_numer: 1, pi_denom: denom };
        let theta = std::f64::consts::PI / denom as f64;
        let (cb, _m_psi, _m_a, m_b) = teleport_circuit(angle);
        let outs = run(&cb, &[]);
        match &outs[m_b.id()] {
            Out::Stoch(probs) => {
                let c = (theta / 2.0).cos();
                let s = (theta / 2.0).sin();
                assert!((probs[0] - c * c).abs() < 1e-9);
                assert!((probs[1] - s * s).abs() < 1e-9);
            }
            Out::Det(_, _) => panic!("output measurement should be stochastic"),
        }
    }
}
