//! The circuits of the query algorithms (Deutsch, Deutsch-Jozsa,
//! Bernstein-Vazirani) and of the entanglement demonstrations (superdense
//! coding, swap test, teleportation), assembled through the verified
//! builder.  Each constructor pins down the exact gate list and the
//! registered measurements of the circuit it returns.

use vstd::prelude::*;

use crate::circuit::{CircuitBuilder, MeasurementHandle, QubitHandle, Register};
use crate::gates::{BuildError, GateKindModel, GateModel, MeasurementModel, RotationAngle};
use crate::model::FrameModel;
use crate::oracle::{
    oracle_dims_ok, oracle_gates, synthesize_oracle, ClassicalFunction, ClassicalFunctionModel,
};

verus! {

fn must<T>(r: Result<T, BuildError>) -> (t: T)
    requires
        r is Ok,
    ensures
        t == r.unwrap(),
{
    match r {
        Ok(t) => t,
        Err(_) => vstd::pervasive::unreached(),
    }
}

fn clone_bools(v: &Vec<bool>) -> (r: Vec<bool>)
    ensures
        r@ == v@,
{
    let mut r: Vec<bool> = Vec::new();
    let mut i: usize = 0;
    while i < v.len()
        invariant
            i <= v@.len(),
            r@ == v@.take(i as int),
        decreases v@.len() - i,
    {
        r.push(v[i]);
        proof {
            assert(v@.take(i as int).push(v@[i as int]) =~= v@.take(i + 1 as int));
        }
        i = i + 1;
    }
    proof {
        assert(v@.take(v@.len() as int) =~= v@);
    }
    r
}

/// The query slots of a width-`n` query circuit: slots `0 .. n-1` (the
/// ancilla sits at slot `n`).
pub open spec fn query_slots(n: nat) -> Seq<usize> {
    Seq::new(n, |i: int| i as usize)
}

/// A Hadamard gate on each listed slot, in order, unconditioned.
pub open spec fn h_each(slots: Seq<usize>) -> Seq<GateModel>
    decreases slots.len(),
{
    if slots.len() == 0 {
        Seq::empty()
    } else {
        h_each(slots.drop_last()).push(
            GateModel {
                kind: GateKindModel::H,
                targets: seq![slots.last()],
                controls: Seq::empty(),
            },
        )
    }
}

/// The full gate list of the width-`n` query circuit for the hidden
/// function `f`: Hadamard on each query qubit, bit-flip then Hadamard on
/// the ancilla, the oracle, and a final Hadamard over the query register.
pub open spec fn deutsch_jozsa_gates(n: nat, f: ClassicalFunctionModel) -> Seq<GateModel> {
    h_each(query_slots(n)) + seq![
        GateModel { kind: GateKindModel::X, targets: seq![n as usize], controls: Seq::empty() },
        GateModel { kind: GateKindModel::H, targets: seq![n as usize], controls: Seq::empty() },
    ] + oracle_gates(query_slots(n), n as usize, f, Seq::empty()) + seq![
        GateModel { kind: GateKindModel::H, targets: query_slots(n), controls: Seq::empty() },
    ]
}

/// Build the width-`width` Deutsch-Jozsa query circuit for the hidden
/// function `f`: the query register is measured deterministically, so a
/// constant function yields outcome zero with certainty and an XOR-balanced
/// function yields its secret.  Fails with `DimensionMismatch` exactly when
/// `f` does not fit the width.
pub fn deutsch_jozsa_circuit(width: usize, f: &ClassicalFunction) -> (r: Result<
    (CircuitBuilder, MeasurementHandle),
    BuildError,
>)
    requires
        width >= 1,
        width < usize::MAX,
    ensures
        match r {
            Ok(p) => {
                &&& oracle_dims_ok(f@, width as nat)
                &&& p.0.wf()
                &&& p.0@.finalized
                &&& p.0@.num_slots == width + 1
                &&& p.0@.capacity == width + 1
                &&& p.0@.gates == deutsch_jozsa_gates(width as nat, f@)
                &&& p.0@.measurements == seq![
                    MeasurementModel { slots: query_slots(width as nat), stochastic: false },
                ]
                &&& p.1@ == 0
            },
            Err(e) => {
                &&& e == BuildError::DimensionMismatch
                &&& !oracle_dims_ok(f@, width as nat)
            },
        },
{
    let dims_ok: bool = match f {
        ClassicalFunction::Constant(_) => true,
        ClassicalFunction::BalancedXor(s) => s.len() == width,
        ClassicalFunction::Table(t) => {
            let want: usize = if width == 1 { 2 } else { 4 };
            width <= 2 && t.len() == want
        },
    };
    if !dims_ok {
        return Err(BuildError::DimensionMismatch);
    }
    let mut b = CircuitBuilder::new(width + 1);
    proof {
        b.lemma_wf_model();
    }
    let mut qs: Vec<QubitHandle> = Vec::new();
    let mut i: usize = 0;
    while i < width
        invariant
            b.wf(),
            b@.wf(),
            width < usize::MAX,
            b@.capacity == width + 1,
            b@.num_slots == i,
            b@.finalized == false,
            b@.scopes == Seq::<FrameModel>::empty(),
            b@.measurements == Seq::<MeasurementModel>::empty(),
            b@.gates == h_each(query_slots(i as nat)),
            i <= width,
            qs@.len() == i,
            forall|j: int| 0 <= j < i
                ==> b@.qubit_live(#[trigger] qs@[j]@) && qs@[j]@.slot == j,
            forall|j: int| 0 <= j < i ==> #[trigger] qs@[j]@.gen < b@.live.len(),
            forall|j1: int, j2: int| #![trigger qs@[j1]@, qs@[j2]@]
                0 <= j1 < j2 < i ==> qs@[j1]@.gen != qs@[j2]@.gen,
        decreases width - i,
    {
        let ghost mpre = b@;
        let qa = must(b.allocate());
        let ghost qav = qa@;
        let ghost malloc = b@;
        let q = must(b.h(qa));
        proof {
            b.lemma_wf_model();
            assert(crate::model::controls_of(malloc.scopes) =~= Seq::<usize>::empty());
            assert(query_slots((i + 1) as nat).drop_last() =~= query_slots(i as nat));
            assert(query_slots((i + 1) as nat).last() == i as usize);
            assert(b@.gates =~= h_each(query_slots((i + 1) as nat)));
            assert(b@.scopes =~= Seq::<FrameModel>::empty());
            assert forall|j: int| 0 <= j < i
                implies b@.qubit_live(#[trigger] qs@[j]@) && qs@[j]@.slot == j by {
                assert(mpre.qubit_live(qs@[j]@));
                assert(qs@[j]@.gen < mpre.live.len());
                crate::model::lemma_alloc_preserves_qubit(mpre, qs@[j]@);
                assert(malloc.qubit_live(qs@[j]@));
                crate::model::lemma_single_gate_preserves_qubit(
                    malloc,
                    qav,
                    GateKindModel::H,
                    qs@[j]@,
                );
            }
        }
        qs.push(q);
        i = i + 1;
    }
    let ghost mloop = b@;
    let ghost qv = qs@.map_values(|q: QubitHandle| q@);
    let anc0 = must(b.allocate());
    let ghost a0 = anc0@;
    let ghost m1 = b@;
    let anc1 = must(b.x(anc0));
    let ghost a1 = anc1@;
    let ghost m2 = b@;
    let anc = must(b.h(anc1));
    let ghost m3 = b@;
    proof {
        b.lemma_wf_model();
        assert(crate::model::controls_of(m1.scopes) =~= Seq::<usize>::empty());
        assert(crate::model::controls_of(m2.scopes) =~= Seq::<usize>::empty());
        assert(anc@.slot == width);
        assert(b@.scopes =~= Seq::<FrameModel>::empty());
        assert(m1.slots.len() == m1.live.len());
        assert(m2.slots.len() == m2.live.len());
        assert forall|j: int| 0 <= j < width
            implies b@.qubit_live(#[trigger] qs@[j]@) by {
            assert(mloop.qubit_live(qs@[j]@));
            assert(qs@[j]@.gen < mloop.live.len());
            crate::model::lemma_alloc_preserves_qubit(mloop, qs@[j]@);
            assert(m1.qubit_live(qs@[j]@));
            crate::model::lemma_single_gate_preserves_qubit(m1, a0, GateKindModel::X, qs@[j]@);
            assert(m2.qubit_live(qs@[j]@));
            crate::model::lemma_single_gate_preserves_qubit(m2, a1, GateKindModel::H, qs@[j]@);
        }
        assert forall|j: int| 0 <= j < qv.len()
            implies b@.qubit_live(#[trigger] qv[j]) && #[trigger] qv[j].gen < mloop.live.len() by {
            assert(qv[j] == qs@[j]@);
        }
        assert(anc@.gen >= mloop.live.len());
    }
    proof {
        assert forall|j1: int, j2: int| #![trigger qs@[j1]@, qs@[j2]@]
            0 <= j1 < j2 < qs@.len() implies qs@[j1]@.gen != qs@[j2]@.gen by {
            assert(qv[j1] == qs@[j1]@ && qv[j2] == qs@[j2]@);
        }
        assert forall|j: int| 0 <= j < qs@.len()
            implies m3.qubit_live(#[trigger] qs@[j]@) by {
            assert(qv[j] == qs@[j]@);
        }
    }
    let query = must(b.merge_qubits(qs));
    let ghost m4 = b@;
    proof {
        assert(m4 == crate::model::merge_qubits_step(m3, qv));
        assert(query@.slots =~= query_slots(width as nat)) by {
            assert forall|j: int| 0 <= j < width
                implies crate::model::qubit_slots(qv)[j] == j as usize by {
                assert(qv[j] == qs@[j]@);
            }
        }
        // the ancilla survives the merge: its generation is none of the
        // merged ones
        let gens = crate::model::qubit_gens(qv);
        assert forall|i2: int| 0 <= i2 < gens.len()
            implies (#[trigger] gens[i2] as int) < m3.live.len() by {
            assert(gens[i2] == qv[i2].gen);
            assert(m3.qubit_live(qv[i2]));
        }
        crate::model::lemma_consume_all_facts(m3, gens);
        assert(!gens.contains(anc@.gen)) by {
            if gens.contains(anc@.gen) {
                let i2 = choose|i2: int| 0 <= i2 < gens.len() && gens[i2] == anc@.gen;
                assert(gens[i2] == qv[i2].gen);
                assert(qv[i2].gen < mloop.live.len());
            }
        }
        assert(m3.slots.len() == m3.live.len());
        assert(crate::model::consume_all(m3, gens).live[anc@.gen as int] == m3.live[anc@.gen as int]);
        assert(crate::model::consume_all(m3, gens).slots == m3.slots);
        assert(b@.live[anc@.gen as int]);
        assert(b@.slots[anc@.gen as int] == m3.slots[anc@.gen as int]);
        assert(b@.qubit_live(anc@));
        assert(query@.gen != anc@.gen);
        assert(m4.scopes =~= Seq::<FrameModel>::empty());
        assert(crate::model::controls_of(m4.scopes) =~= Seq::<usize>::empty());
        assert(oracle_dims_ok(f@, query@.slots.len()));
        assert(m3.gates =~= h_each(query_slots(width as nat)) + seq![
            GateModel {
                kind: GateKindModel::X,
                targets: seq![width],
                controls: Seq::empty(),
            },
            GateModel {
                kind: GateKindModel::H,
                targets: seq![width],
                controls: Seq::empty(),
            },
        ]);
        assert(m4.gates == m3.gates);
        assert(m4.measurements =~= Seq::<MeasurementModel>::empty());
    }
    let p = must(synthesize_oracle(&mut b, query, anc, f));
    proof {
        assert(!b@.finalized);
        assert(b@.scopes =~= Seq::<FrameModel>::empty());
        assert(crate::model::controls_of(b@.scopes) =~= Seq::<usize>::empty());
        assert(b@.measurements =~= Seq::<MeasurementModel>::empty());
    }
    let q2 = must(b.h_register(p.0));
    proof {
        assert(b@.scopes =~= Seq::<FrameModel>::empty());
        assert(b@.measurements =~= Seq::<MeasurementModel>::empty());
    }
    let m = must(b.register_measurement(q2));
    proof {
        assert(b@.scopes =~= Seq::<FrameModel>::empty());
    }
    must(b.finalize());
    proof {
        assert(b@.gates =~= deutsch_jozsa_gates(width as nat, f@));
        assert(b@.measurements =~= seq![
            MeasurementModel { slots: query_slots(width as nat), stochastic: false },
        ]);
    }
    Ok((b, m))
}

/// Build the Bernstein-Vazirani circuit for a hidden secret bitstring: the
/// width-`n` query circuit with the XOR-form oracle, whose deterministic
/// measurement recovers the secret with certainty.
pub fn bernstein_vazirani_circuit(secret: &Vec<bool>) -> (r: (CircuitBuilder, MeasurementHandle))
    requires
        secret@.len() >= 1,
        secret@.len() < usize::MAX,
    ensures
        r.0.wf(),
        r.0@.finalized,
        r.0@.num_slots == secret@.len() + 1,
        r.0@.gates == deutsch_jozsa_gates(
            secret@.len(),
            ClassicalFunctionModel::BalancedXor(secret@),
        ),
        r.0@.measurements == seq![
            MeasurementModel { slots: query_slots(secret@.len()), stochastic: false },
        ],
        r.1@ == 0,
{
    let f = ClassicalFunction::BalancedXor(clone_bools(secret));
    must(deutsch_jozsa_circuit(secret.len(), &f))
}

/// Build the circuit of Deutsch's algorithm for the one-bit hidden function
/// given by its two outputs: a width-one query circuit with a truth-table
/// oracle.  Measuring the query qubit yields zero exactly when the function
/// is constant.
pub fn deutsch_circuit(f0: bool, f1: bool) -> (r: (CircuitBuilder, MeasurementHandle))
    ensures
        r.0.wf(),
        r.0@.finalized,
        r.0@.num_slots == 2,
        r.0@.gates == deutsch_jozsa_gates(1, ClassicalFunctionModel::Table(seq![f0, f1])),
        r.0@.measurements == seq![
            MeasurementModel { slots: query_slots(1), stochastic: false },
        ],
        r.1@ == 0,
{
    let f = ClassicalFunction::Table(vec![f0, f1]);
    proof {
        assert(f@ == ClassicalFunctionModel::Table(seq![f0, f1]));
        assert(oracle_dims_ok(f@, 1));
    }
    must(deutsch_jozsa_circuit(1, &f))
}

/// Gate list of the superdense-coding circuit: Bell preparation on the
/// message qubit (slot 2) and its partner (slot 3), the encoding controlled
/// on Alice's classical bits (slots 0 and 1), decoding, and measurement of
/// both Bell qubits.
pub open spec fn superdense_gates() -> Seq<GateModel> {
    seq![
        GateModel { kind: GateKindModel::H, targets: seq![2usize], controls: Seq::empty() },
        GateModel { kind: GateKindModel::Cnot, targets: seq![2usize, 3usize], controls: Seq::empty() },
        GateModel { kind: GateKindModel::Z, targets: seq![2usize], controls: seq![0usize] },
        GateModel { kind: GateKindModel::Cnot, targets: seq![1usize, 2usize], controls: Seq::empty() },
        GateModel { kind: GateKindModel::Cnot, targets: seq![2usize, 3usize], controls: Seq::empty() },
        GateModel { kind: GateKindModel::H, targets: seq![2usize], controls: Seq::empty() },
    ]
}

/// Build the superdense-coding circuit.  Returns the builder, the handles
/// of Alice's two classical-selection qubits (slots 0 and 1, to be set by
/// classical initialization at evaluation time), and the measurement
/// tokens for the two Bell qubits.
#[verifier::rlimit(30)]
pub fn superdense_circuit() -> (r: (
    CircuitBuilder,
    QubitHandle,
    QubitHandle,
    MeasurementHandle,
    MeasurementHandle,
))
    ensures
        r.0.wf(),
        r.0@.finalized,
        r.0@.num_slots == 4,
        r.0@.gates == superdense_gates(),
        r.0@.measurements == seq![
            MeasurementModel { slots: seq![2usize], stochastic: false },
            MeasurementModel { slots: seq![3usize], stochastic: false },
        ],
        r.1@.slot == 0,
        r.2@.slot == 1,
        r.3@ == 0,
        r.4@ == 1,
{
    let mut b = CircuitBuilder::new(4);
    proof {
        b.lemma_wf_model();
    }
    let e1 = must(b.allocate());
    let e2 = must(b.allocate());
    let a = must(b.allocate());
    let bq = must(b.allocate());
    proof {
        assert(b@.live.len() == 4);
        assert(e1@.gen == 0 && e2@.gen == 1 && a@.gen == 2 && bq@.gen == 3);
        assert(e1@.slot == 0 && e2@.slot == 1 && a@.slot == 2 && bq@.slot == 3);
    }
    let ghost av = a@;
    let ghost m0 = b@;
    let a = must(b.h(a));
    proof {
        b.lemma_wf_model();
        assert(b@.qubit_live(bq@)) by {
            crate::model::lemma_single_gate_preserves_qubit(m0, av, GateKindModel::H, bq@);
        }
        assert(b@.qubit_live(e1@)) by {
            crate::model::lemma_single_gate_preserves_qubit(m0, av, GateKindModel::H, e1@);
        }
        assert(b@.qubit_live(e2@)) by {
            crate::model::lemma_single_gate_preserves_qubit(m0, av, GateKindModel::H, e2@);
        }
        assert(b@.live.len() == 5 && a@.gen == 4);
    }
    let ghost m1 = b@;
    let ghost av1 = a@;
    let ghost bqv = bq@;
    let p = must(b.cnot(a, bq));
    let a = p.0;
    let bq = p.1;
    proof {
        b.lemma_wf_model();
        assert(b@.qubit_live(e1@)) by {
            crate::model::lemma_two_gate_preserves_qubit(m1, av1, bqv, GateKindModel::Cnot, e1@);
        }
        assert(b@.qubit_live(e2@)) by {
            crate::model::lemma_two_gate_preserves_qubit(m1, av1, bqv, GateKindModel::Cnot, e2@);
        }
        assert(b@.live.len() == 7 && a@.gen == 5 && bq@.gen == 6);
    }
    let ghost m2 = b@;
    let ghost e1v = e1@;
    let scope = must(b.begin_condition(e1));
    proof {
        b.lemma_wf_model();
        assert(b@.qubit_live(a@)) by {
            crate::model::lemma_begin_preserves_qubit(m2, seq![e1v.slot], false, e1v.gen, a@);
        }
        assert(b@.qubit_live(bq@)) by {
            crate::model::lemma_begin_preserves_qubit(m2, seq![e1v.slot], false, e1v.gen, bq@);
        }
        assert(b@.scopes =~= seq![
            FrameModel { control_slots: seq![0usize], register: false, allocs: Seq::empty() },
        ]);
        assert(b@.scopes.drop_last() =~= Seq::<FrameModel>::empty());
        assert(crate::model::controls_of(b@.scopes.drop_last()) =~= Seq::<usize>::empty());
        assert(b@.scopes.last().control_slots == seq![0usize]);
        assert(crate::model::controls_of(b@.scopes) =~= seq![0usize]);
        assert(b@.live.len() == 7);
    }
    let ghost m3 = b@;
    let ghost av3 = a@;
    let a = must(b.z(a));
    proof {
        b.lemma_wf_model();
        assert(b@.qubit_live(bq@)) by {
            crate::model::lemma_single_gate_preserves_qubit(m3, av3, GateKindModel::Z, bq@);
        }
        assert(b@.scopes == m3.scopes);
        assert(crate::model::scope_redeemable(b@, scope@.0, false));
        assert(b@.live.len() == 8 && a@.gen == 7);
    }
    let ghost m4 = b@;
    let e1 = must(b.dissolve(scope));
    proof {
        b.lemma_wf_model();
        assert(b@.qubit_live(a@)) by {
            crate::model::lemma_dissolve_preserves_qubit(m4, a@);
        }
        assert(b@.qubit_live(bq@)) by {
            crate::model::lemma_dissolve_preserves_qubit(m4, bq@);
        }
        assert(e1@.slot == 0);
        assert(b@.scopes =~= Seq::<FrameModel>::empty());
        assert(crate::model::controls_of(b@.scopes) =~= Seq::<usize>::empty());
        assert(b@.live.len() == 9 && e1@.gen == 8);
    }
    let ghost m5 = b@;
    let ghost e2v = e2@;
    let ghost av5 = a@;
    let p = must(b.cnot(e2, a));
    let e2 = p.0;
    let a = p.1;
    proof {
        b.lemma_wf_model();
        assert(b@.qubit_live(bq@)) by {
            crate::model::lemma_two_gate_preserves_qubit(m5, e2v, av5, GateKindModel::Cnot, bq@);
        }
        assert(b@.qubit_live(e1@)) by {
            crate::model::lemma_two_gate_preserves_qubit(m5, e2v, av5, GateKindModel::Cnot, e1@);
        }
        assert(b@.live.len() == 11 && e2@.gen == 9 && a@.gen == 10);
    }
    let ghost m6 = b@;
    let ghost av6 = a@;
    let ghost bqv6 = bq@;
    let p = must(b.cnot(a, bq));
    let a = p.0;
    let bq = p.1;
    proof {
        b.lemma_wf_model();
        assert(b@.qubit_live(e1@)) by {
            crate::model::lemma_two_gate_preserves_qubit(m6, av6, bqv6, GateKindModel::Cnot, e1@);
        }
        assert(b@.qubit_live(e2@)) by {
            crate::model::lemma_two_gate_preserves_qubit(m6, av6, bqv6, GateKindModel::Cnot, e2@);
        }
        assert(b@.live.len() == 13 && a@.gen == 11 && bq@.gen == 12);
    }
    let ghost m7 = b@;
    let ghost av7 = a@;
    let a = must(b.h(a));
    proof {
        b.lemma_wf_model();
        assert(b@.qubit_live(bq@)) by {
            crate::model::lemma_single_gate_preserves_qubit(m7, av7, GateKindModel::H, bq@);
        }
        assert(b@.live.len() == 14 && a@.gen == 13);
    }
    let ghost m8 = b@;
    let ghost av8 = a@;
    let avec = vec![a];
    let ghost avs = avec@.map_values(|q: QubitHandle| q@);
    proof {
        assert(avec@[0]@ == av8);
        assert(avs =~= seq![av8]);
        assert forall|j: int| 0 <= j < avec@.len()
            implies m8.qubit_live(#[trigger] avec@[j]@) by {
            assert(avec@[j]@ == av8);
        }
    }
    let ra = must(b.merge_qubits(avec));
    proof {
        b.lemma_wf_model();
        assert(crate::model::qubit_slots(avs) =~= seq![2usize]);
        assert(ra@.slots =~= seq![2usize]);
        assert(b@.qubit_live(bq@)) by {
            crate::model::lemma_merge_preserves_qubit(m8, avs, bq@);
            assert(b@ == crate::model::merge_qubits_step(m8, avs));
        }
        crate::model::lemma_merge_fields(m8, avs);
        assert(!b@.finalized);
        assert(b@.scopes =~= Seq::<FrameModel>::empty());
    }
    let ghost m9 = b@;
    let ghost rav = ra@;
    let m_a = must(b.register_measurement(ra));
    proof {
        b.lemma_wf_model();
        assert(b@.qubit_live(bq@)) by {
            crate::model::lemma_measure_preserves_qubit(m9, rav, false, bq@);
        }
        assert(!b@.finalized);
        assert(b@.scopes =~= Seq::<FrameModel>::empty());
    }
    let ghost m10 = b@;
    let ghost bqv10 = bq@;
    let bvec = vec![bq];
    let ghost bvs = bvec@.map_values(|q: QubitHandle| q@);
    proof {
        assert(bvec@[0]@ == bqv10);
        assert(bvs =~= seq![bqv10]);
        assert forall|j: int| 0 <= j < bvec@.len()
            implies m10.qubit_live(#[trigger] bvec@[j]@) by {
            assert(bvec@[j]@ == bqv10);
        }
    }
    let rb = must(b.merge_qubits(bvec));
    proof {
        assert(crate::model::qubit_slots(bvs) =~= seq![3usize]);
        assert(rb@.slots =~= seq![3usize]);
        crate::model::lemma_merge_fields(m10, bvs);
        assert(!b@.finalized);
        assert(b@.scopes =~= Seq::<FrameModel>::empty());
    }
    let ghost m11 = b@;
    let m_b = must(b.register_measurement(rb));
    proof {
        assert(b@.scopes =~= Seq::<FrameModel>::empty());
    }
    must(b.finalize());
    proof {
        assert(b@.gates =~= superdense_gates());
        assert(b@.measurements =~= seq![
            MeasurementModel { slots: seq![2usize], stochastic: false },
            MeasurementModel { slots: seq![3usize], stochastic: false },
        ]);
    }
    (b, e1, e2, m_a, m_b)
}

/// The slots of the first register of a width-`w` swap test (the ancilla
/// sits at slot 0).
pub open spec fn swap_test_ra_slots(w: nat) -> Seq<usize> {
    Seq::new(w, |i: int| (1 + i) as usize)
}

/// The slots of the second register of a width-`w` swap test.
pub open spec fn swap_test_rb_slots(w: nat) -> Seq<usize> {
    Seq::new(w, |i: int| (w + 1 + i) as usize)
}

/// Gate list of the width-`w` swap test: Hadamard on the ancilla, the
/// register swap controlled on the ancilla, and a final Hadamard.
pub open spec fn swap_test_gates(w: nat) -> Seq<GateModel> {
    seq![
        GateModel { kind: GateKindModel::H, targets: seq![0usize], controls: Seq::empty() },
        GateModel {
            kind: GateKindModel::Swap,
            targets: swap_test_ra_slots(w) + swap_test_rb_slots(w),
            controls: seq![0usize],
        },
        GateModel { kind: GateKindModel::H, targets: seq![0usize], controls: Seq::empty() },
    ]
}

/// Build the width-`width` swap-test circuit.  Returns the builder, the two
/// compared registers (for classical initialization at evaluation time) and
/// the measurement token of the ancilla: equal inputs make the ancilla read
/// zero with certainty, different classical inputs with probability 1/2.
#[verifier::rlimit(30)]
pub fn swap_test_circuit(width: usize) -> (r: (
    CircuitBuilder,
    Register,
    Register,
    MeasurementHandle,
))
    requires
        width >= 1,
        width <= 1000,
    ensures
        r.0.wf(),
        r.0@.finalized,
        r.0@.num_slots == 2 * width + 1,
        r.0@.gates == swap_test_gates(width as nat),
        r.0@.measurements == seq![
            MeasurementModel { slots: seq![0usize], stochastic: false },
        ],
        r.1@.slots == swap_test_ra_slots(width as nat),
        r.2@.slots == swap_test_rb_slots(width as nat),
        r.3@ == 0,
{
    let mut b = CircuitBuilder::new(2 * width + 1);
    proof {
        b.lemma_wf_model();
    }
    let anc = must(b.allocate());
    let ra = must(b.allocate_register(width));
    let rb = must(b.allocate_register(width));
    proof {
        b.lemma_wf_model();
        assert(b@.live.len() == 3);
        assert(anc@.gen == 0 && ra@.gen == 1 && rb@.gen == 2);
        assert(ra@.slots =~= swap_test_ra_slots(width as nat));
        assert(rb@.slots =~= swap_test_rb_slots(width as nat));
        assert(b@.qubit_live(anc@)) by {
            crate::model::lemma_alloc_register_preserves_qubit(
                crate::model::allocate_register_step(
                    crate::model::allocate_step(crate::model::new_model(((2 * width + 1)) as usize)),
                    width,
                ),
                width,
                anc@,
            );
        }
    }
    let ghost m0 = b@;
    let ghost ancv = anc@;
    let anc = must(b.h(anc));
    proof {
        b.lemma_wf_model();
        assert(b@.register_live(ra@)) by {
            crate::model::lemma_single_gate_preserves_register(m0, ancv, GateKindModel::H, ra@);
        }
        assert(b@.register_live(rb@)) by {
            crate::model::lemma_single_gate_preserves_register(m0, ancv, GateKindModel::H, rb@);
        }
        assert(b@.live.len() == 4 && anc@.gen == 3);
    }
    let ghost m1 = b@;
    let ghost ancv1 = anc@;
    let scope = must(b.begin_condition(anc));
    proof {
        b.lemma_wf_model();
        assert(b@.register_live(ra@)) by {
            crate::model::lemma_begin_preserves_register(
                m1,
                seq![ancv1.slot],
                false,
                ancv1.gen,
                ra@,
            );
        }
        assert(b@.register_live(rb@)) by {
            crate::model::lemma_begin_preserves_register(
                m1,
                seq![ancv1.slot],
                false,
                ancv1.gen,
                rb@,
            );
        }
        assert(b@.scopes =~= seq![
            FrameModel { control_slots: seq![0usize], register: false, allocs: Seq::empty() },
        ]);
        assert(b@.scopes.drop_last() =~= Seq::<FrameModel>::empty());
        assert(crate::model::controls_of(b@.scopes.drop_last()) =~= Seq::<usize>::empty());
        assert(crate::model::controls_of(b@.scopes) =~= seq![0usize]);
        assert(b@.live.len() == 4);
    }
    let p = must(b.swap(ra, rb));
    let ra = p.0;
    let rb = p.1;
    proof {
        b.lemma_wf_model();
        assert(b@.scopes =~= seq![
            FrameModel { control_slots: seq![0usize], register: false, allocs: Seq::empty() },
        ]);
        assert(crate::model::scope_redeemable(b@, scope@.0, false));
        assert(b@.live.len() == 6 && ra@.gen == 4 && rb@.gen == 5);
    }
    let ghost m2 = b@;
    let anc = must(b.dissolve(scope));
    proof {
        b.lemma_wf_model();
        assert(b@.register_live(ra@)) by {
            crate::model::lemma_dissolve_preserves_register(m2, ra@);
        }
        assert(b@.register_live(rb@)) by {
            crate::model::lemma_dissolve_preserves_register(m2, rb@);
        }
        assert(anc@.slot == 0);
        assert(b@.scopes =~= Seq::<FrameModel>::empty());
        assert(crate::model::controls_of(b@.scopes) =~= Seq::<usize>::empty());
        assert(b@.live.len() == 7 && anc@.gen == 6);
    }
    let ghost m3 = b@;
    let ghost ancv3 = anc@;
    let anc = must(b.h(anc));
    proof {
        b.lemma_wf_model();
        assert(b@.register_live(ra@)) by {
            crate::model::lemma_single_gate_preserves_register(m3, ancv3, GateKindModel::H, ra@);
        }
        assert(b@.register_live(rb@)) by {
            crate::model::lemma_single_gate_preserves_register(m3, ancv3, GateKindModel::H, rb@);
        }
        assert(b@.live.len() == 8 && anc@.gen == 7);
    }
    let ghost m4 = b@;
    let ghost ancv4 = anc@;
    let avec = vec![anc];
    let ghost avs = avec@.map_values(|q: QubitHandle| q@);
    proof {
        assert(avec@[0]@ == ancv4);
        assert(avs =~= seq![ancv4]);
        assert forall|j: int| 0 <= j < avec@.len()
            implies m4.qubit_live(#[trigger] avec@[j]@) by {
            assert(avec@[j]@ == ancv4);
        }
    }
    let ranc = must(b.merge_qubits(avec));
    proof {
        b.lemma_wf_model();
        assert(crate::model::qubit_slots(avs) =~= seq![0usize]);
        assert(ranc@.slots =~= seq![0usize]);
        crate::model::lemma_merge_fields(m4, avs);
        assert(!b@.finalized);
        assert(b@.scopes =~= Seq::<FrameModel>::empty());
        assert(b@.register_live(ra@)) by {
            crate::model::lemma_merge_preserves_register(m4, avs, ra@);
        }
        assert(b@.register_live(rb@)) by {
            crate::model::lemma_merge_preserves_register(m4, avs, rb@);
        }
    }
    let ghost m5 = b@;
    let ghost rancv = ranc@;
    let m = must(b.register_measurement(ranc));
    proof {
        assert(b@.scopes =~= Seq::<FrameModel>::empty());
        assert(b@.register_live(ra@)) by {
            crate::model::lemma_measure_preserves_register(m5, rancv, false, ra@);
        }
        assert(b@.register_live(rb@)) by {
            crate::model::lemma_measure_preserves_register(m5, rancv, false, rb@);
        }
    }
    must(b.finalize());
    proof {
        assert(b@.gates =~= swap_test_gates(width as nat));
        assert(b@.measurements =~= seq![
            MeasurementModel { slots: seq![0usize], stochastic: false },
        ]);
    }
    (b, ra, rb, m)
}

/// Gate list of the teleportation circuit with deferred classical
/// correction: prepare the input qubit (slot 0) by a rotation, entangle the
/// Bell pair (slots 1 and 2), run the reverse Bell circuit on the input and
/// Alice's half, then apply the corrections as controlled gates.
pub open spec fn teleport_gates(angle: RotationAngle) -> Seq<GateModel> {
    seq![
        GateModel { kind: GateKindModel::Ry(angle), targets: seq![0usize], controls: Seq::empty() },
        GateModel { kind: GateKindModel::H, targets: seq![1usize], controls: Seq::empty() },
        GateModel { kind: GateKindModel::Cnot, targets: seq![1usize, 2usize], controls: Seq::empty() },
        GateModel { kind: GateKindModel::Cnot, targets: seq![0usize, 1usize], controls: Seq::empty() },
        GateModel { kind: GateKindModel::H, targets: seq![0usize], controls: Seq::empty() },
        GateModel { kind: GateKindModel::Cnot, targets: seq![1usize, 2usize], controls: Seq::empty() },
        GateModel { kind: GateKindModel::Cz, targets: seq![0usize, 2usize], controls: Seq::empty() },
    ]
}

/// Build the teleportation circuit for an input qubit prepared by a
/// rotation of `angle` about the y axis.  The classical correction is
/// applied coherently (controlled on the would-be measurement qubits), so
/// the stochastic measurement of the output qubit reports exactly the
/// input's outcome distribution.  Returns the builder and the measurement
/// tokens of the two Bell-measurement qubits and of the output qubit.
#[verifier::rlimit(30)]
pub fn teleport_circuit(angle: RotationAngle) -> (r: (
    CircuitBuilder,
    MeasurementHandle,
    MeasurementHandle,
    MeasurementHandle,
))
    requires
        angle.wf(),
    ensures
        r.0.wf(),
        r.0@.finalized,
        r.0@.num_slots == 3,
        r.0@.gates == teleport_gates(angle),
        r.0@.measurements == seq![
            MeasurementModel { slots: seq![0usize], stochastic: false },
            MeasurementModel { slots: seq![1usize], stochastic: false },
            MeasurementModel { slots: seq![2usize], stochastic: true },
        ],
        r.1@ == 0,
        r.2@ == 1,
        r.3@ == 2,
{
    let mut b = CircuitBuilder::new(3);
    proof {
        b.lemma_wf_model();
    }
    let psi = must(b.allocate());
    let a = must(b.allocate());
    let bq = must(b.allocate());
    proof {
        assert(b@.live.len() == 3);
        assert(psi@.gen == 0 && a@.gen == 1 && bq@.gen == 2);
        assert(psi@.slot == 0 && a@.slot == 1 && bq@.slot == 2);
    }
    let ghost m0 = b@;
    let ghost psiv = psi@;
    let psi = must(b.ry(psi, angle));
    proof {
        b.lemma_wf_model();
        assert(b@.qubit_live(a@)) by {
            crate::model::lemma_single_gate_preserves_qubit(m0, psiv, GateKindModel::Ry(angle), a@);
        }
        assert(b@.qubit_live(bq@)) by {
            crate::model::lemma_single_gate_preserves_qubit(m0, psiv, GateKindModel::Ry(angle), bq@);
        }
        assert(b@.live.len() == 4 && psi@.gen == 3);
    }
    let ghost m1 = b@;
    let ghost av1 = a@;
    let a = must(b.h(a));
    proof {
        b.lemma_wf_model();
        assert(b@.qubit_live(psi@)) by {
            crate::model::lemma_single_gate_preserves_qubit(m1, av1, GateKindModel::H, psi@);
        }
        assert(b@.qubit_live(bq@)) by {
            crate::model::lemma_single_gate_preserves_qubit(m1, av1, GateKindModel::H, bq@);
        }
        assert(b@.live.len() == 5 && a@.gen == 4);
    }
    let ghost m2 = b@;
    let ghost av2 = a@;
    let ghost bqv2 = bq@;
    let p = must(b.cnot(a, bq));
    let a = p.0;
    let bq = p.1;
    proof {
        b.lemma_wf_model();
        assert(b@.qubit_live(psi@)) by {
            crate::model::lemma_two_gate_preserves_qubit(m2, av2, bqv2, GateKindModel::Cnot, psi@);
        }
        assert(b@.live.len() == 7 && a@.gen == 5 && bq@.gen == 6);
    }
    let ghost m3 = b@;
    let ghost psiv3 = psi@;
    let ghost av3 = a@;
    let p = must(b.cnot(psi, a));
    let psi = p.0;
    let a = p.1;
    proof {
        b.lemma_wf_model();
        assert(b@.qubit_live(bq@)) by {
            crate::model::lemma_two_gate_preserves_qubit(m3, psiv3, av3, GateKindModel::Cnot, bq@);
        }
        assert(b@.live.len() == 9 && psi@.gen == 7 && a@.gen == 8);
    }
    let ghost m4 = b@;
    let ghost psiv4 = psi@;
    let psi = must(b.h(psi));
    proof {
        b.lemma_wf_model();
        assert(b@.qubit_live(a@)) by {
            crate::model::lemma_single_gate_preserves_qubit(m4, psiv4, GateKindModel::H, a@);
        }
        assert(b@.qubit_live(bq@)) by {
            crate::model::lemma_single_gate_preserves_qubit(m4, psiv4, GateKindModel::H, bq@);
        }
        assert(b@.live.len() == 10 && psi@.gen == 9);
    }
    let ghost m5 = b@;
    let ghost av5 = a@;
    let ghost bqv5 = bq@;
    let p = must(b.cnot(a, bq));
    let a = p.0;
    let bq = p.1;
    proof {
        b.lemma_wf_model();
        assert(b@.qubit_live(psi@)) by {
            crate::model::lemma_two_gate_preserves_qubit(m5, av5, bqv5, GateKindModel::Cnot, psi@);
        }
        assert(b@.live.len() == 12 && a@.gen == 10 && bq@.gen == 11);
    }
    let ghost m6 = b@;
    let ghost psiv6 = psi@;
    let ghost bqv6 = bq@;
    let p = must(b.cz(psi, bq));
    let psi = p.0;
    let bq = p.1;
    proof {
        b.lemma_wf_model();
        assert(b@.qubit_live(a@)) by {
            crate::model::lemma_two_gate_preserves_qubit(m6, psiv6, bqv6, GateKindModel::Cz, a@);
        }
        assert(b@.live.len() == 14 && psi@.gen == 12 && bq@.gen == 13);
    }
    let ghost m7 = b@;
    let ghost psiv7 = psi@;
    let pvec = vec![psi];
    let ghost pvs = pvec@.map_values(|q: QubitHandle| q@);
    proof {
        assert(pvec@[0]@ == psiv7);
        assert(pvs =~= seq![psiv7]);
        assert forall|j: int| 0 <= j < pvec@.len()
            implies m7.qubit_live(#[trigger] pvec@[j]@) by {
            assert(pvec@[j]@ == psiv7);
        }
    }
    let rpsi = must(b.merge_qubits(pvec));
    proof {
        b.lemma_wf_model();
        assert(crate::model::qubit_slots(pvs) =~= seq![0usize]);
        assert(rpsi@.slots =~= seq![0usize]);
        crate::model::lemma_merge_fields(m7, pvs);
        assert(!b@.finalized);
        assert(b@.scopes =~= Seq::<FrameModel>::empty());
        assert(b@.qubit_live(a@)) by {
            crate::model::lemma_merge_preserves_qubit(m7, pvs, a@);
        }
        assert(b@.qubit_live(bq@)) by {
            crate::model::lemma_merge_preserves_qubit(m7, pvs, bq@);
        }
    }
    let ghost m8 = b@;
    let ghost rpsiv = rpsi@;
    let m_psi = must(b.register_measurement(rpsi));
    proof {
        b.lemma_wf_model();
        assert(b@.scopes =~= Seq::<FrameModel>::empty());
        assert(b@.qubit_live(a@)) by {
            crate::model::lemma_measure_preserves_qubit(m8, rpsiv, false, a@);
        }
        assert(b@.qubit_live(bq@)) by {
            crate::model::lemma_measure_preserves_qubit(m8, rpsiv, false, bq@);
        }
    }
    let ghost m9 = b@;
    let ghost av9 = a@;
    let avec = vec![a];
    let ghost avs = avec@.map_values(|q: QubitHandle| q@);
    proof {
        assert(avec@[0]@ == av9);
        assert(avs =~= seq![av9]);
        assert forall|j: int| 0 <= j < avec@.len()
            implies m9.qubit_live(#[trigger] avec@[j]@) by {
            assert(avec@[j]@ == av9);
        }
    }
    let ran = must(b.merge_qubits(avec));
    proof {
        b.lemma_wf_model();
        assert(crate::model::qubit_slots(avs) =~= seq![1usize]);
        assert(ran@.slots =~= seq![1usize]);
        crate::model::lemma_merge_fields(m9, avs);
        assert(!b@.finalized);
        assert(b@.scopes =~= Seq::<FrameModel>::empty());
        assert(b@.qubit_live(bq@)) by {
            crate::model::lemma_merge_preserves_qubit(m9, avs, bq@);
        }
    }
    let ghost m10 = b@;
    let ghost ranv = ran@;
    let m_a = must(b.register_measurement(ran));
    proof {
        b.lemma_wf_model();
        assert(b@.scopes =~= Seq::<FrameModel>::empty());
        assert(b@.qubit_live(bq@)) by {
            crate::model::lemma_measure_preserves_qubit(m10, ranv, false, bq@);
        }
    }
    let ghost m11 = b@;
    let ghost bqv11 = bq@;
    let bvec = vec![bq];
    let ghost bvs = bvec@.map_values(|q: QubitHandle| q@);
    proof {
        assert(bvec@[0]@ == bqv11);
        assert(bvs =~= seq![bqv11]);
        assert forall|j: int| 0 <= j < bvec@.len()
            implies m11.qubit_live(#[trigger] bvec@[j]@) by {
            assert(bvec@[j]@ == bqv11);
        }
    }
    let rb = must(b.merge_qubits(bvec));
    proof {
        assert(crate::model::qubit_slots(bvs) =~= seq![2usize]);
        assert(rb@.slots =~= seq![2usize]);
        crate::model::lemma_merge_fields(m11, bvs);
        assert(!b@.finalized);
        assert(b@.scopes =~= Seq::<FrameModel>::empty());
    }
    let m_b = must(b.register_stochastic(rb));
    proof {
        assert(b@.scopes =~= Seq::<FrameModel>::empty());
    }
    must(b.finalize());
    proof {
        assert(b@.gates =~= teleport_gates(angle));
        assert(b@.measurements =~= seq![
            MeasurementModel { slots: seq![0usize], stochastic: false },
            MeasurementModel { slots: seq![1usize], stochastic: false },
            MeasurementModel { slots: seq![2usize], stochastic: true },
        ]);
    }
    (b, m_psi, m_a, m_b)
}

} // verus!
