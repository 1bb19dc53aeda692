//! The mathematical model of a circuit builder.
//!
//! A builder issues numbered generations of handles.  Each generation owns an
//! ordered sequence of qubit slots and is live until an operation consumes
//! it; every consuming operation retires the generations it was given and
//! issues fresh ones over the same slots.  Well-formedness says that live
//! generations own pairwise disjoint, in-range, duplicate-free slot
//! sequences, and that the controls borrowed by open condition scopes are
//! disjoint from everything live.

use vstd::prelude::*;

use crate::gates::{GateKindModel, GateModel, MeasurementModel};

verus! {

/// The model of a single-qubit handle: its slot and its generation.
pub ghost struct QubitModel {
    pub slot: usize,
    pub gen: usize,
}

/// The model of a register handle: its slots, in order, and its generation.
#[verifier::ext_equal]
pub ghost struct RegisterModel {
    pub slots: Seq<usize>,
    pub gen: usize,
}

/// The model of one open condition scope: the slots of the borrowed control,
/// whether the control was a register, and the generations allocated while
/// the scope was open (these must be consumed before the scope dissolves).
#[verifier::ext_equal]
pub ghost struct FrameModel {
    pub control_slots: Seq<usize>,
    pub register: bool,
    pub allocs: Seq<usize>,
}

/// The model of a circuit builder.
#[verifier::ext_equal]
pub ghost struct BuilderModel {
    /// The simulator's addressable-qubit limit.
    pub capacity: usize,
    /// How many qubit slots have been allocated so far.
    pub num_slots: usize,
    /// Liveness of each handle generation, indexed by generation.
    pub live: Seq<bool>,
    /// The slots owned by each generation, indexed by generation.
    pub slots: Seq<Seq<usize>>,
    /// The gates emitted so far, in order.
    pub gates: Seq<GateModel>,
    /// The measurements registered so far, in order.
    pub measurements: Seq<MeasurementModel>,
    /// The open condition scopes, innermost last.
    pub scopes: Seq<FrameModel>,
    /// Whether the circuit has been finalized for evaluation.
    pub finalized: bool,
}

/// Every element of `s` is below `n`.
pub open spec fn slots_in_range(s: Seq<usize>, n: usize) -> bool {
    forall|i: int| 0 <= i < s.len() ==> #[trigger] s[i] < n
}

/// No element of `s` occurs twice.
pub open spec fn seq_no_dup(s: Seq<usize>) -> bool {
    forall|i: int, j: int| #![trigger s[i], s[j]] 0 <= i < j < s.len() ==> s[i] != s[j]
}

/// `a` and `b` have no element in common.
pub open spec fn seq_disjoint(a: Seq<usize>, b: Seq<usize>) -> bool {
    forall|i: int, j: int| #![trigger a[i], b[j]] 0 <= i < a.len() && 0 <= j < b.len() ==> a[i] != b[j]
}

pub proof fn lemma_disjoint_sym(a: Seq<usize>, b: Seq<usize>)
    requires
        seq_disjoint(a, b),
    ensures
        seq_disjoint(b, a),
{
    assert forall|i: int, j: int| #![trigger b[i], a[j]]
        0 <= i < b.len() && 0 <= j < a.len() implies b[i] != a[j] by {
        assert(a[j] != b[i]);
    }
}

/// The concatenation of the control slots of all open scopes, outermost
/// first: the controls that every gate emitted now is conditioned on.
pub open spec fn controls_of(frames: Seq<FrameModel>) -> Seq<usize>
    decreases frames.len(),
{
    if frames.len() == 0 {
        Seq::empty()
    } else {
        controls_of(frames.drop_last()) + frames.last().control_slots
    }
}

impl FrameModel {
    pub open spec fn wf_in(self, m: BuilderModel) -> bool {
        &&& slots_in_range(self.control_slots, m.num_slots)
        &&& seq_no_dup(self.control_slots)
        &&& self.control_slots.len() >= 1
        &&& (!self.register ==> self.control_slots.len() == 1)
        &&& forall|g: int| m.live_at(g) ==> seq_disjoint(self.control_slots, #[trigger] m.slots[g])
        &&& forall|i: int| 0 <= i < self.allocs.len() ==> #[trigger] self.allocs[i] < m.live.len()
    }
}

impl BuilderModel {
    /// Generation `g` exists and is live.
    pub open spec fn live_at(self, g: int) -> bool {
        0 <= g < self.live.len() && self.live[g]
    }

    /// The handle `q` is currently valid: its generation is live and owns
    /// exactly its slot.
    pub open spec fn qubit_live(self, q: QubitModel) -> bool {
        &&& self.live_at(q.gen as int)
        &&& self.slots[q.gen as int] == seq![q.slot]
    }

    /// The handle `r` is currently valid: its generation is live and owns
    /// exactly its slots.
    pub open spec fn register_live(self, r: RegisterModel) -> bool {
        &&& self.live_at(r.gen as int)
        &&& self.slots[r.gen as int] == r.slots
    }

    /// Well-formedness: one slot sequence per generation, allocation within
    /// capacity, live slot sequences in range, duplicate-free and pairwise
    /// disjoint, scope controls disjoint from everything live and from each
    /// other, and no scope left open once the circuit is finalized.
    pub open spec fn wf(self) -> bool {
        &&& self.slots.len() == self.live.len()
        &&& self.num_slots <= self.capacity
        &&& forall|g: int|
            self.live_at(g) ==> slots_in_range(#[trigger] self.slots[g], self.num_slots)
                && seq_no_dup(self.slots[g])
        &&& forall|g1: int, g2: int| #![trigger self.slots[g1], self.slots[g2]]
            self.live_at(g1) && self.live_at(g2) && g1 != g2
                ==> seq_disjoint(self.slots[g1], self.slots[g2])
        &&& forall|k: int| 0 <= k < self.scopes.len() ==> (#[trigger] self.scopes[k]).wf_in(self)
        &&& forall|k1: int, k2: int| #![trigger self.scopes[k1], self.scopes[k2]]
            0 <= k1 < k2 < self.scopes.len()
                ==> seq_disjoint(self.scopes[k1].control_slots, self.scopes[k2].control_slots)
        &&& self.finalized ==> self.scopes.len() == 0
    }
}

/// The model of a freshly created builder.
pub open spec fn new_model(capacity: usize) -> BuilderModel {
    BuilderModel {
        capacity,
        num_slots: 0,
        live: Seq::empty(),
        slots: Seq::empty(),
        gates: Seq::empty(),
        measurements: Seq::empty(),
        scopes: Seq::empty(),
        finalized: false,
    }
}

/// Retire generation `g`.
pub open spec fn consume(m: BuilderModel, g: usize) -> BuilderModel {
    BuilderModel { live: m.live.update(g as int, false), ..m }
}

/// Retire every generation in `gens`, in order.
pub open spec fn consume_all(m: BuilderModel, gens: Seq<usize>) -> BuilderModel
    decreases gens.len(),
{
    if gens.len() == 0 {
        m
    } else {
        consume(consume_all(m, gens.drop_last()), gens.last())
    }
}

/// Issue a fresh generation owning `s`.
pub open spec fn issue(m: BuilderModel, s: Seq<usize>) -> BuilderModel {
    BuilderModel { live: m.live.push(true), slots: m.slots.push(s), ..m }
}

/// Append a whole gate sequence.
pub open spec fn with_gates(m: BuilderModel, gs: Seq<GateModel>) -> BuilderModel {
    BuilderModel { gates: m.gates + gs, ..m }
}

/// Emit a gate, conditioned on the currently open scopes.
pub open spec fn with_gate(m: BuilderModel, kind: GateKindModel, targets: Seq<usize>) -> BuilderModel {
    BuilderModel {
        gates: m.gates.push(GateModel { kind, targets, controls: controls_of(m.scopes) }),
        ..m
    }
}

/// Record a generation allocated while the innermost scope is open.
pub open spec fn record_alloc(frames: Seq<FrameModel>, g: usize) -> Seq<FrameModel> {
    if frames.len() == 0 {
        frames
    } else {
        frames.update(
            frames.len() - 1,
            FrameModel { allocs: frames.last().allocs.push(g), ..frames.last() },
        )
    }
}

/// Allocate one fresh qubit in the zero basis state.
pub open spec fn allocate_step(m: BuilderModel) -> BuilderModel {
    BuilderModel {
        num_slots: (m.num_slots + 1) as usize,
        live: m.live.push(true),
        slots: m.slots.push(seq![m.num_slots]),
        scopes: record_alloc(m.scopes, m.live.len() as usize),
        ..m
    }
}

/// Allocate `width` fresh qubits as one register.
pub open spec fn allocate_register_step(m: BuilderModel, width: usize) -> BuilderModel {
    BuilderModel {
        num_slots: (m.num_slots + width) as usize,
        live: m.live.push(true),
        slots: m.slots.push(Seq::new(width as nat, |i: int| (m.num_slots + i) as usize)),
        scopes: record_alloc(m.scopes, m.live.len() as usize),
        ..m
    }
}

/// A fixed or parametrized gate on one qubit handle.
pub open spec fn single_qubit_gate_step(m: BuilderModel, q: QubitModel, kind: GateKindModel) -> BuilderModel {
    issue(with_gate(consume(m, q.gen), kind, seq![q.slot]), seq![q.slot])
}

/// A two-qubit gate; the first handle is reissued first.
pub open spec fn two_qubit_gate_step(m: BuilderModel, c: QubitModel, t: QubitModel, kind: GateKindModel) -> BuilderModel {
    issue(
        issue(with_gate(consume(consume(m, c.gen), t.gen), kind, seq![c.slot, t.slot]), seq![c.slot]),
        seq![t.slot],
    )
}

/// A gate applied to each qubit of one register.
pub open spec fn register_gate_step(m: BuilderModel, r: RegisterModel, kind: GateKindModel) -> BuilderModel {
    issue(with_gate(consume(m, r.gen), kind, r.slots), r.slots)
}

/// A swap of two equal-width registers; the first is reissued first.
pub open spec fn swap_step(m: BuilderModel, ra: RegisterModel, rb: RegisterModel) -> BuilderModel {
    issue(
        issue(
            with_gate(consume(consume(m, ra.gen), rb.gen), GateKindModel::Swap, ra.slots + rb.slots),
            ra.slots,
        ),
        rb.slots,
    )
}

/// A truth-table oracle over a query register and an ancilla; the register
/// is reissued first.
pub open spec fn table_step(m: BuilderModel, r: RegisterModel, anc: QubitModel, table: Seq<bool>) -> BuilderModel {
    issue(
        issue(
            with_gate(
                consume(consume(m, r.gen), anc.gen),
                GateKindModel::Table(table),
                r.slots + seq![anc.slot],
            ),
            r.slots,
        ),
        seq![anc.slot],
    )
}

/// Gate sequence of the linear (XOR-form) oracle over a query register
/// and an ancilla: one controlled-not from `qslots[i]` onto the ancilla for
/// each position where the secret bit is set.
pub open spec fn xor_oracle_gates(qslots: Seq<usize>, secret: Seq<bool>, anc: usize, controls: Seq<usize>) -> Seq<GateModel>
    decreases secret.len(),
{
    if secret.len() == 0 {
        Seq::empty()
    } else {
        xor_oracle_gates(qslots.drop_last(), secret.drop_last(), anc, controls) + (if secret.last() {
            seq![
                GateModel {
                    kind: GateKindModel::Cnot,
                    targets: seq![qslots.last(), anc],
                    controls,
                },
            ]
        } else {
            Seq::empty()
        })
    }
}

/// The XOR-form oracle applied to a query register and an ancilla: its gate
/// sequence is emitted, both handles are consumed, and fresh ones are
/// issued, the register first.
pub open spec fn xor_oracle_step(m: BuilderModel, r: RegisterModel, anc: QubitModel, secret: Seq<bool>) -> BuilderModel {
    issue(
        issue(
            with_gates(
                consume(consume(m, r.gen), anc.gen),
                xor_oracle_gates(r.slots, secret, anc.slot, controls_of(m.scopes)),
            ),
            r.slots,
        ),
        seq![anc.slot],
    )
}

pub open spec fn qubit_gens(qs: Seq<QubitModel>) -> Seq<usize> {
    qs.map_values(|q: QubitModel| q.gen)
}

pub open spec fn qubit_slots(qs: Seq<QubitModel>) -> Seq<usize> {
    qs.map_values(|q: QubitModel| q.slot)
}

/// Merge single qubits into one register whose slot order is the input
/// order; emits no gate.
pub open spec fn merge_qubits_step(m: BuilderModel, qs: Seq<QubitModel>) -> BuilderModel {
    issue(consume_all(m, qubit_gens(qs)), qubit_slots(qs))
}

/// Merge two registers; the result's slots are the concatenation.
pub open spec fn merge_registers_step(m: BuilderModel, a: RegisterModel, b: RegisterModel) -> BuilderModel {
    issue(consume(consume(m, a.gen), b.gen), a.slots + b.slots)
}

/// Split a register into its first qubit and the remainder.  An empty
/// register is consumed and reissued as an empty remainder; otherwise the
/// first qubit is reissued first, the remainder second.
pub open spec fn split_step(m: BuilderModel, r: RegisterModel) -> BuilderModel {
    if r.slots.len() == 0 {
        issue(consume(m, r.gen), Seq::empty())
    } else {
        issue(issue(consume(m, r.gen), seq![r.slots[0]]), r.slots.skip(1))
    }
}

/// Borrow a control (generation `g` owning `control_slots`) for a new
/// condition scope.
pub open spec fn begin_step(m: BuilderModel, control_slots: Seq<usize>, register: bool, g: usize) -> BuilderModel {
    BuilderModel {
        live: m.live.update(g as int, false),
        scopes: m.scopes.push(FrameModel { control_slots, register, allocs: Seq::empty() }),
        ..m
    }
}

/// Dissolve the innermost scope, reissuing its control as a fresh
/// generation over the same slots.
pub open spec fn dissolve_step(m: BuilderModel) -> BuilderModel {
    BuilderModel {
        scopes: m.scopes.drop_last(),
        live: m.live.push(true),
        slots: m.slots.push(m.scopes.last().control_slots),
        ..m
    }
}

/// Register a measurement of `r`, consuming it.
pub open spec fn measure_step(m: BuilderModel, r: RegisterModel, stochastic: bool) -> BuilderModel {
    BuilderModel {
        live: m.live.update(r.gen as int, false),
        measurements: m.measurements.push(MeasurementModel { slots: r.slots, stochastic }),
        ..m
    }
}

/// Close the build phase.
pub open spec fn finalize_step(m: BuilderModel) -> BuilderModel {
    BuilderModel { finalized: true, ..m }
}

pub proof fn lemma_in_range_mono(s: Seq<usize>, n1: usize, n2: usize)
    requires
        slots_in_range(s, n1),
        n1 <= n2,
    ensures
        slots_in_range(s, n2),
{
}

/// Raising the slot count within capacity preserves well-formedness.
pub proof fn lemma_wf_grow(m: BuilderModel, n2: usize)
    requires
        m.wf(),
        m.num_slots <= n2,
        n2 <= m.capacity,
    ensures
        (BuilderModel { num_slots: n2, ..m }).wf(),
{
    let m2 = BuilderModel { num_slots: n2, ..m };
    assert forall|g: int| m2.live_at(g)
        implies slots_in_range(#[trigger] m2.slots[g], m2.num_slots) && seq_no_dup(m2.slots[g]) by {
        assert(m.live_at(g));
        lemma_in_range_mono(m.slots[g], m.num_slots, n2);
    }
    assert forall|k: int| 0 <= k < m2.scopes.len() implies (#[trigger] m2.scopes[k]).wf_in(m2) by {
        assert(m.scopes[k].wf_in(m));
        lemma_in_range_mono(m.scopes[k].control_slots, m.num_slots, n2);
        assert forall|g: int| m2.live_at(g)
            implies seq_disjoint(m2.scopes[k].control_slots, #[trigger] m2.slots[g]) by {
            assert(m.live_at(g));
        }
    }
}

pub proof fn lemma_consume_wf(m: BuilderModel, g: usize)
    requires
        m.wf(),
        (g as int) < m.live.len(),
    ensures
        consume(m, g).wf(),
{
    let m2 = consume(m, g);
    assert(m2.slots == m.slots);
    assert forall|g2: int| m2.live_at(g2) implies m.live_at(g2) by {
        assert(m2.live[g2] == if g2 == g as int { false } else { m.live[g2] });
    }
    assert forall|k: int| 0 <= k < m2.scopes.len() implies (#[trigger] m2.scopes[k]).wf_in(m2) by {
        assert(m.scopes[k].wf_in(m));
        assert forall|g2: int| m2.live_at(g2)
            implies seq_disjoint(m2.scopes[k].control_slots, #[trigger] m2.slots[g2]) by {
            assert(m.live_at(g2));
        }
    }
}

/// After a live generation is consumed, its slots are disjoint from every
/// slot sequence that is still live and from every open scope's controls.
pub proof fn lemma_free_after_consume(m: BuilderModel, g: usize)
    requires
        m.wf(),
        m.live_at(g as int),
    ensures
        forall|g2: int| consume(m, g).live_at(g2)
            ==> seq_disjoint(m.slots[g as int], #[trigger] consume(m, g).slots[g2]),
        forall|k: int| 0 <= k < m.scopes.len()
            ==> seq_disjoint(m.slots[g as int], (#[trigger] m.scopes[k]).control_slots),
{
    let m2 = consume(m, g);
    assert forall|g2: int| m2.live_at(g2)
        implies seq_disjoint(m.slots[g as int], #[trigger] m2.slots[g2]) by {
        assert(m2.live[g2] == if g2 == g as int { false } else { m.live[g2] });
        assert(m.live_at(g2) && g2 != g as int);
        assert(seq_disjoint(m.slots[g as int], m.slots[g2]));
    }
    assert forall|k: int| 0 <= k < m.scopes.len()
        implies seq_disjoint(m.slots[g as int], (#[trigger] m.scopes[k]).control_slots) by {
        assert(m.scopes[k].wf_in(m));
        assert(seq_disjoint(m.scopes[k].control_slots, m.slots[g as int]));
        lemma_disjoint_sym(m.scopes[k].control_slots, m.slots[g as int]);
    }
}

pub proof fn lemma_issue_wf(m: BuilderModel, s: Seq<usize>)
    requires
        m.wf(),
        slots_in_range(s, m.num_slots),
        seq_no_dup(s),
        forall|g: int| m.live_at(g) ==> seq_disjoint(s, #[trigger] m.slots[g]),
        forall|k: int| 0 <= k < m.scopes.len()
            ==> seq_disjoint(s, (#[trigger] m.scopes[k]).control_slots),
    ensures
        issue(m, s).wf(),
        issue(m, s).live_at(m.live.len() as int),
        issue(m, s).slots[m.live.len() as int] == s,
        issue(m, s).live.len() == m.live.len() + 1,
{
    let m2 = issue(m, s);
    let n = m.live.len() as int;
    assert forall|g: int| m2.live_at(g) && g != n implies m.live_at(g) && m2.slots[g] == m.slots[g] by {}
    assert forall|g: int| m2.live_at(g)
        implies slots_in_range(#[trigger] m2.slots[g], m2.num_slots) && seq_no_dup(m2.slots[g]) by {
        if g == n {
            assert(m2.slots[g] == s);
        }
    }
    assert forall|g1: int, g2: int| #![trigger m2.slots[g1], m2.slots[g2]]
        m2.live_at(g1) && m2.live_at(g2) && g1 != g2
        implies seq_disjoint(m2.slots[g1], m2.slots[g2]) by {
        if g1 == n {
            assert(seq_disjoint(s, m.slots[g2]));
        } else if g2 == n {
            assert(seq_disjoint(s, m.slots[g1]));
            lemma_disjoint_sym(s, m.slots[g1]);
        } else {
            assert(seq_disjoint(m.slots[g1], m.slots[g2]));
        }
    }
    assert forall|k: int| 0 <= k < m2.scopes.len() implies (#[trigger] m2.scopes[k]).wf_in(m2) by {
        assert(m.scopes[k].wf_in(m));
        assert forall|g: int| m2.live_at(g)
            implies seq_disjoint(m2.scopes[k].control_slots, #[trigger] m2.slots[g]) by {
            if g == n {
                assert(seq_disjoint(s, m.scopes[k].control_slots));
                lemma_disjoint_sym(s, m.scopes[k].control_slots);
                assert(m2.slots[g] == s);
            } else {
                assert(m.live_at(g));
            }
        }
    }
}

pub proof fn lemma_concat_no_dup(a: Seq<usize>, b: Seq<usize>)
    requires
        seq_no_dup(a),
        seq_no_dup(b),
        seq_disjoint(a, b),
    ensures
        seq_no_dup(a + b),
{
    let c = a + b;
    assert forall|i: int, j: int| #![trigger c[i], c[j]] 0 <= i < j < c.len()
        implies c[i] != c[j] by {
        if j < a.len() {
            assert(a[i] != a[j]);
        } else if i >= a.len() {
            assert(b[i - a.len()] != b[j - a.len()]);
        } else {
            assert(a[i] != b[j - a.len()]);
        }
    }
}

pub proof fn lemma_concat_in_range(a: Seq<usize>, b: Seq<usize>, n: usize)
    requires
        slots_in_range(a, n),
        slots_in_range(b, n),
    ensures
        slots_in_range(a + b, n),
{
    let c = a + b;
    assert forall|i: int| 0 <= i < c.len() implies #[trigger] c[i] < n by {
        if i < a.len() {
            assert(a[i] < n);
        } else {
            assert(b[i - a.len()] < n);
        }
    }
}

pub proof fn lemma_concat_disjoint(a: Seq<usize>, b: Seq<usize>, c: Seq<usize>)
    requires
        seq_disjoint(a, c),
        seq_disjoint(b, c),
    ensures
        seq_disjoint(a + b, c),
{
    let ab = a + b;
    assert forall|i: int, j: int| #![trigger ab[i], c[j]]
        0 <= i < ab.len() && 0 <= j < c.len() implies ab[i] != c[j] by {
        if i < a.len() {
            assert(a[i] != c[j]);
        } else {
            assert(b[i - a.len()] != c[j]);
        }
    }
}

/// Retiring a list of generations changes only their liveness.
pub proof fn lemma_consume_all_facts(m: BuilderModel, gens: Seq<usize>)
    requires
        forall|i: int| 0 <= i < gens.len() ==> (#[trigger] gens[i] as int) < m.live.len(),
    ensures
        ({
            let m2 = consume_all(m, gens);
            &&& m2.live.len() == m.live.len()
            &&& m2 == (BuilderModel { live: m2.live, ..m })
            &&& forall|g2: int| m2.live_at(g2) ==> m.live_at(g2)
            &&& forall|g2: int| #![trigger m2.live[g2]]
                0 <= g2 < m.live.len() && !gens.contains(g2 as usize)
                    ==> m2.live[g2] == m.live[g2]
            &&& forall|i: int| 0 <= i < gens.len() ==> !m2.live[#[trigger] gens[i] as int]
        }),
    decreases gens.len(),
{
    if gens.len() > 0 {
        assert forall|i: int| 0 <= i < gens.drop_last().len()
            implies (#[trigger] gens.drop_last()[i] as int) < m.live.len() by {
            assert(gens[i] == gens.drop_last()[i]);
        }
        lemma_consume_all_facts(m, gens.drop_last());
        let m1 = consume_all(m, gens.drop_last());
        let m2 = consume_all(m, gens);
        assert(gens[gens.len() - 1] == gens.last());
        assert(m2 =~~= (BuilderModel { live: m2.live, ..m }));
        assert forall|g2: int| #![trigger m2.live[g2]]
            0 <= g2 < m.live.len() && !gens.contains(g2 as usize)
            implies m2.live[g2] == m.live[g2] by {
            assert(!gens.drop_last().contains(g2 as usize)) by {
                if gens.drop_last().contains(g2 as usize) {
                    let i = choose|i: int| 0 <= i < gens.drop_last().len()
                        && gens.drop_last()[i] == g2 as usize;
                    assert(gens[i] == g2 as usize);
                }
            }
            assert(gens.last() != g2 as usize) by {
                assert(gens[gens.len() - 1] == gens.last());
            }
        }
        assert forall|i: int| 0 <= i < gens.len() implies !m2.live[#[trigger] gens[i] as int] by {
            if i < gens.len() - 1 {
                assert(gens.drop_last()[i] == gens[i]);
                assert(!m1.live[gens[i] as int]);
            }
        }
    }
}

/// A scope token is redeemable when it names the innermost open scope, of
/// the matching control kind, and every generation allocated inside the
/// scope has been consumed.
pub open spec fn scope_redeemable(m: BuilderModel, depth: usize, register: bool) -> bool {
    &&& m.scopes.len() == depth + 1
    &&& m.scopes.last().register == register
    &&& forall|i: int| 0 <= i < m.scopes.last().allocs.len()
        ==> !m.live_at(#[trigger] m.scopes.last().allocs[i] as int)
}

/// A qubit handle distinct from the one a single-qubit gate consumes stays
/// valid across that gate.
pub proof fn lemma_single_gate_preserves_qubit(m: BuilderModel, c: QubitModel, kind: GateKindModel, q: QubitModel)
    requires
        m.slots.len() == m.live.len(),
        m.qubit_live(q),
        q.gen != c.gen,
        (c.gen as int) < m.live.len(),
    ensures
        single_qubit_gate_step(m, c, kind).qubit_live(q),
{
    let m2 = single_qubit_gate_step(m, c, kind);
    assert(m2.live[q.gen as int] == m.live[q.gen as int]);
    assert(m2.slots[q.gen as int] == m.slots[q.gen as int]);
}

/// A register handle distinct from the one a single-qubit gate consumes
/// stays valid across that gate.
pub proof fn lemma_single_gate_preserves_register(m: BuilderModel, c: QubitModel, kind: GateKindModel, r: RegisterModel)
    requires
        m.slots.len() == m.live.len(),
        m.register_live(r),
        r.gen != c.gen,
        (c.gen as int) < m.live.len(),
    ensures
        single_qubit_gate_step(m, c, kind).register_live(r),
{
    let m2 = single_qubit_gate_step(m, c, kind);
    assert(m2.live[r.gen as int] == m.live[r.gen as int]);
    assert(m2.slots[r.gen as int] == m.slots[r.gen as int]);
}

/// A qubit handle distinct from both inputs of a two-qubit gate stays valid
/// across that gate.
pub proof fn lemma_two_gate_preserves_qubit(m: BuilderModel, c: QubitModel, t: QubitModel, kind: GateKindModel, q: QubitModel)
    requires
        m.slots.len() == m.live.len(),
        m.qubit_live(q),
        q.gen != c.gen,
        q.gen != t.gen,
        (c.gen as int) < m.live.len(),
        (t.gen as int) < m.live.len(),
    ensures
        two_qubit_gate_step(m, c, t, kind).qubit_live(q),
{
    let m2 = two_qubit_gate_step(m, c, t, kind);
    assert(m2.live[q.gen as int] == m.live[q.gen as int]);
    assert(m2.slots[q.gen as int] == m.slots[q.gen as int]);
}

/// Allocation does not touch existing handles.
pub proof fn lemma_alloc_preserves_qubit(m: BuilderModel, q: QubitModel)
    requires
        m.slots.len() == m.live.len(),
        m.qubit_live(q),
    ensures
        allocate_step(m).qubit_live(q),
{
    assert(allocate_step(m).live[q.gen as int] == m.live[q.gen as int]);
    assert(allocate_step(m).slots[q.gen as int] == m.slots[q.gen as int]);
}

pub proof fn lemma_alloc_register_preserves_qubit(m: BuilderModel, width: usize, q: QubitModel)
    requires
        m.slots.len() == m.live.len(),
        m.qubit_live(q),
    ensures
        allocate_register_step(m, width).qubit_live(q),
{
    let m2 = allocate_register_step(m, width);
    assert(m2.live[q.gen as int] == m.live[q.gen as int]);
    assert(m2.slots[q.gen as int] == m.slots[q.gen as int]);
}

/// A measurement of one register does not touch other handles.
pub proof fn lemma_measure_preserves_qubit(m: BuilderModel, r: RegisterModel, stochastic: bool, q: QubitModel)
    requires
        m.slots.len() == m.live.len(),
        m.qubit_live(q),
        q.gen != r.gen,
        (r.gen as int) < m.live.len(),
    ensures
        measure_step(m, r, stochastic).qubit_live(q),
{
    let m2 = measure_step(m, r, stochastic);
    assert(m2.live[q.gen as int] == m.live[q.gen as int]);
}

pub proof fn lemma_measure_preserves_register(m: BuilderModel, r: RegisterModel, stochastic: bool, r2: RegisterModel)
    requires
        m.slots.len() == m.live.len(),
        m.register_live(r2),
        r2.gen != r.gen,
        (r.gen as int) < m.live.len(),
    ensures
        measure_step(m, r, stochastic).register_live(r2),
{
    let m2 = measure_step(m, r, stochastic);
    assert(m2.live[r2.gen as int] == m.live[r2.gen as int]);
}

/// Beginning or dissolving a condition scope does not touch handles other
/// than the control.
pub proof fn lemma_begin_preserves_qubit(m: BuilderModel, cs: Seq<usize>, register: bool, g: usize, q: QubitModel)
    requires
        m.slots.len() == m.live.len(),
        m.qubit_live(q),
        q.gen != g,
        (g as int) < m.live.len(),
    ensures
        begin_step(m, cs, register, g).qubit_live(q),
{
    let m2 = begin_step(m, cs, register, g);
    assert(m2.live[q.gen as int] == m.live[q.gen as int]);
}

pub proof fn lemma_begin_preserves_register(m: BuilderModel, cs: Seq<usize>, register: bool, g: usize, r: RegisterModel)
    requires
        m.slots.len() == m.live.len(),
        m.register_live(r),
        r.gen != g,
        (g as int) < m.live.len(),
    ensures
        begin_step(m, cs, register, g).register_live(r),
{
    let m2 = begin_step(m, cs, register, g);
    assert(m2.live[r.gen as int] == m.live[r.gen as int]);
}

pub proof fn lemma_dissolve_preserves_qubit(m: BuilderModel, q: QubitModel)
    requires
        m.slots.len() == m.live.len(),
        m.qubit_live(q),
    ensures
        dissolve_step(m).qubit_live(q),
{
    let m2 = dissolve_step(m);
    assert(m2.live[q.gen as int] == m.live[q.gen as int]);
    assert(m2.slots[q.gen as int] == m.slots[q.gen as int]);
}

pub proof fn lemma_dissolve_preserves_register(m: BuilderModel, r: RegisterModel)
    requires
        m.slots.len() == m.live.len(),
        m.register_live(r),
    ensures
        dissolve_step(m).register_live(r),
{
    let m2 = dissolve_step(m);
    assert(m2.live[r.gen as int] == m.live[r.gen as int]);
    assert(m2.slots[r.gen as int] == m.slots[r.gen as int]);
}

/// A qubit handle not among the merged ones stays valid across a merge.
pub proof fn lemma_merge_preserves_qubit(m: BuilderModel, qs: Seq<QubitModel>, q: QubitModel)
    requires
        m.slots.len() == m.live.len(),
        m.qubit_live(q),
        forall|i: int| 0 <= i < qs.len() ==> (#[trigger] qs[i].gen as int) < m.live.len(),
        forall|i: int| 0 <= i < qs.len() ==> (#[trigger] qs[i]).gen != q.gen,
    ensures
        merge_qubits_step(m, qs).qubit_live(q),
{
    let gens = qubit_gens(qs);
    assert forall|i: int| 0 <= i < gens.len()
        implies (#[trigger] gens[i] as int) < m.live.len() by {
        assert(gens[i] == qs[i].gen);
    }
    lemma_consume_all_facts(m, gens);
    assert(!gens.contains(q.gen)) by {
        if gens.contains(q.gen) {
            let i = choose|i: int| 0 <= i < gens.len() && gens[i] == q.gen;
            assert(gens[i] == qs[i].gen);
        }
    }
    let m2 = merge_qubits_step(m, qs);
    assert(consume_all(m, gens).live[q.gen as int] == m.live[q.gen as int]);
    assert(m2.live[q.gen as int] == m.live[q.gen as int]);
    assert(m2.slots[q.gen as int] == m.slots[q.gen as int]);
}

/// A register not among the merged qubits stays valid across a merge.
pub proof fn lemma_merge_preserves_register(m: BuilderModel, qs: Seq<QubitModel>, r: RegisterModel)
    requires
        m.slots.len() == m.live.len(),
        m.register_live(r),
        forall|i: int| 0 <= i < qs.len() ==> (#[trigger] qs[i].gen as int) < m.live.len(),
        forall|i: int| 0 <= i < qs.len() ==> (#[trigger] qs[i]).gen != r.gen,
    ensures
        merge_qubits_step(m, qs).register_live(r),
{
    let gens = qubit_gens(qs);
    assert forall|i: int| 0 <= i < gens.len()
        implies (#[trigger] gens[i] as int) < m.live.len() by {
        assert(gens[i] == qs[i].gen);
    }
    lemma_consume_all_facts(m, gens);
    assert(!gens.contains(r.gen)) by {
        if gens.contains(r.gen) {
            let i = choose|i: int| 0 <= i < gens.len() && gens[i] == r.gen;
            assert(gens[i] == qs[i].gen);
        }
    }
    let m2 = merge_qubits_step(m, qs);
    assert(consume_all(m, gens).live[r.gen as int] == m.live[r.gen as int]);
    assert(m2.live[r.gen as int] == m.live[r.gen as int]);
    assert(m2.slots[r.gen as int] == m.slots[r.gen as int]);
}

/// A merge changes only liveness and the issued generation: the other
/// builder fields are untouched.
pub proof fn lemma_merge_fields(m: BuilderModel, qs: Seq<QubitModel>)
    requires
        forall|i: int| 0 <= i < qs.len() ==> (#[trigger] qs[i].gen as int) < m.live.len(),
    ensures
        ({
            let m2 = merge_qubits_step(m, qs);
            &&& m2.scopes == m.scopes
            &&& m2.gates == m.gates
            &&& m2.measurements == m.measurements
            &&& m2.finalized == m.finalized
            &&& m2.num_slots == m.num_slots
            &&& m2.capacity == m.capacity
        }),
{
    let gens = qubit_gens(qs);
    assert forall|i: int| 0 <= i < gens.len()
        implies (#[trigger] gens[i] as int) < m.live.len() by {
        assert(gens[i] == qs[i].gen);
    }
    lemma_consume_all_facts(m, gens);
}

/// Condition-scope round trip: borrowing a control qubit for a scope and
/// dissolving the scope again yields a well-formed state in which a fresh
/// handle over the same slot is live and usable exactly like any other
/// handle, while every other generation's liveness and slots, gate
/// list, the measurements and the open scopes are all exactly as before.
/// Repeating the cycle therefore behaves identically each time.
pub proof fn lemma_condition_round_trip(m: BuilderModel, c: QubitModel)
    requires
        m.wf(),
        m.qubit_live(c),
        !m.finalized,
        m.live.len() < usize::MAX,
    ensures
        ({
            let m1 = begin_step(m, seq![c.slot], false, c.gen);
            let m2 = dissolve_step(m1);
            &&& m2.wf()
            &&& m2.qubit_live(QubitModel { slot: c.slot, gen: m.live.len() as usize })
            &&& m2.gates == m.gates
            &&& m2.measurements == m.measurements
            &&& m2.scopes == m.scopes
            &&& m2.num_slots == m.num_slots
            &&& forall|g: int|
                0 <= g < m.live.len() && g != c.gen
                    ==> m2.live[g] == m.live[g] && m2.slots[g] == m.slots[g]
        }),
{
    let frame = FrameModel { control_slots: seq![c.slot], register: false, allocs: Seq::empty() };
    let m1 = begin_step(m, seq![c.slot], false, c.gen);
    let m2 = dissolve_step(m1);
    let mc = consume(m, c.gen);
    lemma_consume_wf(m, c.gen);
    lemma_free_after_consume(m, c.gen);
    assert(m1.scopes.last() == frame);
    assert(m1.scopes.drop_last() =~= m.scopes);
    assert(m2 =~= issue(mc, seq![c.slot]));
    assert(seq![c.slot] == m.slots[c.gen as int]);
    assert(slots_in_range(seq![c.slot], mc.num_slots) && seq_no_dup(seq![c.slot]));
    lemma_issue_wf(mc, seq![c.slot]);
    assert forall|g: int|
        0 <= g < m.live.len() && g != c.gen
        implies m2.live[g] == m.live[g] && m2.slots[g] == m.slots[g] by {}
}

/// The slots of the first handles produced by `k` successive splits of a
/// register whose slot sequence is `s` (each split hands out the first slot
/// and a remainder over the rest, as `split_step` records).
pub open spec fn first_slots_of_splits(s: Seq<usize>, k: nat) -> Seq<usize>
    decreases k,
{
    if k == 0 || s.len() == 0 {
        Seq::empty()
    } else {
        seq![s[0]] + first_slots_of_splits(s.skip(1), (k - 1) as nat)
    }
}

/// Merge/split round trip: a register merged from single qubits owns their
/// slots in input order (`merge_qubits_step`), and splitting a register as
/// many times as it is wide recovers exactly its slots, in the original
/// order.
pub proof fn lemma_merge_split_round_trip(s: Seq<usize>)
    ensures
        first_slots_of_splits(s, s.len()) == s,
    decreases s.len(),
{
    if s.len() == 0 {
        assert(first_slots_of_splits(s, s.len()) =~= s);
    } else {
        lemma_merge_split_round_trip(s.skip(1));
        assert(first_slots_of_splits(s, s.len()) =~= s);
    }
}

} // verus!
