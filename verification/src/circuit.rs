//! The circuit builder: a qubit registry issuing single-use handles, a gate
//! application layer that consumes and reissues them, condition scopes that
//! turn gates into controlled variants, and measurement registration.
//!
//! Handles are linear: every operation takes its handles by value, checks at
//! runtime that each is the current generation of its slots, and retires
//! that generation.  A handle (or a clone of one) passed in again after
//! being consumed always fails with `UseAfterConsume`.

use vstd::prelude::*;

use crate::gates::{BuildError, Gate, GateKind, GateKindModel, GateModel, MeasurementRequest, RotationAngle};
use crate::model::{
    allocate_register_step, allocate_step, begin_step, consume, consume_all, controls_of,
    dissolve_step, finalize_step, issue, lemma_consume_wf, lemma_disjoint_sym,
    lemma_concat_disjoint, lemma_concat_in_range, lemma_concat_no_dup,
    lemma_consume_all_facts,
    lemma_free_after_consume, lemma_in_range_mono, lemma_issue_wf, lemma_wf_grow,
    measure_step, merge_qubits_step, merge_registers_step, qubit_gens, qubit_slots,
    record_alloc, register_gate_step, scope_redeemable, seq_disjoint, seq_no_dup, single_qubit_gate_step,
    slots_in_range, split_step, swap_step, table_step, two_qubit_gate_step, with_gate,
    with_gates, xor_oracle_gates, xor_oracle_step,
    BuilderModel, FrameModel, QubitModel, RegisterModel,
};

verus! {

/// A single-use handle to one logical qubit slot.  It is consumed by every
/// operation it is passed to; the operation returns a fresh handle for the
/// same slot.
#[derive(Clone, Debug)]
pub struct QubitHandle {
    slot: usize,
    generation: usize,
}

impl View for QubitHandle {
    type V = QubitModel;

    closed spec fn view(&self) -> QubitModel {
        QubitModel { slot: self.slot, gen: self.generation }
    }
}

impl QubitHandle {
    /// The qubit slot this handle refers to.
    pub fn slot(&self) -> (s: usize)
        ensures
            s == self@.slot,
    {
        self.slot
    }
}

/// A single-use handle to an ordered sequence of qubit slots that have been
/// logically merged.
#[derive(Clone, Debug)]
pub struct Register {
    slots: Vec<usize>,
    generation: usize,
}

impl View for Register {
    type V = RegisterModel;

    closed spec fn view(&self) -> RegisterModel {
        RegisterModel { slots: self.slots@, gen: self.generation }
    }
}

impl Register {
    /// How many qubits the register holds.
    pub fn width(&self) -> (w: usize)
        ensures
            w == self@.slots.len(),
    {
        self.slots.len()
    }

    /// Whether this register and a qubit handle were issued as the same
    /// generation.
    pub fn same_generation(&self, q: &QubitHandle) -> (b: bool)
        ensures
            b == (self@.gen == q@.gen),
    {
        self.generation == q.generation
    }

    /// The register's qubit slots, in order.
    pub fn slots(&self) -> (s: Vec<usize>)
        ensures
            s@ == self@.slots,
    {
        clone_slots(&self.slots)
    }
}

/// A token for a measurement registered at build time, redeemable against
/// the evaluation results.
#[derive(Clone, Debug)]
pub struct MeasurementHandle {
    id: usize,
}

impl View for MeasurementHandle {
    type V = usize;

    closed spec fn view(&self) -> usize {
        self.id
    }
}

impl MeasurementHandle {
    /// The index of this measurement among all registered measurements.
    pub fn id(&self) -> (i: usize)
        ensures
            i == self@,
    {
        self.id
    }
}

/// A token for an open condition scope; redeeming it through `dissolve`
/// returns the borrowed control.
#[derive(Debug)]
pub struct ConditionScope {
    depth: usize,
    register: bool,
}

impl View for ConditionScope {
    type V = (usize, bool);

    closed spec fn view(&self) -> (usize, bool) {
        (self.depth, self.register)
    }
}

struct CondFrame {
    control_slots: Vec<usize>,
    register: bool,
    allocs: Vec<usize>,
}

impl View for CondFrame {
    type V = FrameModel;

    closed spec fn view(&self) -> FrameModel {
        FrameModel {
            control_slots: self.control_slots@,
            register: self.register,
            allocs: self.allocs@,
        }
    }
}

fn clone_slots(v: &Vec<usize>) -> (r: Vec<usize>)
    ensures
        r@ == v@,
{
    let mut r: Vec<usize> = Vec::new();
    let mut i: usize = 0;
    while i < v.len()
        invariant
            i <= v@.len(),
            r@ == v@.take(i as int),
        decreases v@.len() - i,
    {
        r.push(v[i]);
        proof {
            assert(v@.take(i as int).push(v@[i as int]) =~= v@.take(i + 1 as int));
        }
        i = i + 1;
    }
    proof {
        assert(v@.take(v@.len() as int) =~= v@);
    }
    r
}

fn slots_eq(a: &Vec<usize>, b: &Vec<usize>) -> (r: bool)
    ensures
        r == (a@ == b@),
{
    if a.len() != b.len() {
        return false;
    }
    let mut i: usize = 0;
    while i < a.len()
        invariant
            a@.len() == b@.len(),
            i <= a@.len(),
            forall|j: int| 0 <= j < i ==> a@[j] == b@[j],
        decreases a@.len() - i,
    {
        if a[i] != b[i] {
            return false;
        }
        i = i + 1;
    }
    proof {
        assert(a@ =~= b@);
    }
    true
}

/// The circuit builder.  It owns the compiled gate list and the pending
/// measurements, and tracks which handle generations are live.
pub struct CircuitBuilder {
    capacity: usize,
    num_slots: usize,
    live: Vec<bool>,
    gen_slots: Vec<Vec<usize>>,
    gates: Vec<Gate>,
    measurements: Vec<MeasurementRequest>,
    scopes: Vec<CondFrame>,
    controls_concat: Vec<usize>,
    finalized: bool,
}

impl View for CircuitBuilder {
    type V = BuilderModel;

    closed spec fn view(&self) -> BuilderModel {
        BuilderModel {
            capacity: self.capacity,
            num_slots: self.num_slots,
            live: self.live@,
            slots: self.gen_slots@.map_values(|v: Vec<usize>| v@),
            gates: self.gates@.map_values(|g: Gate| g@),
            measurements: self.measurements@.map_values(|mr: MeasurementRequest| mr@),
            scopes: self.scopes@.map_values(|f: CondFrame| f@),
            finalized: self.finalized,
        }
    }
}

impl CircuitBuilder {
    /// The builder's invariant: its model is well-formed.
    pub closed spec fn wf(self) -> bool {
        &&& self@.wf()
        &&& self.controls_concat@ == controls_of(self@.scopes)
    }

    /// A well-formed builder has a well-formed model.
    pub proof fn lemma_wf_model(&self)
        requires
            self.wf(),
        ensures
            self@.wf(),
    {
    }

    /// Create a builder for a simulator that can address `capacity` qubits.
    pub fn new(capacity: usize) -> (b: CircuitBuilder)
        ensures
            b.wf(),
            b@ == crate::model::new_model(capacity),
    {
        let b = CircuitBuilder {
            capacity,
            num_slots: 0,
            live: Vec::new(),
            gen_slots: Vec::new(),
            gates: Vec::new(),
            measurements: Vec::new(),
            scopes: Vec::new(),
            controls_concat: Vec::new(),
            finalized: false,
        };
        proof {
            assert(b@ =~~= crate::model::new_model(capacity));
            assert(controls_of(b@.scopes) =~= Seq::<usize>::empty());
        }
        b
    }

    /// Whether `q` is a currently valid handle of this builder.
    pub fn qubit_is_live(&self, q: &QubitHandle) -> (ok: bool)
        requires
            self.wf(),
        ensures
            ok == self@.qubit_live(q@),
    {
        if q.generation < self.live.len() && self.live[q.generation] {
            let s = &self.gen_slots[q.generation];
            let ok = s.len() == 1 && s[0] == q.slot;
            proof {
                let sv = self@.slots[q.generation as int];
                assert(sv == self.gen_slots@[q.generation as int]@);
                if s@.len() == 1 && s@[0] == q.slot {
                    assert(sv =~= seq![q.slot]);
                }
                if sv == seq![q.slot] {
                    assert(s@.len() == 1 && s@[0] == q.slot);
                }
            }
            ok
        } else {
            false
        }
    }

    /// Whether `r` is a currently valid handle of this builder.
    pub fn register_is_live(&self, r: &Register) -> (ok: bool)
        requires
            self.wf(),
        ensures
            ok == self@.register_live(r@),
    {
        if r.generation < self.live.len() && self.live[r.generation] {
            let ok = slots_eq(&self.gen_slots[r.generation], &r.slots);
            proof {
                assert(self@.slots[r.generation as int] == self.gen_slots@[r.generation as int]@);
            }
            ok
        } else {
            false
        }
    }

    /// How many qubit slots have been allocated.
    pub fn qubit_count(&self) -> (n: usize)
        ensures
            n == self@.num_slots,
    {
        self.num_slots
    }

    /// The simulator's addressable-qubit limit this builder was created with.
    pub fn capacity(&self) -> (c: usize)
        ensures
            c == self@.capacity,
    {
        self.capacity
    }

    /// How many gates have been emitted.
    pub fn gate_count(&self) -> (n: usize)
        ensures
            n == self@.gates.len(),
    {
        self.gates.len()
    }

    /// The `i`-th emitted gate.
    pub fn gate_at(&self, i: usize) -> (g: &Gate)
        requires
            i < self@.gates.len(),
        ensures
            g@ == self@.gates[i as int],
    {
        &self.gates[i]
    }

    /// How many measurements have been registered.
    pub fn measurement_count(&self) -> (n: usize)
        ensures
            n == self@.measurements.len(),
    {
        self.measurements.len()
    }

    /// The `i`-th registered measurement.
    pub fn measurement_at(&self, i: usize) -> (m: &MeasurementRequest)
        requires
            i < self@.measurements.len(),
        ensures
            m@ == self@.measurements[i as int],
    {
        &self.measurements[i]
    }

    /// Whether the circuit has been finalized.
    pub fn is_finalized(&self) -> (f: bool)
        ensures
            f == self@.finalized,
    {
        self.finalized
    }

    /// How many condition scopes are open.
    pub fn open_scopes(&self) -> (n: usize)
        ensures
            n == self@.scopes.len(),
    {
        self.scopes.len()
    }

    fn retire_gen(&mut self, g: usize)
        requires
            old(self).wf(),
            (g as int) < old(self)@.live.len(),
        ensures
            final(self).wf(),
            final(self)@ == consume(old(self)@, g),
    {
        proof {
            lemma_consume_wf(self@, g);
        }
        self.live[g] = false;
        proof {
            assert(self@ =~~= consume(old(self)@, g));
        }
    }

    fn issue_gen(&mut self, s: Vec<usize>) -> (g: usize)
        requires
            old(self).wf(),
            slots_in_range(s@, old(self)@.num_slots),
            seq_no_dup(s@),
            forall|g2: int| old(self)@.live_at(g2)
                ==> seq_disjoint(s@, #[trigger] old(self)@.slots[g2]),
            forall|k: int| 0 <= k < old(self)@.scopes.len()
                ==> seq_disjoint(s@, (#[trigger] old(self)@.scopes[k]).control_slots),
        ensures
            final(self).wf(),
            final(self)@ == issue(old(self)@, s@),
            g == old(self)@.live.len(),
            final(self)@.live_at(g as int),
            final(self)@.slots[g as int] == s@,
    {
        proof {
            lemma_issue_wf(self@, s@);
        }
        let g = self.live.len();
        let ghost sv = s@;
        self.live.push(true);
        self.gen_slots.push(s);
        proof {
            assert(self@ =~~= issue(old(self)@, sv));
        }
        g
    }

    fn push_gate_raw(&mut self, kind: GateKind, targets: Vec<usize>)
        requires
            old(self).wf(),
        ensures
            final(self).wf(),
            final(self)@ == with_gate(old(self)@, kind@, targets@),
    {
        let ghost kv = kind@;
        let ghost tv = targets@;
        let controls = clone_slots(&self.controls_concat);
        self.gates.push(Gate { kind, targets, controls });
        proof {
            assert(self@ =~~= with_gate(old(self)@, kv, tv));
        }
    }

    /// Allocate one fresh qubit in the zero basis state.  Fails with
    /// `ResourceExhausted` when the capacity would be exceeded.
    pub fn allocate(&mut self) -> (r: Result<QubitHandle, BuildError>)
        requires
            old(self).wf(),
        ensures
            final(self).wf(),
            match r {
                Ok(q) => {
                    &&& !old(self)@.finalized
                    &&& old(self)@.num_slots < old(self)@.capacity
                    &&& final(self)@ == allocate_step(old(self)@)
                    &&& q@.slot == old(self)@.num_slots
                    &&& q@.gen == old(self)@.live.len()
                    &&& final(self)@.qubit_live(q@)
                },
                Err(e) => {
                    &&& *final(self) == *old(self)
                    &&& if old(self)@.finalized {
                        e == BuildError::CircuitFinalized
                    } else {
                        e == BuildError::ResourceExhausted
                            && old(self)@.num_slots >= old(self)@.capacity
                    }
                },
            },
    {
        if self.finalized {
            return Err(BuildError::CircuitFinalized);
        }
        if self.num_slots >= self.capacity {
            return Err(BuildError::ResourceExhausted);
        }
        let slot = self.num_slots;
        self.num_slots = self.num_slots + 1;
        proof {
            lemma_wf_grow(old(self)@, (old(self)@.num_slots + 1) as usize);
            assert(self@ =~~= (BuilderModel { num_slots: (old(self)@.num_slots + 1) as usize, ..old(self)@ }));
            assert forall|g2: int| self@.live_at(g2)
                implies seq_disjoint(seq![slot], #[trigger] self@.slots[g2]) by {
                assert(old(self)@.live_at(g2));
                assert(slots_in_range(old(self)@.slots[g2], old(self)@.num_slots));
            }
            assert forall|k: int| 0 <= k < self@.scopes.len()
                implies seq_disjoint(seq![slot], (#[trigger] self@.scopes[k]).control_slots) by {
                assert(old(self)@.scopes[k].wf_in(old(self)@));
                assert(slots_in_range(old(self)@.scopes[k].control_slots, old(self)@.num_slots));
            }
        }
        let g = self.issue_gen(vec![slot]);
        self.record_allocation(g);
        proof {
            assert(self@ =~~= allocate_step(old(self)@));
        }
        Ok(QubitHandle { slot, generation: g })
    }

    fn record_allocation(&mut self, g: usize)
        requires
            old(self).wf(),
            (g as int) < old(self)@.live.len(),
        ensures
            final(self).wf(),
            final(self)@ == (BuilderModel { scopes: record_alloc(old(self)@.scopes, g), ..old(self)@ }),
    {
        if self.scopes.len() > 0 {
            let mut f = match self.scopes.pop() {
                Some(f) => f,
                None => { proof { assert(false); } unreached() },
            };
            f.allocs.push(g);
            let ghost fv = f@;
            self.scopes.push(f);
            proof {
                let n = old(self)@.scopes.len() as int;
                assert(self@.scopes =~= old(self)@.scopes.update(n - 1, fv));
                assert(fv =~= (FrameModel {
                    allocs: old(self)@.scopes.last().allocs.push(g),
                    ..old(self)@.scopes.last()
                }));
                assert(self@ =~~= (BuilderModel { scopes: record_alloc(old(self)@.scopes, g), ..old(self)@ }));
                assert forall|k: int| 0 <= k < self@.scopes.len()
                    implies (#[trigger] self@.scopes[k]).wf_in(self@) by {
                    assert(old(self)@.scopes[k].wf_in(old(self)@));
                    if k == n - 1 {
                        assert(self@.scopes[k] == fv);
                    }
                    assert forall|g2: int| self@.live_at(g2)
                        implies seq_disjoint(self@.scopes[k].control_slots, #[trigger] self@.slots[g2]) by {
                        assert(old(self)@.live_at(g2));
                    }
                }
                assert forall|k1: int, k2: int| #![trigger self@.scopes[k1], self@.scopes[k2]]
                    0 <= k1 < k2 < self@.scopes.len()
                    implies seq_disjoint(self@.scopes[k1].control_slots, self@.scopes[k2].control_slots) by {
                    assert(seq_disjoint(old(self)@.scopes[k1].control_slots, old(self)@.scopes[k2].control_slots));
                }
                assert(controls_of(self@.scopes) =~= controls_of(old(self)@.scopes)) by {
                    assert(self@.scopes.drop_last() =~= old(self)@.scopes.drop_last());
                    assert(self@.scopes.last().control_slots == old(self)@.scopes.last().control_slots);
                }
            }
        } else {
            proof {
                assert(self@ =~~= (BuilderModel { scopes: record_alloc(old(self)@.scopes, g), ..old(self)@ }));
            }
        }
    }

    /// Allocate `width` fresh qubits as one register.  Fails with
    /// `ResourceExhausted` when the capacity would be exceeded.
    pub fn allocate_register(&mut self, width: usize) -> (r: Result<Register, BuildError>)
        requires
            old(self).wf(),
            width >= 1,
        ensures
            final(self).wf(),
            match r {
                Ok(reg) => {
                    &&& !old(self)@.finalized
                    &&& old(self)@.num_slots + width <= old(self)@.capacity
                    &&& final(self)@ == allocate_register_step(old(self)@, width)
                    &&& reg@.slots == Seq::new(width as nat, |i: int| (old(self)@.num_slots + i) as usize)
                    &&& reg@.gen == old(self)@.live.len()
                    &&& final(self)@.register_live(reg@)
                },
                Err(e) => {
                    &&& *final(self) == *old(self)
                    &&& if old(self)@.finalized {
                        e == BuildError::CircuitFinalized
                    } else {
                        e == BuildError::ResourceExhausted
                            && old(self)@.num_slots + width > old(self)@.capacity
                    }
                },
            },
    {
        if self.finalized {
            return Err(BuildError::CircuitFinalized);
        }
        if width > self.capacity - self.num_slots {
            return Err(BuildError::ResourceExhausted);
        }
        let base = self.num_slots;
        let ghost target = Seq::new(width as nat, |i: int| (old(self)@.num_slots + i) as usize);
        let mut s: Vec<usize> = Vec::new();
        let mut i: usize = 0;
        while i < width
            invariant
                i <= width,
                base + width <= usize::MAX,
                s@.len() == i,
                forall|j: int| 0 <= j < i ==> #[trigger] s@[j] == base + j,
            decreases width - i,
        {
            s.push(base + i);
            i = i + 1;
        }
        proof {
            assert(s@ =~= target);
        }
        self.num_slots = self.num_slots + width;
        proof {
            lemma_wf_grow(old(self)@, (old(self)@.num_slots + width) as usize);
            assert(self@ =~~= (BuilderModel { num_slots: (old(self)@.num_slots + width) as usize, ..old(self)@ }));
            assert forall|g2: int| self@.live_at(g2)
                implies seq_disjoint(target, #[trigger] self@.slots[g2]) by {
                assert(old(self)@.live_at(g2));
                assert(slots_in_range(old(self)@.slots[g2], old(self)@.num_slots));
            }
            assert forall|k: int| 0 <= k < self@.scopes.len()
                implies seq_disjoint(target, (#[trigger] self@.scopes[k]).control_slots) by {
                assert(old(self)@.scopes[k].wf_in(old(self)@));
                assert(slots_in_range(old(self)@.scopes[k].control_slots, old(self)@.num_slots));
            }
        }
        let g = self.issue_gen(s);
        self.record_allocation(g);
        proof {
            assert(self@ =~~= allocate_register_step(old(self)@, width));
        }
        Ok(Register { slots: clone_target(base, width), generation: g })
    }

    fn apply_single(&mut self, q: QubitHandle, kind: GateKind) -> (r: Result<
        QubitHandle,
        BuildError,
    >)
        requires
            old(self).wf(),
        ensures
            final(self).wf(),
            match r {
                Ok(q2) => {
                    &&& !old(self)@.finalized
                    &&& old(self)@.qubit_live(q@)
                    &&& final(self)@ == single_qubit_gate_step(old(self)@, q@, kind@)
                    &&& q2@.slot == q@.slot
                    &&& q2@.gen == old(self)@.live.len()
                    &&& final(self)@.qubit_live(q2@)
                },
                Err(e) => {
                    &&& *final(self) == *old(self)
                    &&& if old(self)@.finalized {
                        e == BuildError::CircuitFinalized
                    } else {
                        e == BuildError::UseAfterConsume && !old(self)@.qubit_live(q@)
                    }
                },
            },
    {
        if self.finalized {
            return Err(BuildError::CircuitFinalized);
        }
        if !self.qubit_is_live(&q) {
            return Err(BuildError::UseAfterConsume);
        }
        proof {
            lemma_free_after_consume(self@, q@.gen);
        }
        self.retire_gen(q.generation);
        self.push_gate_raw(kind, vec![q.slot]);
        proof {
            assert(self@.live == consume(old(self)@, q@.gen).live);
            assert(self@.slots == old(self)@.slots);
            assert(seq![q@.slot] == old(self)@.slots[q@.gen as int]);
            assert(old(self)@.slots[q@.gen as int][0] == q@.slot);
            assert(old(self)@.slots[q@.gen as int][0] < old(self)@.num_slots);
            assert(slots_in_range(seq![q@.slot], self@.num_slots));
            assert forall|g2: int| self@.live_at(g2)
                implies seq_disjoint(seq![q@.slot], #[trigger] self@.slots[g2]) by {
                assert(consume(old(self)@, q@.gen).live_at(g2));
                assert(seq_disjoint(old(self)@.slots[q@.gen as int], consume(old(self)@, q@.gen).slots[g2]));
            }
            assert forall|k: int| 0 <= k < self@.scopes.len()
                implies seq_disjoint(seq![q@.slot], (#[trigger] self@.scopes[k]).control_slots) by {
                assert(seq_disjoint(old(self)@.slots[q@.gen as int], old(self)@.scopes[k].control_slots));
            }
        }
        let g = self.issue_gen(vec![q.slot]);
        proof {
            assert(self@ =~~= single_qubit_gate_step(old(self)@, q@, kind@));
        }
        Ok(QubitHandle { slot: q.slot, generation: g })
    }

    /// Bit flip.  Consumes `q` and returns a fresh handle for its slot.
    pub fn x(&mut self, q: QubitHandle) -> (r: Result<QubitHandle, BuildError>)
        requires
            old(self).wf(),
        ensures
            final(self).wf(),
            match r {
                Ok(q2) => {
                    &&& !old(self)@.finalized
                    &&& old(self)@.qubit_live(q@)
                    &&& final(self)@ == single_qubit_gate_step(old(self)@, q@, crate::gates::GateKindModel::X)
                    &&& q2@.slot == q@.slot
                    &&& q2@.gen == old(self)@.live.len()
                    &&& final(self)@.qubit_live(q2@)
                },
                Err(e) => {
                    &&& *final(self) == *old(self)
                    &&& if old(self)@.finalized {
                        e == BuildError::CircuitFinalized
                    } else {
                        e == BuildError::UseAfterConsume && !old(self)@.qubit_live(q@)
                    }
                },
            },
    {
        self.apply_single(q, GateKind::X)
    }

    /// Phase flip.  Consumes `q` and returns a fresh handle for its slot.
    pub fn z(&mut self, q: QubitHandle) -> (r: Result<QubitHandle, BuildError>)
        requires
            old(self).wf(),
        ensures
            final(self).wf(),
            match r {
                Ok(q2) => {
                    &&& !old(self)@.finalized
                    &&& old(self)@.qubit_live(q@)
                    &&& final(self)@ == single_qubit_gate_step(old(self)@, q@, crate::gates::GateKindModel::Z)
                    &&& q2@.slot == q@.slot
                    &&& q2@.gen == old(self)@.live.len()
                    &&& final(self)@.qubit_live(q2@)
                },
                Err(e) => {
                    &&& *final(self) == *old(self)
                    &&& if old(self)@.finalized {
                        e == BuildError::CircuitFinalized
                    } else {
                        e == BuildError::UseAfterConsume && !old(self)@.qubit_live(q@)
                    }
                },
            },
    {
        self.apply_single(q, GateKind::Z)
    }

    /// Hadamard.  Consumes `q` and returns a fresh handle for its slot.
    pub fn h(&mut self, q: QubitHandle) -> (r: Result<QubitHandle, BuildError>)
        requires
            old(self).wf(),
        ensures
            final(self).wf(),
            match r {
                Ok(q2) => {
                    &&& !old(self)@.finalized
                    &&& old(self)@.qubit_live(q@)
                    &&& final(self)@ == single_qubit_gate_step(old(self)@, q@, crate::gates::GateKindModel::H)
                    &&& q2@.slot == q@.slot
                    &&& q2@.gen == old(self)@.live.len()
                    &&& final(self)@.qubit_live(q2@)
                },
                Err(e) => {
                    &&& *final(self) == *old(self)
                    &&& if old(self)@.finalized {
                        e == BuildError::CircuitFinalized
                    } else {
                        e == BuildError::UseAfterConsume && !old(self)@.qubit_live(q@)
                    }
                },
            },
    {
        self.apply_single(q, GateKind::H)
    }

    /// Rotation about the y axis by `angle`.  Consumes `q` and returns a
    /// fresh handle for its slot.
    pub fn ry(&mut self, q: QubitHandle, angle: RotationAngle) -> (r: Result<
        QubitHandle,
        BuildError,
    >)
        requires
            old(self).wf(),
            angle.wf(),
        ensures
            final(self).wf(),
            match r {
                Ok(q2) => {
                    &&& !old(self)@.finalized
                    &&& old(self)@.qubit_live(q@)
                    &&& final(self)@ == single_qubit_gate_step(old(self)@, q@, crate::gates::GateKindModel::Ry(angle))
                    &&& q2@.slot == q@.slot
                    &&& q2@.gen == old(self)@.live.len()
                    &&& final(self)@.qubit_live(q2@)
                },
                Err(e) => {
                    &&& *final(self) == *old(self)
                    &&& if old(self)@.finalized {
                        e == BuildError::CircuitFinalized
                    } else {
                        e == BuildError::UseAfterConsume && !old(self)@.qubit_live(q@)
                    }
                },
            },
    {
        self.apply_single(q, GateKind::Ry(angle))
    }
}

/// Whether a truth table of `table_len` entries fits a query register of
/// `width` qubits: the direct-matrix oracle path is exposed for widths up
/// to two only.
pub open spec fn table_dims_ok(width: nat, table_len: nat) -> bool {
    &&& width <= 2
    &&& table_len == if width == 0 { 1nat } else if width == 1 { 2nat } else { 4nat }
}

impl CircuitBuilder {
    fn apply_two(&mut self, c: QubitHandle, t: QubitHandle, kind: GateKind) -> (r: Result<
        (QubitHandle, QubitHandle),
        BuildError,
    >)
        requires
            old(self).wf(),
        ensures
            final(self).wf(),
            match r {
                Ok(p) => {
                    &&& !old(self)@.finalized
                    &&& old(self)@.qubit_live(c@)
                    &&& old(self)@.qubit_live(t@)
                    &&& c@.gen != t@.gen
                    &&& final(self)@ == two_qubit_gate_step(old(self)@, c@, t@, kind@)
                    &&& p.0@.slot == c@.slot
                    &&& p.0@.gen == old(self)@.live.len()
                    &&& p.1@.slot == t@.slot
                    &&& p.1@.gen == old(self)@.live.len() + 1
                    &&& final(self)@.qubit_live(p.0@)
                    &&& final(self)@.qubit_live(p.1@)
                },
                Err(e) => {
                    &&& *final(self) == *old(self)
                    &&& if old(self)@.finalized {
                        e == BuildError::CircuitFinalized
                    } else if !old(self)@.qubit_live(c@) || !old(self)@.qubit_live(t@) {
                        e == BuildError::UseAfterConsume
                    } else if c@.gen == t@.gen {
                        e == BuildError::AliasingViolation
                    } else {
                        false
                    }
                },
            },
    {
        if self.finalized {
            return Err(BuildError::CircuitFinalized);
        }
        if !self.qubit_is_live(&c) || !self.qubit_is_live(&t) {
            return Err(BuildError::UseAfterConsume);
        }
        if c.generation == t.generation {
            return Err(BuildError::AliasingViolation);
        }
        let ghost m0 = old(self)@;
        proof {
            lemma_free_after_consume(m0, c@.gen);
            assert(seq_disjoint(m0.slots[c@.gen as int], m0.slots[t@.gen as int]));
            assert(m0.slots[c@.gen as int][0] == c@.slot);
            assert(m0.slots[t@.gen as int][0] == t@.slot);
            assert(c@.slot != t@.slot);
            assert(m0.slots[c@.gen as int][0] < m0.num_slots);
            assert(m0.slots[t@.gen as int][0] < m0.num_slots);
        }
        self.retire_gen(c.generation);
        let ghost mc = consume(m0, c@.gen);
        proof {
            assert(self@.qubit_live(t@));
            lemma_free_after_consume(mc, t@.gen);
        }
        self.retire_gen(t.generation);
        let ghost mct = consume(mc, t@.gen);
        self.push_gate_raw(kind, vec![c.slot, t.slot]);
        proof {
            assert(self@.live == mct.live);
            assert(self@.slots == m0.slots);
            assert(self@.scopes == m0.scopes);
            assert(slots_in_range(seq![c@.slot], self@.num_slots));
            assert forall|g2: int| self@.live_at(g2)
                implies seq_disjoint(seq![c@.slot], #[trigger] self@.slots[g2]) by {
                assert(mct.live_at(g2));
                assert(mc.live_at(g2));
                assert(seq_disjoint(m0.slots[c@.gen as int], mc.slots[g2]));
            }
            assert forall|k: int| 0 <= k < self@.scopes.len()
                implies seq_disjoint(seq![c@.slot], (#[trigger] self@.scopes[k]).control_slots) by {
                assert(seq_disjoint(m0.slots[c@.gen as int], m0.scopes[k].control_slots));
            }
        }
        let g1 = self.issue_gen(vec![c.slot]);
        proof {
            let m3 = self@;
            assert(slots_in_range(seq![t@.slot], m3.num_slots));
            assert forall|g2: int| m3.live_at(g2)
                implies seq_disjoint(seq![t@.slot], #[trigger] m3.slots[g2]) by {
                if g2 == g1 as int {
                    assert(m3.slots[g2] == seq![c@.slot]);
                } else {
                    assert(mct.live_at(g2));
                    assert(seq_disjoint(mc.slots[t@.gen as int], mct.slots[g2]));
                }
            }
            assert forall|k: int| 0 <= k < m3.scopes.len()
                implies seq_disjoint(seq![t@.slot], (#[trigger] m3.scopes[k]).control_slots) by {
                assert(seq_disjoint(mc.slots[t@.gen as int], mc.scopes[k].control_slots));
            }
        }
        let g2 = self.issue_gen(vec![t.slot]);
        proof {
            assert(self@ =~~= two_qubit_gate_step(m0, c@, t@, kind@));
        }
        Ok((
            QubitHandle { slot: c.slot, generation: g1 },
            QubitHandle { slot: t.slot, generation: g2 },
        ))
    }

    /// Controlled not: `c` controls a bit flip of `t`.  Consumes both
    /// handles and returns fresh ones in the same order.
    pub fn cnot(&mut self, c: QubitHandle, t: QubitHandle) -> (r: Result<
        (QubitHandle, QubitHandle),
        BuildError,
    >)
        requires
            old(self).wf(),
        ensures
            final(self).wf(),
            match r {
                Ok(p) => {
                    &&& !old(self)@.finalized
                    &&& old(self)@.qubit_live(c@)
                    &&& old(self)@.qubit_live(t@)
                    &&& c@.gen != t@.gen
                    &&& final(self)@ == two_qubit_gate_step(old(self)@, c@, t@, crate::gates::GateKindModel::Cnot)
                    &&& p.0@.slot == c@.slot
                    &&& p.0@.gen == old(self)@.live.len()
                    &&& p.1@.slot == t@.slot
                    &&& p.1@.gen == old(self)@.live.len() + 1
                    &&& final(self)@.qubit_live(p.0@)
                    &&& final(self)@.qubit_live(p.1@)
                },
                Err(e) => {
                    &&& *final(self) == *old(self)
                    &&& if old(self)@.finalized {
                        e == BuildError::CircuitFinalized
                    } else if !old(self)@.qubit_live(c@) || !old(self)@.qubit_live(t@) {
                        e == BuildError::UseAfterConsume
                    } else if c@.gen == t@.gen {
                        e == BuildError::AliasingViolation
                    } else {
                        false
                    }
                },
            },
    {
        self.apply_two(c, t, GateKind::Cnot)
    }

    /// Controlled phase flip: `c` controls a phase flip of `t`.  Consumes
    /// both handles and returns fresh ones in the same order.
    pub fn cz(&mut self, c: QubitHandle, t: QubitHandle) -> (r: Result<
        (QubitHandle, QubitHandle),
        BuildError,
    >)
        requires
            old(self).wf(),
        ensures
            final(self).wf(),
            match r {
                Ok(p) => {
                    &&& !old(self)@.finalized
                    &&& old(self)@.qubit_live(c@)
                    &&& old(self)@.qubit_live(t@)
                    &&& c@.gen != t@.gen
                    &&& final(self)@ == two_qubit_gate_step(old(self)@, c@, t@, crate::gates::GateKindModel::Cz)
                    &&& p.0@.slot == c@.slot
                    &&& p.0@.gen == old(self)@.live.len()
                    &&& p.1@.slot == t@.slot
                    &&& p.1@.gen == old(self)@.live.len() + 1
                    &&& final(self)@.qubit_live(p.0@)
                    &&& final(self)@.qubit_live(p.1@)
                },
                Err(e) => {
                    &&& *final(self) == *old(self)
                    &&& if old(self)@.finalized {
                        e == BuildError::CircuitFinalized
                    } else if !old(self)@.qubit_live(c@) || !old(self)@.qubit_live(t@) {
                        e == BuildError::UseAfterConsume
                    } else if c@.gen == t@.gen {
                        e == BuildError::AliasingViolation
                    } else {
                        false
                    }
                },
            },
    {
        self.apply_two(c, t, GateKind::Cz)
    }

    /// Hadamard on every qubit of a register.  Consumes `reg` and returns a
    /// fresh handle over the same slots.
    pub fn h_register(&mut self, reg: Register) -> (r: Result<Register, BuildError>)
        requires
            old(self).wf(),
        ensures
            final(self).wf(),
            match r {
                Ok(r2) => {
                    &&& !old(self)@.finalized
                    &&& old(self)@.register_live(reg@)
                    &&& final(self)@ == register_gate_step(old(self)@, reg@, crate::gates::GateKindModel::H)
                    &&& r2@.slots == reg@.slots
                    &&& r2@.gen == old(self)@.live.len()
                    &&& final(self)@.register_live(r2@)
                },
                Err(e) => {
                    &&& *final(self) == *old(self)
                    &&& if old(self)@.finalized {
                        e == BuildError::CircuitFinalized
                    } else {
                        e == BuildError::UseAfterConsume && !old(self)@.register_live(reg@)
                    }
                },
            },
    {
        if self.finalized {
            return Err(BuildError::CircuitFinalized);
        }
        if !self.register_is_live(&reg) {
            return Err(BuildError::UseAfterConsume);
        }
        let ghost m0 = old(self)@;
        proof {
            lemma_free_after_consume(m0, reg@.gen);
        }
        let targets = reg.slots();
        let copy = reg.slots();
        self.retire_gen(reg.generation);
        self.push_gate_raw(GateKind::H, targets);
        proof {
            assert(self@.live == consume(m0, reg@.gen).live);
            assert(self@.slots == m0.slots);
            assert(reg@.slots == m0.slots[reg@.gen as int]);
            assert forall|g2: int| self@.live_at(g2)
                implies seq_disjoint(reg@.slots, #[trigger] self@.slots[g2]) by {
                assert(consume(m0, reg@.gen).live_at(g2));
                assert(seq_disjoint(m0.slots[reg@.gen as int], consume(m0, reg@.gen).slots[g2]));
            }
            assert forall|k: int| 0 <= k < self@.scopes.len()
                implies seq_disjoint(reg@.slots, (#[trigger] self@.scopes[k]).control_slots) by {
                assert(seq_disjoint(m0.slots[reg@.gen as int], m0.scopes[k].control_slots));
            }
        }
        let g = self.issue_gen(copy);
        proof {
            assert(self@ =~~= register_gate_step(m0, reg@, GateKindModel::H));
        }
        Ok(Register { slots: reg.slots, generation: g })
    }

    /// Swap two equal-width registers.  Consumes both and returns fresh
    /// handles in the same order.
    pub fn swap(&mut self, ra: Register, rb: Register) -> (r: Result<
        (Register, Register),
        BuildError,
    >)
        requires
            old(self).wf(),
        ensures
            final(self).wf(),
            match r {
                Ok(p) => {
                    &&& !old(self)@.finalized
                    &&& old(self)@.register_live(ra@)
                    &&& old(self)@.register_live(rb@)
                    &&& ra@.gen != rb@.gen
                    &&& ra@.slots.len() == rb@.slots.len()
                    &&& final(self)@ == swap_step(old(self)@, ra@, rb@)
                    &&& p.0@.slots == ra@.slots
                    &&& p.0@.gen == old(self)@.live.len()
                    &&& p.1@.slots == rb@.slots
                    &&& p.1@.gen == old(self)@.live.len() + 1
                    &&& final(self)@.register_live(p.0@)
                    &&& final(self)@.register_live(p.1@)
                },
                Err(e) => {
                    &&& *final(self) == *old(self)
                    &&& if old(self)@.finalized {
                        e == BuildError::CircuitFinalized
                    } else if !old(self)@.register_live(ra@) || !old(self)@.register_live(rb@) {
                        e == BuildError::UseAfterConsume
                    } else if ra@.gen == rb@.gen {
                        e == BuildError::AliasingViolation
                    } else if ra@.slots.len() != rb@.slots.len() {
                        e == BuildError::DimensionMismatch
                    } else {
                        false
                    }
                },
            },
    {
        if self.finalized {
            return Err(BuildError::CircuitFinalized);
        }
        if !self.register_is_live(&ra) || !self.register_is_live(&rb) {
            return Err(BuildError::UseAfterConsume);
        }
        if ra.generation == rb.generation {
            return Err(BuildError::AliasingViolation);
        }
        if ra.slots.len() != rb.slots.len() {
            return Err(BuildError::DimensionMismatch);
        }
        let ghost m0 = old(self)@;
        proof {
            lemma_free_after_consume(m0, ra@.gen);
            assert(seq_disjoint(m0.slots[ra@.gen as int], m0.slots[rb@.gen as int]));
        }
        let mut targets = ra.slots();
        let mut tb = rb.slots();
        targets.append(&mut tb);
        let sa = ra.slots();
        let sb = rb.slots();
        self.retire_gen(ra.generation);
        let ghost mc = consume(m0, ra@.gen);
        proof {
            assert(self@.register_live(rb@));
            lemma_free_after_consume(mc, rb@.gen);
        }
        self.retire_gen(rb.generation);
        let ghost mct = consume(mc, rb@.gen);
        self.push_gate_raw(GateKind::Swap, targets);
        proof {
            assert(self@.live == mct.live);
            assert(self@.slots == m0.slots);
            assert(self@.scopes == m0.scopes);
            assert(ra@.slots == m0.slots[ra@.gen as int]);
            assert(rb@.slots == m0.slots[rb@.gen as int]);
            assert forall|g2: int| self@.live_at(g2)
                implies seq_disjoint(ra@.slots, #[trigger] self@.slots[g2]) by {
                assert(mct.live_at(g2));
                assert(mc.live_at(g2));
                assert(seq_disjoint(m0.slots[ra@.gen as int], mc.slots[g2]));
            }
            assert forall|k: int| 0 <= k < self@.scopes.len()
                implies seq_disjoint(ra@.slots, (#[trigger] self@.scopes[k]).control_slots) by {
                assert(seq_disjoint(m0.slots[ra@.gen as int], m0.scopes[k].control_slots));
            }
        }
        let g1 = self.issue_gen(sa);
        proof {
            let m3 = self@;
            assert forall|g2: int| m3.live_at(g2)
                implies seq_disjoint(rb@.slots, #[trigger] m3.slots[g2]) by {
                if g2 == g1 as int {
                    assert(m3.slots[g2] == ra@.slots);
                    lemma_disjoint_sym(m0.slots[ra@.gen as int], m0.slots[rb@.gen as int]);
                } else {
                    assert(mct.live_at(g2));
                    assert(seq_disjoint(mc.slots[rb@.gen as int], mct.slots[g2]));
                }
            }
            assert forall|k: int| 0 <= k < m3.scopes.len()
                implies seq_disjoint(rb@.slots, (#[trigger] m3.scopes[k]).control_slots) by {
                assert(seq_disjoint(mc.slots[rb@.gen as int], mc.scopes[k].control_slots));
            }
        }
        let g2 = self.issue_gen(sb);
        proof {
            assert(self@ =~~= swap_step(m0, ra@, rb@));
        }
        Ok((
            Register { slots: ra.slots, generation: g1 },
            Register { slots: rb.slots, generation: g2 },
        ))
    }

    /// Apply a truth-table bit oracle to a query register and an ancilla:
    /// the ancilla is flipped exactly where the table entry indexed by the
    /// query bits is set.  The direct-matrix path is exposed for query
    /// widths up to two only.  Consumes both handles.
    pub fn apply_table(&mut self, reg: Register, anc: QubitHandle, table: Vec<bool>) -> (r: Result<
        (Register, QubitHandle),
        BuildError,
    >)
        requires
            old(self).wf(),
        ensures
            final(self).wf(),
            match r {
                Ok(p) => {
                    &&& !old(self)@.finalized
                    &&& old(self)@.register_live(reg@)
                    &&& old(self)@.qubit_live(anc@)
                    &&& reg@.gen != anc@.gen
                    &&& table_dims_ok(reg@.slots.len(), table@.len())
                    &&& final(self)@ == table_step(old(self)@, reg@, anc@, table@)
                    &&& p.0@.slots == reg@.slots
                    &&& p.0@.gen == old(self)@.live.len()
                    &&& p.1@.slot == anc@.slot
                    &&& p.1@.gen == old(self)@.live.len() + 1
                    &&& final(self)@.register_live(p.0@)
                    &&& final(self)@.qubit_live(p.1@)
                },
                Err(e) => {
                    &&& *final(self) == *old(self)
                    &&& if old(self)@.finalized {
                        e == BuildError::CircuitFinalized
                    } else if !old(self)@.register_live(reg@) || !old(self)@.qubit_live(anc@) {
                        e == BuildError::UseAfterConsume
                    } else if reg@.gen == anc@.gen {
                        e == BuildError::AliasingViolation
                    } else if !table_dims_ok(reg@.slots.len(), table@.len()) {
                        e == BuildError::DimensionMismatch
                    } else {
                        false
                    }
                },
            },
    {
        if self.finalized {
            return Err(BuildError::CircuitFinalized);
        }
        if !self.register_is_live(&reg) || !self.qubit_is_live(&anc) {
            return Err(BuildError::UseAfterConsume);
        }
        if reg.generation == anc.generation {
            return Err(BuildError::AliasingViolation);
        }
        let w = reg.slots.len();
        let want: usize = if w == 0 { 1 } else if w == 1 { 2 } else { 4 };
        if w > 2 || table.len() != want {
            return Err(BuildError::DimensionMismatch);
        }
        let ghost m0 = old(self)@;
        proof {
            lemma_free_after_consume(m0, reg@.gen);
            assert(seq_disjoint(m0.slots[reg@.gen as int], m0.slots[anc@.gen as int]));
            assert(m0.slots[anc@.gen as int][0] == anc@.slot);
            assert(m0.slots[anc@.gen as int][0] < m0.num_slots);
        }
        let mut targets = reg.slots();
        targets.push(anc.slot);
        proof {
            assert(targets@ =~= reg@.slots + seq![anc@.slot]);
        }
        let sa = reg.slots();
        self.retire_gen(reg.generation);
        let ghost mc = consume(m0, reg@.gen);
        proof {
            assert(self@.qubit_live(anc@));
            lemma_free_after_consume(mc, anc@.gen);
        }
        self.retire_gen(anc.generation);
        let ghost mct = consume(mc, anc@.gen);
        self.push_gate_raw(GateKind::Table(table), targets);
        proof {
            assert(self@.live == mct.live);
            assert(self@.slots == m0.slots);
            assert(self@.scopes == m0.scopes);
            assert(reg@.slots == m0.slots[reg@.gen as int]);
            assert forall|g2: int| self@.live_at(g2)
                implies seq_disjoint(reg@.slots, #[trigger] self@.slots[g2]) by {
                assert(mct.live_at(g2));
                assert(mc.live_at(g2));
                assert(seq_disjoint(m0.slots[reg@.gen as int], mc.slots[g2]));
            }
            assert forall|k: int| 0 <= k < self@.scopes.len()
                implies seq_disjoint(reg@.slots, (#[trigger] self@.scopes[k]).control_slots) by {
                assert(seq_disjoint(m0.slots[reg@.gen as int], m0.scopes[k].control_slots));
            }
        }
        let g1 = self.issue_gen(sa);
        proof {
            let m3 = self@;
            assert(slots_in_range(seq![anc@.slot], m3.num_slots));
            assert forall|g2: int| m3.live_at(g2)
                implies seq_disjoint(seq![anc@.slot], #[trigger] m3.slots[g2]) by {
                if g2 == g1 as int {
                    assert(m3.slots[g2] == reg@.slots);
                    lemma_disjoint_sym(m0.slots[reg@.gen as int], m0.slots[anc@.gen as int]);
                    assert(seq_disjoint(m0.slots[anc@.gen as int], m0.slots[reg@.gen as int]));
                } else {
                    assert(mct.live_at(g2));
                    assert(seq_disjoint(mc.slots[anc@.gen as int], mct.slots[g2]));
                }
            }
            assert forall|k: int| 0 <= k < m3.scopes.len()
                implies seq_disjoint(seq![anc@.slot], (#[trigger] m3.scopes[k]).control_slots) by {
                assert(seq_disjoint(mc.slots[anc@.gen as int], mc.scopes[k].control_slots));
            }
        }
        let g2 = self.issue_gen(vec![anc.slot]);
        proof {
            assert(self@ =~~= table_step(m0, reg@, anc@, table@));
        }
        Ok((
            Register { slots: reg.slots, generation: g1 },
            QubitHandle { slot: anc.slot, generation: g2 },
        ))
    }

    /// Emit the linear (XOR-form) oracle: one controlled-not from each
    /// query qubit whose secret bit is set onto the ancilla, realizing
    /// f(x) = x . secret (mod 2) as a bit oracle.  Consumes both handles
    /// and reissues them, the register first.
    pub fn xor_oracle(&mut self, reg: Register, anc: QubitHandle, secret: &Vec<bool>) -> (r: Result<
        (Register, QubitHandle),
        BuildError,
    >)
        requires
            old(self).wf(),
        ensures
            final(self).wf(),
            match r {
                Ok(p) => {
                    &&& !old(self)@.finalized
                    &&& old(self)@.register_live(reg@)
                    &&& old(self)@.qubit_live(anc@)
                    &&& reg@.gen != anc@.gen
                    &&& secret@.len() == reg@.slots.len()
                    &&& final(self)@ == xor_oracle_step(old(self)@, reg@, anc@, secret@)
                    &&& p.0@.slots == reg@.slots
                    &&& p.0@.gen == old(self)@.live.len()
                    &&& p.1@.slot == anc@.slot
                    &&& p.1@.gen == old(self)@.live.len() + 1
                    &&& final(self)@.register_live(p.0@)
                    &&& final(self)@.qubit_live(p.1@)
                },
                Err(e) => {
                    &&& *final(self) == *old(self)
                    &&& if old(self)@.finalized {
                        e == BuildError::CircuitFinalized
                    } else if !old(self)@.register_live(reg@) || !old(self)@.qubit_live(anc@) {
                        e == BuildError::UseAfterConsume
                    } else if reg@.gen == anc@.gen {
                        e == BuildError::AliasingViolation
                    } else if secret@.len() != reg@.slots.len() {
                        e == BuildError::DimensionMismatch
                    } else {
                        false
                    }
                },
            },
    {
        if self.finalized {
            return Err(BuildError::CircuitFinalized);
        }
        if !self.register_is_live(&reg) || !self.qubit_is_live(&anc) {
            return Err(BuildError::UseAfterConsume);
        }
        if reg.generation == anc.generation {
            return Err(BuildError::AliasingViolation);
        }
        if secret.len() != reg.slots.len() {
            return Err(BuildError::DimensionMismatch);
        }
        let ghost m0 = old(self)@;
        proof {
            lemma_free_after_consume(m0, reg@.gen);
            assert(seq_disjoint(m0.slots[reg@.gen as int], m0.slots[anc@.gen as int]));
            assert(m0.slots[anc@.gen as int][0] == anc@.slot);
            assert(m0.slots[anc@.gen as int][0] < m0.num_slots);
        }
        let sa = reg.slots();
        self.retire_gen(reg.generation);
        let ghost mc = consume(m0, reg@.gen);
        proof {
            assert(self@.qubit_live(anc@));
            lemma_free_after_consume(mc, anc@.gen);
        }
        self.retire_gen(anc.generation);
        let ghost mct = consume(mc, anc@.gen);
        let ghost controls = controls_of(m0.scopes);
        let n = secret.len();
        let mut i: usize = 0;
        while i < n
            invariant
                self.wf(),
                m0 == old(self)@,
                mct == consume(consume(m0, reg@.gen), anc@.gen),
                controls == controls_of(m0.scopes),
                i <= n,
                n == secret@.len(),
                n == reg@.slots.len(),
                n == reg.slots@.len(),
                reg@.slots == reg.slots@,
                anc@.slot == anc.slot,
                self@ == with_gates(mct, xor_oracle_gates(reg@.slots.take(i as int), secret@.take(i as int), anc@.slot, controls)),
            decreases n - i,
        {
            let ghost gpre = xor_oracle_gates(reg@.slots.take(i as int), secret@.take(i as int), anc@.slot, controls);
            if secret[i] {
                self.push_gate_raw(GateKind::Cnot, vec![reg.slots[i], anc.slot]);
            }
            proof {
                assert(reg@.slots.take(i + 1).drop_last() =~= reg@.slots.take(i as int));
                assert(secret@.take(i + 1).drop_last() =~= secret@.take(i as int));
                assert(secret@.take(i + 1).last() == secret@[i as int]);
                assert(reg@.slots.take(i + 1).last() == reg@.slots[i as int]);
                let gpost = xor_oracle_gates(reg@.slots.take(i + 1), secret@.take(i + 1), anc@.slot, controls);
                if secret@[i as int] {
                    assert(controls_of(mct.scopes) == controls);
                    assert(gpost =~= gpre + seq![
                        GateModel {
                            kind: GateKindModel::Cnot,
                            targets: seq![reg@.slots[i as int], anc@.slot],
                            controls,
                        },
                    ]);
                    assert(self@.gates =~= mct.gates + gpost);
                    assert(self@ =~~= with_gates(mct, gpost));
                } else {
                    assert(gpost =~= gpre);
                    assert(self@ =~~= with_gates(mct, gpost));
                }
            }
            i = i + 1;
        }
        proof {
            assert(reg@.slots.take(n as int) =~= reg@.slots);
            assert(secret@.take(n as int) =~= secret@);
            assert(self@.live == mct.live);
            assert(self@.slots == m0.slots);
            assert(self@.scopes == m0.scopes);
            assert(reg@.slots == m0.slots[reg@.gen as int]);
            assert forall|g2: int| self@.live_at(g2)
                implies seq_disjoint(reg@.slots, #[trigger] self@.slots[g2]) by {
                assert(mct.live_at(g2));
                assert(mc.live_at(g2));
                assert(seq_disjoint(m0.slots[reg@.gen as int], mc.slots[g2]));
            }
            assert forall|k: int| 0 <= k < self@.scopes.len()
                implies seq_disjoint(reg@.slots, (#[trigger] self@.scopes[k]).control_slots) by {
                assert(seq_disjoint(m0.slots[reg@.gen as int], m0.scopes[k].control_slots));
            }
        }
        let g1 = self.issue_gen(sa);
        proof {
            let m3 = self@;
            assert(slots_in_range(seq![anc@.slot], m3.num_slots));
            assert forall|g2: int| m3.live_at(g2)
                implies seq_disjoint(seq![anc@.slot], #[trigger] m3.slots[g2]) by {
                if g2 == g1 as int {
                    assert(m3.slots[g2] == reg@.slots);
                    lemma_disjoint_sym(m0.slots[reg@.gen as int], m0.slots[anc@.gen as int]);
                    assert(seq_disjoint(m0.slots[anc@.gen as int], m0.slots[reg@.gen as int]));
                } else {
                    assert(mct.live_at(g2));
                    assert(seq_disjoint(mc.slots[anc@.gen as int], mct.slots[g2]));
                }
            }
            assert forall|k: int| 0 <= k < m3.scopes.len()
                implies seq_disjoint(seq![anc@.slot], (#[trigger] m3.scopes[k]).control_slots) by {
                assert(seq_disjoint(mc.slots[anc@.gen as int], mc.scopes[k].control_slots));
            }
        }
        let g2 = self.issue_gen(vec![anc.slot]);
        proof {
            assert(self@ =~~= xor_oracle_step(m0, reg@, anc@, secret@));
        }
        Ok((
            Register { slots: reg.slots, generation: g1 },
            QubitHandle { slot: anc.slot, generation: g2 },
        ))
    }

    /// Merge two registers into one whose slots are the concatenation of
    /// the inputs'.  Consumes both; emits no gate.
    pub fn merge_two_registers(&mut self, ra: Register, rb: Register) -> (r: Result<
        Register,
        BuildError,
    >)
        requires
            old(self).wf(),
        ensures
            final(self).wf(),
            match r {
                Ok(r2) => {
                    &&& !old(self)@.finalized
                    &&& old(self)@.register_live(ra@)
                    &&& old(self)@.register_live(rb@)
                    &&& ra@.gen != rb@.gen
                    &&& final(self)@ == merge_registers_step(old(self)@, ra@, rb@)
                    &&& r2@.slots == ra@.slots + rb@.slots
                    &&& r2@.gen == old(self)@.live.len()
                    &&& final(self)@.register_live(r2@)
                },
                Err(e) => {
                    &&& *final(self) == *old(self)
                    &&& if old(self)@.finalized {
                        e == BuildError::CircuitFinalized
                    } else if !old(self)@.register_live(ra@) || !old(self)@.register_live(rb@) {
                        e == BuildError::UseAfterConsume
                    } else if ra@.gen == rb@.gen {
                        e == BuildError::AliasingViolation
                    } else {
                        false
                    }
                },
            },
    {
        if self.finalized {
            return Err(BuildError::CircuitFinalized);
        }
        if !self.register_is_live(&ra) || !self.register_is_live(&rb) {
            return Err(BuildError::UseAfterConsume);
        }
        if ra.generation == rb.generation {
            return Err(BuildError::AliasingViolation);
        }
        let ghost m0 = old(self)@;
        proof {
            lemma_free_after_consume(m0, ra@.gen);
            assert(seq_disjoint(m0.slots[ra@.gen as int], m0.slots[rb@.gen as int]));
        }
        let mut merged = ra.slots();
        let mut tb = rb.slots();
        merged.append(&mut tb);
        self.retire_gen(ra.generation);
        let ghost mc = consume(m0, ra@.gen);
        proof {
            assert(self@.register_live(rb@));
            lemma_free_after_consume(mc, rb@.gen);
        }
        self.retire_gen(rb.generation);
        let ghost mct = consume(mc, rb@.gen);
        proof {
            let sa = m0.slots[ra@.gen as int];
            let sb = m0.slots[rb@.gen as int];
            assert(merged@ == sa + sb);
            lemma_concat_in_range(sa, sb, m0.num_slots);
            lemma_concat_no_dup(sa, sb);
            assert(self@.live == mct.live);
            assert(self@.slots == m0.slots);
            assert(self@.scopes == m0.scopes);
            assert forall|g2: int| self@.live_at(g2)
                implies seq_disjoint(merged@, #[trigger] self@.slots[g2]) by {
                assert(mct.live_at(g2));
                assert(mc.live_at(g2));
                assert(seq_disjoint(sa, mc.slots[g2]));
                assert(seq_disjoint(sb, mct.slots[g2]));
                lemma_concat_disjoint(sa, sb, self@.slots[g2]);
            }
            assert forall|k: int| 0 <= k < self@.scopes.len()
                implies seq_disjoint(merged@, (#[trigger] self@.scopes[k]).control_slots) by {
                assert(seq_disjoint(sa, m0.scopes[k].control_slots));
                assert(seq_disjoint(sb, mc.scopes[k].control_slots));
                lemma_concat_disjoint(sa, sb, self@.scopes[k].control_slots);
            }
        }
        let ghost mergedv = merged@;
        let width = merged.len();
        let g = self.issue_gen(merged);
        proof {
            assert(self@ =~~= merge_registers_step(m0, ra@, rb@));
        }
        let mut slots = ra.slots;
        let mut sb2 = rb.slots;
        slots.append(&mut sb2);
        proof {
            assert(slots@ == mergedv);
        }
        Ok(Register { slots, generation: g })
    }
}

impl CircuitBuilder {
    /// Merge single qubits into one register whose slot order is the input
    /// order.  Consumes every handle; emits no gate.
    pub fn merge_qubits(&mut self, qs: Vec<QubitHandle>) -> (r: Result<Register, BuildError>)
        requires
            old(self).wf(),
        ensures
            final(self).wf(),
            match r {
                Ok(r2) => {
                    &&& !old(self)@.finalized
                    &&& forall|i: int| 0 <= i < qs@.len()
                        ==> old(self)@.qubit_live(#[trigger] qs@[i]@)
                    &&& forall|i: int, j: int| #![trigger qs@[i]@, qs@[j]@]
                        0 <= i < j < qs@.len() ==> qs@[i]@.gen != qs@[j]@.gen
                    &&& final(self)@ == merge_qubits_step(old(self)@, qs@.map_values(|q: QubitHandle| q@))
                    &&& r2@.slots == qubit_slots(qs@.map_values(|q: QubitHandle| q@))
                    &&& r2@.gen == old(self)@.live.len()
                    &&& final(self)@.register_live(r2@)
                },
                Err(e) => {
                    &&& *final(self) == *old(self)
                    &&& if old(self)@.finalized {
                        e == BuildError::CircuitFinalized
                    } else if exists|i: int| 0 <= i < qs@.len()
                        && !old(self)@.qubit_live(#[trigger] qs@[i]@) {
                        e == BuildError::UseAfterConsume
                    } else if exists|i: int, j: int| #![trigger qs@[i]@, qs@[j]@]
                        0 <= i < j < qs@.len() && qs@[i]@.gen == qs@[j]@.gen {
                        e == BuildError::AliasingViolation
                    } else {
                        false
                    }
                },
            },
    {
        let ghost m0 = old(self)@;
        let ghost qv = qs@.map_values(|q: QubitHandle| q@);
        if self.finalized {
            return Err(BuildError::CircuitFinalized);
        }
        let mut i: usize = 0;
        while i < qs.len()
            invariant
                self.wf(),
                *self == *old(self),
                m0 == old(self)@,
                !m0.finalized,
                i <= qs@.len(),
                qv == qs@.map_values(|q: QubitHandle| q@),
                forall|j: int| 0 <= j < i ==> m0.qubit_live(#[trigger] qv[j]),
            decreases qs@.len() - i,
        {
            proof {
                assert(qv[i as int] == qs@[i as int]@);
            }
            if !self.qubit_is_live(&qs[i]) {
                proof {
                    assert(!m0.finalized);
                    assert(exists|j: int| 0 <= j < qs@.len()
                        && !m0.qubit_live(#[trigger] qs@[j]@)) by {
                        assert(!m0.qubit_live(qs@[i as int]@));
                    }
                }
                return Err(BuildError::UseAfterConsume);
            }
            i = i + 1;
        }
        let mut a: usize = 0;
        while a < qs.len()
            invariant
                self.wf(),
                *self == *old(self),
                m0 == old(self)@,
                !m0.finalized,
                a <= qs@.len(),
                qv == qs@.map_values(|q: QubitHandle| q@),
                forall|j: int| 0 <= j < qv.len() ==> m0.qubit_live(#[trigger] qv[j]),
                forall|i2: int, j2: int| #![trigger qv[i2], qv[j2]]
                    0 <= i2 < j2 < qs@.len() && j2 < a ==> qv[i2].gen != qv[j2].gen,
            decreases qs@.len() - a,
        {
            let mut b: usize = 0;
            while b < a
                invariant
                    self.wf(),
                    *self == *old(self),
                    m0 == old(self)@,
                    !m0.finalized,
                    b <= a,
                    a < qs@.len(),
                    qv == qs@.map_values(|q: QubitHandle| q@),
                    forall|j: int| 0 <= j < qv.len() ==> m0.qubit_live(#[trigger] qv[j]),
                    forall|j2: int| 0 <= j2 < b ==> (#[trigger] qv[j2]).gen != qv[a as int].gen,
                decreases a - b,
            {
                proof {
                    assert(qv[b as int] == qs@[b as int]@);
                    assert(qv[a as int] == qs@[a as int]@);
                }
                if qs[b].generation == qs[a].generation {
                    proof {
                        assert forall|j: int| 0 <= j < qs@.len()
                            implies m0.qubit_live(#[trigger] qs@[j]@) by {
                            assert(qv[j] == qs@[j]@);
                        }
                        assert(exists|i2: int, j2: int| #![trigger qs@[i2]@, qs@[j2]@]
                            0 <= i2 < j2 < qs@.len() && qs@[i2]@.gen == qs@[j2]@.gen) by {
                            assert(qv[b as int] == qs@[b as int]@);
                            assert(qv[a as int] == qs@[a as int]@);
                            assert(0 <= b < a < qs@.len() && qs@[b as int]@.gen == qs@[a as int]@.gen);
                        }
                    }
                    return Err(BuildError::AliasingViolation);
                }
                b = b + 1;
            }
            a = a + 1;
        }
        proof {
            assert forall|i2: int| 0 <= i2 < qv.len()
                implies (#[trigger] qv[i2].gen as int) < m0.live.len() by {
                assert(m0.qubit_live(qv[i2]));
            }
            assert forall|i2: int| 0 <= i2 < qubit_gens(qv).len()
                implies (#[trigger] qubit_gens(qv)[i2] as int) < m0.live.len() by {
                assert(qubit_gens(qv)[i2] == qv[i2].gen);
                assert(m0.qubit_live(qv[i2]));
            }
        }
        let ghost gens = qubit_gens(qv);
        let mut k: usize = 0;
        let mut slots: Vec<usize> = Vec::new();
        while k < qs.len()
            invariant
                self.wf(),
                m0 == old(self)@,
                k <= qs@.len(),
                qv == qs@.map_values(|q: QubitHandle| q@),
                gens == qubit_gens(qv),
                forall|j: int| 0 <= j < qv.len() ==> m0.qubit_live(#[trigger] qv[j]),
                forall|i2: int, j2: int| #![trigger qv[i2], qv[j2]]
                    0 <= i2 < j2 < qv.len() ==> qv[i2].gen != qv[j2].gen,
                forall|i2: int| 0 <= i2 < gens.len()
                    ==> (#[trigger] gens[i2] as int) < m0.live.len(),
                self@ == consume_all(m0, gens.take(k as int)),
                slots@ == qubit_slots(qv).take(k as int),
            decreases qs@.len() - k,
        {
            proof {
                assert forall|i2: int| 0 <= i2 < gens.take(k as int).len()
                    implies (#[trigger] gens.take(k as int)[i2] as int) < m0.live.len() by {
                    assert(gens.take(k as int)[i2] == gens[i2]);
                }
                lemma_consume_all_facts(m0, gens.take(k as int));
                assert(qv[k as int] == qs@[k as int]@);
                assert(gens[k as int] == qv[k as int].gen);
            }
            self.retire_gen(qs[k].generation);
            slots.push(qs[k].slot);
            proof {
                assert(gens.take(k + 1).drop_last() =~= gens.take(k as int));
                assert(gens.take(k + 1).last() == gens[k as int]);
                assert(self@ =~~= consume_all(m0, gens.take(k + 1)));
                assert(qubit_slots(qv)[k as int] == qv[k as int].slot);
                assert(slots@ =~= qubit_slots(qv).take(k + 1));
            }
            k = k + 1;
        }
        let ghost sv = qubit_slots(qv);
        let ghost mca = consume_all(m0, gens);
        proof {
            assert(gens.take(qv.len() as int) =~= gens);
            assert(sv.take(qv.len() as int) =~= sv);
            lemma_consume_all_facts(m0, gens);
            assert forall|i2: int| 0 <= i2 < sv.len()
                implies #[trigger] sv[i2] < mca.num_slots by {
                assert(m0.qubit_live(qv[i2]));
                assert(m0.slots[qv[i2].gen as int] == seq![qv[i2].slot]);
                assert(m0.slots[qv[i2].gen as int][0] < m0.num_slots);
                assert(sv[i2] == qv[i2].slot);
            }
            assert forall|i2: int, j2: int| #![trigger sv[i2], sv[j2]]
                0 <= i2 < j2 < sv.len() implies sv[i2] != sv[j2] by {
                assert(m0.qubit_live(qv[i2]) && m0.qubit_live(qv[j2]));
                assert(qv[i2].gen != qv[j2].gen);
                assert(seq_disjoint(m0.slots[qv[i2].gen as int], m0.slots[qv[j2].gen as int]));
                assert(m0.slots[qv[i2].gen as int][0] != m0.slots[qv[j2].gen as int][0]);
            }
            assert forall|g2: int| mca.live_at(g2)
                implies seq_disjoint(sv, #[trigger] mca.slots[g2]) by {
                assert(m0.live_at(g2));
                assert forall|i2: int, j2: int| #![trigger sv[i2], mca.slots[g2][j2]]
                    0 <= i2 < sv.len() && 0 <= j2 < mca.slots[g2].len()
                    implies sv[i2] != mca.slots[g2][j2] by {
                    assert(m0.qubit_live(qv[i2]));
                    assert(gens[i2] == qv[i2].gen);
                    assert(!mca.live[gens[i2] as int]);
                    assert(g2 != qv[i2].gen as int);
                    assert(seq_disjoint(m0.slots[qv[i2].gen as int], m0.slots[g2]));
                    assert(m0.slots[qv[i2].gen as int][0] != m0.slots[g2][j2]);
                }
            }
            assert forall|k2: int| 0 <= k2 < mca.scopes.len()
                implies seq_disjoint(sv, (#[trigger] mca.scopes[k2]).control_slots) by {
                assert(m0.scopes[k2].wf_in(m0));
                assert forall|i2: int, j2: int| #![trigger sv[i2], mca.scopes[k2].control_slots[j2]]
                    0 <= i2 < sv.len() && 0 <= j2 < mca.scopes[k2].control_slots.len()
                    implies sv[i2] != mca.scopes[k2].control_slots[j2] by {
                    assert(m0.qubit_live(qv[i2]));
                    assert(m0.live_at(qv[i2].gen as int));
                    assert(seq_disjoint(m0.scopes[k2].control_slots, m0.slots[qv[i2].gen as int]));
                    assert(m0.scopes[k2].control_slots[j2] != m0.slots[qv[i2].gen as int][0]);
                }
            }
        }
        let slots2 = clone_slots(&slots);
        let g = self.issue_gen(slots);
        proof {
            assert(self@ =~~= merge_qubits_step(m0, qv));
            assert forall|i2: int| 0 <= i2 < qs@.len()
                implies m0.qubit_live(#[trigger] qs@[i2]@) by {
                assert(qv[i2] == qs@[i2]@);
            }
            assert forall|i2: int, j2: int| #![trigger qs@[i2]@, qs@[j2]@]
                0 <= i2 < j2 < qs@.len() implies qs@[i2]@.gen != qs@[j2]@.gen by {
                assert(qv[i2] == qs@[i2]@ && qv[j2] == qs@[j2]@);
            }
        }
        Ok(Register { slots: slots2, generation: g })
    }

    /// Split a register into its first qubit and the remainder register.
    /// A non-empty register always splits; an empty one is reissued as an
    /// empty remainder with no first handle.  Consumes `reg`; emits no gate.
    pub fn split_first(&mut self, reg: Register) -> (r: Result<
        (Option<QubitHandle>, Register),
        BuildError,
    >)
        requires
            old(self).wf(),
        ensures
            final(self).wf(),
            match r {
                Ok(p) => {
                    &&& !old(self)@.finalized
                    &&& old(self)@.register_live(reg@)
                    &&& final(self)@ == split_step(old(self)@, reg@)
                    &&& if reg@.slots.len() == 0 {
                        p.0 is None && p.1@.slots == Seq::<usize>::empty()
                            && p.1@.gen == old(self)@.live.len()
                    } else {
                        &&& p.0 is Some
                        &&& p.0.unwrap()@.slot == reg@.slots[0]
                        &&& p.0.unwrap()@.gen == old(self)@.live.len()
                        &&& p.1@.slots == reg@.slots.skip(1)
                        &&& p.1@.gen == old(self)@.live.len() + 1
                        &&& final(self)@.qubit_live(p.0.unwrap()@)
                    }
                    &&& final(self)@.register_live(p.1@)
                },
                Err(e) => {
                    &&& *final(self) == *old(self)
                    &&& if old(self)@.finalized {
                        e == BuildError::CircuitFinalized
                    } else {
                        e == BuildError::UseAfterConsume && !old(self)@.register_live(reg@)
                    }
                },
            },
    {
        if self.finalized {
            return Err(BuildError::CircuitFinalized);
        }
        if !self.register_is_live(&reg) {
            return Err(BuildError::UseAfterConsume);
        }
        let ghost m0 = old(self)@;
        proof {
            lemma_free_after_consume(m0, reg@.gen);
        }
        self.retire_gen(reg.generation);
        let ghost s = m0.slots[reg@.gen as int];
        if reg.slots.len() == 0 {
            let g = self.issue_gen(Vec::new());
            proof {
                assert(self@ =~~= split_step(m0, reg@));
            }
            Ok((None, Register { slots: reg.slots, generation: g }))
        } else {
            let mut rest = reg.slots;
            let first = rest.remove(0);
            proof {
                assert(rest@ =~= s.skip(1));
                assert(s[0] == first);
                assert(s[0] < m0.num_slots);
                assert forall|g2: int| self@.live_at(g2)
                    implies seq_disjoint(seq![first], #[trigger] self@.slots[g2]) by {
                    assert(consume(m0, reg@.gen).live_at(g2));
                    assert(seq_disjoint(s, consume(m0, reg@.gen).slots[g2]));
                    assert(s[0] != self@.slots[g2][0] || self@.slots[g2].len() == 0);
                    assert forall|i2: int, j2: int| #![trigger seq![first][i2], self@.slots[g2][j2]]
                        0 <= i2 < 1 && 0 <= j2 < self@.slots[g2].len()
                        implies seq![first][i2] != self@.slots[g2][j2] by {
                        assert(s[0] != self@.slots[g2][j2]);
                    }
                }
                assert forall|k: int| 0 <= k < self@.scopes.len()
                    implies seq_disjoint(seq![first], (#[trigger] self@.scopes[k]).control_slots) by {
                    assert(seq_disjoint(s, m0.scopes[k].control_slots));
                    assert forall|i2: int, j2: int|
                        #![trigger seq![first][i2], self@.scopes[k].control_slots[j2]]
                        0 <= i2 < 1 && 0 <= j2 < self@.scopes[k].control_slots.len()
                        implies seq![first][i2] != self@.scopes[k].control_slots[j2] by {
                        assert(s[0] != m0.scopes[k].control_slots[j2]);
                    }
                }
            }
            let g1 = self.issue_gen(vec![first]);
            proof {
                let m3 = self@;
                let rs = s.skip(1);
                assert forall|i2: int| 0 <= i2 < rs.len() implies #[trigger] rs[i2] < m3.num_slots by {
                    assert(rs[i2] == s[i2 + 1]);
                    assert(s[i2 + 1] < m0.num_slots);
                }
                assert forall|i2: int, j2: int| #![trigger rs[i2], rs[j2]]
                    0 <= i2 < j2 < rs.len() implies rs[i2] != rs[j2] by {
                    assert(rs[i2] == s[i2 + 1] && rs[j2] == s[j2 + 1]);
                    assert(s[i2 + 1] != s[j2 + 1]);
                }
                assert forall|g2: int| m3.live_at(g2)
                    implies seq_disjoint(rs, #[trigger] m3.slots[g2]) by {
                    if g2 == g1 as int {
                        assert(m3.slots[g2] == seq![first]);
                        assert forall|i2: int, j2: int| #![trigger rs[i2], seq![first][j2]]
                            0 <= i2 < rs.len() && 0 <= j2 < 1
                            implies rs[i2] != seq![first][j2] by {
                            assert(rs[i2] == s[i2 + 1]);
                            assert(s[i2 + 1] != s[0]);
                        }
                    } else {
                        assert(consume(m0, reg@.gen).live_at(g2));
                        assert(seq_disjoint(s, consume(m0, reg@.gen).slots[g2]));
                        assert forall|i2: int, j2: int| #![trigger rs[i2], m3.slots[g2][j2]]
                            0 <= i2 < rs.len() && 0 <= j2 < m3.slots[g2].len()
                            implies rs[i2] != m3.slots[g2][j2] by {
                            assert(rs[i2] == s[i2 + 1]);
                            assert(s[i2 + 1] != consume(m0, reg@.gen).slots[g2][j2]);
                        }
                    }
                }
                assert forall|k: int| 0 <= k < m3.scopes.len()
                    implies seq_disjoint(rs, (#[trigger] m3.scopes[k]).control_slots) by {
                    assert(seq_disjoint(s, m0.scopes[k].control_slots));
                    assert forall|i2: int, j2: int|
                        #![trigger rs[i2], m3.scopes[k].control_slots[j2]]
                        0 <= i2 < rs.len() && 0 <= j2 < m3.scopes[k].control_slots.len()
                        implies rs[i2] != m3.scopes[k].control_slots[j2] by {
                        assert(rs[i2] == s[i2 + 1]);
                        assert(s[i2 + 1] != m0.scopes[k].control_slots[j2]);
                    }
                }
            }
            let rest2 = clone_slots(&rest);
            let g2 = self.issue_gen(rest2);
            proof {
                assert(self@ =~~= split_step(m0, reg@));
            }
            Ok((
                Some(QubitHandle { slot: first, generation: g1 }),
                Register { slots: rest, generation: g2 },
            ))
        }
    }

    fn begin_scope(&mut self, generation: usize, control_slots: Vec<usize>, register: bool)
        requires
            old(self).wf(),
            !old(self)@.finalized,
            old(self)@.live_at(generation as int),
            old(self)@.slots[generation as int] == control_slots@,
            control_slots@.len() >= 1,
            register || control_slots@.len() == 1,
        ensures
            final(self).wf(),
            final(self)@ == begin_step(old(self)@, control_slots@, register, generation),
    {
        let ghost m0 = old(self)@;
        let ghost cs = control_slots@;
        proof {
            lemma_free_after_consume(m0, generation);
        }
        self.retire_gen(generation);
        let ghost fv = FrameModel { control_slots: cs, register, allocs: Seq::empty() };
        let mut cc = clone_slots(&control_slots);
        self.scopes.push(CondFrame { control_slots, register, allocs: Vec::new() });
        self.controls_concat.append(&mut cc);
        proof {
            let m2 = self@;
            let n = m0.scopes.len() as int;
            assert(m2.scopes =~= m0.scopes.push(fv));
            assert(m2 =~~= begin_step(m0, cs, register, generation));
            let mcon = consume(m0, generation);
            assert forall|k: int| 0 <= k < m2.scopes.len()
                implies (#[trigger] m2.scopes[k]).wf_in(m2) by {
                if k < n {
                    assert(m2.scopes[k] == m0.scopes[k]);
                    assert(m0.scopes[k].wf_in(m0));
                    assert forall|g2: int| m2.live_at(g2)
                        implies seq_disjoint(m2.scopes[k].control_slots, #[trigger] m2.slots[g2]) by {
                        assert(m0.live_at(g2));
                    }
                } else {
                    assert(m2.scopes[k] == fv);
                    assert(slots_in_range(cs, m0.num_slots) && seq_no_dup(cs));
                    assert forall|g2: int| m2.live_at(g2)
                        implies seq_disjoint(cs, #[trigger] m2.slots[g2]) by {
                        assert(mcon.live_at(g2));
                        assert(seq_disjoint(m0.slots[generation as int], mcon.slots[g2]));
                    }
                }
            }
            assert forall|k1: int, k2: int| #![trigger m2.scopes[k1], m2.scopes[k2]]
                0 <= k1 < k2 < m2.scopes.len()
                implies seq_disjoint(m2.scopes[k1].control_slots, m2.scopes[k2].control_slots) by {
                if k2 < n {
                    assert(seq_disjoint(m0.scopes[k1].control_slots, m0.scopes[k2].control_slots));
                } else {
                    assert(m2.scopes[k1] == m0.scopes[k1]);
                    assert(seq_disjoint(m0.slots[generation as int], m0.scopes[k1].control_slots));
                    lemma_disjoint_sym(m0.slots[generation as int], m0.scopes[k1].control_slots);
                    assert(m2.scopes[k2].control_slots == cs);
                }
            }
            assert(m2.scopes.drop_last() =~= m0.scopes);
            assert(controls_of(m2.scopes) == controls_of(m0.scopes) + cs);
        }
    }

    /// Borrow a single control qubit for a new condition scope: every gate
    /// applied while the scope is open is conditioned on this control being
    /// one.  The control is returned by `dissolve`.
    pub fn begin_condition(&mut self, c: QubitHandle) -> (r: Result<ConditionScope, BuildError>)
        requires
            old(self).wf(),
        ensures
            final(self).wf(),
            match r {
                Ok(s) => {
                    &&& !old(self)@.finalized
                    &&& old(self)@.qubit_live(c@)
                    &&& final(self)@ == begin_step(old(self)@, seq![c@.slot], false, c@.gen)
                    &&& s@.0 == old(self)@.scopes.len()
                    &&& s@.1 == false
                },
                Err(e) => {
                    &&& *final(self) == *old(self)
                    &&& if old(self)@.finalized {
                        e == BuildError::CircuitFinalized
                    } else {
                        e == BuildError::UseAfterConsume && !old(self)@.qubit_live(c@)
                    }
                },
            },
    {
        if self.finalized {
            return Err(BuildError::CircuitFinalized);
        }
        if !self.qubit_is_live(&c) {
            return Err(BuildError::UseAfterConsume);
        }
        let depth = self.scopes.len();
        let cs = vec![c.slot];
        proof {
            assert(cs@ =~= seq![c@.slot]);
            assert(self@.slots[c@.gen as int] == seq![c@.slot]);
        }
        self.begin_scope(c.generation, cs, false);
        Ok(ConditionScope { depth, register: false })
    }

    /// Borrow a control register for a new condition scope: gates applied
    /// while it is open are conditioned on all its qubits being one.
    pub fn begin_condition_register(&mut self, c: Register) -> (r: Result<
        ConditionScope,
        BuildError,
    >)
        requires
            old(self).wf(),
        ensures
            final(self).wf(),
            match r {
                Ok(s) => {
                    &&& !old(self)@.finalized
                    &&& old(self)@.register_live(c@)
                    &&& c@.slots.len() >= 1
                    &&& final(self)@ == begin_step(old(self)@, c@.slots, true, c@.gen)
                    &&& s@.0 == old(self)@.scopes.len()
                    &&& s@.1 == true
                },
                Err(e) => {
                    &&& *final(self) == *old(self)
                    &&& if old(self)@.finalized {
                        e == BuildError::CircuitFinalized
                    } else if !old(self)@.register_live(c@) {
                        e == BuildError::UseAfterConsume
                    } else if c@.slots.len() == 0 {
                        e == BuildError::DimensionMismatch
                    } else {
                        false
                    }
                },
            },
    {
        if self.finalized {
            return Err(BuildError::CircuitFinalized);
        }
        if !self.register_is_live(&c) {
            return Err(BuildError::UseAfterConsume);
        }
        if c.slots.len() == 0 {
            return Err(BuildError::DimensionMismatch);
        }
        let depth = self.scopes.len();
        self.begin_scope(c.generation, c.slots, true);
        Ok(ConditionScope { depth, register: true })
    }

    fn dissolve_scope(&mut self, depth: usize, register: bool) -> (r: Result<
        (Vec<usize>, usize),
        BuildError,
    >)
        requires
            old(self).wf(),
        ensures
            final(self).wf(),
            match r {
                Ok(p) => {
                    &&& !old(self)@.finalized
                    &&& scope_redeemable(old(self)@, depth, register)
                    &&& final(self)@ == dissolve_step(old(self)@)
                    &&& p.0@ == old(self)@.scopes.last().control_slots
                    &&& p.1 == old(self)@.live.len()
                    &&& final(self)@.register_live(RegisterModel { slots: p.0@, gen: p.1 })
                },
                Err(e) => {
                    &&& *final(self) == *old(self)
                    &&& if old(self)@.finalized {
                        e == BuildError::CircuitFinalized
                    } else {
                        e == BuildError::ScopeLeak
                            && !scope_redeemable(old(self)@, depth, register)
                    }
                },
            },
    {
        let ghost m0 = old(self)@;
        if self.finalized {
            return Err(BuildError::CircuitFinalized);
        }
        if self.scopes.len() == 0 || self.scopes.len() - 1 != depth {
            return Err(BuildError::ScopeLeak);
        }
        let d = self.scopes.len() - 1;
        if self.scopes[d].register != register {
            return Err(BuildError::ScopeLeak);
        }
        let mut i: usize = 0;
        while i < self.scopes[d].allocs.len()
            invariant
                self.wf(),
                *self == *old(self),
                d == old(self)@.scopes.len() - 1,
                d < old(self)@.scopes.len(),
                i <= old(self)@.scopes.last().allocs.len(),
                forall|j: int| 0 <= j < i
                    ==> !old(self)@.live_at(#[trigger] old(self)@.scopes.last().allocs[j] as int),
            decreases self.scopes@.len() * 2 + self@.scopes.last().allocs.len() - i,
        {
            let a = self.scopes[d].allocs[i];
            proof {
                assert(self@.scopes[d as int].wf_in(self@));
                assert(self@.scopes[d as int].allocs[i as int] < self@.live.len());
                assert(self@.scopes[d as int] == self@.scopes.last());
            }
            if self.live[a] {
                return Err(BuildError::ScopeLeak);
            }
            i = i + 1;
        }
        let f = match self.scopes.pop() {
            Some(f) => f,
            None => {
                proof {
                    assert(false);
                }
                unreached()
            },
        };
        let ghost fv = m0.scopes.last();
        let w = f.control_slots.len();
        let n = self.controls_concat.len();
        proof {
            assert(m0.scopes.len() > 0);
            assert(controls_of(m0.scopes) == controls_of(m0.scopes.drop_last()) + fv.control_slots);
            assert(f@ == fv);
            assert(n == controls_of(m0.scopes.drop_last()).len() + w);
        }
        self.controls_concat.truncate(n - w);
        proof {
            let mid = self@;
            assert(mid =~~= (BuilderModel { scopes: m0.scopes.drop_last(), ..m0 }));
            assert(self.controls_concat@ =~= controls_of(m0.scopes.drop_last()));
            assert forall|k: int| 0 <= k < mid.scopes.len()
                implies (#[trigger] mid.scopes[k]).wf_in(mid) by {
                assert(mid.scopes[k] == m0.scopes[k]);
                assert(m0.scopes[k].wf_in(m0));
                assert forall|g2: int| mid.live_at(g2)
                    implies seq_disjoint(mid.scopes[k].control_slots, #[trigger] mid.slots[g2]) by {
                    assert(m0.live_at(g2));
                }
            }
            assert forall|k1: int, k2: int| #![trigger mid.scopes[k1], mid.scopes[k2]]
                0 <= k1 < k2 < mid.scopes.len()
                implies seq_disjoint(mid.scopes[k1].control_slots, mid.scopes[k2].control_slots) by {
                assert(seq_disjoint(m0.scopes[k1].control_slots, m0.scopes[k2].control_slots));
            }
            // the freed control slots satisfy the issue preconditions
            assert(fv.wf_in(m0));
            assert forall|g2: int| mid.live_at(g2)
                implies seq_disjoint(fv.control_slots, #[trigger] mid.slots[g2]) by {
                assert(m0.live_at(g2));
                assert(seq_disjoint(fv.control_slots, m0.slots[g2]));
            }
            assert forall|k: int| 0 <= k < mid.scopes.len()
                implies seq_disjoint(fv.control_slots, (#[trigger] mid.scopes[k]).control_slots) by {
                let last = m0.scopes.len() - 1;
                assert(m0.scopes[k] == mid.scopes[k]);
                assert(seq_disjoint(m0.scopes[k].control_slots, m0.scopes[last].control_slots));
                lemma_disjoint_sym(m0.scopes[k].control_slots, fv.control_slots);
            }
        }
        let copy = clone_slots(&f.control_slots);
        let g = self.issue_gen(f.control_slots);
        proof {
            assert(self@ =~~= dissolve_step(m0));
        }
        Ok((copy, g))
    }

    /// End the innermost condition scope begun on a single qubit, returning
    /// the control for continued independent use.  Fails with `ScopeLeak`
    /// when the token does not name the innermost scope of the matching
    /// kind, or a handle allocated inside the scope is still live.
    pub fn dissolve(&mut self, scope: ConditionScope) -> (r: Result<QubitHandle, BuildError>)
        requires
            old(self).wf(),
        ensures
            final(self).wf(),
            match r {
                Ok(c2) => {
                    &&& !old(self)@.finalized
                    &&& scope@.1 == false
                    &&& scope_redeemable(old(self)@, scope@.0, false)
                    &&& final(self)@ == dissolve_step(old(self)@)
                    &&& c2@.slot == old(self)@.scopes.last().control_slots[0]
                    &&& c2@.gen == old(self)@.live.len()
                    &&& final(self)@.qubit_live(c2@)
                },
                Err(e) => {
                    &&& *final(self) == *old(self)
                    &&& if old(self)@.finalized {
                        e == BuildError::CircuitFinalized
                    } else {
                        e == BuildError::ScopeLeak
                            && !(scope@.1 == false && scope_redeemable(old(self)@, scope@.0, false))
                    }
                },
            },
    {
        if !self.finalized && scope.register {
            return Err(BuildError::ScopeLeak);
        }
        let ghost m0 = old(self)@;
        match self.dissolve_scope(scope.depth, false) {
            Ok((slots, g)) => {
                proof {
                    assert(m0.scopes.last().wf_in(m0));
                    assert(m0.scopes.last().control_slots.len() == 1);
                    assert(slots@ =~= seq![m0.scopes.last().control_slots[0]]);
                }
                let slot0 = slots[0];
                Ok(QubitHandle { slot: slot0, generation: g })
            },
            Err(e) => Err(e),
        }
    }

    /// End the innermost condition scope begun on a register, returning the
    /// control register.  Fails with `ScopeLeak` as `dissolve` does.
    pub fn dissolve_register(&mut self, scope: ConditionScope) -> (r: Result<Register, BuildError>)
        requires
            old(self).wf(),
        ensures
            final(self).wf(),
            match r {
                Ok(c2) => {
                    &&& !old(self)@.finalized
                    &&& scope@.1 == true
                    &&& scope_redeemable(old(self)@, scope@.0, true)
                    &&& final(self)@ == dissolve_step(old(self)@)
                    &&& c2@.slots == old(self)@.scopes.last().control_slots
                    &&& c2@.gen == old(self)@.live.len()
                    &&& final(self)@.register_live(c2@)
                },
                Err(e) => {
                    &&& *final(self) == *old(self)
                    &&& if old(self)@.finalized {
                        e == BuildError::CircuitFinalized
                    } else {
                        e == BuildError::ScopeLeak
                            && !(scope@.1 == true && scope_redeemable(old(self)@, scope@.0, true))
                    }
                },
            },
    {
        if !self.finalized && !scope.register {
            return Err(BuildError::ScopeLeak);
        }
        match self.dissolve_scope(scope.depth, true) {
            Ok((slots, g)) => Ok(Register { slots, generation: g }),
            Err(e) => Err(e),
        }
    }

    fn measure_impl(&mut self, reg: Register, stochastic: bool) -> (r: Result<
        MeasurementHandle,
        BuildError,
    >)
        requires
            old(self).wf(),
        ensures
            final(self).wf(),
            match r {
                Ok(h) => {
                    &&& !old(self)@.finalized
                    &&& old(self)@.register_live(reg@)
                    &&& final(self)@ == measure_step(old(self)@, reg@, stochastic)
                    &&& h@ == old(self)@.measurements.len()
                },
                Err(e) => {
                    &&& *final(self) == *old(self)
                    &&& if old(self)@.finalized {
                        e == BuildError::CircuitFinalized
                    } else {
                        e == BuildError::UseAfterConsume && !old(self)@.register_live(reg@)
                    }
                },
            },
    {
        if self.finalized {
            return Err(BuildError::CircuitFinalized);
        }
        if !self.register_is_live(&reg) {
            return Err(BuildError::UseAfterConsume);
        }
        let ghost m0 = old(self)@;
        self.retire_gen(reg.generation);
        let id = self.measurements.len();
        self.measurements.push(MeasurementRequest { slots: reg.slots, stochastic });
        proof {
            assert(self@ =~~= measure_step(m0, reg@, stochastic));
            let m2 = self@;
            let mc = consume(m0, reg@.gen);
            assert forall|k: int| 0 <= k < m2.scopes.len()
                implies (#[trigger] m2.scopes[k]).wf_in(m2) by {
                assert(mc.scopes[k].wf_in(mc));
                assert forall|g2: int| m2.live_at(g2)
                    implies seq_disjoint(m2.scopes[k].control_slots, #[trigger] m2.slots[g2]) by {
                    assert(mc.live_at(g2));
                }
            }
        }
        Ok(MeasurementHandle { id })
    }

    /// Mark a register for deterministic (collapse-and-record) measurement
    /// at evaluation time.  The register is consumed.
    pub fn register_measurement(&mut self, reg: Register) -> (r: Result<
        MeasurementHandle,
        BuildError,
    >)
        requires
            old(self).wf(),
        ensures
            final(self).wf(),
            match r {
                Ok(h) => {
                    &&& !old(self)@.finalized
                    &&& old(self)@.register_live(reg@)
                    &&& final(self)@ == measure_step(old(self)@, reg@, false)
                    &&& h@ == old(self)@.measurements.len()
                },
                Err(e) => {
                    &&& *final(self) == *old(self)
                    &&& if old(self)@.finalized {
                        e == BuildError::CircuitFinalized
                    } else {
                        e == BuildError::UseAfterConsume && !old(self)@.register_live(reg@)
                    }
                },
            },
    {
        self.measure_impl(reg, false)
    }

    /// Mark a register for stochastic measurement: evaluation reports the
    /// full outcome probability distribution instead of one sample.  The
    /// register is consumed.
    pub fn register_stochastic(&mut self, reg: Register) -> (r: Result<
        MeasurementHandle,
        BuildError,
    >)
        requires
            old(self).wf(),
        ensures
            final(self).wf(),
            match r {
                Ok(h) => {
                    &&& !old(self)@.finalized
                    &&& old(self)@.register_live(reg@)
                    &&& final(self)@ == measure_step(old(self)@, reg@, true)
                    &&& h@ == old(self)@.measurements.len()
                },
                Err(e) => {
                    &&& *final(self) == *old(self)
                    &&& if old(self)@.finalized {
                        e == BuildError::CircuitFinalized
                    } else {
                        e == BuildError::UseAfterConsume && !old(self)@.register_live(reg@)
                    }
                },
            },
    {
        self.measure_impl(reg, true)
    }

    /// Close the build phase: after this no operation can extend the
    /// circuit (each fails with `CircuitFinalized`).  Fails with `ScopeLeak`
    /// when a condition scope is still open.  Idempotent.
    pub fn finalize(&mut self) -> (r: Result<(), BuildError>)
        requires
            old(self).wf(),
        ensures
            final(self).wf(),
            match r {
                Ok(u) => {
                    &&& old(self)@.scopes.len() == 0
                    &&& final(self)@ == finalize_step(old(self)@)
                },
                Err(e) => {
                    &&& *final(self) == *old(self)
                    &&& e == BuildError::ScopeLeak
                    &&& old(self)@.scopes.len() > 0
                },
            },
    {
        if self.scopes.len() > 0 {
            return Err(BuildError::ScopeLeak);
        }
        self.finalized = true;
        proof {
            assert(self@ =~~= finalize_step(old(self)@));
        }
        Ok(())
    }
}

fn clone_target(base: usize, width: usize) -> (s: Vec<usize>)
    requires
        base + width <= usize::MAX,
    ensures
        s@ == Seq::new(width as nat, |i: int| (base + i) as usize),
{
    let mut s: Vec<usize> = Vec::new();
    let mut i: usize = 0;
    while i < width
        invariant
            i <= width,
            base + width <= usize::MAX,
            s@.len() == i,
            forall|j: int| 0 <= j < i ==> #[trigger] s@[j] == base + j,
        decreases width - i,
    {
        s.push(base + i);
        i = i + 1;
    }
    proof {
        assert(s@ =~= Seq::new(width as nat, |i: int| (base + i) as usize));
    }
    s
}

} // verus!
