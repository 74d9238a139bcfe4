//! Gate-based circuits and their lowering to a constraint system.
//!
//! A circuit owns an optional hash combiner, an append-only input vector,
//! an append-only gate sequence, and an append-only output log (purely
//! observational; never consumed by verification logic). Lowering clones the
//! inputs into a fresh variable snapshot and emits one single-term
//! constraint per gate, in gate order; a hash gate first combines the two
//! *original* input values eagerly and writes the result into the output
//! variable's slot of the snapshot.

use vstd::prelude::*;
use crate::bigint::Int;
use crate::hash_function::{combine_fn, HashFunction};
use crate::r1cs::{
    all_satisfied, terms_view, ConstraintView, Operation, Variable, VariableView, R1CS,
};

verus! {

/// A typed gate: each variant carries the positions of its two operands and
/// of its output in the circuit's input vector.
#[derive(Clone, Copy)]
pub enum Gate {
    Add(usize, usize, usize),
    Mul(usize, usize, usize),
    Hash(usize, usize, usize),
}

/// The three positions a gate references: both operands and the output.
pub open spec fn gate_indices(g: Gate) -> (int, int, int) {
    match g {
        Gate::Add(a, b, o) => (a as int, b as int, o as int),
        Gate::Mul(a, b, o) => (a as int, b as int, o as int),
        Gate::Hash(a, b, o) => (a as int, b as int, o as int),
    }
}

/// The operation a gate's constraint is tagged with.
pub open spec fn gate_operation(g: Gate) -> Operation {
    match g {
        Gate::Add(..) => Operation::Add,
        Gate::Mul(..) => Operation::Mul,
        Gate::Hash(..) => Operation::Hash,
    }
}

/// Whether a gate's three indices reference valid positions in an input
/// vector of the given length.
pub open spec fn gate_in_bounds(g: Gate, n: int) -> bool {
    gate_indices(g).0 < n && gate_indices(g).1 < n && gate_indices(g).2 < n
}

/// Whether every gate references valid positions.
pub open spec fn gates_in_bounds(gates: Seq<Gate>, n: int) -> bool {
    forall|k: int| 0 <= k < gates.len() ==> gate_in_bounds(gates[k], n)
}

/// A single-term constraint side: one variable with coefficient one.
pub open spec fn unit_side(index: int, value: int) -> Seq<(VariableView, int)> {
    seq![(VariableView { index: index, value: value }, 1int)]
}

/// The variable values after lowering one gate: a hash gate writes the
/// combination of the two original input values into its output slot; add
/// and mul gates leave the snapshot unchanged.
pub open spec fn lower_vars_step(
    inputs: Seq<int>,
    vars: Seq<int>,
    g: Gate,
    combine: spec_fn(int, int) -> int,
) -> Seq<int> {
    match g {
        Gate::Hash(a, b, o) => vars.update(o as int, combine(inputs[a as int], inputs[b as int])),
        _ => vars,
    }
}

/// The constraint one gate lowers to, read off the variable values as they
/// stand after that gate's own lowering step: three single-term sides with
/// coefficient one.
pub open spec fn gate_constraint(vars: Seq<int>, g: Gate) -> ConstraintView {
    ConstraintView {
        left: unit_side(gate_indices(g).0, vars[gate_indices(g).0]),
        right: unit_side(gate_indices(g).1, vars[gate_indices(g).1]),
        output: unit_side(gate_indices(g).2, vars[gate_indices(g).2]),
        operation: gate_operation(g),
    }
}

/// The variable values after lowering all the given gates in order, starting
/// from a snapshot of the inputs.
pub open spec fn lowered_vars(
    inputs: Seq<int>,
    gates: Seq<Gate>,
    combine: spec_fn(int, int) -> int,
) -> Seq<int>
    decreases gates.len(),
{
    if gates.len() == 0 {
        inputs
    } else {
        lower_vars_step(
            inputs,
            lowered_vars(inputs, gates.drop_last(), combine),
            gates.last(),
            combine,
        )
    }
}

/// The constraints lowered from the given gates, in gate order.
pub open spec fn lowered_constraints(
    inputs: Seq<int>,
    gates: Seq<Gate>,
    combine: spec_fn(int, int) -> int,
) -> Seq<ConstraintView>
    decreases gates.len(),
{
    if gates.len() == 0 {
        Seq::empty()
    } else {
        lowered_constraints(inputs, gates.drop_last(), combine).push(
            gate_constraint(lowered_vars(inputs, gates, combine), gates.last()),
        )
    }
}

/// Lowering in-bounds gates never changes how many variables the snapshot
/// holds.
pub proof fn lemma_lowered_vars_len(
    inputs: Seq<int>,
    gates: Seq<Gate>,
    combine: spec_fn(int, int) -> int,
)
    requires
        gates_in_bounds(gates, inputs.len() as int),
    ensures
        lowered_vars(inputs, gates, combine).len() == inputs.len(),
    decreases gates.len(),
{
    if gates.len() > 0 {
        assert forall|k: int| 0 <= k < gates.drop_last().len() implies gate_in_bounds(
            gates.drop_last()[k],
            inputs.len() as int,
        ) by {
            assert(gates.drop_last()[k] == gates[k]);
        }
        lemma_lowered_vars_len(inputs, gates.drop_last(), combine);
        let prev = lowered_vars(inputs, gates.drop_last(), combine);
        match gates.last() {
            Gate::Hash(a, b, o) => {
                assert(gate_in_bounds(gates.last(), inputs.len() as int));
                assert(lowered_vars(inputs, gates, combine) == prev.update(
                    o as int,
                    combine(inputs[a as int], inputs[b as int]),
                ));
            },
            _ => {
                assert(lowered_vars(inputs, gates, combine) == prev);
            },
        }
    }
}

/// The combining function of an optionally configured combiner: the
/// combiner's own function, or integer addition when none is configured.
pub open spec fn circuit_combine<H: HashFunction>(hasher: Option<H>) -> spec_fn(int, int) -> int {
    match hasher {
        Some(h) => (|a: int, b: int| h.spec_hash(a, b)),
        None => (|a: int, b: int| a + b),
    }
}

/// Whether the circuit's lowered constraint system is satisfied under the
/// circuit's own combining function.
pub open spec fn spec_proof_valid(c: CircuitView) -> bool {
    all_satisfied(lowered_constraints(c.inputs, c.gates, c.combine), c.combine)
}

/// The one-byte proof artifact a circuit produces: one when the lowered
/// system is satisfied, zero when it is not.
pub open spec fn spec_proof_byte(c: CircuitView) -> u8 {
    if spec_proof_valid(c) {
        1u8
    } else {
        0u8
    }
}

/// The mathematical content of a circuit: its combining function, its input
/// values, its gates and its output log.
pub struct CircuitView {
    pub combine: spec_fn(int, int) -> int,
    pub inputs: Seq<int>,
    pub gates: Seq<Gate>,
    pub outputs: Seq<int>,
}

/// A gate-based circuit over named inputs, with an optional hash combiner.
pub struct Circuit<H: HashFunction> {
    hash_function: Option<H>,
    inputs: Vec<Int>,
    gates: Vec<Gate>,
    outputs: Vec<Int>,
}

impl<H: HashFunction> View for Circuit<H> {
    type V = CircuitView;

    closed spec fn view(&self) -> CircuitView {
        CircuitView {
            combine: circuit_combine(self.hash_function),
            inputs: self.inputs@.map_values(|v: Int| v@),
            gates: self.gates@,
            outputs: self.outputs@.map_values(|v: Int| v@),
        }
    }
}

/// One constraint side holding the given variable with coefficient one.
fn unit_term(var: &Variable) -> (r: Vec<(Variable, Int)>)
    ensures
        terms_view(r) == unit_side(var@.index, var@.value),
{
    let one = Int::from_u32(1);
    let mut side: Vec<(Variable, Int)> = Vec::new();
    side.push((var.clone(), one));
    proof {
        assert(var@ == (VariableView { index: var@.index, value: var@.value }));
        assert(terms_view(side) =~= unit_side(var@.index, var@.value));
    }
    side
}

/// Emits the single-term constraint over the variables at the three given
/// positions, with coefficient one on every side.
fn push_gate_constraint(r1cs: &mut R1CS, a: usize, b: usize, o: usize, op: Operation)
    requires
        a < old(r1cs)@.variables.len(),
        b < old(r1cs)@.variables.len(),
        o < old(r1cs)@.variables.len(),
    ensures
        final(r1cs)@.variables == old(r1cs)@.variables,
        final(r1cs)@.constraints == old(r1cs)@.constraints.push(
            ConstraintView {
                left: seq![(old(r1cs)@.variables[a as int], 1int)],
                right: seq![(old(r1cs)@.variables[b as int], 1int)],
                output: seq![(old(r1cs)@.variables[o as int], 1int)],
                operation: op,
            },
        ),
{
    proof {
        assert(r1cs@.variables[a as int] == r1cs.variables@[a as int]@);
        assert(r1cs@.variables[b as int] == r1cs.variables@[b as int]@);
        assert(r1cs@.variables[o as int] == r1cs.variables@[o as int]@);
    }
    let left = unit_term(&r1cs.variables[a]);
    let right = unit_term(&r1cs.variables[b]);
    let output = unit_term(&r1cs.variables[o]);
    proof {
        assert(terms_view(left) =~= seq![(old(r1cs)@.variables[a as int], 1int)]);
        assert(terms_view(right) =~= seq![(old(r1cs)@.variables[b as int], 1int)]);
        assert(terms_view(output) =~= seq![(old(r1cs)@.variables[o as int], 1int)]);
    }
    r1cs.add_constraint(left, right, output, op);
}

impl<H: HashFunction> Circuit<H> {
    /// An empty circuit with the given combiner, or none for plain addition.
    pub fn new(hash_function: Option<H>) -> (r: Self)
        ensures
            r@.combine == circuit_combine(hash_function),
            r@.inputs.len() == 0,
            r@.gates.len() == 0,
            r@.outputs.len() == 0,
    {
        Circuit { hash_function, inputs: Vec::new(), gates: Vec::new(), outputs: Vec::new() }
    }

    /// Appends a value to the input vector and returns its position.
    pub fn add_input(&mut self, input: Int) -> (index: usize)
        ensures
            index == old(self)@.inputs.len(),
            final(self)@.inputs == old(self)@.inputs.push(input@),
            final(self)@.gates == old(self)@.gates,
            final(self)@.outputs == old(self)@.outputs,
            final(self)@.combine == old(self)@.combine,
    {
        let index = self.inputs.len();
        self.inputs.push(input);
        proof {
            assert(self.inputs@.map_values(|v: Int| v@) =~= old(self).inputs@.map_values(
                |v: Int| v@,
            ).push(input@));
        }
        index
    }

    /// Appends a gate; its indices are not validated here, but lowering
    /// requires every referenced position to exist.
    pub fn add_gate(&mut self, gate: Gate)
        ensures
            final(self)@.gates == old(self)@.gates.push(gate),
            final(self)@.inputs == old(self)@.inputs,
            final(self)@.outputs == old(self)@.outputs,
            final(self)@.combine == old(self)@.combine,
    {
        self.gates.push(gate);
    }

    /// Appends a claimed output value to the output log. The log is purely
    /// observational: satisfaction never reads it.
    pub fn set_output(&mut self, output: Int)
        ensures
            final(self)@.outputs == old(self)@.outputs.push(output@),
            final(self)@.inputs == old(self)@.inputs,
            final(self)@.gates == old(self)@.gates,
            final(self)@.combine == old(self)@.combine,
    {
        self.outputs.push(output);
        proof {
            assert(self.outputs@.map_values(|v: Int| v@) =~= old(self).outputs@.map_values(
                |v: Int| v@,
            ).push(output@));
        }
    }

    /// Combines two values with the circuit's combiner, or adds them when no
    /// combiner is configured.
    pub fn apply_hash(&self, a: &Int, b: &Int) -> (r: Int)
        ensures
            r@ == (self@.combine)(a@, b@),
    {
        match &self.hash_function {
            Some(h) => h.hash(a, b),
            None => a.add_value(b),
        }
    }

    /// The input value at the given position, or nothing when the position
    /// is out of range.
    pub fn get_input(&self, index: usize) -> (r: Option<&Int>)
        ensures
            match r {
                Some(v) => index < self@.inputs.len() && v@ == self@.inputs[index as int],
                None => index >= self@.inputs.len(),
            },
    {
        if index < self.inputs.len() {
            Some(&self.inputs[index])
        } else {
            None
        }
    }

    /// Whether every gate references valid positions in the input vector:
    /// the condition lowering requires. A gate may be added before its
    /// positions exist, but they must exist by the time a proof is generated.
    pub fn gates_are_in_bounds(&self) -> (r: bool)
        ensures
            r == gates_in_bounds(self@.gates, self@.inputs.len() as int),
    {
        let n = self.inputs.len();
        let mut k: usize = 0;
        while k < self.gates.len()
            invariant
                k <= self.gates.len(),
                n == self@.inputs.len(),
                self.gates@ == self@.gates,
                forall|t: int|
                    0 <= t < k ==> gate_in_bounds(#[trigger] self@.gates[t], self@.inputs.len() as int),
            decreases self.gates.len() - k,
        {
            let ok = match self.gates[k] {
                Gate::Add(a, b, o) => a < n && b < n && o < n,
                Gate::Mul(a, b, o) => a < n && b < n && o < n,
                Gate::Hash(a, b, o) => a < n && b < n && o < n,
            };
            if !ok {
                proof {
                    assert(!gate_in_bounds(self@.gates[k as int], self@.inputs.len() as int));
                }
                return false;
            }
            k = k + 1;
        }
        true
    }

    /// Lowers the circuit to a rank-1 constraint system — a cloned variable
    /// snapshot and one constraint per gate — checks satisfaction under the
    /// circuit's combiner, and returns the one-byte proof artifact: one for
    /// satisfied, zero for not.
    pub fn generate_proof(&self) -> (proof_byte: u8)
        requires
            gates_in_bounds(self@.gates, self@.inputs.len() as int),
        ensures
            proof_byte == spec_proof_byte(self@),
    {
        let ghost cv = self@;
        let ghost n = cv.inputs.len() as int;
        let ghost combine = cv.combine;
        let mut r1cs = R1CS::new();

        let mut i: usize = 0;
        while i < self.inputs.len()
            invariant
                cv == self@,
                i <= self.inputs.len(),
                self.inputs@.len() == cv.inputs.len(),
                r1cs@.constraints.len() == 0,
                r1cs@.variables.len() == i,
                forall|j: int|
                    0 <= j < i ==> r1cs@.variables[j] == (VariableView {
                        index: j,
                        value: cv.inputs[j],
                    }),
            decreases self.inputs.len() - i,
        {
            let ghost pre_view = r1cs@.variables;
            let value = self.inputs[i].clone();
            r1cs.variables.push(Variable { index: i, value });
            proof {
                assert forall|j: int| 0 <= j < i + 1 implies r1cs@.variables[j] == (VariableView {
                    index: j,
                    value: cv.inputs[j],
                }) by {
                    assert(r1cs@.variables[j] == r1cs.variables@[j]@);
                    if j < i {
                        assert(pre_view[j] == r1cs.variables@[j]@);
                    }
                }
            }
            i = i + 1;
        }

        proof {
            assert(cv.gates.take(0) =~= Seq::<Gate>::empty());
            assert(lowered_vars(cv.inputs, cv.gates.take(0), combine) == cv.inputs);
            assert(lowered_constraints(cv.inputs, cv.gates.take(0), combine)
                =~= Seq::<ConstraintView>::empty());
            assert(r1cs@.constraints =~= Seq::<ConstraintView>::empty());
        }

        let mut g: usize = 0;
        while g < self.gates.len()
            invariant
                cv == self@,
                g <= self.gates.len(),
                self.gates@ == cv.gates,
                self.inputs@.len() == cv.inputs.len(),
                n == cv.inputs.len(),
                combine == cv.combine,
                gates_in_bounds(cv.gates, n),
                r1cs@.variables.len() == n,
                forall|j: int|
                    0 <= j < n ==> r1cs@.variables[j] == (VariableView {
                        index: j,
                        value: lowered_vars(cv.inputs, cv.gates.take(g as int), combine)[j],
                    }),
                r1cs@.constraints == lowered_constraints(cv.inputs, cv.gates.take(g as int), combine),
            decreases self.gates.len() - g,
        {
            let gate = self.gates[g];
            proof {
                assert forall|k: int| 0 <= k < cv.gates.take(g as int).len() implies gate_in_bounds(
                    #[trigger] cv.gates.take(g as int)[k],
                    n,
                ) by {
                    assert(cv.gates.take(g as int)[k] == cv.gates[k]);
                }
                assert forall|k: int|
                    0 <= k < cv.gates.take(g as int + 1).len() implies gate_in_bounds(
                    #[trigger] cv.gates.take(g as int + 1)[k],
                    n,
                ) by {
                    assert(cv.gates.take(g as int + 1)[k] == cv.gates[k]);
                }
                lemma_lowered_vars_len(cv.inputs, cv.gates.take(g as int), combine);
                lemma_lowered_vars_len(cv.inputs, cv.gates.take(g as int + 1), combine);
                assert(cv.gates.take(g as int + 1).drop_last() =~= cv.gates.take(g as int));
                assert(cv.gates.take(g as int + 1).last() == cv.gates[g as int]);
                assert(gate_in_bounds(cv.gates[g as int], n));
            }
            let ghost vars_before = lowered_vars(cv.inputs, cv.gates.take(g as int), combine);
            let ghost vars_after = lowered_vars(cv.inputs, cv.gates.take(g as int + 1), combine);
            let ghost next_cs = lowered_constraints(cv.inputs, cv.gates.take(g as int + 1), combine);
            proof {
                assert(vars_after == lower_vars_step(cv.inputs, vars_before, gate, combine));
                assert(next_cs == lowered_constraints(cv.inputs, cv.gates.take(g as int), combine)
                    .push(gate_constraint(vars_after, gate)));
            }
            match gate {
                Gate::Add(a, b, o) => {
                    proof {
                        assert(vars_after == vars_before);
                    }
                    push_gate_constraint(&mut r1cs, a, b, o, Operation::Add);
                },
                Gate::Mul(a, b, o) => {
                    proof {
                        assert(vars_after == vars_before);
                    }
                    push_gate_constraint(&mut r1cs, a, b, o, Operation::Mul);
                },
                Gate::Hash(a, b, o) => {
                    let ghost pre_vec = r1cs.variables@;
                    let ghost pre_view = r1cs@.variables;
                    proof {
                        assert(self.inputs@[a as int]@ == cv.inputs[a as int]);
                        assert(self.inputs@[b as int]@ == cv.inputs[b as int]);
                    }
                    let computed_hash = self.apply_hash(&self.inputs[a], &self.inputs[b]);
                    r1cs.variables[o].value = computed_hash;
                    proof {
                        assert(vars_after == vars_before.update(
                            o as int,
                            combine(cv.inputs[a as int], cv.inputs[b as int]),
                        ));
                        assert forall|j: int| 0 <= j < n implies r1cs@.variables[j]
                            == (VariableView { index: j, value: vars_after[j] }) by {
                            assert(r1cs@.variables[j] == r1cs.variables@[j]@);
                            assert(pre_view[j] == pre_vec[j]@);
                            if j != o as int {
                                assert(r1cs.variables@[j] == pre_vec[j]);
                                assert(vars_after[j] == vars_before[j]);
                            } else {
                                assert(r1cs.variables@[j].index == pre_vec[j].index);
                                assert(r1cs.variables@[j].value@ == combine(
                                    cv.inputs[a as int],
                                    cv.inputs[b as int],
                                ));
                                assert(vars_after[j] == combine(
                                    cv.inputs[a as int],
                                    cv.inputs[b as int],
                                ));
                            }
                        }
                    }
                    push_gate_constraint(&mut r1cs, a, b, o, Operation::Hash);
                },
            }
            proof {
                assert(gate_constraint(vars_after, gate) == (ConstraintView {
                    left: seq![(VariableView { index: gate_indices(gate).0, value: vars_after[gate_indices(gate).0] }, 1int)],
                    right: seq![(VariableView { index: gate_indices(gate).1, value: vars_after[gate_indices(gate).1] }, 1int)],
                    output: seq![(VariableView { index: gate_indices(gate).2, value: vars_after[gate_indices(gate).2] }, 1int)],
                    operation: gate_operation(gate),
                }));
                assert(r1cs@.constraints =~= next_cs);
            }
            g = g + 1;
        }

        proof {
            assert(cv.gates.take(cv.gates.len() as int) =~= cv.gates);
        }
        let hasher: Option<&H> = match &self.hash_function {
            Some(h) => Some(h),
            None => None,
        };
        proof {
            assert(combine_fn(hasher) =~= cv.combine);
        }
        let is_valid = r1cs.is_satisfied(hasher);
        if is_valid {
            1
        } else {
            0
        }
    }

    /// Decodes a proof artifact: the proof is valid exactly when the first
    /// byte is one. The artifact must not be empty.
    pub fn verify_proof(&self, proof_data: &Vec<u8>) -> (r: bool)
        requires
            proof_data@.len() > 0,
        ensures
            r == (proof_data@[0] == 1),
    {
        proof_data[0] == 1
    }
}


/// Whether one gate's equation holds of the given input values: the two
/// operand values related to the output value by that gate's operation.
pub open spec fn gate_holds(inputs: Seq<int>, combine: spec_fn(int, int) -> int, g: Gate) -> bool {
    let a = gate_indices(g).0;
    let b = gate_indices(g).1;
    let o = gate_indices(g).2;
    match g {
        Gate::Add(..) => inputs[a] + inputs[b] == inputs[o],
        Gate::Mul(..) => inputs[a] * inputs[b] == inputs[o],
        Gate::Hash(..) => combine(inputs[a], inputs[b]) == inputs[o],
    }
}

/// Whether every hash gate's stored output value already equals the
/// combination of its two operand values, so that lowering rewrites nothing.
pub open spec fn hash_gates_consistent(c: CircuitView) -> bool {
    forall|k: int|
        0 <= k < c.gates.len() ==> (gate_operation(#[trigger] c.gates[k]) is Hash ==> gate_holds(
            c.inputs,
            c.combine,
            c.gates[k],
        ))
}

/// A single-term side sums to its one variable's value.
pub proof fn lemma_side_sum_unit(index: int, value: int)
    ensures
        crate::r1cs::side_sum(unit_side(index, value)) == value,
{
    let s = unit_side(index, value);
    assert(s.drop_last() =~= Seq::<(VariableView, int)>::empty());
    assert(crate::r1cs::side_sum(s.drop_last()) == 0);
    assert(s.last() == (VariableView { index: index, value: value }, 1int));
}

/// When every hash gate's stored output already equals the combination of
/// its operands, lowering leaves the variable snapshot equal to the inputs,
/// and the lowered system is satisfied exactly when every gate's equation
/// holds of the input values.
proof fn lemma_consistent_lowering_rec(
    inputs: Seq<int>,
    gates: Seq<Gate>,
    combine: spec_fn(int, int) -> int,
)
    requires
        gates_in_bounds(gates, inputs.len() as int),
        forall|k: int|
            0 <= k < gates.len() ==> (gate_operation(#[trigger] gates[k]) is Hash ==> gate_holds(
                inputs,
                combine,
                gates[k],
            )),
    ensures
        lowered_vars(inputs, gates, combine) == inputs,
        all_satisfied(lowered_constraints(inputs, gates, combine), combine) <==> (forall|k: int|
            0 <= k < gates.len() ==> gate_holds(inputs, combine, #[trigger] gates[k])),
    decreases gates.len(),
{
    if gates.len() == 0 {
        assert(lowered_constraints(inputs, gates, combine) =~= Seq::<ConstraintView>::empty());
        assert(all_satisfied(lowered_constraints(inputs, gates, combine), combine));
    } else {
        let prefix = gates.drop_last();
        let g = gates.last();
        assert forall|k: int| 0 <= k < prefix.len() implies gate_in_bounds(
            #[trigger] prefix[k],
            inputs.len() as int,
        ) && (gate_operation(prefix[k]) is Hash ==> gate_holds(inputs, combine, prefix[k])) by {
            assert(prefix[k] == gates[k]);
            assert(gate_in_bounds(gates[k], inputs.len() as int));
        }
        lemma_consistent_lowering_rec(inputs, prefix, combine);
        assert(gate_in_bounds(g, inputs.len() as int));
        let vars_after = lower_vars_step(inputs, inputs, g, combine);
        match g {
            Gate::Hash(a, b, o) => {
                assert(gate_holds(inputs, combine, g));
                assert(combine(inputs[a as int], inputs[b as int]) == inputs[o as int]);
                assert(vars_after =~= inputs);
            },
            _ => {
                assert(vars_after == inputs);
            },
        }
        assert(lowered_vars(inputs, gates, combine) == vars_after);
        let gc = gate_constraint(inputs, g);
        assert(lowered_constraints(inputs, gates, combine) == lowered_constraints(
            inputs,
            prefix,
            combine,
        ).push(gc));
        lemma_side_sum_unit(gate_indices(g).0, inputs[gate_indices(g).0]);
        lemma_side_sum_unit(gate_indices(g).1, inputs[gate_indices(g).1]);
        lemma_side_sum_unit(gate_indices(g).2, inputs[gate_indices(g).2]);
        assert(crate::r1cs::constraint_holds(gc, combine) <==> gate_holds(inputs, combine, g));
        let cs = lowered_constraints(inputs, prefix, combine);
        let full = lowered_constraints(inputs, gates, combine);
        assert(full[full.len() - 1] == gc);
        if all_satisfied(full, combine) {
            assert forall|k: int| 0 <= k < cs.len() implies crate::r1cs::constraint_holds(
                #[trigger] cs[k],
                combine,
            ) by {
                assert(full[k] == cs[k]);
                assert(crate::r1cs::constraint_holds(full[k], combine));
            }
            assert(crate::r1cs::constraint_holds(full[full.len() - 1], combine));
            assert forall|k: int| 0 <= k < gates.len() implies gate_holds(
                inputs,
                combine,
                #[trigger] gates[k],
            ) by {
                if k < prefix.len() {
                    assert(gates[k] == prefix[k]);
                } else {
                    assert(gates[k] == g);
                }
            }
        }
        if forall|k: int| 0 <= k < gates.len() ==> gate_holds(inputs, combine, #[trigger] gates[k]) {
            assert forall|k: int| 0 <= k < prefix.len() implies gate_holds(
                inputs,
                combine,
                #[trigger] prefix[k],
            ) by {
                assert(prefix[k] == gates[k]);
            }
            assert(gate_holds(inputs, combine, gates[gates.len() - 1]));
            assert forall|k: int| 0 <= k < full.len() implies crate::r1cs::constraint_holds(
                #[trigger] full[k],
                combine,
            ) by {
                if k < cs.len() {
                    assert(full[k] == cs[k]);
                    assert(crate::r1cs::constraint_holds(cs[k], combine));
                } else {
                    assert(full[k] == gc);
                }
            }
        }
    }
}

/// Satisfaction characterized for consistent circuits: when every hash
/// gate's stored output equals the combination of its operands (vacuously so
/// for circuits without hash gates), the lowered system is satisfied exactly
/// when every gate's equation holds of the circuit's input values.
pub proof fn lemma_consistent_satisfaction(c: CircuitView)
    requires
        gates_in_bounds(c.gates, c.inputs.len() as int),
        hash_gates_consistent(c),
    ensures
        lowered_vars(c.inputs, c.gates, c.combine) == c.inputs,
        spec_proof_valid(c) <==> (forall|k: int|
            0 <= k < c.gates.len() ==> gate_holds(c.inputs, c.combine, #[trigger] c.gates[k])),
{
    lemma_consistent_lowering_rec(c.inputs, c.gates, c.combine);
}

/// A circuit of addition gates alone is satisfied exactly when, for every
/// gate, the two operand values sum to the output value.
pub proof fn lemma_add_only_satisfaction(c: CircuitView)
    requires
        gates_in_bounds(c.gates, c.inputs.len() as int),
        forall|k: int| 0 <= k < c.gates.len() ==> gate_operation(#[trigger] c.gates[k]) is Add,
    ensures
        spec_proof_valid(c) <==> (forall|k: int|
            0 <= k < c.gates.len() ==> c.inputs[gate_indices(#[trigger] c.gates[k]).0]
                + c.inputs[gate_indices(c.gates[k]).1] == c.inputs[gate_indices(c.gates[k]).2]),
{
    lemma_consistent_satisfaction(c);
    assert forall|k: int| 0 <= k < c.gates.len() implies (gate_holds(
        c.inputs,
        c.combine,
        #[trigger] c.gates[k],
    ) <==> c.inputs[gate_indices(c.gates[k]).0] + c.inputs[gate_indices(c.gates[k]).1]
        == c.inputs[gate_indices(c.gates[k]).2]) by {
        assert(gate_operation(c.gates[k]) is Add);
    }
}

/// A circuit of multiplication gates alone is satisfied exactly when, for
/// every gate, the two operand values multiply to the output value.
pub proof fn lemma_mul_only_satisfaction(c: CircuitView)
    requires
        gates_in_bounds(c.gates, c.inputs.len() as int),
        forall|k: int| 0 <= k < c.gates.len() ==> gate_operation(#[trigger] c.gates[k]) is Mul,
    ensures
        spec_proof_valid(c) <==> (forall|k: int|
            0 <= k < c.gates.len() ==> c.inputs[gate_indices(#[trigger] c.gates[k]).0]
                * c.inputs[gate_indices(c.gates[k]).1] == c.inputs[gate_indices(c.gates[k]).2]),
{
    lemma_consistent_satisfaction(c);
    assert forall|k: int| 0 <= k < c.gates.len() implies (gate_holds(
        c.inputs,
        c.combine,
        #[trigger] c.gates[k],
    ) <==> c.inputs[gate_indices(c.gates[k]).0] * c.inputs[gate_indices(c.gates[k]).1]
        == c.inputs[gate_indices(c.gates[k]).2]) by {
        assert(gate_operation(c.gates[k]) is Mul);
    }
}

/// A single hash gate is lowered with the circuit's own combiner; checking
/// the lowered system under any combiner then succeeds exactly when that
/// combiner agrees with the lowering combiner on that gate's two operand
/// values. In particular the circuit's own combiner always satisfies it, and
/// a combiner changed after lowering fails wherever the two differ on those
/// operands.
pub proof fn lemma_hash_combiner_change(
    c: CircuitView,
    other: spec_fn(int, int) -> int,
    a: usize,
    b: usize,
    o: usize,
)
    requires
        c.gates == seq![Gate::Hash(a, b, o)],
        gates_in_bounds(c.gates, c.inputs.len() as int),
        o != a,
        o != b,
    ensures
        all_satisfied(lowered_constraints(c.inputs, c.gates, c.combine), other) <==> other(
            c.inputs[a as int],
            c.inputs[b as int],
        ) == (c.combine)(c.inputs[a as int], c.inputs[b as int]),
{
    let g = Gate::Hash(a, b, o);
    assert(c.gates[0] == g);
    assert(gate_in_bounds(g, c.inputs.len() as int));
    assert(c.gates.drop_last() =~= Seq::<Gate>::empty());
    assert(lowered_vars(c.inputs, c.gates.drop_last(), c.combine) == c.inputs);
    let combined = (c.combine)(c.inputs[a as int], c.inputs[b as int]);
    let vars_after = c.inputs.update(o as int, combined);
    assert(lowered_vars(c.inputs, c.gates, c.combine) == vars_after);
    assert(vars_after[a as int] == c.inputs[a as int]);
    assert(vars_after[b as int] == c.inputs[b as int]);
    assert(vars_after[o as int] == combined);
    let gc = gate_constraint(vars_after, g);
    assert(c.gates.last() == g);
    assert(lowered_constraints(c.inputs, c.gates.drop_last(), c.combine)
        =~= Seq::<ConstraintView>::empty());
    assert(lowered_constraints(c.inputs, c.gates, c.combine) =~= seq![gc]);
    lemma_side_sum_unit(a as int, c.inputs[a as int]);
    lemma_side_sum_unit(b as int, c.inputs[b as int]);
    lemma_side_sum_unit(o as int, combined);
    assert(crate::r1cs::constraint_holds(gc, other) <==> other(
        c.inputs[a as int],
        c.inputs[b as int],
    ) == combined);
    if crate::r1cs::constraint_holds(gc, other) {
        assert forall|k: int| 0 <= k < 1 implies crate::r1cs::constraint_holds(
            #[trigger] seq![gc][k],
            other,
        ) by {
            assert(seq![gc][k] == gc);
        }
    }
    if all_satisfied(seq![gc], other) {
        assert(crate::r1cs::constraint_holds(seq![gc][0], other));
    }
}

/// The proof byte is a function of the circuit alone: two lowerings of an
/// unchanged circuit produce identical artifacts.
pub proof fn lemma_proof_byte_deterministic(c: CircuitView, first: u8, second: u8)
    requires
        first == spec_proof_byte(c),
        second == spec_proof_byte(c),
    ensures
        first == second,
{
}

} // verus!
