//! Rank-1 constraint systems.
//!
//! An [`R1CS`] is a flat list of typed constraints over indexed variables.
//! Each constraint carries three weighted-sum sides (left, right, output)
//! and an operation tag; the system is satisfied when every constraint's
//! relation holds between its three side sums.

use vstd::prelude::*;
use crate::bigint::Int;
use crate::hash_function::{combine_fn, HashFunction};

verus! {

/// An indexed variable: `index` is the variable's position in the owning
/// circuit's input vector, `value` the assigned integer.
pub struct Variable {
    pub index: usize,
    pub value: Int,
}

pub struct VariableView {
    pub index: int,
    pub value: int,
}

impl View for Variable {
    type V = VariableView;

    open spec fn view(&self) -> VariableView {
        VariableView { index: self.index as int, value: self.value@ }
    }
}

impl Clone for Variable {
    fn clone(&self) -> (r: Self)
        ensures
            r@ == self@,
    {
        Variable { index: self.index, value: self.value.clone() }
    }
}

/// The relation a constraint checks between its three side sums.
#[derive(Clone, Copy)]
pub enum Operation {
    Add,
    Mul,
    Hash,
}

/// One constraint: three weighted linear combinations and an operation.
/// Every gate of a circuit lowers to one constraint whose sides each hold a
/// single term with coefficient one, though the representation supports
/// general linear combinations.
pub struct Constraint {
    pub left: Vec<(Variable, Int)>,
    pub right: Vec<(Variable, Int)>,
    pub output: Vec<(Variable, Int)>,
    pub operation: Operation,
}

pub struct ConstraintView {
    pub left: Seq<(VariableView, int)>,
    pub right: Seq<(VariableView, int)>,
    pub output: Seq<(VariableView, int)>,
    pub operation: Operation,
}

/// The view of one side of a constraint: each term as the variable's view
/// paired with the coefficient's value.
pub open spec fn terms_view(v: Vec<(Variable, Int)>) -> Seq<(VariableView, int)> {
    v@.map_values(|t: (Variable, Int)| (t.0@, t.1@))
}

impl View for Constraint {
    type V = ConstraintView;

    open spec fn view(&self) -> ConstraintView {
        ConstraintView {
            left: terms_view(self.left),
            right: terms_view(self.right),
            output: terms_view(self.output),
            operation: self.operation,
        }
    }
}

/// The weighted sum of one constraint side: each variable's value times its
/// coefficient, summed.
pub open spec fn side_sum(terms: Seq<(VariableView, int)>) -> int
    decreases terms.len(),
{
    if terms.len() == 0 {
        0
    } else {
        side_sum(terms.drop_last()) + terms.last().0.value * terms.last().1
    }
}

/// Whether one constraint's relation holds between its side sums, under the
/// given combining function for hash constraints.
pub open spec fn constraint_holds(c: ConstraintView, combine: spec_fn(int, int) -> int) -> bool {
    let l = side_sum(c.left);
    let r = side_sum(c.right);
    let o = side_sum(c.output);
    match c.operation {
        Operation::Add => l + r == o,
        Operation::Mul => l * r == o,
        Operation::Hash => combine(l, r) == o,
    }
}

/// Whether every constraint in the sequence holds.
pub open spec fn all_satisfied(cs: Seq<ConstraintView>, combine: spec_fn(int, int) -> int) -> bool {
    forall|i: int| 0 <= i < cs.len() ==> constraint_holds(cs[i], combine)
}

/// A rank-1 constraint system: a snapshot of the circuit's variables and the
/// constraints lowered from its gates.
pub struct R1CS {
    pub variables: Vec<Variable>,
    pub constraints: Vec<Constraint>,
}

pub struct R1CSView {
    pub variables: Seq<VariableView>,
    pub constraints: Seq<ConstraintView>,
}

impl View for R1CS {
    type V = R1CSView;

    open spec fn view(&self) -> R1CSView {
        R1CSView {
            variables: self.variables@.map_values(|v: Variable| v@),
            constraints: self.constraints@.map_values(|c: Constraint| c@),
        }
    }
}

/// The weighted sum of one constraint side.
fn sum_terms(terms: &Vec<(Variable, Int)>) -> (r: Int)
    ensures
        r@ == side_sum(terms_view(*terms)),
{
    let ghost all = terms_view(*terms);
    let mut acc = Int::from_u32(0);
    let mut i: usize = 0;
    while i < terms.len()
        invariant
            0 <= i <= terms.len(),
            all == terms_view(*terms),
            acc@ == side_sum(all.take(i as int)),
        decreases terms.len() - i,
    {
        let term = &terms[i];
        let weighted = term.0.value.mul_value(&term.1);
        acc = acc.add_value(&weighted);
        proof {
            assert(all.take(i + 1).drop_last() =~= all.take(i as int));
            assert(all.take(i + 1).last() == all[i as int]);
        }
        i = i + 1;
    }
    proof {
        assert(all.take(terms.len() as int) =~= all);
    }
    acc
}

/// Whether one constraint's relation holds, computed with the given
/// optionally configured combiner.
fn check_constraint<H: HashFunction>(c: &Constraint, hasher: Option<&H>) -> (r: bool)
    ensures
        r == constraint_holds(c@, combine_fn(hasher)),
{
    let left_value = sum_terms(&c.left);
    let right_value = sum_terms(&c.right);
    let output_value = sum_terms(&c.output);
    match c.operation {
        Operation::Add => left_value.add_value(&right_value).equals(&output_value),
        Operation::Mul => left_value.mul_value(&right_value).equals(&output_value),
        Operation::Hash => {
            let computed_hash = crate::hash_function::combine(hasher, &left_value, &right_value);
            output_value.equals(&computed_hash)
        },
    }
}

impl R1CS {
    /// An empty constraint system: no variables, no constraints.
    pub fn new() -> (r: Self)
        ensures
            r@.variables.len() == 0,
            r@.constraints.len() == 0,
    {
        R1CS { variables: Vec::new(), constraints: Vec::new() }
    }

    /// Appends one constraint built from the three sides and the operation.
    /// No bounds are checked here: the owning circuit's invariant is that
    /// every referenced index is valid.
    pub fn add_constraint(
        &mut self,
        left: Vec<(Variable, Int)>,
        right: Vec<(Variable, Int)>,
        output: Vec<(Variable, Int)>,
        operation: Operation,
    )
        ensures
            final(self)@.variables == old(self)@.variables,
            final(self)@.constraints == old(self)@.constraints.push(
                ConstraintView {
                    left: terms_view(left),
                    right: terms_view(right),
                    output: terms_view(output),
                    operation: operation,
                },
            ),
    {
        let constraint = Constraint { left, right, output, operation };
        self.constraints.push(constraint);
        proof {
            assert(self.constraints@.map_values(|c: Constraint| c@) =~= old(
                self,
            ).constraints@.map_values(|c: Constraint| c@).push(
                self.constraints@.last()@,
            ));
        }
    }

    /// Whether every constraint holds under the given combiner (or plain
    /// addition when none is configured). A single failing constraint,
    /// wherever it stands in the list, makes the whole system unsatisfied;
    /// satisfaction is never decided by the first constraint alone.
    pub fn is_satisfied<H: HashFunction>(&self, hasher: Option<&H>) -> (r: bool)
        ensures
            r == all_satisfied(self@.constraints, combine_fn(hasher)),
    {
        let ghost cs = self@.constraints;
        let mut i: usize = 0;
        while i < self.constraints.len()
            invariant
                0 <= i <= self.constraints.len(),
                cs == self@.constraints,
                cs.len() == self.constraints.len(),
                forall|j: int| 0 <= j < i ==> constraint_holds(cs[j], combine_fn(hasher)),
            decreases self.constraints.len() - i,
        {
            let holds = check_constraint::<H>(&self.constraints[i], hasher);
            if !holds {
                proof {
                    assert(cs[i as int] == self.constraints@[i as int]@);
                    assert(!constraint_holds(cs[i as int], combine_fn(hasher)));
                }
                return false;
            }
            i = i + 1;
        }
        true
    }
}

} // verus!
