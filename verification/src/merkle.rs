//! Binary hash trees over leaf values, with authentication paths.
//!
//! Level zero holds the leaves; each level above combines adjacent pairs of
//! the level below, left to right, with the tree's combiner. When a level
//! holds an odd count, its last node is paired with itself (duplicate-last
//! policy), so every node has a sibling at every level. The root is the
//! single value of the topmost level.

use vstd::prelude::*;
use crate::bigint::Int;
use crate::circuit::{
    circuit_combine, gate_holds, gate_in_bounds, gate_indices, gate_operation, gates_in_bounds,
    hash_gates_consistent, lemma_consistent_satisfaction, spec_proof_valid, Circuit, Gate,
};
use crate::hash_function::HashFunction;

verus! {

/// The values a sequence of integers holds.
pub open spec fn int_values(s: Seq<Int>) -> Seq<int> {
    s.map_values(|x: Int| x@)
}

/// The combining function of a combiner held by value.
pub open spec fn hash_fn_of<H: HashFunction>(h: H) -> spec_fn(int, int) -> int {
    |a: int, b: int| h.spec_hash(a, b)
}

/// The level above the given one: adjacent pairs combined left to right; an
/// odd level's last node is combined with itself.
pub open spec fn next_level(level: Seq<int>, c: spec_fn(int, int) -> int) -> Seq<int> {
    Seq::new(
        ((level.len() + 1) / 2) as nat,
        |j: int|
            if 2 * j + 1 < level.len() {
                c(level[2 * j], level[2 * j + 1])
            } else {
                c(level[2 * j], level[2 * j])
            },
    )
}

/// The root of the tree built over the given level.
pub open spec fn spec_root(level: Seq<int>, c: spec_fn(int, int) -> int) -> int
    recommends
        level.len() >= 1,
    decreases level.len(),
{
    if level.len() <= 1 {
        level[0]
    } else {
        spec_root(next_level(level, c), c)
    }
}

/// The authentication path of the node at position `i`: for each level from
/// the given one up to (but not including) the root, the sibling's value and
/// whether that sibling stands left of the current node.
pub open spec fn spec_path(level: Seq<int>, c: spec_fn(int, int) -> int, i: int) -> Seq<
    (int, bool),
>
    recommends
        0 <= i < level.len(),
    decreases level.len(),
{
    if level.len() <= 1 {
        Seq::empty()
    } else {
        let sib = if i % 2 == 1 {
            i - 1
        } else if i + 1 < level.len() {
            i + 1
        } else {
            i
        };
        seq![(level[sib], i % 2 == 1)] + spec_path(next_level(level, c), c, i / 2)
    }
}

/// The value reconstructed by walking a path up from `start`: at each step
/// the sibling is combined on the side the step indicates.
pub open spec fn fold_path(start: int, path: Seq<(int, bool)>, c: spec_fn(int, int) -> int) -> int
    decreases path.len(),
{
    if path.len() == 0 {
        start
    } else {
        let step = if path[0].1 {
            c(path[0].0, start)
        } else {
            c(start, path[0].0)
        };
        fold_path(step, path.drop_first(), c)
    }
}

/// The values an executable path holds: each step as the sibling's value
/// paired with its side.
pub open spec fn path_values(s: Seq<(Int, bool)>) -> Seq<(int, bool)> {
    s.map_values(|p: (Int, bool)| (p.0@, p.1))
}

/// Walking a path equals walking all but its last step and then combining
/// with the last sibling on the indicated side.
pub proof fn lemma_fold_path_snoc(start: int, path: Seq<(int, bool)>, c: spec_fn(int, int) -> int)
    requires
        path.len() > 0,
    ensures
        fold_path(start, path, c) == ({
            let prev = fold_path(start, path.drop_last(), c);
            if path.last().1 {
                c(path.last().0, prev)
            } else {
                c(prev, path.last().0)
            }
        }),
    decreases path.len(),
{
    reveal_with_fuel(fold_path, 3);
    if path.len() == 1 {
        assert(path.drop_last() =~= Seq::<(int, bool)>::empty());
        assert(path.drop_first() =~= Seq::<(int, bool)>::empty());
    } else {
        let step = if path[0].1 {
            c(path[0].0, start)
        } else {
            c(start, path[0].0)
        };
        assert(fold_path(start, path, c) == fold_path(step, path.drop_first(), c));
        lemma_fold_path_snoc(step, path.drop_first(), c);
        assert(path.drop_last().len() == path.len() - 1);
        assert(path.drop_first().drop_last() =~= path.drop_last().drop_first());
        assert(path.drop_first().last() == path.last());
        assert(path.drop_last()[0] == path[0]);
        assert(fold_path(start, path.drop_last(), c) == fold_path(
            step,
            path.drop_last().drop_first(),
            c,
        ));
    }
}

/// Walking a node's authentication path up from the node's own value
/// reconstructs the root exactly, whatever the combiner.
pub proof fn lemma_merkle_path_round_trip(level: Seq<int>, c: spec_fn(int, int) -> int, i: int)
    requires
        0 < level.len(),
        0 <= i < level.len(),
    ensures
        fold_path(level[i], spec_path(level, c, i), c) == spec_root(level, c),
    decreases level.len(),
{
    if level.len() == 1 {
        assert(spec_path(level, c, i) =~= Seq::<(int, bool)>::empty());
    } else {
        let next = next_level(level, c);
        let sib = if i % 2 == 1 {
            i - 1
        } else if i + 1 < level.len() {
            i + 1
        } else {
            i
        };
        let entry = (level[sib], i % 2 == 1);
        let step = if entry.1 {
            c(entry.0, level[i])
        } else {
            c(level[i], entry.0)
        };
        assert(next.len() == (level.len() + 1) / 2);
        assert(0 <= i / 2 < next.len());
        if i % 2 == 1 {
            assert(2 * (i / 2) == i - 1);
            assert(next[i / 2] == c(level[i - 1], level[i]));
        } else {
            assert(2 * (i / 2) == i);
            if i + 1 < level.len() {
                assert(next[i / 2] == c(level[i], level[i + 1]));
            } else {
                assert(next[i / 2] == c(level[i], level[i]));
            }
        }
        assert(step == next[i / 2]);
        let whole = spec_path(level, c, i);
        assert(whole == seq![entry] + spec_path(next, c, i / 2));
        assert(whole.len() > 0);
        assert(whole[0] == entry);
        assert(whole.drop_first() =~= spec_path(next, c, i / 2));
        assert(fold_path(level[i], whole, c) == fold_path(step, spec_path(next, c, i / 2), c));
        lemma_merkle_path_round_trip(next, c, i / 2);
        assert(spec_root(level, c) == spec_root(next, c));
    }
}

/// For a well-formed tree, walking any leaf's authentication path up from
/// that leaf's value reconstructs the tree's root exactly.
pub proof fn lemma_tree_path_reconstructs_root<H: HashFunction>(tree: &MerkleTree<H>, i: int)
    requires
        tree.wf(),
        0 <= i < tree.spec_leaves().len(),
    ensures
        fold_path(
            tree.spec_leaves()[i],
            spec_path(tree.spec_leaves(), tree.spec_combine(), i),
            tree.spec_combine(),
        ) == tree.spec_root_value(),
{
    lemma_merkle_path_round_trip(tree.spec_leaves(), tree.spec_combine(), i);
}

/// The error an authentication-path query fails with when the queried
/// position is not a valid leaf position.
#[derive(Clone, Copy, PartialEq, Eq, Structural, Debug)]
pub enum MerkleError {
    LeafIndexOutOfRange,
}

/// A binary hash tree: the full level-by-level layout over a non-empty leaf
/// sequence, its combiner, and the root value at the apex. Built once,
/// immutable, queried for authentication paths by leaf position.
pub struct MerkleTree<H: HashFunction> {
    hasher: H,
    levels: Vec<Vec<Int>>,
    /// The single value at the topmost level.
    pub root: Int,
}

/// The level above the given one, computed with the given combiner.
fn build_next_level<H: HashFunction>(level: &Vec<Int>, hasher: &H) -> (r: Vec<Int>)
    requires
        level@.len() > 0,
    ensures
        int_values(r@) == next_level(int_values(level@), hash_fn_of(*hasher)),
{
    let ghost lv = int_values(level@);
    let ghost c = hash_fn_of(*hasher);
    let ghost target = next_level(lv, c);
    let mut next: Vec<Int> = Vec::new();
    let mut i: usize = 0;
    while i < level.len()
        invariant
            i % 2 == 0 || i == level.len(),
            i <= level.len(),
            lv == int_values(level@),
            c == hash_fn_of(*hasher),
            target == next_level(lv, c),
            lv.len() == level@.len(),
            next@.len() == (i + 1) / 2,
            next@.len() <= target.len(),
            forall|j: int| 0 <= j < next@.len() ==> int_values(next@)[j] == target[j],
        decreases level.len() - i,
    {
        let ghost i0 = i as int;
        let combined;
        if i + 1 < level.len() {
            combined = hasher.hash(&level[i], &level[i + 1]);
            i = i + 2;
        } else {
            combined = hasher.hash(&level[i], &level[i]);
            i = level.len();
        }
        let ghost pre = next@;
        next.push(combined);
        proof {
            assert forall|j: int| 0 <= j < next@.len() implies int_values(next@)[j] == target[j] by {
                assert(int_values(next@)[j] == next@[j]@);
                if j < pre.len() {
                    assert(next@[j] == pre[j]);
                    assert(int_values(pre)[j] == pre[j]@);
                } else {
                    assert(next@[j] == combined);
                    assert(2 * j == i0);
                }
            }
        }
    }
    proof {
        assert(next@.len() == target.len());
        assert(int_values(next@) =~= target);
    }
    next
}

impl<H: HashFunction> MerkleTree<H> {
    /// The leaf values the tree was built over.
    pub closed spec fn spec_leaves(&self) -> Seq<int> {
        int_values(self.levels@[0]@)
    }

    /// The tree's combining function.
    pub closed spec fn spec_combine(&self) -> spec_fn(int, int) -> int {
        hash_fn_of(self.hasher)
    }

    /// The value of the tree's root.
    pub closed spec fn spec_root_value(&self) -> int {
        self.root@
    }

    /// Structural soundness: level zero holds the leaves, every level above
    /// combines the one below pairwise, and the topmost level holds exactly
    /// the root.
    pub closed spec fn wf(&self) -> bool {
        &&& self.levels@.len() >= 1
        &&& self.spec_leaves().len() >= 1
        &&& (forall|l: int|
            0 <= l < self.levels@.len() - 1 ==> int_values(#[trigger] self.levels@[l]@).len() > 1
                && int_values(self.levels@[l + 1]@) == next_level(
                int_values(self.levels@[l]@),
                self.spec_combine(),
            ))
        &&& int_values(self.levels@.last()@).len() == 1
        &&& self.root@ == spec_root(self.spec_leaves(), self.spec_combine())
    }

    /// Builds the tree over a non-empty ordered leaf sequence with the given
    /// combiner: level zero is the leaves as given; each level above combines
    /// adjacent pairs, the last node of an odd level with itself; the root is
    /// the single topmost value.
    pub fn new(leaves: Vec<Int>, hasher: H) -> (r: Self)
        requires
            leaves@.len() > 0,
        ensures
            r.wf(),
            r.spec_leaves() == int_values(leaves@),
            r.spec_combine() == hash_fn_of(hasher),
            r.spec_root_value() == spec_root(int_values(leaves@), hash_fn_of(hasher)),
    {
        let ghost c = hash_fn_of(hasher);
        let ghost leaves_v = int_values(leaves@);
        let mut levels: Vec<Vec<Int>> = Vec::new();
        levels.push(leaves);
        while levels[levels.len() - 1].len() > 1
            invariant
                levels@.len() >= 1,
                int_values(levels@[0]@) == leaves_v,
                leaves_v.len() >= 1,
                c == hash_fn_of(hasher),
                int_values(levels@.last()@).len() >= 1,
                spec_root(int_values(levels@.last()@), c) == spec_root(leaves_v, c),
                forall|l: int|
                    0 <= l < levels@.len() - 1 ==> int_values(#[trigger] levels@[l]@).len() > 1
                        && int_values(levels@[l + 1]@) == next_level(int_values(levels@[l]@), c),
            decreases int_values(levels@.last()@).len(),
        {
            let top_index = levels.len() - 1;
            let next = build_next_level(&levels[top_index], &hasher);
            let ghost pre_levels = levels@;
            levels.push(next);
            proof {
                assert(levels@.last()@ == next@);
                assert(int_values(next@) == next_level(int_values(pre_levels.last()@), c));
                assert(int_values(pre_levels.last()@).len() > 1);
                assert(int_values(next@).len() < int_values(pre_levels.last()@).len());
                assert(spec_root(int_values(pre_levels.last()@), c) == spec_root(
                    int_values(next@),
                    c,
                ));
                assert forall|l: int| 0 <= l < levels@.len() - 1 implies int_values(
                    #[trigger] levels@[l]@,
                ).len() > 1 && int_values(levels@[l + 1]@) == next_level(
                    int_values(levels@[l]@),
                    c,
                ) by {
                    if l < pre_levels.len() - 1 {
                        assert(levels@[l]@ == pre_levels[l]@);
                        assert(levels@[l + 1]@ == pre_levels[l + 1]@);
                    } else {
                        assert(levels@[l]@ == pre_levels.last()@);
                        assert(levels@[l + 1]@ == next@);
                    }
                }
            }
        }
        let top_index = levels.len() - 1;
        let root = levels[top_index][0].clone();
        proof {
            assert(int_values(levels@.last()@)[0] == levels@.last()@[0]@);
            assert(root@ == spec_root(int_values(levels@.last()@), c));
        }
        MerkleTree { hasher, levels, root }
    }

    /// The number of leaves the tree was built over.
    pub fn leaf_count(&self) -> (n: usize)
        requires
            self.wf(),
        ensures
            n == self.spec_leaves().len(),
    {
        self.levels[0].len()
    }

    /// The authentication path of the leaf at the given position: for each
    /// level from the leaves up to (but not including) the root, the
    /// sibling's value and whether it stands left of the current node. Fails
    /// with an out-of-range error exactly when the position is not a valid
    /// leaf position.
    #[verifier::rlimit(100)]
    pub fn merkle_path(&self, leaf_index: usize) -> (r: Result<Vec<(Int, bool)>, MerkleError>)
        requires
            self.wf(),
        ensures
            match r {
                Ok(path) => leaf_index < self.spec_leaves().len() && path_values(path@)
                    == spec_path(self.spec_leaves(), self.spec_combine(), leaf_index as int),
                Err(e) => leaf_index >= self.spec_leaves().len() && e
                    == MerkleError::LeafIndexOutOfRange,
            },
    {
        let ghost c = self.spec_combine();
        let ghost total = spec_path(self.spec_leaves(), c, leaf_index as int);
        if leaf_index >= self.levels[0].len() {
            return Err(MerkleError::LeafIndexOutOfRange);
        }
        let mut path: Vec<(Int, bool)> = Vec::new();
        let mut idx: usize = leaf_index;
        let mut l: usize = 0;
        while l < self.levels.len() - 1
            invariant
                self.wf(),
                c == self.spec_combine(),
                total == spec_path(self.spec_leaves(), c, leaf_index as int),
                l < self.levels@.len(),
                idx < int_values(self.levels@[l as int]@).len(),
                path_values(path@) + spec_path(
                    int_values(self.levels@[l as int]@),
                    c,
                    idx as int,
                ) == total,
            decreases self.levels@.len() - l,
        {
            let level = &self.levels[l];
            let ghost lv = int_values(level@);
            proof {
                assert(lv.len() > 1);
            }
            let sib: usize = if idx % 2 == 1 {
                idx - 1
            } else if idx + 1 < level.len() {
                idx + 1
            } else {
                idx
            };
            let is_left = idx % 2 == 1;
            let ghost pre_path = path@;
            path.push((level[sib].clone(), is_left));
            proof {
                assert(lv[sib as int] == level@[sib as int]@);
                assert(spec_path(lv, c, idx as int) == seq![(lv[sib as int], is_left)] + spec_path(
                    next_level(lv, c),
                    c,
                    idx as int / 2,
                ));
                assert(int_values(self.levels@[l as int + 1]@) == next_level(lv, c));
                assert(path_values(path@) =~= path_values(pre_path).push(
                    (lv[sib as int], is_left),
                ));
                assert(path_values(path@) + spec_path(next_level(lv, c), c, idx as int / 2)
                    =~= path_values(pre_path) + spec_path(lv, c, idx as int));
                assert(idx as int / 2 < next_level(lv, c).len());
            }
            idx = idx / 2;
            l = l + 1;
        }
        proof {
            assert(l as int == self.levels@.len() - 1);
            assert(int_values(self.levels@[l as int]@).len() == 1);
            assert(spec_path(int_values(self.levels@[l as int]@), c, idx as int)
                =~= Seq::<(int, bool)>::empty());
            assert(path_values(path@) =~= total);
        }
        Ok(path)
    }
}


/// Builds the path-verification circuit for one authentication path: the
/// leaf value is the first input; for each path step the sibling value and
/// the combined value are appended as inputs and a hash gate combines them
/// in the step's order; each combined value is logged as an output and the
/// expected root is logged last. The last input holds the reconstructed
/// root. Every hash gate's stored output is the combination of its
/// operands, so lowering such a circuit always yields a satisfied system
/// under the circuit's own combiner; whether the reconstruction reached the
/// expected root is read off the output log, never checked by lowering.
pub fn merkle_path_circuit<H: HashFunction>(
    hasher: Option<H>,
    leaf: Int,
    path: &Vec<(Int, bool)>,
    root: Int,
) -> (r: Circuit<H>)
    ensures
        r@.combine == circuit_combine(hasher),
        r@.inputs.len() == 1 + 2 * path@.len(),
        r@.inputs[0] == leaf@,
        r@.gates.len() == path@.len(),
        gates_in_bounds(r@.gates, r@.inputs.len() as int),
        r@.inputs[r@.inputs.len() - 1] == fold_path(leaf@, path_values(path@), r@.combine),
        r@.outputs.len() == path@.len() + 1,
        r@.outputs[r@.outputs.len() - 1] == root@,
        spec_proof_valid(r@),
{
    let ghost leaf_v = leaf@;
    let ghost pv = path_values(path@);
    let mut circuit = Circuit::<H>::new(hasher);
    let ghost c = circuit@.combine;
    let mut current_value = leaf;
    let mut current_index = circuit.add_input(current_value.clone());
    let mut k: usize = 0;
    while k < path.len()
        invariant
            circuit@.combine == c,
            pv == path_values(path@),
            pv.len() == path@.len(),
            k <= path.len(),
            circuit@.inputs.len() == 1 + 2 * (k as int),
            circuit@.inputs[0] == leaf_v,
            current_index as int == circuit@.inputs.len() - 1,
            current_value@ == fold_path(leaf_v, pv.take(k as int), c),
            circuit@.inputs[current_index as int] == current_value@,
            circuit@.gates.len() == k,
            gates_in_bounds(circuit@.gates, circuit@.inputs.len() as int),
            forall|t: int|
                0 <= t < k ==> gate_operation(#[trigger] circuit@.gates[t]) is Hash && gate_holds(
                    circuit@.inputs,
                    c,
                    circuit@.gates[t],
                ),
            circuit@.outputs.len() == k,
        decreases path.len() - k,
    {
        let p = &path[k];
        let ghost pre = circuit@;
        let sibling_index = circuit.add_input(p.0.clone());
        let new_value = if p.1 {
            circuit.apply_hash(&p.0, &current_value)
        } else {
            circuit.apply_hash(&current_value, &p.0)
        };
        let new_index = circuit.add_input(new_value.clone());
        circuit.set_output(new_value.clone());
        let gate = if p.1 {
            Gate::Hash(sibling_index, current_index, new_index)
        } else {
            Gate::Hash(current_index, sibling_index, new_index)
        };
        circuit.add_gate(gate);
        proof {
            assert(pv[k as int] == (path@[k as int].0@, path@[k as int].1));
            assert(pv.take(k as int + 1).drop_last() =~= pv.take(k as int));
            assert(pv.take(k as int + 1).last() == pv[k as int]);
            lemma_fold_path_snoc(leaf_v, pv.take(k as int + 1), c);
            assert(new_value@ == fold_path(leaf_v, pv.take(k as int + 1), c));
            assert(circuit@.inputs == pre.inputs.push(path@[k as int].0@).push(new_value@));
            assert(circuit@.inputs[new_index as int] == new_value@);
            assert(circuit@.inputs[sibling_index as int] == path@[k as int].0@);
            assert(circuit@.inputs[current_index as int] == current_value@);
            assert(gate_holds(circuit@.inputs, c, gate));
            assert forall|t: int|
                0 <= t < k + 1 implies gate_operation(#[trigger] circuit@.gates[t]) is Hash
                && gate_holds(circuit@.inputs, c, circuit@.gates[t]) by {
                if t < k {
                    assert(circuit@.gates[t] == pre.gates[t]);
                    assert(gate_holds(pre.inputs, c, pre.gates[t]));
                    assert(gate_in_bounds(pre.gates[t], pre.inputs.len() as int));
                    assert(circuit@.inputs[gate_indices(pre.gates[t]).0] == pre.inputs[gate_indices(
                        pre.gates[t],
                    ).0]);
                    assert(circuit@.inputs[gate_indices(pre.gates[t]).1] == pre.inputs[gate_indices(
                        pre.gates[t],
                    ).1]);
                    assert(circuit@.inputs[gate_indices(pre.gates[t]).2] == pre.inputs[gate_indices(
                        pre.gates[t],
                    ).2]);
                } else {
                    assert(circuit@.gates[t] == gate);
                }
            }
            assert forall|t: int| 0 <= t < k + 1 implies gate_in_bounds(
                #[trigger] circuit@.gates[t],
                circuit@.inputs.len() as int,
            ) by {
                if t < k {
                    assert(circuit@.gates[t] == pre.gates[t]);
                    assert(gate_in_bounds(pre.gates[t], pre.inputs.len() as int));
                } else {
                    assert(circuit@.gates[t] == gate);
                }
            }
        }
        current_value = new_value;
        current_index = new_index;
        k = k + 1;
    }
    circuit.set_output(root);
    proof {
        assert(pv.take(path@.len() as int) =~= pv);
        assert(hash_gates_consistent(circuit@));
        lemma_consistent_satisfaction(circuit@);
    }
    circuit
}

} // verus!
