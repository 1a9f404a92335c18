//! The tree: its levels, how they are built, membership proofs and their
//! verification.

use crate::digest::digest_of;
use crate::digest::hash;
use crate::digest::hash_pair;
use crate::digest::pair_digest;
use crate::laws::lemma_built_levels_well_formed;
use vstd::prelude::*;

verus! {

/// Why a tree could not be built or a proof could not be generated.
#[derive(Debug, Clone, Copy, PartialEq, Eq)]
pub enum MerkleError {
    /// A tree was asked for over no items at all: it would have no root.
    EmptyInput,
    /// A proof was asked for a position at or beyond the number of leaves.
    IndexOutOfRange,
}

/// The level above `prev`: each full pair of neighbours gives the digest of
/// the pair; a last digest without a neighbour moves up as it is.
pub open spec fn next_level(prev: Seq<Seq<char>>) -> Seq<Seq<char>> {
    Seq::new(
        ((prev.len() + 1) / 2) as nat,
        |j: int|
            if 2 * j + 1 < prev.len() {
                pair_digest(prev[2 * j], prev[2 * j + 1])
            } else {
                prev[2 * j]
            },
    )
}

/// All levels of the tree over the given leaf digests, the leaves first and
/// the level that holds the root last.
pub open spec fn merkle_levels(leaves: Seq<Seq<char>>) -> Seq<Seq<Seq<char>>>
    decreases leaves.len(),
{
    if leaves.len() <= 1 {
        seq![leaves]
    } else {
        seq![leaves] + merkle_levels(next_level(leaves))
    }
}

/// The leaf digests of a list of items, in the order of the items.
pub open spec fn leaf_digests(items: Seq<Seq<char>>) -> Seq<Seq<char>> {
    Seq::new(items.len(), |i: int| digest_of(items[i]))
}

/// The invariant of a tree's levels: there is a leaf level; every level after
/// it is the level above its predecessor; the last level, and no other, holds
/// exactly one digest.
pub open spec fn well_formed(levels: Seq<Seq<Seq<char>>>) -> bool {
    &&& levels.len() > 0
    &&& levels.last().len() == 1
    &&& forall|k: int| 0 < k < levels.len() ==> #[trigger] levels[k] == next_level(levels[k - 1])
    &&& forall|k: int| 0 <= k < levels.len() - 1 ==> (#[trigger] levels[k]).len() > 1
}

/// The root of a tree's levels: the one digest of the last level.
pub open spec fn root_of(levels: Seq<Seq<Seq<char>>>) -> Seq<char> {
    levels.last()[0]
}

/// What one level adds to the proof for the node at `idx`: its neighbour in
/// the pair, with `true` where the node itself is the right one of the pair
/// (so that the neighbour goes on the left when the two are combined again),
/// or nothing where the node has no neighbour.
pub open spec fn sibling_step(level: Seq<Seq<char>>, idx: int) -> Seq<(Seq<char>, bool)> {
    let pair_index = if idx % 2 == 1 {
        idx - 1
    } else {
        idx + 1
    };
    if 0 <= pair_index < level.len() {
        seq![(level[pair_index], idx % 2 == 1)]
    } else {
        seq![]
    }
}

/// The steps collected from level `k` upward, for the node at `idx` of that
/// level, up to but not including the last level.
pub open spec fn path_from(levels: Seq<Seq<Seq<char>>>, k: int, idx: int) -> Seq<
    (Seq<char>, bool),
>
    decreases levels.len() - k,
{
    if 0 <= k < levels.len() - 1 {
        sibling_step(levels[k], idx) + path_from(levels, k + 1, idx / 2)
    } else {
        seq![]
    }
}

/// The membership proof for the leaf at `index`.
pub open spec fn membership_proof(levels: Seq<Seq<Seq<char>>>, index: int) -> Seq<
    (Seq<char>, bool),
> {
    path_from(levels, 0, index)
}

/// The parent of `current` and the neighbour that a step names.
pub open spec fn combine(current: Seq<char>, step: (Seq<char>, bool)) -> Seq<char> {
    if step.1 {
        pair_digest(step.0, current)
    } else {
        pair_digest(current, step.0)
    }
}

/// The digest reached from `current` by taking the steps in their order.
pub open spec fn climb(current: Seq<char>, steps: Seq<(Seq<char>, bool)>) -> Seq<char>
    decreases steps.len(),
{
    if steps.len() == 0 {
        current
    } else {
        climb(combine(current, steps[0]), steps.drop_first())
    }
}

/// Whether the proof leads from the item `leaf` to `root`.
pub open spec fn proves(leaf: Seq<char>, steps: Seq<(Seq<char>, bool)>, root: Seq<char>) -> bool {
    climb(digest_of(leaf), steps) == root
}

/// Builds the level above `prev_level`.
pub fn build_level(prev_level: Vec<String>) -> (next: Vec<String>)
    ensures
        next.deep_view() == next_level(prev_level.deep_view()),
{
    let mut next: Vec<String> = Vec::new();
    let mut j: usize = 0;
    while j < prev_level.len()
        invariant
            j <= prev_level.len(),
            j % 2 == 0 || j == prev_level.len(),
            next.len() == (j + 1) / 2,
            forall|i: int|
                0 <= i < next.len() ==> (#[trigger] next[i])@ == next_level(
                    prev_level.deep_view(),
                )[i],
        decreases prev_level.len() - j,
    {
        if prev_level.len() - j >= 2 {
            next.push(hash_pair(prev_level[j].as_str(), prev_level[j + 1].as_str()));
            j = j + 2;
        } else {
            next.push(prev_level[j].clone());
            j = j + 1;
        }
    }
    assert(next.deep_view() =~= next_level(prev_level.deep_view()));
    next
}

/// A hash tree over a list of items.
#[derive(Debug, Clone)]
pub struct MerkleTree {
    /// The digests of the items, in their order: a copy of the first level.
    pub leaves: Vec<String>,
    /// All levels, the leaves first, the level that holds the root last.
    pub levels: Vec<Vec<String>>,
}

impl View for MerkleTree {
    type V = Seq<Seq<Seq<char>>>;

    /// A tree is seen as its levels, each a sequence of digests.
    open spec fn view(&self) -> Seq<Seq<Seq<char>>> {
        self.levels.deep_view()
    }
}

impl MerkleTree {
    /// The tree's invariant: its levels are well formed and `leaves` repeats
    /// the first of them.
    pub open spec fn wf(&self) -> bool {
        &&& well_formed(self@)
        &&& self.leaves.deep_view() == self@[0]
    }

    /// Whether there is a digest to call the root: a last level that is not
    /// empty. Every well-formed tree has one.
    pub open spec fn has_root(&self) -> bool {
        self@.len() > 0 && self@.last().len() > 0
    }

    /// The number of leaves: the length of the first level, and zero where
    /// there is no level.
    pub open spec fn leaf_count(&self) -> nat {
        if self@.len() == 0 {
            0
        } else {
            self@[0].len()
        }
    }

    /// Builds the tree over `data`. Fails with `EmptyInput` exactly when
    /// there are no items.
    pub fn new(data: Vec<String>) -> (res: Result<MerkleTree, MerkleError>)
        ensures
            data.len() == 0 ==> res == Err::<MerkleTree, MerkleError>(MerkleError::EmptyInput),
            data.len() > 0 ==> res is Ok,
            res matches Ok(tree) ==> {
                &&& tree.wf()
                &&& tree.leaves.deep_view() == leaf_digests(data.deep_view())
                &&& tree@ == merkle_levels(leaf_digests(data.deep_view()))
            },
    {
        if data.len() == 0 {
            return Err(MerkleError::EmptyInput);
        }
        let mut current: Vec<String> = Vec::new();
        for i in 0..data.len()
            invariant
                current.len() == i,
                forall|j: int| 0 <= j < i ==> (#[trigger] current[j])@ == digest_of(data[j]@),
        {
            current.push(hash(data[i].as_str()));
        }
        let ghost first = leaf_digests(data.deep_view());
        assert(current.deep_view() =~= first);

        let mut levels: Vec<Vec<String>> = Vec::new();
        levels.push(current.clone());
        assert(levels.deep_view() =~= seq![first]);
        assert(seq![first].drop_last() + merkle_levels(first) =~= merkle_levels(first));
        while current.len() > 1
            invariant
                levels.len() > 0,
                current.len() > 0,
                levels.deep_view().last() == current.deep_view(),
                levels.deep_view().drop_last() + merkle_levels(current.deep_view())
                    == merkle_levels(first),
            decreases current.len(),
        {
            let ghost below = current.deep_view();
            let ghost before = levels.deep_view();
            current = build_level(current);
            levels.push(current.clone());
            assert(levels.deep_view() =~= before.push(current.deep_view()));
            assert(levels.deep_view().drop_last() =~= before.drop_last() + seq![below]);
            assert((before.drop_last() + seq![below]) + merkle_levels(next_level(below))
                =~= before.drop_last() + (seq![below] + merkle_levels(next_level(below))));
        }
        assert(levels.deep_view() =~= levels.deep_view().drop_last() + seq![current.deep_view()]);
        proof {
            lemma_built_levels_well_formed(first);
        }
        let leaves = levels[0].clone();
        Ok(MerkleTree { leaves, levels })
    }

    /// The root: the digest that commits to the whole list.
    pub fn root(&self) -> (digest: String)
        requires
            self.has_root(),
        ensures
            digest@ == root_of(self@),
    {
        let top = &self.levels[self.levels.len() - 1];
        top[0].clone()
    }

    /// Generates the membership proof for the leaf at `index`: from the leaf
    /// level upward, the neighbour at each level that has one. Fails with
    /// `IndexOutOfRange` exactly when `index` is not the position of a leaf.
    pub fn generate_proof(&self, index: usize) -> (res: Result<Vec<(String, bool)>, MerkleError>)
        ensures
            index >= self.leaf_count() ==> res == Err::<Vec<(String, bool)>, MerkleError>(
                MerkleError::IndexOutOfRange,
            ),
            index < self.leaf_count() ==> res is Ok,
            res matches Ok(proof) ==> proof.deep_view() == membership_proof(self@, index as int),
    {
        if self.levels.len() == 0 || index >= self.levels[0].len() {
            return Err(MerkleError::IndexOutOfRange);
        }
        let mut proof: Vec<(String, bool)> = Vec::new();
        let mut idx: usize = index;
        let top: usize = self.levels.len() - 1;
        let mut k: usize = 0;
        assert(proof.deep_view() + path_from(self@, 0, idx as int) =~= membership_proof(
            self@,
            index as int,
        ));
        while k < top
            invariant
                top == self.levels.len() - 1,
                k <= top,
                idx <= index < usize::MAX,
                proof.deep_view() + path_from(self@, k as int, idx as int) == membership_proof(
                    self@,
                    index as int,
                ),
            decreases top - k,
        {
            let level = &self.levels[k];
            let is_right = idx % 2 == 1;
            let pair_index: usize = if is_right {
                idx - 1
            } else {
                idx + 1
            };
            let ghost before = proof.deep_view();
            let ghost step = sibling_step(self@[k as int], idx as int);
            let ghost rest = path_from(self@, k + 1, idx as int / 2);
            if pair_index < level.len() {
                proof.push((level[pair_index].clone(), is_right));
            }
            assert(proof.deep_view() =~= before + step);
            assert((before + step) + rest =~= before + (step + rest));
            idx = idx / 2;
            k = k + 1;
        }
        assert(proof.deep_view() + Seq::<(Seq<char>, bool)>::empty() =~= proof.deep_view());
        Ok(proof)
    }

    /// Verifies a membership proof: hashes the item, combines the result with
    /// each step's digest in turn, and compares what it reaches with `root`.
    pub fn verify_proof(leaf: &str, proof: Vec<(String, bool)>, root: &str) -> (ok: bool)
        ensures
            ok == proves(leaf@, proof.deep_view(), root@),
    {
        let mut current = hash(leaf);
        let ghost steps = proof.deep_view();
        assert(steps.skip(0) =~= steps);
        for i in 0..proof.len()
            invariant
                steps == proof.deep_view(),
                climb(current@, steps.skip(i as int)) == climb(digest_of(leaf@), steps),
        {
            let step = &proof[i];
            assert(steps.skip(i as int)[0] == steps[i as int]);
            assert(steps.skip(i as int).drop_first() =~= steps.skip(i + 1));
            current = if step.1 {
                hash_pair(step.0.as_str(), current.as_str())
            } else {
                hash_pair(current.as_str(), step.0.as_str())
            };
        }
        current == root.to_owned()
    }
}

} // verus!
