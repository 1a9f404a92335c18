//! What holds of every tree: the laws that relate building, proving and
//! verifying.

use crate::digest::digest_of;
use crate::digest::pair_digest;
use crate::tree::climb;
use crate::tree::combine;
use crate::tree::leaf_digests;
use crate::tree::membership_proof;
use crate::tree::merkle_levels;
use crate::tree::next_level;
use crate::tree::path_from;
use crate::tree::proves;
use crate::tree::root_of;
use crate::tree::sibling_step;
use crate::tree::well_formed;
use crate::tree::MerkleTree;
use vstd::prelude::*;

verus! {

/// The levels built over at least one leaf digest are well formed, and their
/// first level is the leaves.
pub proof fn lemma_built_levels_well_formed(leaves: Seq<Seq<char>>)
    requires
        leaves.len() > 0,
    ensures
        well_formed(merkle_levels(leaves)),
        merkle_levels(leaves)[0] == leaves,
    decreases leaves.len(),
{
    if leaves.len() > 1 {
        let above = merkle_levels(next_level(leaves));
        lemma_built_levels_well_formed(next_level(leaves));
        let all = merkle_levels(leaves);
        assert(all == seq![leaves] + above);
        assert(all.last() == above.last());
        assert forall|k: int| 0 < k < all.len() implies #[trigger] all[k] == next_level(
            all[k - 1],
        ) by {
            if k > 1 {
                assert(all[k] == above[k - 1]);
                assert(all[k - 1] == above[k - 2]);
            }
        }
        assert forall|k: int| 0 <= k < all.len() - 1 implies (#[trigger] all[k]).len() > 1 by {
            if k > 0 {
                assert(all[k] == above[k - 1]);
            }
        }
    }
}

/// Well-formed levels are the levels built over their own first level:
/// the invariant leaves no freedom above the leaves.
pub proof fn lemma_well_formed_levels_are_built(levels: Seq<Seq<Seq<char>>>)
    requires
        well_formed(levels),
    ensures
        levels == merkle_levels(levels[0]),
    decreases levels.len(),
{
    if levels.len() == 1 {
        assert(levels =~= seq![levels[0]]);
    } else {
        let above = levels.skip(1);
        assert(levels[0].len() > 1);
        assert(above.last() == levels.last());
        assert forall|k: int| 0 < k < above.len() implies #[trigger] above[k] == next_level(
            above[k - 1],
        ) by {
            assert(above[k] == levels[k + 1]);
            assert(above[k - 1] == levels[k]);
        }
        assert forall|k: int| 0 <= k < above.len() - 1 implies (#[trigger] above[k]).len()
            > 1 by {
            assert(above[k] == levels[k + 1]);
        }
        lemma_well_formed_levels_are_built(above);
        assert(above[0] == levels[1]);
        assert(levels[1] == next_level(levels[0]));
        assert(levels =~= seq![levels[0]] + above);
    }
}

/// Building is a function of the items: two well-formed trees whose leaves
/// are the digests of one list of items have the same levels, those built
/// over these digests, and so the same root.
pub proof fn law_build_is_deterministic(first: MerkleTree, second: MerkleTree, items: Seq<Seq<char>>)
    requires
        first.wf(),
        second.wf(),
        first.leaves.deep_view() == leaf_digests(items),
        second.leaves.deep_view() == leaf_digests(items),
    ensures
        first@ == second@,
        first@ == merkle_levels(leaf_digests(items)),
        root_of(first@) == root_of(second@),
{
    lemma_well_formed_levels_are_built(first@);
    lemma_well_formed_levels_are_built(second@);
}

/// The tree over a single item has one level, which holds the item's digest:
/// that digest is the root, and the proof for the item is empty.
pub proof fn law_single_leaf(item: Seq<char>)
    ensures
        merkle_levels(leaf_digests(seq![item])) == seq![seq![digest_of(item)]],
        root_of(merkle_levels(leaf_digests(seq![item]))) == digest_of(item),
        membership_proof(merkle_levels(leaf_digests(seq![item])), 0) == Seq::<
            (Seq<char>, bool),
        >::empty(),
{
    assert(leaf_digests(seq![item]) =~= seq![digest_of(item)]);
}

/// Taking the steps of `first` and then those of `rest` is taking the steps
/// of the two joined.
pub proof fn lemma_climb_joined(
    current: Seq<char>,
    first: Seq<(Seq<char>, bool)>,
    rest: Seq<(Seq<char>, bool)>,
)
    ensures
        climb(current, first + rest) == climb(climb(current, first), rest),
    decreases first.len(),
{
    if first.len() == 0 {
        assert(first + rest =~= rest);
    } else {
        assert((first + rest)[0] == first[0]);
        assert((first + rest).drop_first() =~= first.drop_first() + rest);
        lemma_climb_joined(combine(current, first[0]), first.drop_first(), rest);
    }
}

/// The step that a level adds for one of its nodes leads from that node to
/// its parent in the level above.
pub proof fn lemma_step_reaches_parent(level: Seq<Seq<char>>, idx: int)
    requires
        0 <= idx < level.len(),
    ensures
        0 <= idx / 2 < next_level(level).len(),
        climb(level[idx], sibling_step(level, idx)) == next_level(level)[idx / 2],
{
    let j = idx / 2;
    let step = sibling_step(level, idx);
    let above = next_level(level);
    assert(0 <= j < above.len());
    if idx % 2 == 1 {
        assert(2 * j + 1 == idx);
        assert(step =~= seq![(level[idx - 1], true)]);
        assert(step.drop_first() =~= Seq::<(Seq<char>, bool)>::empty());
        assert(climb(combine(level[idx], step[0]), step.drop_first()) == combine(
            level[idx],
            step[0],
        ));
        assert(above[j] == pair_digest(level[2 * j], level[2 * j + 1]));
    } else if idx + 1 < level.len() {
        assert(2 * j == idx);
        assert(step =~= seq![(level[idx + 1], false)]);
        assert(step.drop_first() =~= Seq::<(Seq<char>, bool)>::empty());
        assert(climb(combine(level[idx], step[0]), step.drop_first()) == combine(
            level[idx],
            step[0],
        ));
        assert(above[j] == pair_digest(level[2 * j], level[2 * j + 1]));
    } else {
        assert(2 * j == idx);
        assert(step =~= Seq::<(Seq<char>, bool)>::empty());
        assert(above[j] == level[2 * j]);
    }
}

/// In a well-formed tree, the steps collected from any node upward lead from
/// that node's digest to the root.
pub proof fn lemma_path_reaches_root(levels: Seq<Seq<Seq<char>>>, k: int, idx: int)
    requires
        well_formed(levels),
        0 <= k < levels.len(),
        0 <= idx < levels[k].len(),
    ensures
        climb(levels[k][idx], path_from(levels, k, idx)) == root_of(levels),
    decreases levels.len() - k,
{
    if k < levels.len() - 1 {
        let step = sibling_step(levels[k], idx);
        let rest = path_from(levels, k + 1, idx / 2);
        assert(levels[k + 1] == next_level(levels[k + 1 - 1]));
        lemma_step_reaches_parent(levels[k], idx);
        lemma_path_reaches_root(levels, k + 1, idx / 2);
        lemma_climb_joined(levels[k][idx], step, rest);
    }
}

/// Round trip: for every list of at least one item and every position in it,
/// the proof generated from the built tree leads from the item at that
/// position to the tree's root.
pub proof fn law_round_trip(items: Seq<Seq<char>>, index: int)
    requires
        0 <= index < items.len(),
    ensures
        proves(
            items[index],
            membership_proof(merkle_levels(leaf_digests(items)), index),
            root_of(merkle_levels(leaf_digests(items))),
        ),
{
    let levels = merkle_levels(leaf_digests(items));
    lemma_built_levels_well_formed(leaf_digests(items));
    lemma_path_reaches_root(levels, 0, index);
}

/// A level of odd length hands its last digest up unchanged: it is the last
/// digest of the level above.
pub proof fn law_odd_tail_is_promoted(levels: Seq<Seq<Seq<char>>>, k: int)
    requires
        well_formed(levels),
        0 <= k < levels.len() - 1,
        levels[k].len() % 2 == 1,
    ensures
        levels[k + 1].len() == (levels[k].len() + 1) / 2,
        levels[k + 1].last() == levels[k].last(),
{
    assert(levels[k + 1] == next_level(levels[k + 1 - 1]));
}

} // verus!
