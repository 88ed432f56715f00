//! What holds of the accumulator across calls: a frontier built by insertions
//! gives the root of the full tree, proofs taken from that tree verify against
//! it, and the empty tree's root is one level above the zero table.

use vstd::prelude::*;
use crate::keccak::commit_spec;
use crate::model::{
    frontier_root, inserted, lemma_empty_represents, lemma_frontier_root, lemma_fold_path,
    lemma_insert, lemma_node_empty, lemma_pow2_depth, node, pow2, proof_root, reference_root,
    represents, sibling_path, trailing_ones, zero_hash, TREE_DEPTH,
};
use crate::tree::MAX_LEAVES;

verus! {

/// The branch of the frontier made by inserting `leaves` in order into an
/// empty one; its count is `leaves.len()`.
pub open spec fn built_branch(leaves: Seq<Seq<u8>>) -> Seq<Seq<u8>>
    decreases leaves.len(),
{
    if leaves.len() == 0 {
        Seq::empty()
    } else {
        inserted(built_branch(leaves.drop_last()), (leaves.len() - 1) as nat, leaves.last())
    }
}

/// Inserting one more leaf extends the built frontier by one insertion step.
pub proof fn lemma_built_push(leaves: Seq<Seq<u8>>, leaf: Seq<u8>)
    ensures
        built_branch(leaves.push(leaf)) == inserted(built_branch(leaves), leaves.len(), leaf),
{
    assert(leaves.push(leaf).drop_last() =~= leaves);
}

/// Inserting any sequence of at most `MAX_LEAVES` leaves in order into an
/// empty frontier gives a frontier that stands for them; each of those
/// insertions succeeds, and one more succeeds while the count is below
/// `MAX_LEAVES`.
pub proof fn lemma_built_represents(leaves: Seq<Seq<u8>>)
    requires
        leaves.len() <= MAX_LEAVES,
    ensures
        represents(built_branch(leaves), leaves.len(), leaves),
        leaves.len() < MAX_LEAVES ==> trailing_ones(leaves.len()) <= built_branch(leaves).len(),
    decreases leaves.len(),
{
    lemma_pow2_depth();
    if leaves.len() == 0 {
        lemma_empty_represents();
    } else {
        let front = leaves.drop_last();
        lemma_built_represents(front);
        lemma_insert(built_branch(front), front.len(), front, leaves.last());
        assert(front.push(leaves.last()) =~= leaves);
    }
    if leaves.len() < MAX_LEAVES {
        lemma_insert(built_branch(leaves), leaves.len(), leaves, Seq::empty());
    }
}

/// The root of the frontier made by inserting `leaves` in order equals the root
/// of the full tree of depth `TREE_DEPTH` whose bottom level is `leaves`
/// followed by zero bytes.
pub proof fn lemma_root_matches_reference(leaves: Seq<Seq<u8>>)
    requires
        leaves.len() <= MAX_LEAVES,
    ensures
        frontier_root(built_branch(leaves), leaves.len()) == reference_root(leaves),
{
    lemma_pow2_depth();
    lemma_built_represents(leaves);
    lemma_frontier_root(built_branch(leaves), leaves.len(), leaves);
}

/// For every inserted leaf, the proof made of its siblings in the full tree
/// gives the frontier's root.
pub proof fn lemma_proof_round_trip(leaves: Seq<Seq<u8>>, i: nat)
    requires
        leaves.len() <= MAX_LEAVES,
        i < leaves.len(),
    ensures
        proof_root(leaves[i as int], sibling_path(leaves, i), i) == reference_root(leaves),
        proof_root(leaves[i as int], sibling_path(leaves, i), i) == frontier_root(
            built_branch(leaves),
            leaves.len(),
        ),
{
    lemma_pow2_depth();
    lemma_root_matches_reference(leaves);
    assert(node(leaves, 0, i) == leaves[i as int]);
    lemma_fold_path(leaves, i, 0, leaves[i as int]);
}

/// The root of the empty frontier is the empty-subtree root one level above
/// the top of the zero table.
pub proof fn lemma_empty_root()
    ensures
        frontier_root(Seq::empty(), 0) == commit_spec(
            zero_hash((TREE_DEPTH - 1) as nat),
            zero_hash((TREE_DEPTH - 1) as nat),
        ),
{
    lemma_pow2_depth();
    lemma_empty_represents();
    lemma_frontier_root(Seq::empty(), 0, Seq::empty());
    assert(0 * pow2(TREE_DEPTH as nat) == 0);
    lemma_node_empty(Seq::empty(), TREE_DEPTH as nat, 0);
}

} // verus!
