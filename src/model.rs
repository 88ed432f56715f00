//! The mathematical model: the full tree of depth `TREE_DEPTH` over a sequence
//! of leaves padded with zero bytes, the frontier that stands for it, and the
//! folds that the executable code computes.

use vstd::prelude::*;
use crate::keccak::commit_spec;

verus! {

/// The depth of the tree: it holds up to `2^TREE_DEPTH - 1` leaves.
pub const TREE_DEPTH: usize = 32;

/// The empty leaf: 32 zero bytes.
pub open spec fn zero_bytes() -> Seq<u8> {
    Seq::new(32, |_i: int| 0u8)
}

/// The root of an empty subtree of height `h`.
pub open spec fn zero_hash(h: nat) -> Seq<u8>
    decreases h,
{
    if h == 0 {
        zero_bytes()
    } else {
        commit_spec(zero_hash((h - 1) as nat), zero_hash((h - 1) as nat))
    }
}

/// `2^h`.
pub open spec fn pow2(h: nat) -> nat
    decreases h,
{
    if h == 0 {
        1
    } else {
        2 * pow2((h - 1) as nat)
    }
}

/// Position `k` of the bottom level: a leaf, or zero bytes past the last one.
pub open spec fn leaf_at(leaves: Seq<Seq<u8>>, k: nat) -> Seq<u8> {
    if k < leaves.len() {
        leaves[k as int]
    } else {
        zero_bytes()
    }
}

/// The node of height `h` and index `k` (counted from the left) of the tree
/// whose bottom level is `leaves` followed by zero bytes.
pub open spec fn node(leaves: Seq<Seq<u8>>, h: nat, k: nat) -> Seq<u8>
    decreases h,
{
    if h == 0 {
        leaf_at(leaves, k)
    } else {
        commit_spec(node(leaves, (h - 1) as nat, 2 * k), node(leaves, (h - 1) as nat, 2 * k + 1))
    }
}

/// The root of the full tree of depth `TREE_DEPTH` over `leaves`.
pub open spec fn reference_root(leaves: Seq<Seq<u8>>) -> Seq<u8> {
    node(leaves, TREE_DEPTH as nat, 0)
}

/// The index at height `h` of the node above bottom position `x`, that is
/// `x / 2^h`, one halving per level.
pub open spec fn idx_at(x: nat, h: nat) -> nat
    decreases h,
{
    if h == 0 {
        x
    } else {
        idx_at(x, (h - 1) as nat) / 2
    }
}

/// Bit `h` of `x`.
pub open spec fn bit(x: nat, h: nat) -> bool {
    idx_at(x, h) % 2 == 1
}

/// The number of one bits at the low end of `c`.
pub open spec fn trailing_ones(c: nat) -> nat
    decreases c,
{
    if c % 2 == 1 {
        1 + trailing_ones(c / 2)
    } else {
        0
    }
}

/// Entry `i` of a sequence of hashes, or zero bytes past its end.
pub open spec fn slot(s: Seq<Seq<u8>>, i: nat) -> Seq<u8> {
    if i < s.len() {
        s[i as int]
    } else {
        zero_bytes()
    }
}

/// The shape of a frontier of `count` leaves with `len` cached entries: at
/// most `TREE_DEPTH` entries, and an entry for each bit set in `count`.
pub open spec fn shape_ok(len: nat, count: nat) -> bool {
    &&& len <= TREE_DEPTH
    &&& forall|h: nat| h < TREE_DEPTH && #[trigger] bit(count, h) ==> h < len
}

/// The frontier `branch` with `count` leaves stands for the tree over
/// `leaves`: for each bit `h` set in `count`, `branch[h]` is the last complete
/// subtree of height `h`, the left sibling of the path of the next leaf.
pub open spec fn represents(branch: Seq<Seq<u8>>, count: nat, leaves: Seq<Seq<u8>>) -> bool {
    &&& count == leaves.len()
    &&& branch.len() <= TREE_DEPTH
    &&& forall|h: nat|
        h < TREE_DEPTH && #[trigger] bit(count, h) ==> h < branch.len() && branch[h as int]
            == node(leaves, h, (idx_at(count, h) - 1) as nat)
}

/// The new leaf folded with the `j` cached left siblings below level `j`.
pub open spec fn carry(branch: Seq<Seq<u8>>, leaf: Seq<u8>, j: nat) -> Seq<u8>
    decreases j,
{
    if j == 0 {
        leaf
    } else {
        commit_spec(branch[j - 1], carry(branch, leaf, (j - 1) as nat))
    }
}

/// The branch after inserting `leaf` into a frontier of `count` leaves: the
/// carry is stored at the level of the lowest bit set in `count + 1`.
pub open spec fn inserted(branch: Seq<Seq<u8>>, count: nat, leaf: Seq<u8>) -> Seq<Seq<u8>> {
    let j = trailing_ones(count);
    let c = carry(branch, leaf, j);
    if j < branch.len() {
        branch.update(j as int, c)
    } else {
        branch.push(c)
    }
}

/// The table of empty-subtree roots for heights `0 .. TREE_DEPTH`.
pub open spec fn zero_table() -> Seq<Seq<u8>> {
    Seq::new(TREE_DEPTH as nat, |h: int| zero_hash(h as nat))
}

/// The root computation from level `h` up, with `zeros[h]` as the right
/// sibling where bit `h` of the count is clear: `cur` is the node of height
/// `h` on the path of the next free position, whose index at that height is
/// `q`.
pub open spec fn fold_root(
    branch: Seq<Seq<u8>>,
    zeros: Seq<Seq<u8>>,
    q: nat,
    h: nat,
    cur: Seq<u8>,
) -> Seq<u8>
    decreases TREE_DEPTH - h,
{
    if h >= TREE_DEPTH {
        cur
    } else {
        let next = if q % 2 == 1 {
            commit_spec(slot(branch, h), cur)
        } else {
            commit_spec(cur, zeros[h as int])
        };
        fold_root(branch, zeros, q / 2, h + 1, next)
    }
}

/// The root of a frontier: empty right siblings are the zero hashes.
pub open spec fn frontier_root(branch: Seq<Seq<u8>>, count: nat) -> Seq<u8> {
    fold_root(branch, zero_table(), count, 0, zero_bytes())
}

/// The root computation of a proof from level `h` up: `cur` is the node of
/// height `h` on the path, whose index at that height is `q`; a missing
/// sibling counts as zero bytes.
pub open spec fn fold_path(proof: Seq<Seq<u8>>, q: nat, h: nat, cur: Seq<u8>) -> Seq<u8>
    decreases TREE_DEPTH - h,
{
    if h >= TREE_DEPTH {
        cur
    } else {
        let sib = slot(proof, h);
        let next = if q % 2 == 1 {
            commit_spec(sib, cur)
        } else {
            commit_spec(cur, sib)
        };
        fold_path(proof, q / 2, h + 1, next)
    }
}

/// The root that a proof gives for `leaf` at position `index`.
pub open spec fn proof_root(leaf: Seq<u8>, proof: Seq<Seq<u8>>, index: nat) -> Seq<u8> {
    fold_path(proof, index, 0, leaf)
}

/// The index of the other child of the same parent.
pub open spec fn sibling(k: nat) -> nat {
    if k % 2 == 1 {
        (k - 1) as nat
    } else {
        k + 1
    }
}

/// The sibling path of bottom position `i` in the tree over `leaves`.
pub open spec fn sibling_path(leaves: Seq<Seq<u8>>, i: nat) -> Seq<Seq<u8>> {
    Seq::new(TREE_DEPTH as nat, |h: int| node(leaves, h as nat, sibling(idx_at(i, h as nat))))
}

/// The number of bottom positions of the tree.
pub proof fn lemma_pow2_depth()
    ensures
        pow2(TREE_DEPTH as nat) == 0x1_0000_0000,
{
    reveal_with_fuel(pow2, 33);
}

/// `idx_at(x, h)` is the floor of `x / 2^h`.
pub proof fn lemma_idx_bounds(x: nat, h: nat)
    ensures
        idx_at(x, h) * pow2(h) <= x < (idx_at(x, h) + 1) * pow2(h),
    decreases h,
{
    if h > 0 {
        let hp = (h - 1) as nat;
        lemma_idx_bounds(x, hp);
        let q = idx_at(x, hp);
        let p = pow2(hp);
        let qq = q / 2;
        assert(q == 2 * qq + q % 2);
        assert(qq * (2 * p) <= q * p) by (nonlinear_arith)
            requires q == 2 * qq + q % 2, p >= 0;
        assert((q + 1) * p <= (qq + 1) * (2 * p)) by (nonlinear_arith)
            requires q == 2 * qq + q % 2, p >= 0, q % 2 <= 1;
        assert(idx_at(x, h) == qq);
        assert(pow2(h) == 2 * p);
    } else {
        assert(pow2(0) == 1);
        assert(x * 1 == x && (x + 1) * 1 == x + 1);
    }
}

/// Below the top, a position under `2^TREE_DEPTH` has index zero.
pub proof fn lemma_idx_top(x: nat)
    requires
        x < pow2(TREE_DEPTH as nat),
    ensures
        idx_at(x, TREE_DEPTH as nat) == 0,
{
    lemma_idx_bounds(x, TREE_DEPTH as nat);
    let q = idx_at(x, TREE_DEPTH as nat);
    let p = pow2(TREE_DEPTH as nat);
    if q > 0 {
        assert(q * p >= p) by (nonlinear_arith)
            requires q >= 1, p >= 0;
    }
}

/// A subtree that starts at or past the end of the leaves is empty.
pub proof fn lemma_node_empty(leaves: Seq<Seq<u8>>, h: nat, k: nat)
    requires
        k * pow2(h) >= leaves.len(),
    ensures
        node(leaves, h, k) == zero_hash(h),
    decreases h,
{
    if h > 0 {
        let hp = (h - 1) as nat;
        let p = pow2(hp);
        assert((2 * k) * p == k * pow2(h)) by (nonlinear_arith)
            requires pow2(h) == 2 * p;
        assert((2 * k + 1) * p >= (2 * k) * p) by (nonlinear_arith)
            requires p >= 0;
        lemma_node_empty(leaves, hp, 2 * k);
        lemma_node_empty(leaves, hp, 2 * k + 1);
    } else {
        assert(pow2(0) == 1);
        assert(k * 1 == k);
    }
}

/// A subtree that ends within `leaves` is the same in any extension of them.
pub proof fn lemma_node_prefix(leaves: Seq<Seq<u8>>, more: Seq<Seq<u8>>, h: nat, k: nat)
    requires
        leaves.len() <= more.len(),
        forall|i: int| 0 <= i < leaves.len() ==> more[i] == leaves[i],
        (k + 1) * pow2(h) <= leaves.len(),
    ensures
        node(leaves, h, k) == node(more, h, k),
    decreases h,
{
    if h > 0 {
        let hp = (h - 1) as nat;
        let p = pow2(hp);
        assert((2 * k + 1 + 1) * p == (k + 1) * pow2(h)) by (nonlinear_arith)
            requires pow2(h) == 2 * p;
        assert((2 * k + 1) * p <= (2 * k + 1 + 1) * p) by (nonlinear_arith)
            requires p >= 0;
        lemma_node_prefix(leaves, more, hp, 2 * k);
        lemma_node_prefix(leaves, more, hp, 2 * k + 1);
    } else {
        assert(pow2(0) == 1);
        assert((k + 1) * 1 == k + 1);
    }
}

/// Below the lowest zero bit of `c`, the index above `c + 1` is one more
/// than the index above `c`.
pub proof fn lemma_idx_succ(c: nat, k: nat)
    requires
        k <= trailing_ones(c),
    ensures
        idx_at(c + 1, k) == idx_at(c, k) + 1,
        trailing_ones(c) == k + trailing_ones(idx_at(c, k)),
    decreases k,
{
    if k > 0 {
        let kp = (k - 1) as nat;
        lemma_idx_succ(c, kp);
        let q = idx_at(c, kp);
        assert(q % 2 == 1);
        assert(idx_at(c, k) == q / 2);
        assert(idx_at(c + 1, k) == (q + 1) / 2);
    }
}

/// Above the lowest zero bit of `c`, the indices above `c` and `c + 1` agree.
pub proof fn lemma_idx_succ_above(c: nat, h: nat)
    requires
        h > trailing_ones(c),
    ensures
        idx_at(c + 1, h) == idx_at(c, h),
    decreases h,
{
    let hp = (h - 1) as nat;
    if hp == trailing_ones(c) {
        lemma_idx_succ(c, hp);
        let q = idx_at(c, hp);
        assert(q % 2 == 0);
    } else {
        lemma_idx_succ_above(c, hp);
    }
}

/// A count below the capacity has fewer than `TREE_DEPTH` trailing ones.
pub proof fn lemma_trailing_ones_bound(c: nat)
    requires
        c + 1 < pow2(TREE_DEPTH as nat),
    ensures
        trailing_ones(c) < TREE_DEPTH,
{
    if trailing_ones(c) >= TREE_DEPTH {
        lemma_idx_succ(c, TREE_DEPTH as nat);
        lemma_idx_top(c + 1);
    }
}

/// A frontier of the right shape below capacity has every entry that an
/// insertion reads, and keeps its shape after the insertion stores its carry.
pub proof fn lemma_shape_insert(len: nat, c: nat)
    requires
        shape_ok(len, c),
        c + 1 < pow2(TREE_DEPTH as nat),
    ensures
        trailing_ones(c) < TREE_DEPTH,
        trailing_ones(c) <= len,
        shape_ok(if trailing_ones(c) < len { len } else { len + 1 }, c + 1),
{
    let j = trailing_ones(c);
    lemma_trailing_ones_bound(c);
    if j > 0 {
        let jp = (j - 1) as nat;
        lemma_idx_succ(c, jp);
        assert(bit(c, jp));
    }
    let nl = if j < len { len } else { len + 1 };
    assert forall|h: nat| h < TREE_DEPTH && #[trigger] bit(c + 1, h) implies h < nl by {
        if h < j {
            lemma_idx_succ(c, h);
            assert(idx_at(c, h) % 2 == 1);
        } else if h > j {
            lemma_idx_succ_above(c, h);
            assert(bit(c, h));
        }
    }
}

/// The carry at level `k` is the subtree of height `k` that ends with the new leaf.
pub proof fn lemma_carry(
    branch: Seq<Seq<u8>>,
    c: nat,
    leaves: Seq<Seq<u8>>,
    leaf: Seq<u8>,
    k: nat,
)
    requires
        represents(branch, c, leaves),
        c + 1 < pow2(TREE_DEPTH as nat),
        k <= trailing_ones(c),
    ensures
        carry(branch, leaf, k) == node(leaves.push(leaf), k, (idx_at(c + 1, k) - 1) as nat),
    decreases k,
{
    let more = leaves.push(leaf);
    lemma_idx_succ(c, k);
    if k == 0 {
        assert(leaf_at(more, c) == leaf);
    } else {
        let kp = (k - 1) as nat;
        lemma_carry(branch, c, leaves, leaf, kp);
        lemma_idx_succ(c, kp);
        lemma_trailing_ones_bound(c);
        let q = idx_at(c, kp);
        assert(q % 2 == 1);
        assert(bit(c, kp));
        lemma_idx_bounds(c, kp);
        assert(((q - 1) as nat + 1) * pow2(kp) <= leaves.len());
        lemma_node_prefix(leaves, more, kp, (q - 1) as nat);
        assert(2 * ((idx_at(c + 1, k) - 1) as nat) == q - 1);
    }
}

/// Inserting a leaf into a frontier of `leaves` gives a frontier of
/// `leaves.push(leaf)`.
pub proof fn lemma_insert(branch: Seq<Seq<u8>>, c: nat, leaves: Seq<Seq<u8>>, leaf: Seq<u8>)
    requires
        represents(branch, c, leaves),
        c + 1 < pow2(TREE_DEPTH as nat),
    ensures
        trailing_ones(c) < TREE_DEPTH,
        trailing_ones(c) <= branch.len(),
        represents(inserted(branch, c, leaf), c + 1, leaves.push(leaf)),
{
    let j = trailing_ones(c);
    let more = leaves.push(leaf);
    let nb = inserted(branch, c, leaf);
    lemma_trailing_ones_bound(c);
    if j > 0 {
        let jp = (j - 1) as nat;
        lemma_idx_succ(c, jp);
        assert(bit(c, jp));
    }
    lemma_carry(branch, c, leaves, leaf, j);
    assert forall|h: nat| h < TREE_DEPTH && #[trigger] bit(c + 1, h) implies h < nb.len() && nb[h as int]
        == node(more, h, (idx_at(c + 1, h) - 1) as nat) by {
        if h < j {
            lemma_idx_succ(c, h);
            assert(idx_at(c, h) % 2 == 1);
        } else if h > j {
            lemma_idx_succ_above(c, h);
            assert(bit(c, h));
            let q = idx_at(c, h);
            lemma_idx_bounds(c, h);
            assert(((q - 1) as nat + 1) * pow2(h) <= leaves.len());
            lemma_node_prefix(leaves, more, h, (q - 1) as nat);
        }
    }
}

/// The root fold from level `h` reaches the root of the tree over `leaves`.
proof fn lemma_fold_root(branch: Seq<Seq<u8>>, c: nat, leaves: Seq<Seq<u8>>, h: nat, cur: Seq<u8>)
    requires
        represents(branch, c, leaves),
        c < pow2(TREE_DEPTH as nat),
        h <= TREE_DEPTH,
        cur == node(leaves, h, idx_at(c, h)),
    ensures
        fold_root(branch, zero_table(), idx_at(c, h), h, cur) == reference_root(leaves),
    decreases TREE_DEPTH - h,
{
    let q = idx_at(c, h);
    if h >= TREE_DEPTH {
        lemma_idx_top(c);
    } else {
        assert(idx_at(c, h + 1) == q / 2);
        if q % 2 == 1 {
            assert(bit(c, h));
            assert(2 * (q / 2) == q - 1);
        } else {
            lemma_idx_bounds(c, h);
            lemma_node_empty(leaves, h, q + 1);
        }
        lemma_fold_root(branch, c, leaves, h + 1, node(leaves, h + 1, q / 2));
    }
}

/// The root of a frontier is the root of the tree over the leaves it stands for.
pub proof fn lemma_frontier_root(branch: Seq<Seq<u8>>, c: nat, leaves: Seq<Seq<u8>>)
    requires
        represents(branch, c, leaves),
        c < pow2(TREE_DEPTH as nat),
    ensures
        frontier_root(branch, c) == reference_root(leaves),
{
    assert(leaf_at(leaves, c) == zero_bytes());
    lemma_fold_root(branch, c, leaves, 0, zero_bytes());
}

/// The proof fold from level `h` along the sibling path of `i` reaches the
/// root of the tree over `leaves`.
pub proof fn lemma_fold_path(leaves: Seq<Seq<u8>>, i: nat, h: nat, cur: Seq<u8>)
    requires
        i < pow2(TREE_DEPTH as nat),
        h <= TREE_DEPTH,
        cur == node(leaves, h, idx_at(i, h)),
    ensures
        fold_path(sibling_path(leaves, i), idx_at(i, h), h, cur) == reference_root(leaves),
    decreases TREE_DEPTH - h,
{
    let q = idx_at(i, h);
    if h >= TREE_DEPTH {
        lemma_idx_top(i);
    } else {
        assert(idx_at(i, h + 1) == q / 2);
        assert(slot(sibling_path(leaves, i), h) == node(leaves, h, sibling(q)));
        if q % 2 == 1 {
            assert(2 * (q / 2) == q - 1);
        }
        lemma_fold_path(leaves, i, h + 1, node(leaves, h + 1, q / 2));
    }
}

/// Every node above position 0 has index 0.
pub proof fn lemma_idx_zero(h: nat)
    ensures
        idx_at(0, h) == 0,
    decreases h,
{
    if h > 0 {
        lemma_idx_zero((h - 1) as nat);
    }
}

/// The empty frontier stands for the empty sequence of leaves.
pub proof fn lemma_empty_represents()
    ensures
        represents(Seq::empty(), 0, Seq::empty()),
        shape_ok(0, 0),
{
    assert forall|h: nat| h < TREE_DEPTH && #[trigger] bit(0, h) implies false by {
        lemma_idx_zero(h);
    }
}

} // verus!
