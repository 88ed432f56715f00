//! The frontier of the accumulator: insertion, root computation, the zero-hash
//! table and the stateless proof verifier.

use vstd::prelude::*;
use crate::keccak::{commit_spec, concat_hashes, keccak256_bytes, keccak256_of};
use crate::model::{
    carry, fold_path, fold_root, frontier_root, idx_at, inserted, lemma_empty_represents,
    lemma_idx_top, lemma_pow2_depth, lemma_shape_insert, proof_root, represents, shape_ok, slot,
    trailing_ones, zero_bytes, zero_hash, zero_table, TREE_DEPTH,
};

verus! {

/// The largest number of leaves the tree holds: `2^TREE_DEPTH - 1`.
pub const MAX_LEAVES: u64 = 0xFFFF_FFFF;

/// What can go wrong with an insertion or a root computation.
#[derive(Clone, Copy, Debug, PartialEq, Eq, Structural)]
pub enum Error {
    /// The tree already holds `MAX_LEAVES` leaves.
    TreeFull,
    /// The frontier (or the zero table) breaks its own shape: more than
    /// `TREE_DEPTH` entries, or a cached sibling that its count asks for is
    /// missing.
    InvalidState,
}

/// The views of a sequence of hashes.
pub open spec fn hashes_view(s: Seq<[u8; 32]>) -> Seq<Seq<u8>> {
    s.map_values(|x: [u8; 32]| x@)
}

/// The frontier of an append-only tree of depth `TREE_DEPTH`: `count` leaves
/// so far and, for each bit `h` set in `count`, the root of the last complete
/// subtree of height `h` in `branch[h]`.
#[derive(Clone, Debug, PartialEq, Eq)]
pub struct MerkleTree {
    pub branch: Vec<[u8; 32]>,
    pub count: u32,
}

/// The parent node of `a` (left) and `b` (right).
pub fn commit(a: &[u8; 32], b: &[u8; 32]) -> (r: [u8; 32])
    ensures
        r@ == commit_spec(a@, b@),
{
    let mut items: Vec<[u8; 32]> = Vec::new();
    items.push(*a);
    items.push(*b);
    proof {
        let s = items@;
        let s1 = s.drop_last();
        assert(s1.drop_last() =~= Seq::<[u8; 32]>::empty());
        assert(s1.last() == *a);
        assert(concat_hashes(s1.drop_last()) =~= Seq::<u8>::empty());
        assert(concat_hashes(s1) =~= a@);
        assert(concat_hashes(s) =~= a@ + b@);
    }
    MerkleTree::keccak256(&items)
}

impl MerkleTree {
    pub open spec fn branch_view(&self) -> Seq<Seq<u8>> {
        hashes_view(self.branch@)
    }

    /// The shape that every frontier made by `new` and `insert` has: at most
    /// `TREE_DEPTH` cached entries, and one for each bit set in `count`.
    pub open spec fn wf(&self) -> bool {
        shape_ok(self.branch@.len(), self.count as nat)
    }

    /// Whether an insertion into this frontier succeeds: there is room for a
    /// leaf and every cached sibling that the insertion combines is there.
    pub open spec fn can_insert(&self) -> bool {
        &&& (self.count as u64) < MAX_LEAVES
        &&& self.branch@.len() <= TREE_DEPTH
        &&& trailing_ones(self.count as nat) <= self.branch@.len()
    }

    /// An empty frontier.
    pub fn new() -> (r: MerkleTree)
        ensures
            r.branch@.len() == 0,
            r.count == 0,
            r.branch_view() == Seq::<Seq<u8>>::empty(),
            r.wf(),
            represents(r.branch_view(), 0, Seq::empty()),
    {
        let r = MerkleTree { branch: Vec::new(), count: 0 };
        assert(r.branch_view() =~= Seq::empty());
        proof {
            lemma_empty_represents();
        }
        r
    }

    /// Appends `node` as the next leaf. The new leaf is folded with the cached
    /// left siblings below the lowest bit set in the new count, and the result
    /// is cached at that level. A failed insertion changes nothing.
    pub fn insert(&mut self, node: [u8; 32]) -> (r: Result<(), Error>)
        ensures
            (old(self).count as u64) >= MAX_LEAVES ==> r == Err::<(), Error>(Error::TreeFull),
            (old(self).count as u64) < MAX_LEAVES && !old(self).can_insert() ==> r == Err::<
                (),
                Error,
            >(Error::InvalidState),
            r is Ok <==> old(self).can_insert(),
            old(self).wf() && (old(self).count as u64) < MAX_LEAVES ==> r is Ok,
            r is Ok && old(self).wf() ==> final(self).wf(),
            r is Err ==> *final(self) == *old(self),
            r is Ok ==> final(self).count == old(self).count + 1 && final(self).branch_view()
                == inserted(old(self).branch_view(), old(self).count as nat, node@),
    {
        if self.count as u64 >= MAX_LEAVES {
            return Err(Error::TreeFull);
        }
        if self.branch.len() > TREE_DEPTH {
            return Err(Error::InvalidState);
        }
        let ghost count = self.count as nat;
        let ghost b = self.branch_view();
        proof {
            if self.wf() {
                lemma_pow2_depth();
                lemma_shape_insert(self.branch@.len(), count);
            }
        }
        let mut size: u32 = self.count + 1;
        let mut acc: [u8; 32] = node;
        let mut i: usize = 0;
        while i < TREE_DEPTH
            invariant
                *self == *old(self),
                count == self.count,
                count < MAX_LEAVES,
                b == self.branch_view(),
                self.branch@.len() <= TREE_DEPTH,
                i <= self.branch@.len(),
                size as nat == idx_at(count + 1, i as nat),
                idx_at(count + 1, i as nat) == idx_at(count, i as nat) + 1,
                trailing_ones(count) == i + trailing_ones(idx_at(count, i as nat)),
                self.wf() ==> trailing_ones(count) <= self.branch@.len(),
                acc@ == carry(b, node@, i as nat),
            decreases TREE_DEPTH - i,
        {
            if size % 2 == 1 {
                if i < self.branch.len() {
                    self.branch[i] = acc;
                } else {
                    self.branch.push(acc);
                }
                self.count = self.count + 1;
                proof {
                    assert(self.branch_view() =~= inserted(b, count, node@));
                    if old(self).wf() {
                        lemma_pow2_depth();
                        lemma_shape_insert(old(self).branch@.len(), count);
                    }
                }
                return Ok(());
            }
            if i >= self.branch.len() {
                return Err(Error::InvalidState);
            }
            let left: [u8; 32] = self.branch[i];
            acc = commit(&left, &acc);
            proof {
                let q = idx_at(count, i as nat);
                assert(idx_at(count, (i + 1) as nat) == q / 2);
                assert(trailing_ones(q) == 1 + trailing_ones(q / 2));
                assert(b[i as int] == left@);
            }
            size = size / 2;
            i = i + 1;
        }
        proof {
            lemma_pow2_depth();
            lemma_idx_top(count + 1);
        }
        // Some bit of the new count is set below the depth, so the scan always
        // stores; reaching here would mean the capacity bound was broken.
        vstd::pervasive::unreached()
    }

    /// The table of empty-subtree roots: entry 0 is 32 zero bytes and each
    /// next entry is the parent of two copies of the one before.
    pub fn zero_hashes() -> (r: Vec<[u8; 32]>)
        ensures
            r@.len() == TREE_DEPTH,
            forall|i: int| 0 <= i < TREE_DEPTH ==> #[trigger] r@[i]@ == zero_hash(i as nat),
            r@[0]@ == zero_bytes(),
            forall|i: int| 1 <= i < TREE_DEPTH ==> #[trigger] r@[i]@ == commit_spec(r@[i - 1]@, r@[i - 1]@),
    {
        let mut zeroes: Vec<[u8; 32]> = Vec::new();
        let mut cur: [u8; 32] = [0u8; 32];
        assert(cur@ =~= zero_bytes());
        let mut i: usize = 0;
        while i < TREE_DEPTH
            invariant
                i <= TREE_DEPTH,
                zeroes@.len() == i,
                cur@ == zero_hash(i as nat),
                forall|k: int| 0 <= k < i ==> #[trigger] zeroes@[k]@ == zero_hash(k as nat),
            decreases TREE_DEPTH - i,
        {
            zeroes.push(cur);
            cur = commit(&cur, &cur);
            i = i + 1;
        }
        assert forall|i: int| 1 <= i < TREE_DEPTH implies #[trigger] zeroes@[i]@ == commit_spec(
            zeroes@[i - 1]@,
            zeroes@[i - 1]@,
        ) by {
            assert(zero_hash(i as nat) == commit_spec(
                zero_hash((i - 1) as nat),
                zero_hash((i - 1) as nat),
            ));
        }
        zeroes
    }

    /// The root of the tree, given the table `zeroes` of right siblings to use
    /// at the clear bits of the count.
    fn root_with_ctx(&self, zeroes: &Vec<[u8; 32]>) -> (r: Result<[u8; 32], Error>)
        ensures
            r is Err <==> self.branch@.len() > TREE_DEPTH || zeroes@.len() != TREE_DEPTH,
            r is Err ==> r == Err::<[u8; 32], Error>(Error::InvalidState),
            r matches Ok(v) ==> v@ == fold_root(
                self.branch_view(),
                hashes_view(zeroes@),
                self.count as nat,
                0,
                zero_bytes(),
            ),
    {
        if self.branch.len() > TREE_DEPTH || zeroes.len() != TREE_DEPTH {
            return Err(Error::InvalidState);
        }
        let ghost b = self.branch_view();
        let ghost z = hashes_view(zeroes@);
        let mut cur: [u8; 32] = [0u8; 32];
        assert(cur@ =~= zero_bytes());
        let mut q: u32 = self.count;
        let mut i: usize = 0;
        while i < TREE_DEPTH
            invariant
                i <= TREE_DEPTH,
                b == self.branch_view(),
                z == hashes_view(zeroes@),
                zeroes@.len() == TREE_DEPTH,
                fold_root(b, z, q as nat, i as nat, cur@) == fold_root(
                    b,
                    z,
                    self.count as nat,
                    0,
                    zero_bytes(),
                ),
            decreases TREE_DEPTH - i,
        {
            if q % 2 == 1 {
                let left: [u8; 32] = if i < self.branch.len() {
                    self.branch[i]
                } else {
                    [0u8; 32]
                };
                assert(left@ =~= slot(b, i as nat));
                cur = commit(&left, &cur);
            } else {
                cur = commit(&cur, &zeroes[i]);
            }
            q = q / 2;
            i = i + 1;
        }
        Ok(cur)
    }

    /// The root of the full tree of depth `TREE_DEPTH` whose leaves past the
    /// inserted ones are zero bytes. It reads the frontier and changes nothing.
    pub fn root(&self) -> (r: Result<[u8; 32], Error>)
        ensures
            r is Err <==> self.branch@.len() > TREE_DEPTH,
            r is Err ==> r == Err::<[u8; 32], Error>(Error::InvalidState),
            r matches Ok(v) ==> v@ == frontier_root(self.branch_view(), self.count as nat),
    {
        let zeroes = Self::zero_hashes();
        assert(hashes_view(zeroes@) =~= zero_table());
        self.root_with_ctx(&zeroes)
    }

    /// The root that a proof gives: `item` is folded with the siblings in
    /// `branch`, bottom first, as the right child where the matching bit of
    /// `index` is set and as the left child where it is clear. A sibling past
    /// the end of `branch` counts as 32 zero bytes; entries past
    /// `TREE_DEPTH` are not read.
    pub fn branch_root(item: [u8; 32], branch: &Vec<[u8; 32]>, index: u64) -> (r: [u8; 32])
        ensures
            r@ == proof_root(item@, hashes_view(branch@), index as nat),
    {
        let ghost p = hashes_view(branch@);
        let mut cur: [u8; 32] = item;
        let mut q: u64 = index;
        let mut i: usize = 0;
        while i < TREE_DEPTH
            invariant
                i <= TREE_DEPTH,
                p == hashes_view(branch@),
                fold_path(p, q as nat, i as nat, cur@) == proof_root(item@, p, index as nat),
            decreases TREE_DEPTH - i,
        {
            let sib: [u8; 32] = if i < branch.len() {
                branch[i]
            } else {
                [0u8; 32]
            };
            assert(sib@ =~= slot(p, i as nat));
            if q % 2 == 1 {
                cur = commit(&sib, &cur);
            } else {
                cur = commit(&cur, &sib);
            }
            q = q / 2;
            i = i + 1;
        }
        cur
    }

    /// Keccak-256 of the concatenation of `items`.
    pub fn keccak256(items: &Vec<[u8; 32]>) -> (r: [u8; 32])
        ensures
            r@ == keccak256_of(concat_hashes(items@)),
    {
        let mut bytes: Vec<u8> = Vec::new();
        let mut i: usize = 0;
        while i < items.len()
            invariant
                i <= items.len(),
                bytes@ == concat_hashes(items@.take(i as int)),
            decreases items.len() - i,
        {
            let item: [u8; 32] = items[i];
            let mut k: usize = 0;
            let ghost before = bytes@;
            while k < 32
                invariant
                    k <= 32,
                    bytes@ == before + item@.take(k as int),
                decreases 32 - k,
            {
                bytes.push(item[k]);
                k = k + 1;
                proof {
                    assert(bytes@ =~= before + item@.take(k as int));
                }
            }
            proof {
                assert(item@.take(32) =~= item@);
                assert(items@.take(i + 1).drop_last() =~= items@.take(i as int));
            }
            i = i + 1;
        }
        proof {
            assert(items@.take(i as int) =~= items@);
        }
        keccak256_bytes(bytes.as_slice())
    }
}

} // verus!
