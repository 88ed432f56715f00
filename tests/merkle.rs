use merkle_frontier::model::TREE_DEPTH;
use merkle_frontier::tree::{commit, Error, MerkleTree, MAX_LEAVES};

fn leaf(n: u32) -> [u8; 32] {
    let mut h = [0u8; 32];
    h[0] = 0xab;
    h[28..32].copy_from_slice(&n.to_be_bytes());
    h
}

fn hex(h: &[u8; 32]) -> String {
    h.iter().map(|b| format!("{:02x}", b)).collect()
}

/// All levels of the full tree over `leaves`, with empty subtrees given by the
/// zero table; level `h` holds the nodes that cover at least one leaf, plus
/// one more where its parent needs it.
fn reference_levels(leaves: &[[u8; 32]]) -> Vec<Vec<[u8; 32]>> {
    let zeros = MerkleTree::zero_hashes();
    let mut levels = vec![leaves.to_vec()];
    for h in 0..TREE_DEPTH {
        let cur = &levels[h];
        let mut next = Vec::new();
        let mut k = 0;
        while k < cur.len() {
            let left = cur[k];
            let right = if k + 1 < cur.len() { cur[k + 1] } else { zeros[h] };
            next.push(commit(&left, &right));
            k += 2;
        }
        levels.push(next);
    }
    levels
}

fn reference_root(leaves: &[[u8; 32]]) -> [u8; 32] {
    if leaves.is_empty() {
        let zeros = MerkleTree::zero_hashes();
        return commit(&zeros[TREE_DEPTH - 1], &zeros[TREE_DEPTH - 1]);
    }
    reference_levels(leaves)[TREE_DEPTH][0]
}

fn reference_path(leaves: &[[u8; 32]], i: usize) -> Vec<[u8; 32]> {
    let zeros = MerkleTree::zero_hashes();
    let levels = reference_levels(leaves);
    let mut path = Vec::new();
    let mut k = i;
    for h in 0..TREE_DEPTH {
        let s = k ^ 1;
        path.push(if s < levels[h].len() { levels[h][s] } else { zeros[h] });
        k /= 2;
    }
    path
}

#[test]
fn keccak_of_empty_input() {
    let r = MerkleTree::keccak256(&Vec::new());
    assert_eq!(hex(&r), "c5d2460186f7233c927e7db2dcc703c0e500b653ca82273b7bfad8045d85a470");
}

#[test]
fn keccak_concatenates_items() {
    let a = leaf(1);
    let b = leaf(2);
    assert_eq!(MerkleTree::keccak256(&vec![a, b]), commit(&a, &b));
    assert_ne!(commit(&a, &b), commit(&b, &a));
}

#[test]
fn zero_table_is_generated_by_commit() {
    let z = MerkleTree::zero_hashes();
    assert_eq!(z.len(), 32);
    assert_eq!(z[0], [0u8; 32]);
    for i in 1..32 {
        assert_eq!(z[i], commit(&z[i - 1], &z[i - 1]));
    }
    assert_eq!(hex(&z[1]), "ad3228b676f7d3cd4284a5443f17f1962b36e491b30a40b2405849e597ba5fb5");
}

#[test]
fn empty_tree_root() {
    let t = MerkleTree::new();
    let z = MerkleTree::zero_hashes();
    assert_eq!(t.root(), Ok(commit(&z[31], &z[31])));
}

#[test]
fn root_matches_reference_tree() {
    let mut t = MerkleTree::new();
    let mut leaves = Vec::new();
    assert_eq!(t.root().unwrap(), reference_root(&leaves));
    for n in 0..70u32 {
        t.insert(leaf(n)).unwrap();
        leaves.push(leaf(n));
        assert_eq!(t.count, n + 1);
        assert_eq!(t.root().unwrap(), reference_root(&leaves));
    }
}

#[test]
fn one_leaf_root() {
    let mut t = MerkleTree::new();
    t.insert(leaf(7)).unwrap();
    let z = MerkleTree::zero_hashes();
    let mut cur = leaf(7);
    for h in 0..32 {
        cur = commit(&cur, &z[h]);
    }
    assert_eq!(t.root().unwrap(), cur);
    assert_eq!(t.branch, vec![leaf(7)]);
}

#[test]
fn frontier_caches_left_siblings() {
    let mut t = MerkleTree::new();
    for n in 0..3u32 {
        t.insert(leaf(n)).unwrap();
    }
    assert_eq!(t.count, 3);
    assert_eq!(t.branch, vec![leaf(2), commit(&leaf(0), &leaf(1))]);
    t.insert(leaf(3)).unwrap();
    let top = commit(&commit(&leaf(0), &leaf(1)), &commit(&leaf(2), &leaf(3)));
    assert_eq!(t.branch.len(), 3);
    assert_eq!(t.branch[2], top);
}

#[test]
fn proof_round_trip() {
    let mut t = MerkleTree::new();
    let mut leaves = Vec::new();
    for n in 0..37u32 {
        t.insert(leaf(n)).unwrap();
        leaves.push(leaf(n));
    }
    let root = t.root().unwrap();
    for i in 0..leaves.len() {
        let path = reference_path(&leaves, i);
        assert_eq!(MerkleTree::branch_root(leaves[i], &path, i as u64), root);
    }
    let path = reference_path(&leaves, 5);
    assert_ne!(MerkleTree::branch_root(leaves[5], &path, 6), root);
    assert_ne!(MerkleTree::branch_root(leaves[6], &path, 5), root);
}

#[test]
fn short_proof_pads_with_zero_bytes() {
    let item = leaf(9);
    let sib = leaf(10);
    let mut full = vec![sib];
    full.resize(32, [0u8; 32]);
    let short = MerkleTree::branch_root(item, &vec![sib], 2);
    assert_eq!(short, MerkleTree::branch_root(item, &full, 2));
    let mut cur = commit(&item, &sib);
    cur = commit(&[0u8; 32], &cur);
    for _ in 2..32 {
        cur = commit(&cur, &[0u8; 32]);
    }
    assert_eq!(short, cur);
}

#[test]
fn root_is_a_pure_read() {
    let mut t = MerkleTree::new();
    for n in 0..11u32 {
        t.insert(leaf(n)).unwrap();
    }
    let before = t.clone();
    let a = t.root();
    let b = t.root();
    assert_eq!(a, b);
    assert_eq!(t, before);
}

#[test]
fn capacity_boundary() {
    let mut t = MerkleTree { branch: vec![leaf(1); 32], count: (MAX_LEAVES - 1) as u32 };
    assert_eq!(t.insert(leaf(2)), Ok(()));
    assert_eq!(t.count as u64, MAX_LEAVES);
    assert_eq!(t.count, u32::MAX);
    assert_eq!(t.branch[0], leaf(2));
    let before = t.clone();
    assert_eq!(t.insert(leaf(3)), Err(Error::TreeFull));
    assert_eq!(t, before);
}

#[test]
fn oversized_branch_is_invalid() {
    let mut t = MerkleTree { branch: vec![leaf(1); 33], count: 4 };
    let before = t.clone();
    assert_eq!(t.insert(leaf(2)), Err(Error::InvalidState));
    assert_eq!(t, before);
    assert_eq!(t.root(), Err(Error::InvalidState));
}

#[test]
fn missing_sibling_is_invalid() {
    let mut t = MerkleTree { branch: vec![leaf(1)], count: 3 };
    let before = t.clone();
    assert_eq!(t.insert(leaf(2)), Err(Error::InvalidState));
    assert_eq!(t, before);
}
