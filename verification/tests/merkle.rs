use clob::merkle::MerkleTree;
use sha2::{Digest, Sha256};

type Digest32 = [u8; 32];

fn hash_string(s: &str) -> Digest32 {
    let mut hasher = Sha256::new();
    hasher.update(s.as_bytes());
    hasher.finalize().into()
}

fn hash_two(left: &Digest32, right: &Digest32) -> Digest32 {
    let mut hasher = Sha256::new();
    hasher.update(left);
    hasher.update(right);
    hasher.finalize().into()
}

#[test]
fn test_merkle_tree_even_leaves() {
    let leaves = vec![hash_string("a"), hash_string("b"), hash_string("c"), hash_string("d")];
    let tree = MerkleTree::new(&leaves);

    let hash_ab = hash_two(&leaves[0], &leaves[1]);
    let hash_cd = hash_two(&leaves[2], &leaves[3]);
    let expected_root = hash_two(&hash_ab, &hash_cd);

    assert_eq!(tree.root(), expected_root);
}

#[test]
fn test_merkle_tree_odd_leaves() {
    let leaves = vec![hash_string("a"), hash_string("b"), hash_string("c")];
    let tree = MerkleTree::new(&leaves);

    let hash_ab = hash_two(&leaves[0], &leaves[1]);
    // The odd leaf 'c' is paired with itself
    let hash_cc = hash_two(&leaves[2], &leaves[2]);
    let expected_root = hash_two(&hash_ab, &hash_cc);

    assert_eq!(tree.root(), expected_root);
}

#[test]
fn no_leaves_have_the_zero_root() {
    assert_eq!(MerkleTree::new(&[]).root(), [0u8; 32]);
}

#[test]
fn a_single_leaf_is_its_own_root() {
    let leaf = hash_string("a");
    assert_eq!(MerkleTree::new(&[leaf]).root(), leaf);
}

#[test]
fn an_odd_last_leaf_may_as_well_be_repeated() {
    let leaves: Vec<Digest32> = vec!["a", "b", "c", "d", "e"].iter().map(|s| hash_string(s)).collect();
    let mut repeated = leaves.clone();
    repeated.push(leaves[4]);
    assert_eq!(MerkleTree::new(&leaves).root(), MerkleTree::new(&repeated).root());
}

#[test]
fn halves_of_eight_leaves_meet_in_the_root() {
    let leaves: Vec<Digest32> = (0..8).map(|i| hash_string(&format!("{}", i))).collect();
    let left = MerkleTree::new(&leaves[..4]).root();
    let right = MerkleTree::new(&leaves[4..]).root();
    assert_eq!(MerkleTree::new(&leaves).root(), hash_two(&left, &right));
}
