use rand::rngs::StdRng;
use rand::{Rng, SeedableRng};
use sha3::{Digest, Keccak256};
use vca_eval::address::Address;
use vca_eval::merkle::{MerkleError, SortedMerkleTree};

fn addr(last: u8) -> Address {
    let mut b = [0u8; 20];
    b[19] = last;
    Address::new(b)
}

fn leaf(a: &Address) -> [u8; 32] {
    let mut l = [0u8; 32];
    l[12..].copy_from_slice(&a.bytes);
    l
}

fn keccak_pair(left: &[u8; 32], right: &[u8; 32]) -> [u8; 32] {
    let mut hasher = Keccak256::new();
    hasher.update(left);
    hasher.update(right);
    hasher.finalize().into()
}

#[test]
fn test_single_address_tree() {
    let tree = SortedMerkleTree::new(vec![addr(1)]).unwrap();
    assert_eq!(tree.len(), 1);
    assert_eq!(tree.depth(), 0);
}

#[test]
fn test_tree_construction() {
    let addresses = vec![addr(1), addr(2), addr(3), addr(4)];
    let tree = SortedMerkleTree::new(addresses).unwrap();
    assert_eq!(tree.len(), 4);
    assert_eq!(tree.depth(), 2);
}

#[test]
fn test_unsorted_input_gets_sorted() {
    let addresses = vec![addr(3), addr(1), addr(2)];
    let tree = SortedMerkleTree::new(addresses).unwrap();
    assert_eq!(tree.len(), 3);
    assert_eq!(tree.addresses()[0], addr(1));
}

#[test]
fn test_non_membership_proof_generation() {
    let addresses = vec![addr(1), addr(3), addr(5), addr(7)];
    let tree = SortedMerkleTree::new(addresses).unwrap();

    let target = addr(4);
    let proof = tree.generate_non_membership_proof(&target).unwrap();

    assert_eq!(proof.left_path.len(), tree.depth());
    assert!(proof.divergence_level < tree.depth());
    assert_eq!(proof.right_lower_path.len(), proof.divergence_level);
    assert!(proof.verify(&tree.root(), &target));
}

#[test]
fn test_non_membership_verifies_on_deep_trees() {
    for &n in &[2usize, 3, 4, 5, 7, 8, 16, 31, 100, 1000] {
        let mut rng = StdRng::seed_from_u64(42);
        let mut addrs: Vec<Address> = (0..n)
            .map(|_| {
                let mut b = [0u8; 20];
                rng.fill(&mut b);
                Address::new(b)
            })
            .collect();
        addrs.sort_unstable();
        addrs.dedup();
        let tree = SortedMerkleTree::new(addrs.clone()).unwrap();

        let mut probe = StdRng::seed_from_u64(7);
        let mut checked = 0;
        let mut tries = 0;
        while checked < 100 && tries < 100_000 {
            tries += 1;
            let mut b = [0u8; 20];
            probe.fill(&mut b);
            let target = Address::new(b);
            if let Ok(proof) = tree.generate_non_membership_proof(&target) {
                assert!(
                    proof.verify(&tree.root(), &target),
                    "valid proof failed to verify: n={}, target={:?}",
                    n,
                    target
                );
                checked += 1;
            }
        }
    }
}

#[test]
fn test_tampered_proof_rejected() {
    let addresses = vec![addr(1), addr(3), addr(5), addr(7)];
    let tree = SortedMerkleTree::new(addresses).unwrap();
    let target = addr(4);
    let proof = tree.generate_non_membership_proof(&target).unwrap();
    assert!(proof.verify(&tree.root(), &target));

    let mut tampered_root = tree.root();
    tampered_root[0] ^= 0xff;
    assert!(!proof.verify(&tampered_root, &target));
}

#[test]
fn test_out_of_bounds_target_rejected() {
    let addresses = vec![addr(1), addr(3), addr(5), addr(7)];
    let tree = SortedMerkleTree::new(addresses).unwrap();
    let proof = tree.generate_non_membership_proof(&addr(4)).unwrap();

    let outside = addr(6);
    assert!(!proof.verify(&tree.root(), &outside));
}

#[test]
fn test_existing_address_fails() {
    let addresses = vec![addr(1), addr(2)];
    let tree = SortedMerkleTree::new(addresses).unwrap();

    let target = addr(1);
    let result = tree.generate_non_membership_proof(&target);
    assert!(matches!(result, Err(MerkleError::AddressExists(_))));
}

#[test]
fn test_out_of_range_address_fails() {
    let addresses = vec![addr(2), addr(3)];
    let tree = SortedMerkleTree::new(addresses).unwrap();

    let target = addr(1);
    let result = tree.generate_non_membership_proof(&target);
    assert!(matches!(result, Err(MerkleError::OutOfRange)));

    let target = addr(4);
    let result = tree.generate_non_membership_proof(&target);
    assert!(matches!(result, Err(MerkleError::OutOfRange)));
}

#[test]
fn empty_list_is_rejected() {
    let result = SortedMerkleTree::new(vec![]);
    assert!(matches!(result, Err(MerkleError::EmptyList)));
}

#[test]
fn duplicates_are_dropped() {
    let tree = SortedMerkleTree::new(vec![addr(5), addr(2), addr(5), addr(2)]).unwrap();
    assert_eq!(tree.len(), 2);
    assert_eq!(tree.addresses(), &[addr(2), addr(5)][..]);
    assert!(!tree.is_empty());
}

#[test]
fn single_leaf_root_is_the_padded_address() {
    let tree = SortedMerkleTree::new(vec![addr(9)]).unwrap();
    assert_eq!(tree.root(), leaf(&addr(9)));
}

#[test]
fn two_leaf_root_is_keccak_of_the_pair() {
    let tree = SortedMerkleTree::new(vec![addr(3), addr(1)]).unwrap();
    assert_eq!(tree.root(), keccak_pair(&leaf(&addr(1)), &leaf(&addr(3))));
}

#[test]
fn odd_node_is_paired_with_itself() {
    let tree = SortedMerkleTree::new(vec![addr(1), addr(2), addr(3)]).unwrap();
    let left = keccak_pair(&leaf(&addr(1)), &leaf(&addr(2)));
    let right = keccak_pair(&leaf(&addr(3)), &leaf(&addr(3)));
    assert_eq!(tree.root(), keccak_pair(&left, &right));
    assert_eq!(tree.depth(), 2);
}

#[test]
fn depth_is_ceil_log2() {
    for (n, d) in [(1usize, 0usize), (2, 1), (3, 2), (4, 2), (5, 3), (8, 3), (9, 4), (16, 4), (17, 5)] {
        let addrs: Vec<Address> = (1..=n as u8).map(addr).collect();
        let tree = SortedMerkleTree::new(addrs).unwrap();
        assert_eq!(tree.depth(), d, "n = {}", n);
    }
}

#[test]
fn proof_fields_for_a_four_leaf_tree() {
    let tree = SortedMerkleTree::new(vec![addr(1), addr(3), addr(5), addr(7)]).unwrap();
    let proof = tree.generate_non_membership_proof(&addr(4)).unwrap();
    let l0 = leaf(&addr(1));
    let l1 = leaf(&addr(3));
    let l2 = leaf(&addr(5));
    let l3 = leaf(&addr(7));
    assert_eq!(proof.addr, addr(4));
    assert_eq!(proof.root, tree.root());
    assert_eq!(proof.left_addr, addr(3));
    assert_eq!(proof.right_addr, addr(5));
    assert_eq!(proof.left_path, vec![l0, keccak_pair(&l2, &l3)]);
    assert_eq!(proof.left_indices, vec![true, false]);
    assert_eq!(proof.right_lower_path, vec![l3]);
    assert_eq!(proof.divergence_level, 1);
    assert_eq!(proof.size_bytes(), 209);
}

#[test]
fn tampered_path_is_rejected() {
    let tree = SortedMerkleTree::new(vec![addr(1), addr(3), addr(5), addr(7)]).unwrap();
    let target = addr(4);
    let proof = tree.generate_non_membership_proof(&target).unwrap();

    let mut bad = proof.clone();
    bad.left_path[0][31] ^= 1;
    assert!(!bad.verify(&tree.root(), &target));

    let mut bad = proof.clone();
    bad.right_lower_path[0][0] ^= 1;
    assert!(!bad.verify(&tree.root(), &target));

    let mut bad = proof.clone();
    bad.left_indices[1] = true;
    assert!(!bad.verify(&tree.root(), &target));

    let mut bad = proof.clone();
    bad.divergence_level = 0;
    assert!(!bad.verify(&tree.root(), &target));

    assert!(proof.verify(&tree.root(), &target));
}

#[test]
fn clone_keeps_the_tree() {
    let tree = SortedMerkleTree::new(vec![addr(1), addr(3), addr(5)]).unwrap();
    let copy = tree.clone();
    assert_eq!(copy.root(), tree.root());
    assert_eq!(copy.addresses(), tree.addresses());
    assert_eq!(copy.depth(), tree.depth());
}
