use merkle::Hashable;
use merkle::HashableString;
use merkle::MerkleError;
use merkle::MerkleProof;
use merkle::MerkleTree;
use merkle::Witness;

type Tree = MerkleTree<Vec<u8>, HashableString>;
type Proof = MerkleProof<Vec<u8>, HashableString>;

fn zero_leaf_hash() -> Vec<u8> {
    <HashableString as Hashable<Vec<u8>>>::zero().hash()
}

fn compose(left: &Vec<u8>, right: &Vec<u8>) -> Vec<u8> {
    <HashableString as Hashable<Vec<u8>>>::compose_hash(left, right)
}

#[test]
fn construction_boundaries() {
    assert_eq!(Tree::new(7).err(), Some(MerkleError::InvalidHeight));
    assert_eq!(Tree::new(129).err(), Some(MerkleError::InvalidHeight));
    assert!(Tree::new(8).is_ok());
    assert!(Tree::new(128).is_ok());
}

#[test]
fn set_leaf_range_boundary() {
    let mut tree = Tree::new(8).unwrap();
    assert_eq!(tree.leaf_count(), 128);
    let leaf = HashableString::from(5);
    assert_eq!(tree.set_leaf(128, &leaf), Err(MerkleError::IndexOutOfRange));
    assert_eq!(tree.set_leaf(127, &leaf), Ok(()));
    assert_eq!(
        tree.get_witness(128).err(),
        Some(MerkleError::IndexOutOfRange)
    );
    assert_eq!(
        tree.get_merkle_proof(128).err(),
        Some(MerkleError::IndexOutOfRange)
    );
}

#[test]
fn fresh_tree_reads_zero_defaults() {
    let tree = Tree::new(8).unwrap();
    let zero = zero_leaf_hash();
    assert_eq!(tree.get_leaf(0), &zero);
    assert_eq!(tree.get_leaf(77), &zero);
    assert_eq!(tree.get_leaf(127), &zero);
    let mut level_hash = zero;
    for _ in 0..7 {
        level_hash = compose(&level_hash, &level_hash);
    }
    assert_eq!(tree.get_root(), &level_hash);
}

#[test]
fn set_leaf_stores_hash_and_keeps_others() {
    let mut tree = Tree::new(8).unwrap();
    let leaf = HashableString::from(42);
    let expected = leaf.hash();
    tree.set_leaf(3, &leaf).unwrap();
    assert_eq!(tree.get_leaf(3), &expected);
    assert_eq!(tree.get_leaf(2), &zero_leaf_hash());
    assert_eq!(tree.get_leaf(4), &zero_leaf_hash());
    assert_eq!(tree.get_node(0, 3), &expected);
}

#[test]
fn witness_round_trip_after_each_write() {
    let mut tree = Tree::new(10).unwrap();
    for i in 0..12u32 {
        let leaf = HashableString::from(i as i32);
        tree.set_leaf(i as u128, &leaf).unwrap();
        let witness = tree.get_witness(i as u128).unwrap();
        assert!(tree.verify(i as u128, &witness));
    }
    let witness = tree.get_witness(500).unwrap();
    assert!(tree.verify(500, &witness));
}

#[test]
fn proof_self_consistency() {
    let mut tree = Tree::new(9).unwrap();
    for i in 0..5 {
        tree.set_leaf(i, &HashableString::from(i as i32)).unwrap();
    }
    for i in 0..8 {
        assert!(tree.get_merkle_proof(i).unwrap().is_valid());
    }
}

#[test]
fn mutating_root_invalidates_proof() {
    let mut tree = Tree::new(8).unwrap();
    tree.set_leaf(9, &HashableString::from(9)).unwrap();
    let proof = tree.get_merkle_proof(9).unwrap();
    assert!(proof.is_valid());
    let mut bad_root = proof.root.clone();
    bad_root[0] ^= 1;
    let tampered = Proof::new(proof.leaf, bad_root, proof.witness);
    assert!(!tampered.is_valid());
}

#[test]
fn mutating_leaf_invalidates_proof() {
    let mut tree = Tree::new(8).unwrap();
    tree.set_leaf(9, &HashableString::from(9)).unwrap();
    let proof = tree.get_merkle_proof(9).unwrap();
    let mut bad_leaf = proof.leaf.clone();
    bad_leaf[31] ^= 0x80;
    let tampered = Proof::new(bad_leaf, proof.root, proof.witness);
    assert!(!tampered.is_valid());
}

#[test]
fn mutating_any_witness_element_invalidates_proof() {
    let mut tree = Tree::new(8).unwrap();
    tree.set_leaf(6, &HashableString::from(6)).unwrap();
    tree.set_leaf(7, &HashableString::from(7)).unwrap();
    let proof = tree.get_merkle_proof(6).unwrap();
    let n = proof.witness.len();
    for k in 0..n {
        let mut witness: Vec<Witness<Vec<u8>>> = Vec::new();
        for (j, w) in proof.witness.iter().enumerate() {
            let flip = j == k;
            witness.push(match w {
                Witness::Left(s) => {
                    let mut s = s.clone();
                    if flip {
                        s[5] ^= 1;
                    }
                    Witness::Left(s)
                }
                Witness::Right(s) => {
                    let mut s = s.clone();
                    if flip {
                        s[5] ^= 1;
                    }
                    Witness::Right(s)
                }
            });
        }
        let tampered = Proof::new(proof.leaf.clone(), proof.root.clone(), witness);
        assert!(!tampered.is_valid());
    }
}

#[test]
fn swapping_any_tag_invalidates_proof() {
    let mut tree = Tree::new(8).unwrap();
    tree.set_leaf(6, &HashableString::from(6)).unwrap();
    tree.set_leaf(7, &HashableString::from(7)).unwrap();
    let proof = tree.get_merkle_proof(6).unwrap();
    let n = proof.witness.len();
    for k in 0..n {
        let mut witness: Vec<Witness<Vec<u8>>> = Vec::new();
        for (j, w) in proof.witness.iter().enumerate() {
            let swap = j == k;
            witness.push(match w {
                Witness::Left(s) => {
                    if swap {
                        Witness::Right(s.clone())
                    } else {
                        Witness::Left(s.clone())
                    }
                }
                Witness::Right(s) => {
                    if swap {
                        Witness::Left(s.clone())
                    } else {
                        Witness::Right(s.clone())
                    }
                }
            });
        }
        let tampered = Proof::new(proof.leaf.clone(), proof.root.clone(), witness);
        assert!(!tampered.is_valid());
    }
}

#[test]
fn height_eight_scenario() {
    let mut tree = Tree::new(8).unwrap();
    assert_eq!(tree.leaf_count(), 128);
    tree.set_leaf(0, &HashableString::from(0)).unwrap();
    let witness = tree.get_witness(0).unwrap();
    assert_eq!(witness.len(), 7);
    for w in &witness {
        assert!(matches!(w, Witness::Left(_)));
    }
    let proof = tree.get_merkle_proof(0).unwrap();
    assert!(proof.is_valid());
    for k in 0..7 {
        let mut witness: Vec<Witness<Vec<u8>>> = Vec::new();
        for (j, w) in proof.witness.iter().enumerate() {
            witness.push(match w {
                Witness::Left(s) => {
                    let mut s = s.clone();
                    if j == k {
                        s[0] ^= 1;
                    }
                    Witness::Left(s)
                }
                Witness::Right(s) => Witness::Right(s.clone()),
            });
        }
        let tampered = Proof::new(proof.leaf.clone(), proof.root.clone(), witness);
        assert!(!tampered.is_valid());
    }
}

#[test]
fn height_max_scenario_stale_proof() {
    let mut tree = Tree::new(128).unwrap();
    tree.set_leaf(0, &HashableString::from(0)).unwrap();
    let stale = tree.get_merkle_proof(0).unwrap();
    assert!(stale.is_valid());
    for i in 1..10 {
        tree.set_leaf(i, &HashableString::from(i as i32)).unwrap();
    }
    let fresh = tree.get_merkle_proof(0).unwrap();
    assert!(fresh.is_valid());
    let new_root = tree.get_root().clone();
    assert_ne!(&new_root, &stale.root);
    let against_new_root = Proof::new(stale.leaf, new_root, stale.witness);
    assert!(!against_new_root.is_valid());
}

#[test]
fn get_node_reads_along_path() {
    let mut tree = Tree::new(8).unwrap();
    let leaf = HashableString::from(1);
    tree.set_leaf(2, &leaf).unwrap();
    let left = tree.get_node(0, 2).clone();
    let right = tree.get_node(0, 3).clone();
    assert_eq!(tree.get_node(1, 1), &compose(&left, &right));
    let root_left = tree.get_node(6, 0).clone();
    let root_right = tree.get_node(6, 1).clone();
    assert_eq!(tree.get_root(), &compose(&root_left, &root_right));
}

#[test]
fn hashing_capability_basics() {
    let zero = <HashableString as Hashable<Vec<u8>>>::zero();
    let h = zero.hash();
    assert_eq!(h.len(), 32);
    assert_eq!(h, zero_leaf_hash());
    let a = HashableString::from(1).hash();
    let b = HashableString::from(2).hash();
    assert_ne!(a, b);
    assert_ne!(compose(&a, &b), compose(&b, &a));
}

fn drive<M: merkle::Merkle<Vec<u8>, HashableString>>(height: usize) -> bool {
    let mut tree = M::new(height).unwrap();
    tree.set_leaf(1, &HashableString::from(1)).unwrap();
    let proof = tree.get_merkle_proof(1).unwrap();
    let witness = tree.get_witness(1).unwrap();
    assert_eq!(witness.len(), height - 1);
    assert_eq!(tree.get_leaf(1), &HashableString::from(1).hash());
    assert_eq!(tree.get_node(height - 1, 0), tree.get_root());
    proof.is_valid()
}

#[test]
fn trait_interface_round_trip() {
    assert!(drive::<Tree>(8));
    assert!(drive::<Tree>(16));
}

#[test]
fn hashing_matches_blake3_reference() {
    let h0 = HashableString::from(0).hash();
    assert_eq!(h0.as_slice(), blake3::hash(b"0").as_bytes());
    let zero = zero_leaf_hash();
    assert_eq!(zero.as_slice(), blake3::hash(b"").as_bytes());
    let expected_empty: [u8; 32] = [
        0xaf, 0x13, 0x49, 0xb9, 0xf5, 0xf9, 0xa1, 0xa6, 0xa0, 0x40, 0x4d, 0xea, 0x36, 0xdc,
        0xc9, 0x49, 0x9b, 0xcb, 0x25, 0xc9, 0xad, 0xc1, 0x12, 0xb7, 0xcc, 0x9a, 0x93, 0xca,
        0xe4, 0x1f, 0x32, 0x62,
    ];
    assert_eq!(zero.as_slice(), &expected_empty);
    let a = HashableString::from(7).hash();
    let b = HashableString::from(8).hash();
    let mut hasher = blake3::Hasher::new();
    hasher.update(&a);
    hasher.update(&b);
    assert_eq!(compose(&a, &b).as_slice(), hasher.finalize().as_bytes());
}
