use merkle_accumulator::accumulator::MerkleAccumulator;
use merkle_accumulator::error::AccumulatorError;
use merkle_accumulator::hash_value::{accumulator_placeholder_hash, HashValue};
use merkle_accumulator::inclusion_proof::AccumulatorProof;
use merkle_accumulator::naive::compute_root_hash_naive;
use merkle_accumulator::store::MockAccumulatorStore;
use merkle_accumulator::LeafCount;
use sha3::{Digest, Sha3_256};

// Helper function to create a list of leaves.
fn create_leaves(nums: std::ops::Range<usize>) -> Vec<HashValue> {
    nums.map(|x| {
        let digest = Sha3_256::digest(&x.to_be_bytes());
        let mut bytes = [0u8; 32];
        bytes.copy_from_slice(&digest);
        HashValue::new(bytes)
    })
    .collect()
}

fn random_hash() -> HashValue {
    HashValue::new(rand::random::<[u8; 32]>())
}

#[test]
fn test_accumulator_append() {
    // expected_root_hashes[i] is the root hash of an accumulator that has the first i leaves.
    let expected_root_hashes: Vec<HashValue> = (0..100)
        .map(|x| {
            let leaves = create_leaves(0..x);
            compute_root_hash_naive(&leaves)
        })
        .collect();

    let leaves = create_leaves(0..100);
    let mut accumulator = MerkleAccumulator::new(vec![], 0, 0).unwrap();
    // Append the leaves one at a time and check the root hashes match.
    for (i, (leaf, expected_root_hash)) in
        leaves.into_iter().zip(expected_root_hashes.into_iter()).enumerate()
    {
        assert_eq!(accumulator.root_hash(), expected_root_hash);
        assert_eq!(accumulator.num_leaves(), i as LeafCount);
        accumulator = accumulator.from_leaves(&vec![leaf]);
    }
}

#[test]
fn test_error_on_bad_parameters() {
    let mock_store = MockAccumulatorStore::new();
    let accumulator = MerkleAccumulator::new(vec![], 0, 0).unwrap();
    assert!(accumulator.get_proof(&mock_store, 10).is_err());
}

#[test]
fn test_one_leaf() {
    let hash = random_hash();
    let mock_store = MockAccumulatorStore::new();
    let mut accumulator = MerkleAccumulator::new(vec![], 0, 0).unwrap();
    let root_hash = accumulator.append(&vec![hash]).unwrap();
    assert_eq!(hash, root_hash);
    let leaf = accumulator.get_leaf(&mock_store, 0).unwrap().unwrap();
    assert_eq!(leaf, hash);
}

#[test]
fn test_empty_accumulator() {
    let accumulator = MerkleAccumulator::new(vec![], 0, 0).unwrap();
    assert_eq!(accumulator.num_leaves(), 0);
    assert_eq!(accumulator.root_hash(), accumulator_placeholder_hash());
}

#[test]
fn test_batch_invariance() {
    let leaves = create_leaves(0..4);
    let mut one_call = MerkleAccumulator::new(vec![], 0, 0).unwrap();
    one_call.append(&leaves).unwrap();

    let mut two_calls = MerkleAccumulator::new(vec![], 0, 0).unwrap();
    two_calls.append(&leaves[0..2].to_vec()).unwrap();
    two_calls.append(&leaves[2..4].to_vec()).unwrap();

    let mut four_calls = MerkleAccumulator::new(vec![], 0, 0).unwrap();
    for leaf in &leaves {
        four_calls.append(&vec![*leaf]).unwrap();
    }

    assert_eq!(one_call.root_hash(), two_calls.root_hash());
    assert_eq!(one_call.root_hash(), four_calls.root_hash());
}

#[test]
fn test_proof_roundtrip() {
    let batch1 = create_leaves(0..7);
    let batch2 = create_leaves(7..12);
    let mut mock_store = MockAccumulatorStore::new();
    let mut accumulator = MerkleAccumulator::new(vec![], 0, 0).unwrap();

    accumulator.append(&batch1).unwrap();
    // persist the first batch, keep the second in the cache: proofs must work
    // across both
    accumulator.flush(&mut mock_store).unwrap();
    let root_hash = accumulator.append(&batch2).unwrap();

    let all_leaves: Vec<HashValue> = batch1.iter().chain(batch2.iter()).cloned().collect();
    for (i, leaf) in all_leaves.iter().enumerate() {
        let proof = accumulator.get_proof(&mock_store, i as u64).unwrap().unwrap();
        proof.verify(root_hash, *leaf, i as u64).unwrap();
        let stored = accumulator.get_leaf(&mock_store, i as u64).unwrap().unwrap();
        assert_eq!(stored, *leaf);
    }
}

#[test]
fn test_proof_tamper_rejection() {
    let leaves = create_leaves(0..11);
    let mock_store = MockAccumulatorStore::new();
    let mut accumulator = MerkleAccumulator::new(vec![], 0, 0).unwrap();
    let root_hash = accumulator.append(&leaves).unwrap();

    let index: u64 = 6;
    let proof = accumulator.get_proof(&mock_store, index).unwrap().unwrap();
    proof.verify(root_hash, leaves[index as usize], index).unwrap();

    // flipping any single bit of any sibling must make verification fail
    let siblings = proof.siblings().clone();
    for (s, sibling) in siblings.iter().enumerate() {
        for byte in 0..32 {
            for bit in 0..8 {
                let mut bytes = sibling.to_bytes();
                bytes[byte] ^= 1u8 << bit;
                let mut tampered = siblings.clone();
                tampered[s] = HashValue::new(bytes);
                let tampered_proof = AccumulatorProof::new(tampered);
                assert_eq!(
                    tampered_proof.verify(root_hash, leaves[index as usize], index),
                    Err(AccumulatorError::ProofMismatch)
                );
            }
        }
    }

    // the wrong leaf index must make verification fail
    for wrong in 0..16u64 {
        if wrong != index {
            assert!(proof.verify(root_hash, leaves[index as usize], wrong).is_err());
        }
    }

    // the wrong leaf hash must make verification fail
    assert_eq!(
        proof.verify(root_hash, leaves[0], index),
        Err(AccumulatorError::ProofMismatch)
    );
}

#[test]
fn test_proof_malformed() {
    // no siblings can only prove leaf 0 of a one-leaf tree; index 1 needs depth
    let empty_proof = AccumulatorProof::new(vec![]);
    let h = random_hash();
    assert_eq!(
        empty_proof.verify(h, h, 1),
        Err(AccumulatorError::MalformedProof)
    );
    // more than 63 siblings cannot index any leaf
    let deep = AccumulatorProof::new(vec![h; 64]);
    assert_eq!(deep.verify(h, h, 0), Err(AccumulatorError::MalformedProof));
}

#[test]
fn test_out_of_range_rejection() {
    let leaves = create_leaves(0..9);
    let mock_store = MockAccumulatorStore::new();
    let mut accumulator = MerkleAccumulator::new(vec![], 0, 0).unwrap();
    accumulator.append(&leaves).unwrap();

    assert_eq!(
        accumulator.get_proof(&mock_store, 9).err(),
        Some(AccumulatorError::NotFound)
    );
    assert_eq!(
        accumulator.get_proof(&mock_store, 100).err(),
        Some(AccumulatorError::NotFound)
    );
    assert_eq!(
        accumulator.get_leaf(&mock_store, 9).err(),
        Some(AccumulatorError::NotFound)
    );
    // the last in-range index still works
    assert!(accumulator.get_proof(&mock_store, 8).unwrap().is_some());
}

#[test]
fn test_flush_idempotence() {
    let leaves = create_leaves(0..5);
    let mut mock_store = MockAccumulatorStore::new();
    let mut accumulator = MerkleAccumulator::new(vec![], 0, 0).unwrap();
    accumulator.append(&leaves).unwrap();

    let info1 = accumulator.flush(&mut mock_store).unwrap();
    let stored_after_first = mock_store.len();
    let info2 = accumulator.flush(&mut mock_store).unwrap();

    assert_eq!(info1, info2);
    assert_eq!(mock_store.len(), stored_after_first);
    assert_eq!(info1.num_leaves(), 5);
    assert_eq!(info1.accumulator_root(), accumulator.root_hash());
}

#[test]
fn test_restore_from_snapshot() {
    let leaves = create_leaves(0..6);
    let mut mock_store = MockAccumulatorStore::new();
    let mut accumulator = MerkleAccumulator::new(vec![], 0, 0).unwrap();
    let root = accumulator.append(&leaves).unwrap();
    let info = accumulator.flush(&mut mock_store).unwrap();

    let restored = MerkleAccumulator::new(
        info.frozen_subtree_roots().clone(),
        info.num_leaves(),
        info.num_nodes(),
    )
    .unwrap();
    let restored_from_info = MerkleAccumulator::new_from_info(&info).unwrap();
    assert_eq!(restored_from_info.root_hash(), root);
    assert_eq!(restored.root_hash(), root);
    assert_eq!(restored.num_leaves(), 6);
    // proofs still work against the persisted nodes
    let proof = restored.get_proof(&mock_store, 3).unwrap().unwrap();
    proof.verify(root, leaves[3], 3).unwrap();
}

#[test]
fn test_inconsistent_snapshot_rejected() {
    // five leaves need two peaks, not zero
    assert_eq!(
        MerkleAccumulator::new(vec![], 5, 9).err(),
        Some(AccumulatorError::InvariantViolation)
    );
    // the node count of five leaves is 2 * 5 - 2 = 8, not 9
    let h1 = random_hash();
    let h2 = random_hash();
    assert_eq!(
        MerkleAccumulator::new(vec![h1, h2], 5, 9).err(),
        Some(AccumulatorError::InvariantViolation)
    );
    assert!(MerkleAccumulator::new(vec![h1, h2], 5, 8).is_ok());
}

#[test]
fn test_error_messages() {
    assert_eq!(AccumulatorError::NotFound.message(), "leaf index out of range");
    assert_eq!(AccumulatorError::StoreIOError.message(), "node store failure");
    assert!(AccumulatorError::MalformedProof.message().len() > 0);
    assert!(AccumulatorError::ProofMismatch.message().len() > 0);
    assert!(AccumulatorError::InvariantViolation.message().len() > 0);
}

#[test]
fn test_naive_equivalence_on_batches() {
    // the production root after arbitrary batching equals the naive root
    for split in [1usize, 3, 8, 13] {
        let leaves = create_leaves(0..26);
        let expected = compute_root_hash_naive(&leaves);
        let mut accumulator = MerkleAccumulator::new(vec![], 0, 0).unwrap();
        for chunk in leaves.chunks(split) {
            accumulator.append(&chunk.to_vec()).unwrap();
        }
        assert_eq!(accumulator.root_hash(), expected);
    }
}
