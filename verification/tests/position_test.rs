use merkle_accumulator::node_index::NodeIndex;
use merkle_accumulator::hash_value::{accumulator_placeholder_hash, HashValue};
use merkle_accumulator::naive::compute_parent_hash;

#[test]
fn test_encode_decode() {
    // flat = pos * 2^(level+1) + 2^level - 1
    assert_eq!(NodeIndex::from_level_and_pos(0, 0).to_inorder_index(), 0);
    assert_eq!(NodeIndex::from_level_and_pos(0, 1).to_inorder_index(), 2);
    assert_eq!(NodeIndex::from_level_and_pos(0, 5).to_inorder_index(), 10);
    assert_eq!(NodeIndex::from_level_and_pos(1, 0).to_inorder_index(), 1);
    assert_eq!(NodeIndex::from_level_and_pos(1, 1).to_inorder_index(), 5);
    assert_eq!(NodeIndex::from_level_and_pos(2, 0).to_inorder_index(), 3);
    assert_eq!(NodeIndex::from_level_and_pos(3, 0).to_inorder_index(), 7);

    for level in 0..8u64 {
        for pos in 0..16u64 {
            let idx = NodeIndex::from_level_and_pos(level, pos);
            assert_eq!(idx.level(), level);
        }
    }
}

#[test]
fn test_parent_and_children() {
    let node = NodeIndex::from_level_and_pos(1, 1);
    assert_eq!(
        node.parent().to_inorder_index(),
        NodeIndex::from_level_and_pos(2, 0).to_inorder_index()
    );
    assert_eq!(
        node.left_child().to_inorder_index(),
        NodeIndex::from_level_and_pos(0, 2).to_inorder_index()
    );
    assert_eq!(
        node.right_child().to_inorder_index(),
        NodeIndex::from_level_and_pos(0, 3).to_inorder_index()
    );
    assert!(!node.is_left_child());
    assert!(NodeIndex::from_level_and_pos(1, 0).is_left_child());
}

#[test]
fn test_sibling_shares_parent() {
    for level in 0..6u64 {
        for pos in 0..12u64 {
            let node = NodeIndex::from_level_and_pos(level, pos);
            let sibling = node.sibling();
            assert_eq!(
                node.parent().to_inorder_index(),
                sibling.parent().to_inorder_index()
            );
            assert_eq!(sibling.sibling().to_inorder_index(), node.to_inorder_index());
        }
    }
}

#[test]
fn test_root_from_leaf_index() {
    // level of the enclosing padded root is ceil(log2(i + 1))
    assert_eq!(NodeIndex::root_from_leaf_index(0).level(), 0);
    assert_eq!(NodeIndex::root_from_leaf_index(1).level(), 1);
    assert_eq!(NodeIndex::root_from_leaf_index(2).level(), 2);
    assert_eq!(NodeIndex::root_from_leaf_index(3).level(), 2);
    assert_eq!(NodeIndex::root_from_leaf_index(4).level(), 3);
    assert_eq!(NodeIndex::root_from_leaf_index(7).level(), 3);
    assert_eq!(NodeIndex::root_from_leaf_index(8).level(), 4);
}

#[test]
fn test_parent_hash_of_two_placeholders() {
    let ph = accumulator_placeholder_hash();
    let idx = NodeIndex::from_level_and_pos(1, 0);
    // two absent subtrees collapse into an absent parent
    assert_eq!(compute_parent_hash(idx, ph, ph), ph);
    // anything else hashes
    let h = HashValue::new([7u8; 32]);
    assert_ne!(compute_parent_hash(idx, h, ph), ph);
    assert_ne!(compute_parent_hash(idx, h, ph), h);
}
