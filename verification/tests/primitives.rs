use state_root::config::storage_prefix_count;
use state_root::hashed_state::HashedStorage;
use state_root::multiproof::{node_path, path_nibbles};
use state_root::primitives::{same_bytes, unpack_nibbles, KECCAK_EMPTY, U256};
use state_root::sparse_trie::{storage_trie_ops, LeafOp};

fn number(n: u64) -> U256 {
    let mut be_bytes = [0u8; 32];
    be_bytes[24..].copy_from_slice(&n.to_be_bytes());
    U256 { be_bytes }
}

fn leaf_value(value: U256) -> Vec<u8> {
    match LeafOp::new(&[0; 32], &value) {
        LeafOp::Update { value, .. } => value,
        LeafOp::Remove { .. } => panic!("the value is not zero"),
    }
}

#[test]
fn the_empty_code_hash_is_the_hash_of_nothing() {
    assert_eq!(revm_primitives::keccak256([]).0, KECCAK_EMPTY);
}

#[test]
fn values_are_encoded_without_leading_zeros() {
    assert_eq!(leaf_value(number(0x0f)), vec![0x0f]);
    assert_eq!(leaf_value(number(0x7f)), vec![0x7f]);
    assert_eq!(leaf_value(number(0x80)), vec![0x81, 0x80]);
    assert_eq!(leaf_value(number(1024)), vec![0x82, 0x04, 0x00]);
    let greatest = U256 { be_bytes: [0xff; 32] };
    let mut encoded = vec![0xa0];
    encoded.extend([0xff; 32]);
    assert_eq!(leaf_value(greatest), encoded);
}

#[test]
fn a_slot_that_becomes_zero_is_removed() {
    match LeafOp::new(&[0x12; 32], &U256::zero()) {
        LeafOp::Remove { path } => assert_eq!(path, vec![1, 2].repeat(32)),
        LeafOp::Update { .. } => panic!("zero is no leaf"),
    }
}

#[test]
fn nibbles_are_those_of_the_trie() {
    let mut hash = [0u8; 32];
    for (i, byte) in hash.iter_mut().enumerate() {
        *byte = (i as u8).wrapping_mul(83).wrapping_add(5);
    }
    let nibbles = unpack_nibbles(&hash);
    assert_eq!(nibbles, alloy_trie::Nibbles::unpack(hash).to_vec());
    assert_eq!(unpack_nibbles(&[0xab; 32]), vec![0xa, 0xb].repeat(32));
}

#[test]
fn distinct_hashes_have_distinct_nibbles() {
    let mut other = [7u8; 32];
    other[31] = 8;
    assert_ne!(unpack_nibbles(&[7; 32]), unpack_nibbles(&other));
}

#[test]
fn paths_hold_up_to_sixty_four_nibbles() {
    let short = vec![1, 15, 0];
    assert_eq!(path_nibbles(&node_path(&short).unwrap()), short);
    assert_eq!(path_nibbles(&node_path(&vec![]).unwrap()), Vec::<u8>::new());
    let full = vec![9u8; 64];
    assert_eq!(path_nibbles(&node_path(&full).unwrap()), full);
    assert_eq!(node_path(&vec![9u8; 65]), None);
    assert_ne!(node_path(&vec![0]), node_path(&vec![0, 0]));
}

#[test]
fn zero_is_told_apart() {
    assert!(U256::zero().is_zero());
    assert!(!number(1).is_zero());
    let mut be_bytes = [0u8; 32];
    be_bytes[0] = 1;
    assert!(!U256 { be_bytes }.is_zero());
}

#[test]
fn bytes_are_compared_to_the_last() {
    assert!(same_bytes(&[1u8, 2, 3], &[1, 2, 3]));
    assert!(!same_bytes(&[1u8, 2, 3], &[1, 2, 4]));
}

#[test]
fn prefixes_of_storages_are_added_up() {
    assert_eq!(storage_prefix_count(&vec![]), Some(0));
    assert_eq!(storage_prefix_count(&vec![3, 0, 4]), Some(7));
    assert_eq!(storage_prefix_count(&vec![usize::MAX, 1]), None);
}

#[test]
fn a_wiped_storage_is_wiped_before_its_slots_change() {
    let mut storage = HashedStorage::new(true);
    storage.storage.insert([1; 32], number(5));
    storage.storage.insert([2; 32], number(0));
    let ops = storage_trie_ops(storage);
    assert!(ops.wipe);
    assert_eq!(ops.leaves.len(), 2);
    for op in &ops.leaves {
        match op {
            LeafOp::Update { path, value } => {
                assert_eq!(*path, unpack_nibbles(&[1; 32]));
                assert_eq!(*value, vec![5]);
            }
            LeafOp::Remove { path } => assert_eq!(*path, unpack_nibbles(&[2; 32])),
        }
    }
}
