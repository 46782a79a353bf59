use state_root::hashed_state::{Account, HashedPostState, HashedStorage};
use state_root::multiproof::{node_path, MultiProof, StorageMultiProof};
use state_root::primitives::U256;
use state_root::message::{ParallelStateRootError, StateRootMessage};
use state_root::sparse_trie::{
    failure_message, on_updated, sparse_trie_ops, sparse_trie_steps, SparseTrieProgress,
    SparseTrieStep, SparseTrieTaskStep,
};
use state_root::update::{combine, SparseTrieUpdate};

fn number(n: u8) -> U256 {
    let mut be_bytes = [0u8; 32];
    be_bytes[31] = n;
    U256 { be_bytes }
}

fn account(nonce: u64) -> Account {
    Account { nonce, ..Default::default() }
}

fn changes(address: u8, nonce: Option<u64>, wiped: bool, slots: &[(u8, u8)]) -> SparseTrieUpdate {
    let mut state = HashedPostState::default();
    state.accounts.insert([address; 32], nonce.map(account));
    let mut storage = HashedStorage::new(wiped);
    for (slot, value) in slots {
        storage.storage.insert([*slot; 32], number(*value));
    }
    state.storages.insert([address; 32], storage);
    SparseTrieUpdate { state, multiproof: MultiProof::default() }
}

fn storage_proof(root: u8, path: u8, node: u8) -> StorageMultiProof {
    let mut proof = StorageMultiProof {
        root: [root; 32],
        subtree: Default::default(),
        branch_node_hash_masks: Default::default(),
        branch_node_tree_masks: Default::default(),
    };
    let path = node_path(&vec![path]).unwrap();
    proof.subtree.insert(path, vec![node]);
    proof.branch_node_hash_masks.insert(path, node as u16);
    proof.branch_node_tree_masks.insert(path, node as u16 + 1);
    proof
}

#[test]
fn an_update_is_empty_if_it_changes_and_proves_nothing() {
    assert!(SparseTrieUpdate::default().is_empty());
    assert!(SparseTrieUpdate::from_multiproof(MultiProof::default()).is_empty());
    assert!(!changes(1, None, false, &[]).is_empty());

    let path = node_path(&vec![]).unwrap();
    let mut nodes = MultiProof::default();
    nodes.account_subtree.insert(path, vec![1]);
    assert!(!SparseTrieUpdate::from_multiproof(nodes).is_empty());
    let mut hash_masks = MultiProof::default();
    hash_masks.branch_node_hash_masks.insert(path, 1);
    assert!(!SparseTrieUpdate::from_multiproof(hash_masks).is_empty());
    let mut tree_masks = MultiProof::default();
    tree_masks.branch_node_tree_masks.insert(path, 1);
    assert!(!SparseTrieUpdate::from_multiproof(tree_masks).is_empty());
    let mut storages = MultiProof::default();
    storages.storages.insert([1; 32], storage_proof(1, 1, 1));
    assert!(!SparseTrieUpdate::from_multiproof(storages).is_empty());
}

#[test]
fn from_multiproof_keeps_the_proof() {
    let mut proof = MultiProof::default();
    proof.storages.insert([1; 32], storage_proof(1, 2, 3));
    let update = SparseTrieUpdate::from_multiproof(proof.clone());
    assert_eq!(update.multiproof, proof);
    assert!(update.state.is_empty());
}

#[test]
fn the_later_change_of_an_account_or_a_slot_stays() {
    let mut update = changes(1, Some(1), false, &[(1, 1), (2, 2)]);
    update.extend(changes(1, Some(2), false, &[(2, 7), (3, 3)]));
    assert_eq!(update.state.accounts[&[1; 32]], Some(account(2)));
    let storage = &update.state.storages[&[1; 32]];
    assert!(!storage.wiped);
    assert_eq!(storage.storage.len(), 3);
    assert_eq!(storage.storage[&[1; 32]], number(1));
    assert_eq!(storage.storage[&[2; 32]], number(7));
    assert_eq!(storage.storage[&[3; 32]], number(3));
}

#[test]
fn a_wipe_forgets_the_slots_before_it() {
    let mut update = changes(1, Some(1), false, &[(1, 1)]);
    update.extend(changes(1, None, true, &[(2, 2)]));
    update.extend(changes(1, Some(5), false, &[(3, 3)]));
    assert_eq!(update.state.accounts[&[1; 32]], Some(account(5)));
    let storage = &update.state.storages[&[1; 32]];
    assert!(storage.wiped);
    assert_eq!(storage.storage.len(), 2);
    assert!(!storage.storage.contains_key(&[1; 32]));
}

#[test]
fn proofs_are_joined_node_by_node() {
    let mut first = MultiProof::default();
    let shared = node_path(&vec![1, 2]).unwrap();
    let other = node_path(&vec![3]).unwrap();
    first.account_subtree.insert(shared, vec![1]);
    first.storages.insert([1; 32], storage_proof(9, 1, 10));
    let mut second = MultiProof::default();
    second.account_subtree.insert(shared, vec![2]);
    second.account_subtree.insert(other, vec![3]);
    second.branch_node_hash_masks.insert(other, 4);
    second.branch_node_tree_masks.insert(other, 5);
    second.storages.insert([1; 32], storage_proof(9, 2, 20));
    second.storages.insert([2; 32], storage_proof(8, 1, 30));

    first.extend(second);
    assert_eq!(first.account_subtree[&shared], vec![2]);
    assert_eq!(first.account_subtree[&other], vec![3]);
    assert_eq!(first.branch_node_hash_masks[&other], 4);
    assert_eq!(first.branch_node_tree_masks[&other], 5);
    assert_eq!(first.storages.len(), 2);
    let joined = &first.storages[&[1; 32]];
    assert_eq!(joined.root, [9; 32]);
    assert_eq!(joined.subtree.len(), 2);
    assert_eq!(joined.branch_node_hash_masks.len(), 2);
    assert_eq!(joined.branch_node_tree_masks[&node_path(&vec![2]).unwrap()], 21);
}

fn row() -> Vec<SparseTrieUpdate> {
    vec![
        changes(1, Some(1), false, &[(1, 1), (2, 2)]),
        changes(1, None, true, &[]),
        changes(2, Some(4), false, &[(1, 9)]),
        changes(1, Some(3), false, &[(2, 5)]),
    ]
}

#[test]
fn updates_combine_alike_however_they_are_cut() {
    let whole = combine(row()).unwrap();
    for cut in 1..4 {
        let mut first = row();
        let second = first.split_off(cut);
        let mut both = combine(first).unwrap();
        both.extend(combine(second).unwrap());
        assert_eq!(both.state, whole.state);
        assert_eq!(both.multiproof, whole.multiproof);
    }
    assert!(combine(vec![]).is_none());
    assert_eq!(whole.state.accounts[&[1; 32]], Some(account(3)));
    assert!(whole.state.storages[&[1; 32]].wiped);
    assert_eq!(whole.state.storages[&[1; 32]].storage.len(), 1);
    assert_eq!(whole.state.accounts[&[2; 32]], Some(account(4)));
}

#[test]
fn the_empty_update_changes_nothing() {
    let mut update = changes(1, Some(1), true, &[(1, 1)]);
    update.extend(SparseTrieUpdate::default());
    assert_eq!(update.state, changes(1, Some(1), true, &[(1, 1)]).state);
    let mut empty = SparseTrieUpdate::default();
    empty.extend(changes(1, Some(1), true, &[(1, 1)]));
    assert_eq!(empty.state, changes(1, Some(1), true, &[(1, 1)]).state);
}

#[test]
fn updates_that_came_in_behind_are_put_together_in_order() {
    let mut progress = SparseTrieProgress::new();
    let mut updates = row();
    let behind = updates.split_off(1);
    let update = progress.next_update(updates.pop().unwrap(), behind);
    assert_eq!(update.state, combine(row()).unwrap().state);
    assert_eq!(progress.num_iterations, 1);
    let alone = progress.next_update(changes(7, None, false, &[]), vec![]);
    assert_eq!(alone.state, changes(7, None, false, &[]).state);
    assert_eq!(progress.num_iterations, 2);
}

#[test]
fn operations_cover_every_account_and_storage() {
    let mut update = combine(row()).unwrap();
    update.state.accounts.insert([3; 32], None);
    update.multiproof.account_subtree.insert(node_path(&vec![4]).unwrap(), vec![4]);
    let proof = update.multiproof.clone();
    let ops = sparse_trie_ops(update);
    assert_eq!(ops.multiproof, proof);
    let mut accounts = ops.accounts;
    accounts.sort_by_key(|(address, _)| *address);
    assert_eq!(
        accounts,
        vec![([1; 32], account(3)), ([2; 32], account(4)), ([3; 32], Account::default())]
    );
    let mut storages: Vec<_> =
        ops.storages.iter().map(|(a, ops)| (a[0], ops.wipe, ops.leaves.len())).collect();
    storages.sort();
    assert_eq!(storages, vec![(1, true, 1), (2, false, 1)]);
}

#[test]
fn steps_reveal_then_change_storages_then_accounts_then_hash() {
    let mut update = combine(row()).unwrap();
    update.state.accounts.insert([3; 32], None);
    update.multiproof.account_subtree.insert(node_path(&vec![4]).unwrap(), vec![4]);
    let proof = update.multiproof.clone();
    let steps = sparse_trie_steps(update);
    assert_eq!(steps.len(), 7);
    assert!(matches!(&steps[0], SparseTrieStep::Reveal(revealed) if *revealed == proof));
    assert!(matches!(steps[1], SparseTrieStep::UpdateStorage(..)));
    assert!(matches!(steps[2], SparseTrieStep::UpdateStorage(..)));
    let mut accounts = Vec::new();
    for step in &steps[3..6] {
        match step {
            SparseTrieStep::UpdateAccount(address, account) => accounts.push((*address, *account)),
            other => panic!("unexpected step {:?}", other),
        }
    }
    accounts.sort_by_key(|(address, _)| *address);
    assert_eq!(
        accounts,
        vec![([1; 32], account(3)), ([2; 32], account(4)), ([3; 32], Account::default())]
    );
    assert!(matches!(steps[6], SparseTrieStep::CalculateBelowLevel(2)));
    // an update that changes nothing is revealed and hashed all the same
    assert_eq!(sparse_trie_steps(SparseTrieUpdate::default()).len(), 2);
}

#[test]
fn the_root_is_calculated_once_the_channel_is_closed() {
    let mut progress = SparseTrieProgress::new();
    let mut updates = row();
    let behind = updates.split_off(1);
    match progress.on_received(Some((updates.pop().unwrap(), behind))) {
        SparseTrieTaskStep::Update(update) => {
            assert_eq!(update.state, combine(row()).unwrap().state);
        }
        SparseTrieTaskStep::CalculateRoot => panic!("updates were received"),
    }
    assert_eq!(progress.num_iterations, 1);
    assert!(matches!(progress.on_received(None), SparseTrieTaskStep::CalculateRoot));
    assert_eq!(progress.num_iterations, 1);
    let end: Result<StateRootMessage<u64, u8>, _> = progress.on_root(Ok(([5; 32], 9)));
    match end.unwrap() {
        StateRootMessage::RootCalculated { state_root, trie_updates, iterations } => {
            assert_eq!((state_root, trie_updates, iterations), ([5; 32], 9, 1));
        }
        other => panic!("unexpected message {:?}", other),
    }
}

#[test]
fn a_failed_update_or_root_ends_the_task_without_a_root() {
    let text = |error: ParallelStateRootError| match error {
        ParallelStateRootError::Other(text) => text,
    };
    assert!(on_updated(Ok(())).is_ok());
    assert_eq!(
        text(on_updated(Err("blind".to_string())).unwrap_err()),
        "could not calculate state root: blind"
    );
    let end: Result<StateRootMessage<u64, u8>, _> =
        SparseTrieProgress::new().on_root(Err("gone".to_string()));
    assert_eq!(text(end.unwrap_err()), "could not calculate state root: gone");
    let quiet: Option<StateRootMessage<u64, u8>> = failure_message(Ok(()));
    assert!(quiet.is_none());
    let told: Option<StateRootMessage<u64, u8>> = failure_message(Err("why".to_string()));
    assert!(matches!(told, Some(StateRootMessage::RootCalculationError(text)) if text == "why"));
}
