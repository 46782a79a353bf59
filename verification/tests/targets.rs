use state_root::hashed_state::{Account, HashedPostState, HashedStorage};
use state_root::maps::BytesSet;
use state_root::primitives::{B256, U256};
use state_root::targets::{
    extend_multi_proof_targets_ref, get_proof_targets, slot_set, slots_missing_from,
    MultiProofTargets,
};
use state_root::task::StateRootTask;

/// Distinct hashes, one after the other.
struct Hashes(u8);

impl Hashes {
    fn next(&mut self) -> B256 {
        self.0 += 1;
        let mut hash = [0u8; 32];
        for (i, byte) in hash.iter_mut().enumerate() {
            *byte = self.0.wrapping_mul(37).wrapping_add((i as u8).wrapping_mul(11));
        }
        hash
    }
}

fn number(n: u8) -> U256 {
    let mut be_bytes = [0u8; 32];
    be_bytes[31] = n;
    U256 { be_bytes }
}

fn slots(slots: &[B256]) -> BytesSet<32> {
    slots.iter().copied().collect()
}

fn create_get_proof_targets_state() -> HashedPostState {
    let mut hashes = Hashes(0);
    let mut state = HashedPostState::default();

    let addr1 = hashes.next();
    let addr2 = hashes.next();
    state.accounts.insert(addr1, Some(Default::default()));
    state.accounts.insert(addr2, Some(Default::default()));

    let mut storage = HashedStorage::default();
    let slot1 = hashes.next();
    let slot2 = hashes.next();
    storage.storage.insert(slot1, U256::zero());
    storage.storage.insert(slot2, number(1));
    state.storages.insert(addr1, storage);

    state
}

#[test]
fn test_get_proof_targets_new_account_targets() {
    let state = create_get_proof_targets_state();
    let fetched = MultiProofTargets::default();

    let targets = get_proof_targets(&state, &fetched);

    // should return all accounts as targets since nothing was fetched before
    assert_eq!(targets.len(), state.accounts.len());
    for addr in state.accounts.keys() {
        assert!(targets.contains_key(addr));
    }
}

#[test]
fn test_get_proof_targets_new_storage_targets() {
    let state = create_get_proof_targets_state();
    let fetched = MultiProofTargets::default();

    let targets = get_proof_targets(&state, &fetched);

    // verify storage slots are included for accounts with storage
    for (addr, storage) in &state.storages {
        assert!(targets.contains_key(addr));
        let target_slots = targets.get(addr).unwrap();
        assert_eq!(target_slots.len(), storage.storage.len());
        for slot in storage.storage.keys() {
            assert!(target_slots.contains(slot));
        }
    }
}

#[test]
fn test_get_proof_targets_filter_already_fetched_accounts() {
    let state = create_get_proof_targets_state();
    let mut fetched = MultiProofTargets::default();

    // select an account that has no storage updates
    let fetched_addr = state
        .accounts
        .keys()
        .find(|&addr| !state.storages.contains_key(addr))
        .expect("Should have an account without storage");

    // mark the account as already fetched
    fetched.insert(*fetched_addr, BytesSet::<32>::default());

    let targets = get_proof_targets(&state, &fetched);

    // should not include the already fetched account since it has no storage updates
    assert!(!targets.contains_key(fetched_addr));
    // other accounts should still be included
    assert_eq!(targets.len(), state.accounts.len() - 1);
}

#[test]
fn test_get_proof_targets_filter_already_fetched_storage() {
    let state = create_get_proof_targets_state();
    let mut fetched = MultiProofTargets::default();

    // mark one storage slot as already fetched
    let (addr, storage) = state.storages.iter().next().unwrap();
    let mut fetched_slots = BytesSet::<32>::default();
    let fetched_slot = *storage.storage.keys().next().unwrap();
    fetched_slots.insert(fetched_slot);
    fetched.insert(*addr, fetched_slots);

    let targets = get_proof_targets(&state, &fetched);

    // should not include the already fetched storage slot
    let target_slots = targets.get(addr).unwrap();
    assert!(!target_slots.contains(&fetched_slot));
    assert_eq!(target_slots.len(), storage.storage.len() - 1);
}

#[test]
fn test_get_proof_targets_empty_state() {
    let state = HashedPostState::default();
    let fetched = MultiProofTargets::default();

    let targets = get_proof_targets(&state, &fetched);

    assert!(targets.is_empty());
}

#[test]
fn test_get_proof_targets_mixed_fetched_state() {
    let mut hashes = Hashes(0);
    let mut state = HashedPostState::default();
    let mut fetched = MultiProofTargets::default();

    let addr1 = hashes.next();
    let addr2 = hashes.next();
    let slot1 = hashes.next();
    let slot2 = hashes.next();

    state.accounts.insert(addr1, Some(Default::default()));
    state.accounts.insert(addr2, Some(Default::default()));

    let mut storage = HashedStorage::default();
    storage.storage.insert(slot1, U256::zero());
    storage.storage.insert(slot2, number(1));
    state.storages.insert(addr1, storage);

    let mut fetched_slots = BytesSet::<32>::default();
    fetched_slots.insert(slot1);
    fetched.insert(addr1, fetched_slots);

    let targets = get_proof_targets(&state, &fetched);

    assert!(targets.contains_key(&addr2));
    assert!(!targets.get(&addr1).unwrap().contains(&slot1));
    assert!(targets.get(&addr1).unwrap().contains(&slot2));
}

#[test]
fn test_get_proof_targets_unmodified_account_with_storage() {
    let mut hashes = Hashes(0);
    let mut state = HashedPostState::default();
    let fetched = MultiProofTargets::default();

    let addr = hashes.next();
    let slot1 = hashes.next();
    let slot2 = hashes.next();

    // don't add the account to state.accounts (simulating unmodified account)
    // but add storage updates for this account
    let mut storage = HashedStorage::default();
    storage.storage.insert(slot1, number(1));
    storage.storage.insert(slot2, number(2));
    state.storages.insert(addr, storage);

    assert!(!state.accounts.contains_key(&addr));
    assert!(!fetched.contains_key(&addr));

    let targets = get_proof_targets(&state, &fetched);

    // verify that we still get the storage slots for the unmodified account
    assert!(targets.contains_key(&addr));

    let target_slots = targets.get(&addr).unwrap();
    assert_eq!(target_slots.len(), 2);
    assert!(target_slots.contains(&slot1));
    assert!(target_slots.contains(&slot2));
}

#[test]
fn test_get_prefetch_proof_targets_no_duplicates() {
    let mut hashes = Hashes(0);
    let mut test_state_root_task: StateRootTask<u64> = StateRootTask::new(None);

    // populate some targets
    let mut targets = MultiProofTargets::default();
    let addr1 = hashes.next();
    let addr2 = hashes.next();
    let slot1 = hashes.next();
    let slot2 = hashes.next();
    targets.insert(addr1, vec![slot1].into_iter().collect());
    targets.insert(addr2, vec![slot2].into_iter().collect());

    let prefetch_proof_targets = test_state_root_task.get_prefetch_proof_targets(targets.clone());

    // check that the prefetch proof targets are the same because there are no fetched proof
    // targets yet
    assert_eq!(prefetch_proof_targets, targets);

    // add a different addr and slot to fetched proof targets
    let addr3 = hashes.next();
    let slot3 = hashes.next();
    test_state_root_task.fetched_proof_targets.insert(addr3, vec![slot3].into_iter().collect());

    let prefetch_proof_targets = test_state_root_task.get_prefetch_proof_targets(targets.clone());

    // check that the prefetch proof targets are the same because the fetched proof targets
    // don't overlap with the prefetch targets
    assert_eq!(prefetch_proof_targets, targets);
}

#[test]
fn test_get_prefetch_proof_targets_remove_subset() {
    let mut hashes = Hashes(0);
    let mut test_state_root_task: StateRootTask<u64> = StateRootTask::new(None);

    // populate some targe
    let mut targets = MultiProofTargets::default();
    let addr1 = hashes.next();
    let addr2 = hashes.next();
    let slot1 = hashes.next();
    let slot2 = hashes.next();
    targets.insert(addr1, vec![slot1].into_iter().collect());
    targets.insert(addr2, vec![slot2].into_iter().collect());

    // add a subset of the first target to fetched proof targets
    test_state_root_task.fetched_proof_targets.insert(addr1, vec![slot1].into_iter().collect());

    let prefetch_proof_targets = test_state_root_task.get_prefetch_proof_targets(targets.clone());

    // check that the prefetch proof targets do not include the subset
    assert_eq!(prefetch_proof_targets.len(), 1);
    assert!(!prefetch_proof_targets.contains_key(&addr1));
    assert!(prefetch_proof_targets.contains_key(&addr2));

    // now add one more slot to the prefetch targets
    let slot3 = hashes.next();
    targets.accounts.get_mut(&addr1).unwrap().insert(slot3);

    let prefetch_proof_targets = test_state_root_task.get_prefetch_proof_targets(targets.clone());

    // check that the prefetch proof targets do not include the subset
    // but include the new slot
    assert_eq!(prefetch_proof_targets.len(), 2);
    assert!(prefetch_proof_targets.contains_key(&addr1));
    assert_eq!(
        *prefetch_proof_targets.get(&addr1).unwrap(),
        vec![slot3].into_iter().collect::<BytesSet<32>>()
    );
    assert!(prefetch_proof_targets.contains_key(&addr2));
    assert_eq!(
        *prefetch_proof_targets.get(&addr2).unwrap(),
        vec![slot2].into_iter().collect::<BytesSet<32>>()
    );
}

#[test]
fn an_account_without_slots_is_asked_for_once() {
    let account = [1; 32];
    let mut task: StateRootTask<u64> = StateRootTask::new(None);
    let mut targets = MultiProofTargets::default();
    targets.insert(account, slots(&[]));
    assert_eq!(task.get_prefetch_proof_targets(targets.clone()), targets);
    task.fetched_proof_targets.insert(account, slots(&[[9; 32]]));
    assert!(task.get_prefetch_proof_targets(targets).is_empty());
}

#[test]
fn targets_of_an_update_that_comes_again_are_empty() {
    let state = create_get_proof_targets_state();
    let mut fetched = MultiProofTargets::default();
    let targets = get_proof_targets(&state, &fetched);
    extend_multi_proof_targets_ref(&mut fetched, &targets);
    assert_eq!(fetched, targets);
    assert!(get_proof_targets(&state, &fetched).is_empty());
}

#[test]
fn targets_cover_a_destroyed_account() {
    let mut state = HashedPostState::default();
    state.accounts.insert([3; 32], None);
    state.storages.insert([3; 32], HashedStorage::new(true));
    let targets = get_proof_targets(&state, &MultiProofTargets::default());
    assert_eq!(targets.len(), 1);
    assert!(targets.get(&[3; 32]).unwrap().is_empty());
}

#[test]
fn targets_are_united_account_by_account() {
    let mut first = MultiProofTargets::default();
    first.insert([1; 32], slots(&[[1; 32], [2; 32]]));
    first.insert([2; 32], slots(&[]));
    let mut second = MultiProofTargets::default();
    second.insert([1; 32], slots(&[[2; 32], [3; 32]]));
    second.insert([3; 32], slots(&[[4; 32]]));
    extend_multi_proof_targets_ref(&mut first, &second);

    let mut united = MultiProofTargets::default();
    united.insert([1; 32], slots(&[[1; 32], [2; 32], [3; 32]]));
    united.insert([2; 32], slots(&[]));
    united.insert([3; 32], slots(&[[4; 32]]));
    assert_eq!(first, united);
}

#[test]
fn accounts_and_slots_are_counted() {
    let mut targets = MultiProofTargets::default();
    assert_eq!(targets.counts(), Some((0, 0)));
    targets.insert([1; 32], slots(&[[1; 32], [2; 32]]));
    targets.insert([2; 32], slots(&[]));
    targets.insert([3; 32], slots(&[[1; 32]]));
    assert_eq!(targets.counts(), Some((3, 3)));
}

#[test]
fn an_inserted_account_takes_the_place_of_the_former() {
    let mut targets = MultiProofTargets::default();
    targets.insert([1; 32], slots(&[[1; 32]]));
    targets.insert([1; 32], slots(&[[2; 32]]));
    assert_eq!(targets.len(), 1);
    assert_eq!(*targets.get(&[1; 32]).unwrap(), slots(&[[2; 32]]));
    assert!(targets.get(&[2; 32]).is_none());
}

#[test]
fn sets_of_slots() {
    let some = slot_set(&vec![[1; 32], [2; 32], [1; 32]]);
    assert_eq!(some, slots(&[[1; 32], [2; 32]]));
    assert_eq!(slots_missing_from(&some, &slots(&[[2; 32], [3; 32]])), slots(&[[1; 32]]));
}

#[test]
fn the_default_account_is_empty() {
    let account = Account::default();
    assert_eq!(account.nonce, 0);
    assert!(account.balance.is_zero());
    assert_eq!(account.bytecode_hash, None);
}

#[test]
fn a_prefetch_is_deduplicated_like_a_state_update() {
    let state = create_get_proof_targets_state();
    let mut request = MultiProofTargets::default();
    for account in state.accounts.keys() {
        let changed = state.storages.get(account);
        let wanted = changed.map(|s| s.storage.keys().copied().collect()).unwrap_or_default();
        request.insert(*account, wanted);
    }
    let (account, storage) = state.storages.iter().next().unwrap();
    let mut task: StateRootTask<u64> = StateRootTask::new(None);
    let fetched_slot = *storage.storage.keys().next().unwrap();
    task.fetched_proof_targets.insert(*account, slots(&[fetched_slot]));
    let left = task.get_prefetch_proof_targets(request);
    assert_eq!(left, get_proof_targets(&state, &task.fetched_proof_targets));
    assert_eq!(left.get(account).unwrap().len(), 1);
}
