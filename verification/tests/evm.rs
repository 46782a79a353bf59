use revm_primitives::{keccak256, Address, HashMap, KECCAK_EMPTY, U256};
use revm_state::{
    Account as RevmAccount, AccountInfo, AccountStatus, EvmState,
    EvmStorageSlot as RevmStorageSlot,
};
use state_root::evm::{
    evm_state_to_hashed_post_state, hash_evm_accounts, EvmAccount, EvmStorageSlot,
};
use state_root::primitives;

fn word(n: u64) -> primitives::U256 {
    primitives::U256 { be_bytes: U256::from(n).to_be_bytes() }
}

fn hashed_slot(slot: u64) -> [u8; 32] {
    keccak256(U256::from(slot).to_be_bytes::<32>()).0
}

fn account(balance: u64, nonce: u64, slots: &[(u64, u64, u64)], status: AccountStatus) -> RevmAccount {
    let mut storage = HashMap::default();
    for (slot, original, present) in slots {
        storage.insert(
            U256::from(*slot),
            RevmStorageSlot::new_changed(U256::from(*original), U256::from(*present)),
        );
    }
    RevmAccount {
        info: AccountInfo {
            balance: U256::from(balance),
            nonce,
            code_hash: KECCAK_EMPTY,
            code: Some(Default::default()),
        },
        storage,
        status,
    }
}

#[test]
fn touched_accounts_are_hashed_with_their_changed_slots() {
    let address = Address::repeat_byte(0x11);
    let mut update = EvmState::default();
    update.insert(
        address,
        account(7, 3, &[(1, 0, 5), (2, 9, 9), (300, 4, 0)], AccountStatus::Touched),
    );
    let state = evm_state_to_hashed_post_state(update);

    let hashed_address = keccak256(address).0;
    assert_eq!(state.accounts.len(), 1);
    let stored = state.accounts[&hashed_address].unwrap();
    assert_eq!(stored.nonce, 3);
    assert_eq!(stored.balance, word(7));
    assert_eq!(stored.bytecode_hash, None);

    assert_eq!(state.storages.len(), 1);
    let storage = &state.storages[&hashed_address];
    assert!(!storage.wiped);
    assert_eq!(storage.storage.len(), 2);
    assert_eq!(storage.storage[&hashed_slot(1)], word(5));
    assert_eq!(storage.storage[&hashed_slot(300)], word(0));
}

#[test]
fn untouched_accounts_are_left_out() {
    let mut update = EvmState::default();
    update.insert(
        Address::repeat_byte(1),
        account(1, 1, &[(1, 0, 1)], AccountStatus::Loaded),
    );
    update.insert(
        Address::repeat_byte(2),
        account(1, 1, &[(1, 0, 1)], AccountStatus::SelfDestructed),
    );
    assert!(evm_state_to_hashed_post_state(update).is_empty());
}

#[test]
fn a_destroyed_account_is_gone_and_its_storage_wiped() {
    let address = Address::repeat_byte(3);
    let mut update = EvmState::default();
    update.insert(
        address,
        account(1, 1, &[(1, 0, 1)], AccountStatus::Touched | AccountStatus::SelfDestructed),
    );
    let state = evm_state_to_hashed_post_state(update);
    let hashed_address = keccak256(address).0;
    assert_eq!(state.accounts[&hashed_address], None);
    assert!(state.storages[&hashed_address].wiped);
    assert!(state.storages[&hashed_address].storage.is_empty());
}

#[test]
fn a_storage_without_changed_slots_is_left_out() {
    let mut update = EvmState::default();
    update.insert(Address::repeat_byte(4), account(1, 1, &[(1, 6, 6)], AccountStatus::Touched));
    let state = evm_state_to_hashed_post_state(update);
    assert_eq!(state.accounts.len(), 1);
    assert!(state.storages.is_empty());
}

#[test]
fn code_is_kept_by_its_hash() {
    let mut update = EvmState::default();
    let mut with_code = account(0, 0, &[], AccountStatus::Touched);
    with_code.info.code_hash = keccak256([1, 2, 3]);
    update.insert(Address::repeat_byte(5), with_code);
    let state = evm_state_to_hashed_post_state(update);
    let stored = state.accounts[&keccak256(Address::repeat_byte(5)).0].unwrap();
    assert_eq!(stored.bytecode_hash, Some(keccak256([1, 2, 3]).0));
}

#[test]
fn every_account_of_the_state_is_read() {
    let mut update = EvmState::default();
    for n in 1..=20u8 {
        update.insert(
            Address::repeat_byte(n),
            account(n as u64, 0, &[(n as u64, 0, n as u64)], AccountStatus::Touched),
        );
    }
    let state = evm_state_to_hashed_post_state(update);
    assert_eq!(state.accounts.len(), 20);
    assert_eq!(state.storages.len(), 20);
    for n in 1..=20u8 {
        let hashed_address = keccak256(Address::repeat_byte(n)).0;
        assert_eq!(state.accounts[&hashed_address].unwrap().balance, word(n as u64));
        assert_eq!(
            state.storages[&hashed_address].storage[&hashed_slot(n as u64)],
            word(n as u64)
        );
    }
}

#[test]
fn the_hash_of_an_address_is_its_keccak_digest() {
    let account = EvmAccount {
        touched: true,
        selfdestructed: false,
        balance: word(1),
        nonce: 2,
        code_hash: KECCAK_EMPTY.0,
        storage: vec![],
    };
    let state = hash_evm_accounts(&vec![([0u8; 20], account)]);
    let digest = [
        0x53, 0x80, 0xc7, 0xb7, 0xae, 0x81, 0xa5, 0x8e, 0xb9, 0x8d, 0x9c, 0x78, 0xde, 0x4a, 0x1f,
        0xd7, 0xfd, 0x95, 0x35, 0xfc, 0x95, 0x3e, 0xd2, 0xbe, 0x60, 0x2d, 0xaa, 0xa4, 0x17, 0x67,
        0x31, 0x2a,
    ];
    assert!(state.accounts.contains_key(&digest));
}

#[test]
fn a_slot_is_changed_if_its_value_differs() {
    let unchanged = EvmStorageSlot { original_value: word(1), present_value: word(1) };
    let changed = EvmStorageSlot { original_value: word(1), present_value: word(2) };
    assert!(!unchanged.is_changed());
    assert!(changed.is_changed());
}
