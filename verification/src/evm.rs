//! From the state that the EVM hands out to hashed state changes.

use vstd::prelude::*;

use alloy_primitives::Address as EvmAddress;
use revm_state::Account as RevmAccount;
use revm_state::EvmState;

use crate::hashed_state::{
    Account, HashedPostState, HashedPostStateView, HashedStorage, HashedStorageView,
};
use crate::maps::{enumerates, map_insert};
use crate::merge::views;
use crate::primitives::{keccak256, keccak256_of, same_bytes, Address, B256, KECCAK_EMPTY, U256};

verus! {

/// `alloy_primitives::Address`, the key of an EVM state.
#[verifier::external_type_specification]
#[verifier::external_body]
pub struct ExAddress(EvmAddress);

/// `revm_state::Account`, the value of an EVM state.
#[verifier::external_type_specification]
#[verifier::external_body]
pub struct ExAccount(RevmAccount);

/// `alloy_primitives::map::DefaultHashBuilder`, the hasher builder of an EVM state.
#[verifier::external_type_specification]
#[verifier::external_body]
pub struct ExDefaultHashBuilder(alloy_primitives::map::DefaultHashBuilder);

/// The value of a storage slot before and after execution.
#[derive(Debug, Clone, Copy, PartialEq, Eq)]
pub struct EvmStorageSlot {
    /// The value that the slot had.
    pub original_value: U256,
    /// The value that the slot has now.
    pub present_value: U256,
}

impl EvmStorageSlot {
    /// Returns true if the present value differs from the original value.
    pub fn is_changed(&self) -> (changed: bool)
        ensures
            changed == (self.original_value != self.present_value),
    {
        !same_bytes(&self.original_value.be_bytes, &self.present_value.be_bytes)
    }
}

/// What is read of an account that the EVM has worked on.
#[derive(Debug, Clone)]
pub struct EvmAccount {
    /// Whether the account was touched.
    pub touched: bool,
    /// Whether the account was marked for self destruction.
    pub selfdestructed: bool,
    /// Account balance.
    pub balance: U256,
    /// Account nonce.
    pub nonce: u64,
    /// Hash of the account's code.
    pub code_hash: B256,
    /// The accessed storage slots, each with its number as a big-endian word.
    pub storage: Vec<(B256, EvmStorageSlot)>,
}

/// What an [`EvmAccount`] holds, with its storage as a map.
#[verifier::ext_equal]
pub ghost struct EvmAccountView {
    pub touched: bool,
    pub selfdestructed: bool,
    pub balance: U256,
    pub nonce: u64,
    pub code_hash: B256,
    pub storage: Map<B256, EvmStorageSlot>,
}

/// `account` is one reading of `contents`: the same fields, and the storage slots listed each
/// once, in some order.
pub open spec fn reads_account(account: EvmAccount, contents: EvmAccountView) -> bool {
    &&& account.touched == contents.touched
    &&& account.selfdestructed == contents.selfdestructed
    &&& account.balance == contents.balance
    &&& account.nonce == contents.nonce
    &&& account.code_hash == contents.code_hash
    &&& enumerates(account.storage@, contents.storage)
}

/// `entries` is one reading of `contents`: every account listed once, in some order.
pub open spec fn reads_state(
    entries: Seq<(Address, EvmAccount)>,
    contents: Map<Address, EvmAccountView>,
) -> bool {
    &&& forall|i: int, j: int|
        0 <= i < j < entries.len() ==> (#[trigger] entries[i]).0 != (#[trigger] entries[j]).0
    &&& forall|i: int|
        0 <= i < entries.len() ==> contents.contains_key((#[trigger] entries[i]).0)
            && reads_account(entries[i].1, contents[entries[i].0])
    &&& forall|a: Address| #[trigger]
        contents.contains_key(a) ==> exists|i: int|
            0 <= i < entries.len() && (#[trigger] entries[i]).0 == a
}

/// The accounts that an EVM state holds, by the bytes of their addresses: of each account whether
/// `Account::is_touched` and `Account::is_selfdestructed` hold of it, its balance, nonce and code
/// hash, and its storage slots with their values, numbers as big-endian bytes.
pub uninterp spec fn evm_state_contents(state: EvmState) -> Map<Address, EvmAccountView>;

/// Calls `HashMap::into_iter` on an EVM state, and on the storage of each of its accounts, and
/// collects what is read of them: `Account::is_touched`, `Account::is_selfdestructed`, the
/// balance, the nonce, the code hash, and the slots with their values. Every account and every
/// slot comes once; the order is that of the hash tables and nothing is said of it.
#[verifier::external_body]
pub(crate) fn evm_state_entries(state: EvmState) -> (entries: Vec<(Address, EvmAccount)>)
    ensures
        reads_state(entries@, evm_state_contents(state)),
{
    let word = |v: alloy_primitives::U256| U256 { be_bytes: v.to_be_bytes() };
    let slot = |v: revm_state::EvmStorageSlot| EvmStorageSlot {
        original_value: word(v.original_value),
        present_value: word(v.present_value),
    };
    let read = |a: RevmAccount| EvmAccount {
        touched: a.is_touched(),
        selfdestructed: a.is_selfdestructed(),
        balance: word(a.info.balance),
        nonce: a.info.nonce,
        code_hash: a.info.code_hash.0,
        storage: a.storage.into_iter().map(|(k, v)| (k.to_be_bytes(), slot(v))).collect(),
    };
    state.into_iter().map(|(address, a)| (address.into_array(), read(a))).collect()
}

/// The account that the trie stores for `account`; the hash of the empty code stands for no code.
pub open spec fn trie_account(account: EvmAccount) -> Account {
    Account {
        nonce: account.nonce,
        balance: account.balance,
        bytecode_hash: if account.code_hash == KECCAK_EMPTY {
            None
        } else {
            Some(account.code_hash)
        },
    }
}

/// Whether execution left the slot with another value than it had.
pub open spec fn slot_changed(slot: EvmStorageSlot) -> bool {
    slot.original_value != slot.present_value
}

/// The present values of the changed slots, keyed by hashed slot; should two slots have one hash,
/// the later one stays.
pub open spec fn hashed_slots(slots: Seq<(B256, EvmStorageSlot)>) -> Map<B256, U256>
    decreases slots.len(),
{
    if slots.len() == 0 {
        Map::empty()
    } else {
        let earlier = hashed_slots(slots.drop_last());
        let (slot, value) = slots.last();
        if slot_changed(value) {
            earlier.insert(keccak256_of(slot@), value.present_value)
        } else {
            earlier
        }
    }
}

/// What becomes of the storage of a touched account: it is wiped if the account was destroyed,
/// and otherwise takes the changed slots, if there are any.
pub open spec fn storage_change(account: EvmAccount) -> Option<HashedStorageView> {
    if account.selfdestructed {
        Some(HashedStorageView { wiped: true, storage: Map::empty() })
    } else if exists|i: int|
        0 <= i < account.storage@.len() && slot_changed((#[trigger] account.storage@[i]).1) {
        Some(HashedStorageView { wiped: false, storage: hashed_slots(account.storage@) })
    } else {
        None
    }
}

/// The hashed changes of the touched accounts among `entries`; should two addresses have one
/// hash, the later one stays.
pub open spec fn hashed_entries(entries: Seq<(Address, EvmAccount)>) -> HashedPostStateView
    decreases entries.len(),
{
    if entries.len() == 0 {
        HashedPostStateView::empty()
    } else {
        let earlier = hashed_entries(entries.drop_last());
        let (address, account) = entries.last();
        if !account.touched {
            earlier
        } else {
            let hashed_address = keccak256_of(address@);
            HashedPostStateView {
                accounts: earlier.accounts.insert(
                    hashed_address,
                    if account.selfdestructed {
                        None
                    } else {
                        Some(trie_account(account))
                    },
                ),
                storages: match storage_change(account) {
                    Some(change) => earlier.storages.insert(hashed_address, change),
                    None => earlier.storages,
                },
            }
        }
    }
}

impl EvmAccount {
    /// The account that the trie stores for this one.
    pub fn to_trie_account(&self) -> (account: Account)
        ensures
            account == trie_account(*self),
    {
        let has_code = !same_bytes(&self.code_hash, &KECCAK_EMPTY);
        Account {
            nonce: self.nonce,
            balance: self.balance,
            bytecode_hash: if has_code {
                Some(self.code_hash)
            } else {
                None
            },
        }
    }

    /// What becomes of the storage of this account, if anything does.
    pub fn to_hashed_storage(&self) -> (change: Option<HashedStorage>)
        ensures
            match change {
                Some(storage) => storage_change(*self) == Some(storage@),
                None => storage_change(*self) is None,
            },
    {
        if self.selfdestructed {
            let storage = HashedStorage::new(true);
            assert(storage@ =~= HashedStorageView { wiped: true, storage: Map::empty() });
            return Some(storage);
        }
        let mut hashed = HashedStorage::new(false);
        let mut any_changed = false;
        let mut i: usize = 0;
        while i < self.storage.len()
            invariant
                i <= self.storage@.len(),
                !hashed.wiped,
                hashed.storage@ == hashed_slots(self.storage@.take(i as int)),
                any_changed <==> exists|j: int|
                    0 <= j < i && slot_changed((#[trigger] self.storage@[j]).1),
            decreases self.storage@.len() - i,
        {
            let ghost taken = self.storage@.take(i + 1);
            assert(taken.drop_last() =~= self.storage@.take(i as int));
            assert(taken.last() == self.storage@[i as int]);
            let slot = self.storage[i].0;
            let value = self.storage[i].1;
            if value.is_changed() {
                any_changed = true;
                assert(slot_changed(self.storage@[i as int].1));
                map_insert(&mut hashed.storage, keccak256(&slot), value.present_value);
            }
            i = i + 1;
        }
        assert(self.storage@.take(i as int) =~= self.storage@);
        if any_changed {
            Some(hashed)
        } else {
            None
        }
    }
}

/// Hashes the changes of the touched accounts among `entries`.
pub fn hash_evm_accounts(entries: &Vec<(Address, EvmAccount)>) -> (state: HashedPostState)
    ensures
        state@ == hashed_entries(entries@),
{
    let mut state = HashedPostState::default();
    let mut i: usize = 0;
    while i < entries.len()
        invariant
            i <= entries@.len(),
            state@ == hashed_entries(entries@.take(i as int)),
        decreases entries@.len() - i,
    {
        let ghost taken = entries@.take(i + 1);
        let ghost before = state@;
        let ghost storages_before = state.storages@;
        assert(taken.drop_last() =~= entries@.take(i as int));
        assert(taken.last() == entries@[i as int]);
        let account = &entries[i].1;
        if account.touched {
            let hashed_address = keccak256(&entries[i].0);
            let info = if account.selfdestructed {
                None
            } else {
                Some(account.to_trie_account())
            };
            map_insert(&mut state.accounts, hashed_address, info);
            match account.to_hashed_storage() {
                Some(storage) => {
                    let ghost change = storage@;
                    map_insert(&mut state.storages, hashed_address, storage);
                    assert(views(state.storages@) =~= views(storages_before).insert(
                        hashed_address,
                        change,
                    ));
                },
                None => {},
            }
        }
        assert(state@ =~= hashed_entries(taken));
        i = i + 1;
    }
    assert(entries@.take(i as int) =~= entries@);
    state
}

/// Turns the state that the EVM hands out into hashed state changes: of every touched account the
/// new account, or `None` if it was destroyed, and of its storage the changed slots, or a wipe.
///
/// The accounts are taken in the order in which the hash table of `update` is walked, which
/// matters only where two addresses, or two slots of an account, have one hash.
pub fn evm_state_to_hashed_post_state(update: EvmState) -> (state: HashedPostState)
    ensures
        exists|entries: Seq<(Address, EvmAccount)>| #[trigger]
            reads_state(entries, evm_state_contents(update)) && state@ == hashed_entries(entries),
{
    let entries = evm_state_entries(update);
    hash_evm_accounts(&entries)
}

/// No two changed slots of the storage have one hash.
pub open spec fn slots_hash_apart(storage: Map<B256, EvmStorageSlot>) -> bool {
    forall|s: B256, t: B256|
        #![trigger keccak256_of(s@), keccak256_of(t@)]
        storage.contains_key(s) && storage.contains_key(t) && storage[s].original_value
            != storage[s].present_value && storage[t].original_value != storage[t].present_value
            && keccak256_of(s@) == keccak256_of(t@) ==> s == t
}

/// No two touched addresses have one hash.
pub open spec fn addresses_hash_apart(contents: Map<Address, EvmAccountView>) -> bool {
    forall|a: Address, b: Address|
        #![trigger keccak256_of(a@), keccak256_of(b@)]
        contents.contains_key(a) && contents.contains_key(b) && contents[a].touched
            && contents[b].touched && keccak256_of(a@) == keccak256_of(b@) ==> a == b
}

proof fn lemma_hashed_slots(slots: Seq<(B256, EvmStorageSlot)>)
    requires
        forall|i: int, j: int|
            0 <= i < j < slots.len() && slot_changed((#[trigger] slots[i]).1) && slot_changed(
                (#[trigger] slots[j]).1,
            ) ==> keccak256_of(slots[i].0@) != keccak256_of(slots[j].0@),
    ensures
        forall|i: int|
            0 <= i < slots.len() && slot_changed((#[trigger] slots[i]).1) ==> hashed_slots(
                slots,
            ).contains_key(keccak256_of(slots[i].0@)) && hashed_slots(slots)[keccak256_of(
                slots[i].0@,
            )] == slots[i].1.present_value,
        forall|h: B256| #[trigger]
            hashed_slots(slots).contains_key(h) ==> exists|i: int|
                0 <= i < slots.len() && slot_changed((#[trigger] slots[i]).1) && keccak256_of(
                    slots[i].0@,
                ) == h,
    decreases slots.len(),
{
    if slots.len() > 0 {
        let init = slots.drop_last();
        let n = slots.len() - 1;
        assert forall|i: int, j: int|
            0 <= i < j < init.len() && slot_changed((#[trigger] init[i]).1) && slot_changed(
                (#[trigger] init[j]).1,
            ) implies keccak256_of(init[i].0@) != keccak256_of(init[j].0@) by {
            assert(init[i] == slots[i] && init[j] == slots[j]);
        }
        lemma_hashed_slots(init);
        assert forall|i: int| 0 <= i < slots.len() && slot_changed((#[trigger] slots[i]).1) implies
            hashed_slots(slots).contains_key(keccak256_of(slots[i].0@)) && hashed_slots(
            slots,
        )[keccak256_of(slots[i].0@)] == slots[i].1.present_value by {
            if i < n {
                assert(init[i] == slots[i]);
                if slot_changed(slots[n].1) {
                    assert(keccak256_of(slots[i].0@) != keccak256_of(slots[n].0@));
                }
            }
        }
        assert forall|h: B256| #[trigger] hashed_slots(slots).contains_key(h) implies exists|i: int|
            0 <= i < slots.len() && slot_changed((#[trigger] slots[i]).1) && keccak256_of(
                slots[i].0@,
            ) == h by {
            if hashed_slots(init).contains_key(h) {
                let i = choose|i: int|
                    0 <= i < init.len() && slot_changed((#[trigger] init[i]).1) && keccak256_of(
                        init[i].0@,
                    ) == h;
                assert(init[i] == slots[i]);
            } else {
                assert(slot_changed(slots[n].1));
                assert(keccak256_of(slots[n].0@) == h);
            }
        }
    }
}

proof fn lemma_hashed_entries(entries: Seq<(Address, EvmAccount)>)
    requires
        forall|i: int, j: int|
            0 <= i < j < entries.len() && (#[trigger] entries[i]).1.touched && (
            #[trigger] entries[j]).1.touched ==> keccak256_of(entries[i].0@) != keccak256_of(
                entries[j].0@,
            ),
    ensures
        forall|i: int|
            0 <= i < entries.len() && (#[trigger] entries[i]).1.touched ==> {
                let h = keccak256_of(entries[i].0@);
                let account = entries[i].1;
                let state = hashed_entries(entries);
                &&& state.accounts.contains_key(h)
                &&& state.accounts[h] == (if account.selfdestructed {
                    None
                } else {
                    Some(trie_account(account))
                })
                &&& match storage_change(account) {
                    Some(change) => state.storages.contains_key(h) && state.storages[h] == change,
                    None => !state.storages.contains_key(h),
                }
            },
        forall|h: B256|
            #![trigger hashed_entries(entries).accounts.contains_key(h)]
            #![trigger hashed_entries(entries).storages.contains_key(h)]
            hashed_entries(entries).accounts.contains_key(h) || hashed_entries(
                entries,
            ).storages.contains_key(h) ==> exists|i: int|
                0 <= i < entries.len() && (#[trigger] entries[i]).1.touched && keccak256_of(
                    entries[i].0@,
                ) == h,
    decreases entries.len(),
{
    if entries.len() > 0 {
        let init = entries.drop_last();
        let n = entries.len() - 1;
        let state = hashed_entries(entries);
        let earlier = hashed_entries(init);
        assert forall|i: int, j: int|
            0 <= i < j < init.len() && (#[trigger] init[i]).1.touched && (
            #[trigger] init[j]).1.touched implies keccak256_of(init[i].0@) != keccak256_of(
            init[j].0@,
        ) by {
            assert(init[i] == entries[i] && init[j] == entries[j]);
        }
        lemma_hashed_entries(init);
        assert forall|i: int| 0 <= i < n && (#[trigger] entries[i]).1.touched implies ({
            let h = keccak256_of(entries[i].0@);
            &&& state.accounts.contains_key(h)
            &&& state.accounts[h] == earlier.accounts[h]
            &&& state.storages.contains_key(h) == earlier.storages.contains_key(h)
            &&& state.storages.contains_key(h) ==> state.storages[h] == earlier.storages[h]
        }) by {
            assert(init[i] == entries[i]);
            if entries[n].1.touched {
                assert(keccak256_of(entries[i].0@) != keccak256_of(entries[n].0@));
            }
        }
        if entries[n].1.touched && storage_change(entries[n].1) is None {
            let h = keccak256_of(entries[n].0@);
            if earlier.storages.contains_key(h) {
                let i = choose|i: int|
                    0 <= i < init.len() && (#[trigger] init[i]).1.touched && keccak256_of(
                        init[i].0@,
                    ) == h;
                assert(init[i] == entries[i]);
                assert(keccak256_of(entries[i].0@) != keccak256_of(entries[n].0@));
            }
        }
        assert forall|i: int| 0 <= i < entries.len() && (#[trigger] entries[i]).1.touched implies ({
            let h = keccak256_of(entries[i].0@);
            let account = entries[i].1;
            &&& state.accounts.contains_key(h)
            &&& state.accounts[h] == (if account.selfdestructed {
                None
            } else {
                Some(trie_account(account))
            })
            &&& match storage_change(account) {
                Some(change) => state.storages.contains_key(h) && state.storages[h] == change,
                None => !state.storages.contains_key(h),
            }
        }) by {
            if i < n {
                assert(init[i] == entries[i]);
            }
        }
        assert forall|h: B256|
            state.accounts.contains_key(h) || state.storages.contains_key(h) implies exists|i: int|
            0 <= i < entries.len() && (#[trigger] entries[i]).1.touched && keccak256_of(
                entries[i].0@,
            ) == h by {
            if earlier.accounts.contains_key(h) || earlier.storages.contains_key(h) {
                let i = choose|i: int|
                    0 <= i < init.len() && (#[trigger] init[i]).1.touched && keccak256_of(
                        init[i].0@,
                    ) == h;
                assert(init[i] == entries[i]);
            } else {
                assert(entries[n].1.touched && keccak256_of(entries[n].0@) == h);
            }
        }
    }
}

/// However the state is read, the hashed changes are those of its touched accounts: as long as
/// hashes do not collide, every touched account is there under its hash, with `None` exactly if
/// it was destroyed; a destroyed account's storage is wiped and holds nothing; any other's holds
/// the changed slots under their hashes, with their present values, and is there only if there
/// are any; and nothing else is there.
pub proof fn hashed_changes_are_those_of_the_touched_accounts(
    entries: Seq<(Address, EvmAccount)>,
    contents: Map<Address, EvmAccountView>,
)
    requires
        reads_state(entries, contents),
        addresses_hash_apart(contents),
        forall|a: Address| #[trigger]
            contents.contains_key(a) ==> slots_hash_apart(contents[a].storage),
    ensures
        forall|h: B256| #[trigger]
            hashed_entries(entries).accounts.contains_key(h) <==> exists|a: Address|
                contents.contains_key(a) && (#[trigger] contents[a]).touched && keccak256_of(a@) == h,
        forall|h: B256| #[trigger]
            hashed_entries(entries).storages.contains_key(h) ==> hashed_entries(
                entries,
            ).accounts.contains_key(h),
        forall|a: Address| #[trigger]
            contents.contains_key(a) && contents[a].touched ==> {
                let account = contents[a];
                let state = hashed_entries(entries);
                let h = keccak256_of(a@);
                &&& state.accounts[h] == (if account.selfdestructed {
                    None
                } else {
                    Some(
                        Account {
                            nonce: account.nonce,
                            balance: account.balance,
                            bytecode_hash: if account.code_hash == KECCAK_EMPTY {
                                None
                            } else {
                                Some(account.code_hash)
                            },
                        },
                    )
                })
                &&& account.selfdestructed ==> state.storages.contains_key(h)
                    && state.storages[h].wiped && state.storages[h].storage == Map::<
                    B256,
                    U256,
                >::empty()
                &&& !account.selfdestructed ==> (state.storages.contains_key(h) <==> exists|s: B256|
                    #[trigger]
                    account.storage.contains_key(s) && account.storage[s].original_value
                        != account.storage[s].present_value)
                &&& !account.selfdestructed && state.storages.contains_key(h) ==> {
                    &&& !state.storages[h].wiped
                    &&& forall|s: B256| #[trigger]
                        account.storage.contains_key(s) && account.storage[s].original_value
                            != account.storage[s].present_value
                            ==> state.storages[h].storage.contains_key(keccak256_of(s@))
                            && state.storages[h].storage[keccak256_of(s@)]
                            == account.storage[s].present_value
                    &&& forall|k: B256| #[trigger]
                        state.storages[h].storage.contains_key(k) ==> exists|s: B256| #[trigger]
                            account.storage.contains_key(s) && account.storage[s].original_value
                                != account.storage[s].present_value && keccak256_of(s@) == k
                }
            },
{
    let state = hashed_entries(entries);
    assert forall|i: int, j: int|
        0 <= i < j < entries.len() && (#[trigger] entries[i]).1.touched && (
        #[trigger] entries[j]).1.touched implies keccak256_of(entries[i].0@) != keccak256_of(
        entries[j].0@,
    ) by {
        assert(contents.contains_key(entries[i].0) && contents.contains_key(entries[j].0));
        assert(entries[i].0 != entries[j].0);
    }
    lemma_hashed_entries(entries);
    assert forall|h: B256| #[trigger] state.accounts.contains_key(h) implies exists|a: Address|
        contents.contains_key(a) && (#[trigger] contents[a]).touched && keccak256_of(a@) == h by {
        let i = choose|i: int|
            0 <= i < entries.len() && (#[trigger] entries[i]).1.touched && keccak256_of(
                entries[i].0@,
            ) == h;
        assert(contents.contains_key(entries[i].0) && contents[entries[i].0].touched);
    }
    assert forall|a: Address| #[trigger] contents.contains_key(a) && contents[a].touched implies ({
        let account = contents[a];
        let h = keccak256_of(a@);
        &&& state.accounts.contains_key(h)
        &&& exists|i: int| 0 <= i < entries.len() && (#[trigger] entries[i]).0 == a
    }) by {
        let i = choose|i: int| 0 <= i < entries.len() && (#[trigger] entries[i]).0 == a;
        assert(entries[i].1.touched);
    }
    assert forall|h: B256| #[trigger] state.storages.contains_key(h) implies state.accounts.contains_key(
        h,
    ) by {
        let i = choose|i: int|
            0 <= i < entries.len() && (#[trigger] entries[i]).1.touched && keccak256_of(
                entries[i].0@,
            ) == h;
        assert(state.accounts.contains_key(keccak256_of(entries[i].0@)));
    }
    assert forall|a: Address| #[trigger]
        contents.contains_key(a) && contents[a].touched && !contents[a].selfdestructed implies ({
        let account = contents[a];
        let h = keccak256_of(a@);
        &&& (state.storages.contains_key(h) <==> exists|s: B256| #[trigger]
            account.storage.contains_key(s) && slot_changed(account.storage[s]))
        &&& state.storages.contains_key(h) ==> {
            &&& !state.storages[h].wiped
            &&& forall|s: B256| #[trigger]
                account.storage.contains_key(s) && slot_changed(account.storage[s])
                    ==> state.storages[h].storage.contains_key(keccak256_of(s@))
                    && state.storages[h].storage[keccak256_of(s@)]
                    == account.storage[s].present_value
            &&& forall|k: B256| #[trigger]
                state.storages[h].storage.contains_key(k) ==> exists|s: B256| #[trigger]
                    account.storage.contains_key(s) && slot_changed(account.storage[s])
                        && keccak256_of(s@) == k
        }
    }) by {
        let i = choose|i: int| 0 <= i < entries.len() && (#[trigger] entries[i]).0 == a;
        let read = entries[i].1;
        let slots = read.storage@;
        let account = contents[a];
        assert(reads_account(read, account));
        if exists|s: B256| #[trigger]
            account.storage.contains_key(s) && slot_changed(account.storage[s]) {
            let s = choose|s: B256| #[trigger]
                account.storage.contains_key(s) && slot_changed(account.storage[s]);
            let j = choose|j: int| 0 <= j < slots.len() && (#[trigger] slots[j]).0 == s;
            assert(slot_changed(slots[j].1));
        }
        if exists|j: int| 0 <= j < slots.len() && slot_changed((#[trigger] slots[j]).1) {
            let j = choose|j: int| 0 <= j < slots.len() && slot_changed((#[trigger] slots[j]).1);
            assert(account.storage.contains_key(slots[j].0));
        }
        assert forall|j: int, k: int|
            0 <= j < k < slots.len() && slot_changed((#[trigger] slots[j]).1) && slot_changed(
                (#[trigger] slots[k]).1,
            ) implies keccak256_of(slots[j].0@) != keccak256_of(slots[k].0@) by {
            assert(account.storage.contains_key(slots[j].0) && account.storage.contains_key(
                slots[k].0,
            ));
        }
        lemma_hashed_slots(slots);
        assert forall|s: B256| #[trigger]
            account.storage.contains_key(s) && slot_changed(account.storage[s]) implies hashed_slots(
            slots,
        ).contains_key(keccak256_of(s@)) && hashed_slots(slots)[keccak256_of(s@)]
            == account.storage[s].present_value by {
            let j = choose|j: int| 0 <= j < slots.len() && (#[trigger] slots[j]).0 == s;
            assert(slot_changed(slots[j].1));
        }
        assert forall|k: B256| #[trigger] hashed_slots(slots).contains_key(k) implies exists|
            s: B256,
        | #[trigger]
            account.storage.contains_key(s) && slot_changed(account.storage[s]) && keccak256_of(s@)
                == k by {
            let j = choose|j: int|
                0 <= j < slots.len() && slot_changed((#[trigger] slots[j]).1) && keccak256_of(
                    slots[j].0@,
                ) == k;
            assert(account.storage.contains_key(slots[j].0));
        }
    }
    assert forall|a: Address| #[trigger]
        contents.contains_key(a) && contents[a].touched && contents[a].selfdestructed implies ({
        let h = keccak256_of(a@);
        &&& state.storages.contains_key(h)
        &&& state.storages[h] == HashedStorageView { wiped: true, storage: Map::empty() }
    }) by {
        let i = choose|i: int| 0 <= i < entries.len() && (#[trigger] entries[i]).0 == a;
        assert(entries[i].1.touched);
    }
    assert forall|a: Address| #[trigger] contents.contains_key(a) && contents[a].touched implies (
    state.accounts[keccak256_of(a@)] == (if contents[a].selfdestructed {
        None
    } else {
        Some(
            Account {
                nonce: contents[a].nonce,
                balance: contents[a].balance,
                bytecode_hash: if contents[a].code_hash == KECCAK_EMPTY {
                    None
                } else {
                    Some(contents[a].code_hash)
                },
            },
        )
    })) by {
        let i = choose|i: int| 0 <= i < entries.len() && (#[trigger] entries[i]).0 == a;
        assert(entries[i].1.touched);
    }
}

/// What becomes of the storage of an account follows from the two values of each of its slots: a
/// destroyed account's storage is wiped and holds nothing; any other's changes exactly if some slot
/// has another value than it had, is not wiped, and holds under the hashes of exactly those slots
/// their present values, where of slots with one hash the last one counts.
pub proof fn storage_changes_are_those_of_the_changed_slots(account: EvmAccount)
    ensures
        account.selfdestructed ==> storage_change(account) == Some(
            HashedStorageView { wiped: true, storage: Map::empty() },
        ),
        !account.selfdestructed ==> (storage_change(account) is Some <==> exists|i: int|
            0 <= i < account.storage@.len() && (#[trigger] account.storage@[i]).1.original_value
                != account.storage@[i].1.present_value),
        !account.selfdestructed && storage_change(account) is Some ==> {
            let change = storage_change(account)->0;
            &&& !change.wiped
            &&& forall|h: B256| #[trigger]
                change.storage.contains_key(h) <==> exists|i: int|
                    0 <= i < account.storage@.len() && (
                    #[trigger] account.storage@[i]).1.original_value
                        != account.storage@[i].1.present_value && keccak256_of(
                        account.storage@[i].0@,
                    ) == h
            &&& forall|i: int|
                0 <= i < account.storage@.len() && (#[trigger] account.storage@[i]).1.original_value
                    != account.storage@[i].1.present_value && (forall|j: int|
                    i < j < account.storage@.len() && (
                    #[trigger] account.storage@[j]).1.original_value
                        != account.storage@[j].1.present_value ==> keccak256_of(
                        account.storage@[j].0@,
                    ) != keccak256_of(account.storage@[i].0@))
                    ==> change.storage[keccak256_of(account.storage@[i].0@)]
                    == account.storage@[i].1.present_value
        },
{
    lemma_hashed_slots_of(account.storage@);
    if !account.selfdestructed {
        if exists|i: int|
            0 <= i < account.storage@.len() && (#[trigger] account.storage@[i]).1.original_value
                != account.storage@[i].1.present_value {
            let i = choose|i: int|
                0 <= i < account.storage@.len() && (#[trigger] account.storage@[i]).1.original_value
                    != account.storage@[i].1.present_value;
            assert(slot_changed(account.storage@[i].1));
        }
    }
}

proof fn lemma_hashed_slots_of(slots: Seq<(B256, EvmStorageSlot)>)
    ensures
        forall|h: B256| #[trigger]
            hashed_slots(slots).contains_key(h) <==> exists|i: int|
                0 <= i < slots.len() && (#[trigger] slots[i]).1.original_value
                    != slots[i].1.present_value && keccak256_of(slots[i].0@) == h,
        forall|i: int|
            0 <= i < slots.len() && (#[trigger] slots[i]).1.original_value
                != slots[i].1.present_value && (forall|j: int|
                i < j < slots.len() && (#[trigger] slots[j]).1.original_value
                    != slots[j].1.present_value ==> keccak256_of(slots[j].0@) != keccak256_of(
                    slots[i].0@,
                )) ==> hashed_slots(slots)[keccak256_of(slots[i].0@)] == slots[i].1.present_value,
    decreases slots.len(),
{
    if slots.len() > 0 {
        let init = slots.drop_last();
        let n = slots.len() - 1;
        lemma_hashed_slots_of(init);
        assert forall|h: B256| #[trigger]
            hashed_slots(slots).contains_key(h) <==> exists|i: int|
                0 <= i < slots.len() && (#[trigger] slots[i]).1.original_value
                    != slots[i].1.present_value && keccak256_of(slots[i].0@) == h by {
            if hashed_slots(init).contains_key(h) {
                let i = choose|i: int|
                    0 <= i < init.len() && (#[trigger] init[i]).1.original_value
                        != init[i].1.present_value && keccak256_of(init[i].0@) == h;
                assert(slots[i] == init[i]);
            }
            if hashed_slots(slots).contains_key(h) && !hashed_slots(init).contains_key(h) {
                assert(slots[n].1.original_value != slots[n].1.present_value);
            }
            if exists|i: int|
                0 <= i < slots.len() && (#[trigger] slots[i]).1.original_value
                    != slots[i].1.present_value && keccak256_of(slots[i].0@) == h {
                let i = choose|i: int|
                    0 <= i < slots.len() && (#[trigger] slots[i]).1.original_value
                        != slots[i].1.present_value && keccak256_of(slots[i].0@) == h;
                if i < n {
                    assert(init[i] == slots[i]);
                    assert(hashed_slots(init).contains_key(h));
                }
            }
        }
        assert forall|i: int|
            0 <= i < slots.len() && (#[trigger] slots[i]).1.original_value
                != slots[i].1.present_value && (forall|j: int|
                i < j < slots.len() && (#[trigger] slots[j]).1.original_value
                    != slots[j].1.present_value ==> keccak256_of(slots[j].0@) != keccak256_of(
                    slots[i].0@,
                )) implies hashed_slots(slots)[keccak256_of(slots[i].0@)]
            == slots[i].1.present_value by {
            if i < n {
                assert(init[i] == slots[i]);
                assert forall|j: int|
                    i < j < init.len() && (#[trigger] init[j]).1.original_value
                        != init[j].1.present_value implies keccak256_of(init[j].0@)
                    != keccak256_of(init[i].0@) by {
                    assert(slots[j] == init[j]);
                }
                if slots[n].1.original_value != slots[n].1.present_value {
                    assert(keccak256_of(slots[n].0@) != keccak256_of(slots[i].0@));
                }
            }
        }
    }
}

/// The hashed changes hold every touched account and no other, and a storage for each touched
/// account whose storage changes; where addresses have one hash, the last one counts.
pub proof fn hashed_changes_hold_every_touched_account(entries: Seq<(Address, EvmAccount)>)
    ensures
        forall|h: B256| #[trigger]
            hashed_entries(entries).accounts.contains_key(h) <==> exists|i: int|
                0 <= i < entries.len() && (#[trigger] entries[i]).1.touched && keccak256_of(
                    entries[i].0@,
                ) == h,
        forall|h: B256| #[trigger]
            hashed_entries(entries).storages.contains_key(h) <==> exists|i: int|
                0 <= i < entries.len() && (#[trigger] entries[i]).1.touched && keccak256_of(
                    entries[i].0@,
                ) == h && storage_change(entries[i].1) is Some,
        forall|i: int|
            0 <= i < entries.len() && (#[trigger] entries[i]).1.touched && (forall|j: int|
                i < j < entries.len() && (#[trigger] entries[j]).1.touched ==> keccak256_of(
                    entries[j].0@,
                ) != keccak256_of(entries[i].0@)) ==> hashed_entries(
                entries,
            ).accounts[keccak256_of(entries[i].0@)] == (if entries[i].1.selfdestructed {
                None
            } else {
                Some(
                    Account {
                        nonce: entries[i].1.nonce,
                        balance: entries[i].1.balance,
                        bytecode_hash: if entries[i].1.code_hash == KECCAK_EMPTY {
                            None
                        } else {
                            Some(entries[i].1.code_hash)
                        },
                    },
                )
            }),
        forall|i: int|
            0 <= i < entries.len() && (#[trigger] entries[i]).1.touched && storage_change(
                entries[i].1,
            ) is Some && (forall|j: int|
                i < j < entries.len() && (#[trigger] entries[j]).1.touched && storage_change(
                    entries[j].1,
                ) is Some ==> keccak256_of(entries[j].0@) != keccak256_of(entries[i].0@))
                ==> Some(hashed_entries(entries).storages[keccak256_of(entries[i].0@)])
                == storage_change(entries[i].1),
    decreases entries.len(),
{
    if entries.len() > 0 {
        let init = entries.drop_last();
        let n = entries.len() - 1;
        hashed_changes_hold_every_touched_account(init);
        let state = hashed_entries(entries);
        let before = hashed_entries(init);
        assert forall|h: B256| #[trigger] state.accounts.contains_key(h) <==> exists|i: int|
            0 <= i < entries.len() && (#[trigger] entries[i]).1.touched && keccak256_of(
                entries[i].0@,
            ) == h by {
            if before.accounts.contains_key(h) {
                let i = choose|i: int|
                    0 <= i < init.len() && (#[trigger] init[i]).1.touched && keccak256_of(
                        init[i].0@,
                    ) == h;
                assert(entries[i] == init[i]);
            }
            if state.accounts.contains_key(h) && !before.accounts.contains_key(h) {
                assert(entries[n].1.touched);
            }
            if exists|i: int|
                0 <= i < entries.len() && (#[trigger] entries[i]).1.touched && keccak256_of(
                    entries[i].0@,
                ) == h {
                let i = choose|i: int|
                    0 <= i < entries.len() && (#[trigger] entries[i]).1.touched && keccak256_of(
                        entries[i].0@,
                    ) == h;
                if i < n {
                    assert(init[i] == entries[i]);
                    assert(before.accounts.contains_key(h));
                }
            }
        }
        assert forall|h: B256| #[trigger] state.storages.contains_key(h) <==> exists|i: int|
            0 <= i < entries.len() && (#[trigger] entries[i]).1.touched && keccak256_of(
                entries[i].0@,
            ) == h && storage_change(entries[i].1) is Some by {
            if before.storages.contains_key(h) {
                let i = choose|i: int|
                    0 <= i < init.len() && (#[trigger] init[i]).1.touched && keccak256_of(
                        init[i].0@,
                    ) == h && storage_change(init[i].1) is Some;
                assert(entries[i] == init[i]);
            }
            if state.storages.contains_key(h) && !before.storages.contains_key(h) {
                assert(entries[n].1.touched);
            }
            if exists|i: int|
                0 <= i < entries.len() && (#[trigger] entries[i]).1.touched && keccak256_of(
                    entries[i].0@,
                ) == h && storage_change(entries[i].1) is Some {
                let i = choose|i: int|
                    0 <= i < entries.len() && (#[trigger] entries[i]).1.touched && keccak256_of(
                        entries[i].0@,
                    ) == h && storage_change(entries[i].1) is Some;
                if i < n {
                    assert(init[i] == entries[i]);
                    assert(before.storages.contains_key(h));
                }
            }
        }
        assert forall|i: int|
            0 <= i < n && (#[trigger] entries[i]).1.touched && (forall|j: int|
                i < j < entries.len() && (#[trigger] entries[j]).1.touched ==> keccak256_of(
                    entries[j].0@,
                ) != keccak256_of(entries[i].0@)) implies state.accounts[keccak256_of(
            entries[i].0@,
        )] == before.accounts[keccak256_of(init[i].0@)] && (forall|j: int|
            i < j < init.len() && (#[trigger] init[j]).1.touched ==> keccak256_of(init[j].0@)
                != keccak256_of(init[i].0@)) by {
            assert(init[i] == entries[i]);
            assert(entries[n].1.touched ==> keccak256_of(entries[n].0@) != keccak256_of(
                entries[i].0@,
            ));
            assert forall|j: int| i < j < init.len() && (#[trigger] init[j]).1.touched implies
                keccak256_of(init[j].0@) != keccak256_of(init[i].0@) by {
                assert(entries[j] == init[j]);
            }
        }
        assert forall|i: int|
            0 <= i < n && (#[trigger] entries[i]).1.touched && storage_change(
                entries[i].1,
            ) is Some && (forall|j: int|
                i < j < entries.len() && (#[trigger] entries[j]).1.touched && storage_change(
                    entries[j].1,
                ) is Some ==> keccak256_of(entries[j].0@) != keccak256_of(entries[i].0@)) implies
            state.storages[keccak256_of(entries[i].0@)] == before.storages[keccak256_of(
            init[i].0@,
        )] && (forall|j: int|
            i < j < init.len() && (#[trigger] init[j]).1.touched && storage_change(
                init[j].1,
            ) is Some ==> keccak256_of(init[j].0@) != keccak256_of(init[i].0@)) by {
            assert(init[i] == entries[i]);
            assert(entries[n].1.touched && storage_change(entries[n].1) is Some ==> keccak256_of(
                entries[n].0@,
            ) != keccak256_of(entries[i].0@));
            assert forall|j: int|
                i < j < init.len() && (#[trigger] init[j]).1.touched && storage_change(
                    init[j].1,
                ) is Some implies keccak256_of(init[j].0@) != keccak256_of(init[i].0@) by {
                assert(entries[j] == init[j]);
            }
        }
        assert forall|i: int| 0 <= i < n implies #[trigger] entries[i] == init[i] by {}
    }
}

} // verus!
