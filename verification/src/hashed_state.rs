//! State changes keyed by the hashes of addresses and storage slots.

use vstd::prelude::*;

use crate::maps::{map_extend, BytesMap};
use crate::merge::{merge_map, merged_maps, views, Mergeable};
use crate::primitives::{B256, U256, ZERO_WORD};

verus! {

/// An account as the state trie stores it.
#[derive(Debug, Clone, Copy, PartialEq, Eq)]
pub struct Account {
    /// Account nonce.
    pub nonce: u64,
    /// Account balance.
    pub balance: U256,
    /// Hash of the account's bytecode; `None` for an account without code.
    pub bytecode_hash: Option<B256>,
}

impl Account {
    /// The account with no nonce, no balance and no code.
    pub open spec fn empty() -> Account {
        Account { nonce: 0, balance: U256 { be_bytes: ZERO_WORD }, bytecode_hash: None }
    }
}

impl Default for Account {
    fn default() -> (account: Account)
        ensures
            account == Account::empty(),
    {
        Account { nonce: 0, balance: U256::zero(), bytecode_hash: None }
    }
}

/// The changed storage of an account, keyed by hashed slot.
#[derive(Debug, Clone, PartialEq)]
pub struct HashedStorage {
    /// Whether the storage was wiped before the changes.
    pub wiped: bool,
    /// The new value of each changed slot.
    pub storage: BytesMap<32, U256>,
}

/// What a [`HashedStorage`] holds.
#[verifier::ext_equal]
pub ghost struct HashedStorageView {
    pub wiped: bool,
    pub storage: Map<B256, U256>,
}

impl View for HashedStorage {
    type V = HashedStorageView;

    open spec fn view(&self) -> HashedStorageView {
        HashedStorageView { wiped: self.wiped, storage: self.storage@ }
    }
}

impl HashedStorageView {
    /// This change followed by `next`: what was changed before a wipe is forgotten, and of two
    /// values of a slot the later one stays.
    pub open spec fn followed_by(self, next: HashedStorageView) -> HashedStorageView {
        HashedStorageView {
            wiped: self.wiped || next.wiped,
            storage: if next.wiped {
                next.storage
            } else {
                self.storage.union_prefer_right(next.storage)
            },
        }
    }

    /// The slots of a storage after this change, where a slot with value zero is absent.
    pub open spec fn applied_to(self, slots: Map<B256, U256>) -> Map<B256, U256> {
        let kept = if self.wiped {
            Map::empty()
        } else {
            slots
        };
        Map::new(
            |k: B256|
                if self.storage.contains_key(k) {
                    self.storage[k].value() != 0
                } else {
                    kept.contains_key(k)
                },
            |k: B256|
                if self.storage.contains_key(k) {
                    self.storage[k]
                } else {
                    kept[k]
                },
        )
    }
}

impl Default for HashedStorage {
    fn default() -> (storage: HashedStorage)
        ensures
            !storage.wiped,
            storage.storage@ == Map::<B256, U256>::empty(),
    {
        HashedStorage::new(false)
    }
}

impl HashedStorage {
    /// A storage without changed slots.
    pub fn new(wiped: bool) -> (storage: HashedStorage)
        ensures
            storage.wiped == wiped,
            storage.storage@ == Map::<B256, U256>::empty(),
    {
        HashedStorage { wiped, storage: Default::default() }
    }

    /// Takes in a later change of the same storage.
    pub fn extend(&mut self, other: HashedStorage)
        ensures
            final(self)@ == old(self)@.followed_by(other@),
    {
        if other.wiped {
            self.wiped = true;
            self.storage.clear();
        }
        map_extend(&mut self.storage, other.storage);
        assert(self@ =~= old(self)@.followed_by(other@));
    }
}

impl Mergeable for HashedStorage {
    open spec fn merged(first: HashedStorageView, second: HashedStorageView) -> HashedStorageView {
        first.followed_by(second)
    }

    fn merge(&mut self, other: Self) {
        self.extend(other);
    }
}

/// A storage change followed by another has the effect of the one and then the other.
pub proof fn storage_changes_take_effect_in_order(
    first: HashedStorageView,
    second: HashedStorageView,
    slots: Map<B256, U256>,
)
    ensures
        first.followed_by(second).applied_to(slots) == second.applied_to(first.applied_to(slots)),
{
    assert(first.followed_by(second).applied_to(slots) =~= second.applied_to(
        first.applied_to(slots),
    ));
}

/// Changed accounts and storages, keyed by hashed address.
#[derive(Debug, Clone, PartialEq)]
pub struct HashedPostState {
    /// The changed accounts; `None` for an account that was destroyed.
    pub accounts: BytesMap<32, Option<Account>>,
    /// The changed storages.
    pub storages: BytesMap<32, HashedStorage>,
}

/// What a [`HashedPostState`] holds.
#[verifier::ext_equal]
pub ghost struct HashedPostStateView {
    pub accounts: Map<B256, Option<Account>>,
    pub storages: Map<B256, HashedStorageView>,
}

impl View for HashedPostState {
    type V = HashedPostStateView;

    open spec fn view(&self) -> HashedPostStateView {
        HashedPostStateView { accounts: self.accounts@, storages: views(self.storages@) }
    }
}

impl HashedPostStateView {
    /// The state without changes.
    pub open spec fn empty() -> HashedPostStateView {
        HashedPostStateView { accounts: Map::empty(), storages: Map::empty() }
    }

    /// Whether nothing is changed.
    pub open spec fn is_empty(self) -> bool {
        self.accounts.dom() == Set::<B256>::empty() && self.storages.dom() == Set::<B256>::empty()
    }

    /// These changes followed by those of `next`.
    pub open spec fn followed_by(self, next: HashedPostStateView) -> HashedPostStateView {
        HashedPostStateView {
            accounts: self.accounts.union_prefer_right(next.accounts),
            storages: merged_maps::<B256, HashedStorage>(self.storages, next.storages),
        }
    }

    /// An account after these changes: the changed one, or else the one that it was.
    pub open spec fn account_after(self, address: B256, account: Option<Account>) -> Option<
        Account,
    > {
        if self.accounts.contains_key(address) {
            self.accounts[address]
        } else {
            account
        }
    }

    /// The storage slots of an account after these changes.
    pub open spec fn slots_after(self, address: B256, slots: Map<B256, U256>) -> Map<B256, U256> {
        if self.storages.contains_key(address) {
            self.storages[address].applied_to(slots)
        } else {
            slots
        }
    }
}

/// State changes followed by others have the effect of the ones and then the others, on every
/// account and on every storage.
pub proof fn state_changes_take_effect_in_order(
    first: HashedPostStateView,
    second: HashedPostStateView,
    address: B256,
    account: Option<Account>,
    slots: Map<B256, U256>,
)
    ensures
        first.followed_by(second).account_after(address, account) == second.account_after(
            address,
            first.account_after(address, account),
        ),
        first.followed_by(second).slots_after(address, slots) == second.slots_after(
            address,
            first.slots_after(address, slots),
        ),
{
    if first.storages.contains_key(address) && second.storages.contains_key(address) {
        storage_changes_take_effect_in_order(
            first.storages[address],
            second.storages[address],
            slots,
        );
    }
}

impl Default for HashedPostState {
    fn default() -> (state: HashedPostState)
        ensures
            state@ == HashedPostStateView::empty(),
    {
        let state = HashedPostState {
            accounts: Default::default(),
            storages: Default::default(),
        };
        assert(state@ =~= HashedPostStateView::empty());
        state
    }
}

impl HashedPostState {
    /// Returns true if there are no changes.
    pub fn is_empty(&self) -> (empty: bool)
        ensures
            empty == self@.is_empty(),
    {
        let empty = self.accounts.is_empty() && self.storages.is_empty();
        proof {
            assert(self@.storages.dom() =~= self.storages@.dom());
            assert(self.accounts@.is_empty() == (self.accounts@.dom() =~= Set::<B256>::empty()));
            assert(self.storages@.is_empty() == (self.storages@.dom() =~= Set::<B256>::empty()));
        }
        empty
    }

    /// Takes in the changes of a later state.
    pub fn extend(&mut self, other: HashedPostState)
        ensures
            final(self)@ == old(self)@.followed_by(other@),
    {
        map_extend(&mut self.accounts, other.accounts);
        merge_map(&mut self.storages, other.storages);
    }
}

} // verus!
