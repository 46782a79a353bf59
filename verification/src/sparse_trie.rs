//! What an update of the sparse trie consists of.

use vstd::prelude::*;

use crate::hashed_state::{Account, HashedStorage, HashedStorageView};
use crate::maps::{enumerates, map_into_entries};
use crate::message::{root_error, ParallelStateRootError, StateRootMessage};
use crate::multiproof::MultiProof;
use crate::primitives::{
    be_value_zero, nibbles_identify_the_hash, nibbles_of, rlp_encode_u256, rlp_of_u256,
    unpack_nibbles, B256, U256,
};
use crate::update::{
    account_after_all, combined, slots_after_all, update_views, updates_combine_in_any_batches,
    SparseTrieUpdate, SparseTrieUpdateView,
};

verus! {

/// The level below which the sparse trie hashes are calculated after each update.
pub const SPARSE_TRIE_INCREMENTAL_LEVEL: usize = 2;

/// What is to be done to a leaf of a storage trie.
#[derive(Debug)]
pub enum LeafOp {
    /// The leaf is to be removed.
    Remove {
        /// The nibbles of the leaf's path.
        path: Vec<u8>,
    },
    /// The leaf is to be inserted or changed.
    Update {
        /// The nibbles of the leaf's path.
        path: Vec<u8>,
        /// The RLP encoding of the new value.
        value: Vec<u8>,
    },
}

impl LeafOp {
    /// The operation gives the slot the value: the leaf is at the nibbles of the slot; for zero it
    /// goes, for any other value it holds its RLP encoding.
    pub open spec fn sets(self, slot: B256, value: U256) -> bool {
        match self {
            LeafOp::Remove { path } => value.value() == 0 && path@ == nibbles_of(slot@),
            LeafOp::Update { path, value: leaf } => {
                &&& value.value() != 0
                &&& path@ == nibbles_of(slot@)
                &&& leaf@ == rlp_of_u256(value)
            },
        }
    }

    /// The leaves, by path, after this operation.
    pub open spec fn applied_to(self, leaves: Map<Seq<u8>, Seq<u8>>) -> Map<Seq<u8>, Seq<u8>> {
        match self {
            LeafOp::Remove { path } => leaves.remove(path@),
            LeafOp::Update { path, value } => leaves.insert(path@, value@),
        }
    }

    /// The operation that gives the slot the value.
    pub fn new(slot: &B256, value: &U256) -> (op: LeafOp)
        ensures
            op.sets(*slot, *value),
    {
        let path = unpack_nibbles(slot);
        if value.is_zero() {
            LeafOp::Remove { path }
        } else {
            LeafOp::Update { path, value: rlp_encode_u256(value) }
        }
    }
}

/// What is to be done to a storage trie.
#[derive(Debug)]
pub struct StorageTrieOps {
    /// Whether all leaves are to be removed first.
    pub wipe: bool,
    /// What is to be done to the leaves.
    pub leaves: Vec<LeafOp>,
}

/// The leaves after the operations, one after the other.
pub open spec fn leaves_after(ops: Seq<LeafOp>, leaves: Map<Seq<u8>, Seq<u8>>) -> Map<
    Seq<u8>,
    Seq<u8>,
>
    decreases ops.len(),
{
    if ops.len() == 0 {
        leaves
    } else {
        ops.last().applied_to(leaves_after(ops.drop_last(), leaves))
    }
}

impl StorageTrieOps {
    /// The operations carry out the change: each changed slot gets its value once, in some order.
    pub open spec fn carry_out(self, change: HashedStorageView) -> bool {
        &&& self.wipe == change.wiped
        &&& exists|entries: Seq<(B256, U256)>| #[trigger]
            enumerates(entries, change.storage) && ops_set(self.leaves@, entries)
    }

    /// The leaves after the operations.
    pub open spec fn applied_to(self, leaves: Map<Seq<u8>, Seq<u8>>) -> Map<Seq<u8>, Seq<u8>> {
        leaves_after(
            self.leaves@,
            if self.wipe {
                Map::empty()
            } else {
                leaves
            },
        )
    }
}

/// The operations give the slots the values of `entries`, in their order.
pub open spec fn ops_set(ops: Seq<LeafOp>, entries: Seq<(B256, U256)>) -> bool {
    &&& ops.len() == entries.len()
    &&& forall|i: int|
        0 <= i < ops.len() ==> (#[trigger] ops[i]).sets(entries[i].0, entries[i].1)
}

/// What is to be done to the trie of a storage that is changed.
pub fn storage_trie_ops(storage: HashedStorage) -> (ops: StorageTrieOps)
    ensures
        ops.carry_out(storage@),
{
    let wipe = storage.wiped;
    let entries = map_into_entries(storage.storage);
    let mut leaves: Vec<LeafOp> = Vec::new();
    let mut i: usize = 0;
    while i < entries.len()
        invariant
            i <= entries.len(),
            leaves@.len() == i,
            forall|j: int|
                0 <= j < i ==> (#[trigger] leaves@[j]).sets(entries@[j].0, entries@[j].1),
        decreases entries.len() - i,
    {
        let (slot, value) = entries[i];
        leaves.push(LeafOp::new(&slot, &value));
        i = i + 1;
    }
    assert(enumerates(entries@, storage@.storage));
    assert(ops_set(leaves@, entries@));
    StorageTrieOps { wipe, leaves }
}

/// The trie of a storage with the given slots: a leaf for each slot, at the nibbles of the slot,
/// with the RLP encoding of the value.
pub open spec fn is_trie_of(leaves: Map<Seq<u8>, Seq<u8>>, slots: Map<B256, U256>) -> bool {
    &&& forall|slot: B256| #[trigger]
        slots.contains_key(slot) <==> leaves.contains_key(nibbles_of(slot@))
    &&& forall|slot: B256| #[trigger]
        slots.contains_key(slot) ==> leaves[nibbles_of(slot@)] == rlp_of_u256(slots[slot])
    &&& forall|path: Seq<u8>| #[trigger]
        leaves.contains_key(path) ==> exists|slot: B256| #[trigger] nibbles_of(slot@) == path
}

/// The slots after those of `entries` have been given their values, where a slot with value zero is
/// absent.
pub open spec fn slots_set(entries: Seq<(B256, U256)>, slots: Map<B256, U256>) -> Map<B256, U256>
    decreases entries.len(),
{
    if entries.len() == 0 {
        slots
    } else {
        let (slot, value) = entries.last();
        let earlier = slots_set(entries.drop_last(), slots);
        if value.value() == 0 {
            earlier.remove(slot)
        } else {
            earlier.insert(slot, value)
        }
    }
}

proof fn lemma_ops_set(
    ops: Seq<LeafOp>,
    entries: Seq<(B256, U256)>,
    leaves: Map<Seq<u8>, Seq<u8>>,
    slots: Map<B256, U256>,
)
    requires
        ops_set(ops, entries),
        is_trie_of(leaves, slots),
    ensures
        is_trie_of(leaves_after(ops, leaves), slots_set(entries, slots)),
    decreases ops.len(),
{
    if ops.len() > 0 {
        let n = ops.len() - 1;
        let (slot, value) = entries.last();
        assert(ops_set(ops.drop_last(), entries.drop_last())) by {
            assert forall|i: int| 0 <= i < n implies (#[trigger] ops.drop_last()[i]).sets(
                entries.drop_last()[i].0,
                entries.drop_last()[i].1,
            ) by {
                assert(ops[i].sets(entries[i].0, entries[i].1));
            }
        }
        lemma_ops_set(ops.drop_last(), entries.drop_last(), leaves, slots);
        assert(ops[n].sets(slot, value));
        let before = leaves_after(ops.drop_last(), leaves);
        let earlier = slots_set(entries.drop_last(), slots);
        let after = leaves_after(ops, leaves);
        let later = slots_set(entries, slots);
        assert forall|k: B256|
            {
                &&& #[trigger] later.contains_key(k) <==> after.contains_key(nibbles_of(k@))
                &&& later.contains_key(k) ==> after[nibbles_of(k@)] == rlp_of_u256(later[k])
            } by {
            nibbles_identify_the_hash(k, slot);
            assert(earlier.contains_key(k) <==> before.contains_key(nibbles_of(k@)));
        }
        assert forall|path: Seq<u8>| #[trigger] after.contains_key(path) implies exists|k: B256|
            #[trigger] nibbles_of(k@) == path by {
            if path == nibbles_of(slot@) {
            } else {
                assert(before.contains_key(path));
            }
        }
    }
}

proof fn lemma_slots_set(entries: Seq<(B256, U256)>, slots: Map<B256, U256>, n: int)
    requires
        0 <= n <= entries.len(),
        forall|i: int, j: int|
            0 <= i < j < entries.len() ==> (#[trigger] entries[i]).0 != (#[trigger] entries[j]).0,
    ensures
        forall|k: B256|
            (forall|i: int| 0 <= i < n ==> (#[trigger] entries[i]).0 != k) ==> {
                &&& #[trigger] slots_set(entries.take(n), slots).contains_key(k)
                    <==> slots.contains_key(k)
                &&& slots_set(entries.take(n), slots)[k] == slots[k]
            },
        forall|i: int|
            0 <= i < n ==> {
                &&& slots_set(entries.take(n), slots).contains_key((#[trigger] entries[i]).0)
                    <==> entries[i].1.value() != 0
                &&& entries[i].1.value() != 0 ==> slots_set(entries.take(n), slots)[entries[i].0]
                    == entries[i].1
            },
    decreases n,
{
    if n > 0 {
        lemma_slots_set(entries, slots, n - 1);
        assert(entries.take(n).drop_last() =~= entries.take(n - 1));
        assert(entries.take(n).last() == entries[n - 1]);
        let after = slots_set(entries.take(n), slots);
        let before = slots_set(entries.take(n - 1), slots);
        assert forall|k: B256|
            (forall|i: int| 0 <= i < n ==> (#[trigger] entries[i]).0 != k) implies {
            &&& #[trigger] after.contains_key(k) <==> slots.contains_key(k)
            &&& after[k] == slots[k]
        } by {
            assert(entries[n - 1].0 != k);
            assert(before.contains_key(k) <==> slots.contains_key(k));
        }
    }
}

/// Carrying out a storage change on the trie of the storage gives the trie of the changed storage,
/// in whatever order the slots are changed.
pub proof fn operations_carry_the_trie_over(
    ops: StorageTrieOps,
    change: HashedStorageView,
    leaves: Map<Seq<u8>, Seq<u8>>,
    slots: Map<B256, U256>,
)
    requires
        ops.carry_out(change),
        is_trie_of(leaves, slots),
    ensures
        is_trie_of(ops.applied_to(leaves), change.applied_to(slots)),
{
    let entries = choose|entries: Seq<(B256, U256)>| #[trigger]
        enumerates(entries, change.storage) && ops_set(ops.leaves@, entries);
    let kept_slots = if change.wiped {
        Map::empty()
    } else {
        slots
    };
    let kept_leaves = if ops.wipe {
        Map::empty()
    } else {
        leaves
    };
    lemma_ops_set(ops.leaves@, entries, kept_leaves, kept_slots);
    lemma_slots_set(entries, kept_slots, entries.len() as int);
    assert(entries.take(entries.len() as int) =~= entries);
    let after = slots_set(entries, kept_slots);
    assert forall|k: B256|
        {
            &&& #[trigger] after.contains_key(k) <==> change.applied_to(slots).contains_key(k)
            &&& after.contains_key(k) ==> after[k] == change.applied_to(slots)[k]
        } by {
        if change.storage.contains_key(k) {
            let i = choose|i: int| 0 <= i < entries.len() && (#[trigger] entries[i]).0 == k;
            assert(entries[i].0 == k);
        } else {
            assert forall|i: int| 0 <= i < entries.len() implies (#[trigger] entries[i]).0 != k by {
            }
        }
    }
    assert(after =~= change.applied_to(slots));
}

/// What is to be done to the sparse trie.
#[derive(Debug)]
pub struct SparseTrieOps {
    /// The proof that is to be revealed first.
    pub multiproof: MultiProof,
    /// What is to be done to the storage tries, by hashed address.
    pub storages: Vec<(B256, StorageTrieOps)>,
    /// The new accounts, by hashed address.
    pub accounts: Vec<(B256, Account)>,
}

/// The account, or the empty one in place of one that does not exist.
pub open spec fn account_or_empty(account: Option<Account>) -> Account {
    match account {
        Some(a) => a,
        None => Account::empty(),
    }
}

/// The operations carry out the storage changes of `changes`, in their order.
pub open spec fn storage_ops_carry_out(
    ops: Seq<(B256, StorageTrieOps)>,
    changes: Seq<(B256, HashedStorage)>,
) -> bool {
    &&& ops.len() == changes.len()
    &&& forall|i: int|
        0 <= i < ops.len() ==> {
            &&& (#[trigger] ops[i]).0 == changes[i].0
            &&& ops[i].1.carry_out(changes[i].1@)
        }
}

/// The accounts are those of `changes`, in their order, with the empty account in place of a
/// destroyed one.
pub open spec fn account_ops_carry_out(
    ops: Seq<(B256, Account)>,
    changes: Seq<(B256, Option<Account>)>,
) -> bool {
    &&& ops.len() == changes.len()
    &&& forall|i: int|
        0 <= i < ops.len() ==> #[trigger] ops[i] == (changes[i].0, account_or_empty(changes[i].1))
}

impl SparseTrieOps {
    /// The operations carry out the update: the proof is revealed, and each changed storage and
    /// each changed account is changed once, in some order.
    pub open spec fn carry_out(self, update: SparseTrieUpdate) -> bool {
        &&& self.multiproof == update.multiproof
        &&& exists|changes: Seq<(B256, HashedStorage)>| #[trigger]
            enumerates(changes, update.state.storages@) && storage_ops_carry_out(
                self.storages@,
                changes,
            )
        &&& exists|changes: Seq<(B256, Option<Account>)>| #[trigger]
            enumerates(changes, update.state.accounts@) && account_ops_carry_out(
                self.accounts@,
                changes,
            )
    }

    /// The leaves of the storage trie of an account after the operations.
    pub open spec fn leaves_after(self, address: B256, leaves: Map<Seq<u8>, Seq<u8>>) -> Map<
        Seq<u8>,
        Seq<u8>,
    > {
        if exists|i: int| 0 <= i < self.storages@.len() && (#[trigger] self.storages@[i]).0
            == address {
            let i = choose|i: int|
                0 <= i < self.storages@.len() && (#[trigger] self.storages@[i]).0 == address;
            self.storages@[i].1.applied_to(leaves)
        } else {
            leaves
        }
    }

    /// An account after the operations.
    pub open spec fn account_after(self, address: B256, account: Account) -> Account {
        if exists|i: int| 0 <= i < self.accounts@.len() && (#[trigger] self.accounts@[i]).0
            == address {
            let i = choose|i: int|
                0 <= i < self.accounts@.len() && (#[trigger] self.accounts@[i]).0 == address;
            self.accounts@[i].1
        } else {
            account
        }
    }
}

/// What is to be done to the tries of all storages that are changed.
fn storages_ops(changes: Vec<(B256, HashedStorage)>) -> (ops: Vec<(B256, StorageTrieOps)>)
    ensures
        storage_ops_carry_out(ops@, changes@),
{
    let ghost all = changes@;
    let mut ops: Vec<(B256, StorageTrieOps)> = Vec::new();
    for change in it: changes
        invariant
            it.seq() == all,
            ops@.len() == it.index(),
            forall|i: int|
                0 <= i < ops@.len() ==> {
                    &&& (#[trigger] ops@[i]).0 == all[i].0
                    &&& ops@[i].1.carry_out(all[i].1@)
                },
    {
        let (address, storage) = change;
        ops.push((address, storage_trie_ops(storage)));
    }
    ops
}

/// The new accounts, with the empty account in place of a destroyed one.
fn accounts_ops(changes: Vec<(B256, Option<Account>)>) -> (ops: Vec<(B256, Account)>)
    ensures
        account_ops_carry_out(ops@, changes@),
{
    let ghost all = changes@;
    let mut ops: Vec<(B256, Account)> = Vec::new();
    for change in it: changes
        invariant
            it.seq() == all,
            ops@.len() == it.index(),
            forall|i: int|
                0 <= i < ops@.len() ==> #[trigger] ops@[i] == (
                    all[i].0,
                    account_or_empty(all[i].1),
                ),
    {
        let (address, account) = change;
        let account = match account {
            Some(account) => account,
            None => Account::default(),
        };
        ops.push((address, account));
    }
    ops
}

/// What is to be done to the sparse trie for an update.
pub fn sparse_trie_ops(update: SparseTrieUpdate) -> (ops: SparseTrieOps)
    ensures
        ops.carry_out(update),
{
    let SparseTrieUpdate { state, multiproof } = update;
    let storage_changes = map_into_entries(state.storages);
    let account_changes = map_into_entries(state.accounts);
    let storages = storages_ops(storage_changes);
    let accounts = accounts_ops(account_changes);
    assert(enumerates(storage_changes@, update.state.storages@));
    assert(enumerates(account_changes@, update.state.accounts@));
    SparseTrieOps { multiproof, storages, accounts }
}

/// A step of updating the sparse trie.
#[derive(Debug)]
pub enum SparseTrieStep {
    /// The proof is to be revealed.
    Reveal(MultiProof),
    /// The storage trie of an account is to be taken out, changed, hashed and put back.
    UpdateStorage(B256, StorageTrieOps),
    /// An account is to be written.
    UpdateAccount(B256, Account),
    /// The hashes below the level are to be calculated.
    CalculateBelowLevel(usize),
}

/// The steps of the operations: the proof is revealed, the storages are changed, then the accounts
/// are written, and last the hashes are calculated.
pub open spec fn steps_of(ops: SparseTrieOps) -> Seq<SparseTrieStep> {
    seq![SparseTrieStep::Reveal(ops.multiproof)] + Seq::new(
        ops.storages@.len(),
        |i: int| SparseTrieStep::UpdateStorage(ops.storages@[i].0, ops.storages@[i].1),
    ) + Seq::new(
        ops.accounts@.len(),
        |i: int| SparseTrieStep::UpdateAccount(ops.accounts@[i].0, ops.accounts@[i].1),
    ) + seq![SparseTrieStep::CalculateBelowLevel(SPARSE_TRIE_INCREMENTAL_LEVEL)]
}

/// The steps are in the order in which the trie has to be updated: the first one, and no other,
/// reveals the proof, every storage is changed before any account is written, and the last one, and
/// no other, calculates hashes, below [`SPARSE_TRIE_INCREMENTAL_LEVEL`].
pub open spec fn steps_in_order(steps: Seq<SparseTrieStep>, multiproof: MultiProof) -> bool {
    &&& steps.len() >= 2
    &&& steps[0] == SparseTrieStep::Reveal(multiproof)
    &&& steps.last() == SparseTrieStep::CalculateBelowLevel(SPARSE_TRIE_INCREMENTAL_LEVEL)
    &&& forall|i: int|
        0 < i < steps.len() - 1 ==> {
            ||| (#[trigger] steps[i]) is UpdateStorage
            ||| steps[i] is UpdateAccount
        }
    &&& forall|i: int, j: int|
        0 <= i < steps.len() && 0 <= j < steps.len() && (#[trigger] steps[i]) is UpdateStorage && (
        #[trigger] steps[j]) is UpdateAccount ==> i < j
}

impl SparseTrieOps {
    /// The steps that the operations consist of.
    pub fn into_steps(self) -> (steps: Vec<SparseTrieStep>)
        ensures
            steps@ == steps_of(self),
            steps_in_order(steps@, self.multiproof),
    {
        let ghost storages = self.storages@;
        let ghost accounts = self.accounts@;
        let ghost all = steps_of(self);
        let mut steps: Vec<SparseTrieStep> = Vec::new();
        steps.push(SparseTrieStep::Reveal(self.multiproof));
        for change in it: self.storages
            invariant
                it.seq() == storages,
                all == steps_of(self),
                storages == self.storages@,
                steps@ == all.take(1 + it.index()),
        {
            let ghost n = it.index();
            let (address, ops) = change;
            steps.push(SparseTrieStep::UpdateStorage(address, ops));
            assert(all[1 + n] == SparseTrieStep::UpdateStorage(storages[n].0, storages[n].1));
            assert(all.take(2 + n) =~= all.take(1 + n).push(all[1 + n]));
        }
        for change in it: self.accounts
            invariant
                it.seq() == accounts,
                all == steps_of(self),
                storages == self.storages@,
                accounts == self.accounts@,
                steps@ == all.take(1 + storages.len() + it.index()),
        {
            let ghost n = it.index();
            let ghost k = 1 + storages.len() + n;
            let (address, account) = change;
            steps.push(SparseTrieStep::UpdateAccount(address, account));
            assert(all[k] == SparseTrieStep::UpdateAccount(accounts[n].0, accounts[n].1));
            assert(all.take(k + 1) =~= all.take(k).push(all[k]));
        }
        steps.push(SparseTrieStep::CalculateBelowLevel(SPARSE_TRIE_INCREMENTAL_LEVEL));
        assert(steps@ =~= all);
        steps
    }
}

/// The steps of updating the sparse trie, in order.
pub fn sparse_trie_steps(update: SparseTrieUpdate) -> (steps: Vec<SparseTrieStep>)
    ensures
        steps_in_order(steps@, update.multiproof),
        exists|ops: SparseTrieOps| #[trigger] ops.carry_out(update) && steps@ == steps_of(ops),
        forall|address: B256, account: Account|
            match update@.state.account_after(address, Some(account)) {
                Some(a) => #[trigger] account_after_steps(steps@, address, account) == a,
                None => stands_for(account_after_steps(steps@, address, account), None),
            },
        forall|address: B256, leaves: Map<Seq<u8>, Seq<u8>>, slots: Map<B256, U256>|
            #![trigger leaves_after_steps(steps@, address, leaves), is_trie_of(leaves, slots)]
            is_trie_of(leaves, slots) ==> is_trie_of(
                leaves_after_steps(steps@, address, leaves),
                update@.state.slots_after(address, slots),
            ),
{
    let ops = sparse_trie_ops(update);
    let steps = ops.into_steps();
    proof {
        assert forall|address: B256, account: Account| match update@.state.account_after(
            address,
            Some(account),
        ) {
            Some(a) => #[trigger] account_after_steps(steps@, address, account) == a,
            None => stands_for(account_after_steps(steps@, address, account), None),
        } by {
            let none = Map::<Seq<u8>, Seq<u8>>::empty();
            steps_carry_the_state_over(steps@, update, address, account, none, Map::empty());
        }
        assert forall|address: B256, leaves: Map<Seq<u8>, Seq<u8>>, slots: Map<B256, U256>|
            #![trigger leaves_after_steps(steps@, address, leaves), is_trie_of(leaves, slots)]
            is_trie_of(leaves, slots) implies is_trie_of(
            leaves_after_steps(steps@, address, leaves),
            update@.state.slots_after(address, slots),
        ) by {
            steps_carry_the_state_over(
                steps@,
                update,
                address,
                Account::empty(),
                leaves,
                slots,
            );
        }
    }
    steps
}

/// The account that the trie holds stands for the account: it is the account itself, or, where
/// there is none, an account without nonce, balance and code.
pub open spec fn stands_for(held: Account, account: Option<Account>) -> bool {
    match account {
        Some(a) => {
            &&& held.nonce == a.nonce
            &&& held.balance == a.balance
            &&& held.bytecode_hash == a.bytecode_hash
        },
        None => {
            &&& held.nonce == 0
            &&& held.balance.value() == 0
            &&& held.bytecode_hash is None
        },
    }
}

proof fn lemma_empty_account_has_no_balance()
    ensures
        Account::empty().balance.value() == 0,
{
    be_value_zero(Account::empty().balance.be_bytes@);
}

/// Carrying out an update changes every account and every storage as the state update says: the
/// trie of each storage becomes the trie of the changed storage, and each account becomes the
/// changed account, where the empty account stands for one that does not exist.
pub proof fn operations_carry_the_state_over(
    ops: SparseTrieOps,
    update: SparseTrieUpdate,
    address: B256,
    account: Option<Account>,
    leaves: Map<Seq<u8>, Seq<u8>>,
    slots: Map<B256, U256>,
)
    requires
        ops.carry_out(update),
        is_trie_of(leaves, slots),
    ensures
        ops.account_after(address, account_or_empty(account)) == account_or_empty(
            update@.state.account_after(address, account),
        ),
        stands_for(
            ops.account_after(address, account_or_empty(account)),
            update@.state.account_after(address, account),
        ),
        is_trie_of(
            ops.leaves_after(address, leaves),
            update@.state.slots_after(address, slots),
        ),
{
    lemma_empty_account_has_no_balance();
    let storages = choose|changes: Seq<(B256, HashedStorage)>| #[trigger]
        enumerates(changes, update.state.storages@) && storage_ops_carry_out(
            ops.storages@,
            changes,
        );
    let accounts = choose|changes: Seq<(B256, Option<Account>)>| #[trigger]
        enumerates(changes, update.state.accounts@) && account_ops_carry_out(
            ops.accounts@,
            changes,
        );
    if update.state.accounts@.contains_key(address) {
        let i = choose|i: int| 0 <= i < accounts.len() && (#[trigger] accounts[i]).0 == address;
        assert(ops.accounts@[i].0 == address);
        let j = choose|j: int|
            0 <= j < ops.accounts@.len() && (#[trigger] ops.accounts@[j]).0 == address;
        assert(accounts[j].0 == address);
        if i < j {
            assert(accounts[i].0 != accounts[j].0);
        }
        if j < i {
            assert(accounts[j].0 != accounts[i].0);
        }
    } else {
        assert forall|i: int| 0 <= i < ops.accounts@.len() implies (
        #[trigger] ops.accounts@[i]).0 != address by {
            assert(update.state.accounts@.contains_key(accounts[i].0));
        }
    }
    if update.state.storages@.contains_key(address) {
        let i = choose|i: int| 0 <= i < storages.len() && (#[trigger] storages[i]).0 == address;
        assert(ops.storages@[i].0 == address);
        let j = choose|j: int|
            0 <= j < ops.storages@.len() && (#[trigger] ops.storages@[j]).0 == address;
        assert(storages[j].0 == address);
        if i < j {
            assert(storages[i].0 != storages[j].0);
        }
        if j < i {
            assert(storages[j].0 != storages[i].0);
        }
        operations_carry_the_trie_over(ops.storages@[j].1, storages[j].1@, leaves, slots);
    } else {
        assert forall|i: int| 0 <= i < ops.storages@.len() implies (
        #[trigger] ops.storages@[i]).0 != address by {
            assert(update.state.storages@.contains_key(storages[i].0));
        }
    }
}

/// The leaves of the storage trie of an account after the operations, one after the other.
pub open spec fn leaves_after_all(
    ops: Seq<SparseTrieOps>,
    address: B256,
    leaves: Map<Seq<u8>, Seq<u8>>,
) -> Map<Seq<u8>, Seq<u8>>
    decreases ops.len(),
{
    if ops.len() == 0 {
        leaves
    } else {
        ops.last().leaves_after(address, leaves_after_all(ops.drop_last(), address, leaves))
    }
}

/// An account after the operations, one after the other.
pub open spec fn trie_account_after_all(
    ops: Seq<SparseTrieOps>,
    address: B256,
    account: Account,
) -> Account
    decreases ops.len(),
{
    if ops.len() == 0 {
        account
    } else {
        ops.last().account_after(address, trie_account_after_all(ops.drop_last(), address, account))
    }
}

/// Carrying out updates one after the other leaves every account and every storage trie as all of
/// their state updates, one after the other, say.
pub proof fn operations_carry_a_row_of_updates_over(
    ops: Seq<SparseTrieOps>,
    updates: Seq<SparseTrieUpdate>,
    address: B256,
    account: Option<Account>,
    leaves: Map<Seq<u8>, Seq<u8>>,
    slots: Map<B256, U256>,
)
    requires
        ops.len() == updates.len(),
        forall|i: int| 0 <= i < ops.len() ==> (#[trigger] ops[i]).carry_out(updates[i]),
        is_trie_of(leaves, slots),
    ensures
        trie_account_after_all(ops, address, account_or_empty(account)) == account_or_empty(
            account_after_all(update_views(updates), address, account),
        ),
        stands_for(
            trie_account_after_all(ops, address, account_or_empty(account)),
            account_after_all(update_views(updates), address, account),
        ),
        is_trie_of(
            leaves_after_all(ops, address, leaves),
            slots_after_all(update_views(updates), address, slots),
        ),
    decreases ops.len(),
{
    lemma_empty_account_has_no_balance();
    if ops.len() > 0 {
        let n = ops.len() - 1;
        let earlier = ops.drop_last();
        let done = updates.drop_last();
        assert forall|i: int| 0 <= i < n implies (#[trigger] earlier[i]).carry_out(done[i]) by {
            assert(ops[i].carry_out(updates[i]));
        }
        operations_carry_a_row_of_updates_over(earlier, done, address, account, leaves, slots);
        assert(update_views(updates).drop_last() =~= update_views(done));
        assert(ops[n].carry_out(updates[n]));
        operations_carry_the_state_over(
            ops[n],
            updates[n],
            address,
            account_after_all(update_views(done), address, account),
            leaves_after_all(earlier, address, leaves),
            slots_after_all(update_views(done), address, slots),
        );
    }
}

/// What the sparse trie task has to do next.
#[derive(Debug)]
pub enum SparseTrieTaskStep {
    /// The sparse trie is to be updated.
    Update(SparseTrieUpdate),
    /// No more updates will come: the state root is to be calculated.
    CalculateRoot,
}

/// How far the updating of the sparse trie has come.
#[derive(Debug)]
pub struct SparseTrieProgress {
    /// How many times the sparse trie was updated.
    pub num_iterations: u64,
}

impl SparseTrieProgress {
    /// Nothing has been updated yet.
    pub fn new() -> (progress: SparseTrieProgress)
        ensures
            progress.num_iterations == 0,
    {
        SparseTrieProgress { num_iterations: 0 }
    }

    /// Puts together the update that has come in and those that came in behind it, in their order,
    /// and counts one more iteration.
    pub fn next_update(
        &mut self,
        first: SparseTrieUpdate,
        behind: Vec<SparseTrieUpdate>,
    ) -> (update: SparseTrieUpdate)
        requires
            old(self).num_iterations < u64::MAX,
        ensures
            final(self).num_iterations == old(self).num_iterations + 1,
            update@ == combined(seq![first@] + update_views(behind@)),
    {
        self.num_iterations = self.num_iterations + 1;
        let ghost all = behind@;
        let mut update = first;
        for next in it: behind
            invariant
                it.seq() == all,
                update@ == combined(seq![first@] + update_views(all.take(it.index()))),
        {
            proof {
                let n = it.index();
                let longer = seq![first@] + update_views(all.take(n + 1));
                assert(longer.drop_last() =~= seq![first@] + update_views(all.take(n)));
                assert(longer.last() == next@);
            }
            update.extend(next);
        }
        assert(all.take(all.len() as int) =~= all);
        update
    }

    /// Says what to do about an update that was received together with those that came in behind
    /// it, or about the channel of the updates having been closed.
    pub fn on_received(
        &mut self,
        received: Option<(SparseTrieUpdate, Vec<SparseTrieUpdate>)>,
    ) -> (step: SparseTrieTaskStep)
        requires
            received is Some ==> old(self).num_iterations < u64::MAX,
        ensures
            received_handled(*old(self), received, *final(self), step),
    {
        match received {
            Some((first, behind)) => SparseTrieTaskStep::Update(self.next_update(first, behind)),
            None => SparseTrieTaskStep::CalculateRoot,
        }
    }

    /// Says how the task ends once the state root has been calculated: with the message that is to
    /// be sent, or, where the calculation failed, with the error and no message.
    pub fn on_root<Source, Updates>(&self, result: Result<(B256, Updates), String>) -> (end: Result<
        StateRootMessage<Source, Updates>,
        ParallelStateRootError,
    >)
        ensures
            root_reported(*self, result, end),
            match result {
                Ok((state_root, trie_updates)) => end == Ok::<_, ParallelStateRootError>(
                    StateRootMessage::<Source, Updates>::RootCalculated {
                        state_root,
                        trie_updates,
                        iterations: self.num_iterations,
                    },
                ),
                Err(detail) => end matches Err(ParallelStateRootError::Other(text)) && text@
                    == "could not calculate state root: "@ + detail@,
            },
    {
        match result {
            Ok((state_root, trie_updates)) => Ok(self.root_message(state_root, trie_updates)),
            Err(detail) => Err(root_error(&detail)),
        }
    }

    /// The message with the state root that was calculated once no more updates came.
    pub fn root_message<Source, Updates>(
        &self,
        state_root: B256,
        trie_updates: Updates,
    ) -> (message: StateRootMessage<Source, Updates>)
        ensures
            message == (StateRootMessage::<Source, Updates>::RootCalculated {
                state_root,
                trie_updates,
                iterations: self.num_iterations,
            }),
    {
        StateRootMessage::RootCalculated {
            state_root,
            trie_updates,
            iterations: self.num_iterations,
        }
    }
}

/// How the task ends once the state root has been calculated: with the root, its trie updates and
/// the number of iterations, or with the error.
pub open spec fn root_reported<Source, Updates>(
    progress: SparseTrieProgress,
    result: Result<(B256, Updates), String>,
    end: Result<StateRootMessage<Source, Updates>, ParallelStateRootError>,
) -> bool {
    match result {
        Ok((state_root, trie_updates)) => end == Ok::<_, ParallelStateRootError>(
            StateRootMessage::<Source, Updates>::RootCalculated {
                state_root,
                trie_updates,
                iterations: progress.num_iterations,
            },
        ),
        Err(detail) => end matches Err(ParallelStateRootError::Other(text)) && text@
            == "could not calculate state root: "@ + detail@,
    }
}

/// How what was received is handled: updates are put together in their order, and one more
/// iteration is counted; once the channel is closed, the root is calculated.
pub open spec fn received_handled(
    before: SparseTrieProgress,
    received: Option<(SparseTrieUpdate, Vec<SparseTrieUpdate>)>,
    after: SparseTrieProgress,
    step: SparseTrieTaskStep,
) -> bool {
    match received {
        Some((first, behind)) => {
            &&& after.num_iterations == before.num_iterations + 1
            &&& step matches SparseTrieTaskStep::Update(update) && update@ == combined(
                seq![first@] + update_views(behind@),
            )
        },
        None => {
            &&& after == before
            &&& step == SparseTrieTaskStep::CalculateRoot
        },
    }
}

/// How an update of the sparse trie that is over is answered: the task goes on, or ends with the
/// error.
pub open spec fn update_answered(
    result: Result<(), String>,
    goes_on: Result<(), ParallelStateRootError>,
) -> bool {
    match result {
        Ok(()) => goes_on is Ok,
        Err(detail) => goes_on matches Err(ParallelStateRootError::Other(text)) && text@
            == "could not calculate state root: "@ + detail@,
    }
}

/// Says whether the sparse trie task goes on after an update of the sparse trie: it does, unless
/// the update failed; then the task ends with the error and sends no state root.
pub fn on_updated(result: Result<(), String>) -> (goes_on: Result<(), ParallelStateRootError>)
    ensures
        update_answered(result, goes_on),
        match result {
            Ok(()) => goes_on is Ok,
            Err(detail) => goes_on matches Err(ParallelStateRootError::Other(text)) && text@
                == "could not calculate state root: "@ + detail@,
        },
{
    match result {
        Ok(()) => Ok(()),
        Err(detail) => Err(root_error(&detail)),
    }
}

/// The message about a sparse trie task that failed; none if it went well.
pub open spec fn failure_of<Source, Updates>(result: Result<(), String>) -> Option<
    StateRootMessage<Source, Updates>,
> {
    match result {
        Ok(()) => None,
        Err(error) => Some(StateRootMessage::RootCalculationError(error)),
    }
}

/// What is sent in place of a state root once the sparse trie task is over: nothing if it went
/// well, and otherwise the error, described in words.
pub fn failure_message<Source, Updates>(result: Result<(), String>) -> (message: Option<
    StateRootMessage<Source, Updates>,
>)
    ensures
        message == failure_of::<Source, Updates>(result),
        message == (match result {
            Ok(()) => None,
            Err(error) => Some(StateRootMessage::<Source, Updates>::RootCalculationError(error)),
        }),
{
    match result {
        Ok(()) => None,
        Err(error) => Some(StateRootMessage::RootCalculationError(error)),
    }
}

/// A round of the sparse trie task: what was received, and what was made of it.
pub ghost struct SparseTrieRound {
    /// How far the task had come.
    pub before: SparseTrieProgress,
    /// The update that was received.
    pub first: SparseTrieUpdate,
    /// The updates that came in behind it.
    pub behind: Vec<SparseTrieUpdate>,
    /// How far the task has come.
    pub after: SparseTrieProgress,
    /// The update of the sparse trie.
    pub update: SparseTrieUpdate,
}

/// The rounds came one after the other, from the start on.
pub open spec fn rounds_ran(rounds: Seq<SparseTrieRound>) -> bool
    decreases rounds.len(),
{
    rounds.len() > 0 ==> {
        let earlier = rounds.drop_last();
        let round = rounds.last();
        &&& rounds_ran(earlier)
        &&& round.before.num_iterations == (if earlier.len() == 0 {
            0
        } else {
            earlier.last().after.num_iterations
        })
        &&& received_handled(
            round.before,
            Some((round.first, round.behind)),
            round.after,
            SparseTrieTaskStep::Update(round.update),
        )
    }
}

/// All updates that were received in the rounds, in order.
pub open spec fn received_in(rounds: Seq<SparseTrieRound>) -> Seq<SparseTrieUpdateView>
    decreases rounds.len(),
{
    if rounds.len() == 0 {
        Seq::empty()
    } else {
        received_in(rounds.drop_last()) + (seq![rounds.last().first@] + update_views(
            rounds.last().behind@,
        ))
    }
}

/// The number of iterations is the number of times that the sparse trie was updated, and these
/// updates, one after the other, amount to all updates that were received, one after the other.
pub proof fn rounds_cover_what_was_received(rounds: Seq<SparseTrieRound>)
    requires
        rounds_ran(rounds),
    ensures
        rounds.len() > 0 ==> rounds.last().after.num_iterations == rounds.len(),
        combined(Seq::new(rounds.len(), |i: int| rounds[i].update@)) == combined(
            received_in(rounds),
        ),
    decreases rounds.len(),
{
    let made = Seq::new(rounds.len(), |i: int| rounds[i].update@);
    if rounds.len() == 0 {
        assert(made =~= received_in(rounds));
    } else {
        let earlier = rounds.drop_last();
        let before = Seq::new(earlier.len(), |i: int| earlier[i].update@);
        let round = rounds.last();
        let one = seq![round.update@];
        rounds_cover_what_was_received(earlier);
        assert(made =~= before + one);
        updates_combine_in_any_batches(before, one);
        updates_combine_in_any_batches(
            received_in(earlier),
            seq![round.first@] + update_views(round.behind@),
        );
    }
}

/// An account after the steps, carried out one after the other.
pub open spec fn account_after_steps(
    steps: Seq<SparseTrieStep>,
    address: B256,
    account: Account,
) -> Account
    decreases steps.len(),
{
    if steps.len() == 0 {
        account
    } else {
        match steps.last() {
            SparseTrieStep::UpdateAccount(a, written) if a == address => written,
            _ => account_after_steps(steps.drop_last(), address, account),
        }
    }
}

/// The leaves of the storage trie of an account after the steps, carried out one after the other.
pub open spec fn leaves_after_steps(
    steps: Seq<SparseTrieStep>,
    address: B256,
    leaves: Map<Seq<u8>, Seq<u8>>,
) -> Map<Seq<u8>, Seq<u8>>
    decreases steps.len(),
{
    if steps.len() == 0 {
        leaves
    } else {
        let earlier = leaves_after_steps(steps.drop_last(), address, leaves);
        match steps.last() {
            SparseTrieStep::UpdateStorage(a, ops) if a == address => ops.applied_to(earlier),
            _ => earlier,
        }
    }
}

proof fn lemma_account_after_steps(
    ops: SparseTrieOps,
    address: B256,
    account: Account,
    n: int,
)
    requires
        0 <= n <= steps_of(ops).len(),
        forall|i: int, j: int|
            0 <= i < j < ops.accounts@.len() ==> (#[trigger] ops.accounts@[i]).0 != (
            #[trigger] ops.accounts@[j]).0,
    ensures
        ({
            let result = account_after_steps(steps_of(ops).take(n), address, account);
            let first = 1 + ops.storages@.len();
            &&& forall|i: int|
                0 <= i < ops.accounts@.len() && first + i < n && (#[trigger] ops.accounts@[i]).0
                    == address ==> result == ops.accounts@[i].1
            &&& (forall|i: int|
                0 <= i < ops.accounts@.len() && first + i < n ==> (#[trigger] ops.accounts@[i]).0
                    != address) ==> result == account
        }),
    decreases n,
{
    if n > 0 {
        let all = steps_of(ops);
        let first = 1 + ops.storages@.len();
        lemma_account_after_steps(ops, address, account, n - 1);
        assert(all.take(n).drop_last() =~= all.take(n - 1));
        assert(all.take(n).last() == all[n - 1]);
        if first <= n - 1 < first + ops.accounts@.len() {
            let k = n - 1 - first;
            assert(all[n - 1] == SparseTrieStep::UpdateAccount(
                ops.accounts@[k].0,
                ops.accounts@[k].1,
            ));
            if ops.accounts@[k].0 == address {
                assert forall|i: int|
                    0 <= i < ops.accounts@.len() && first + i < n && (
                    #[trigger] ops.accounts@[i]).0 == address implies i == k by {
                    if i < k {
                        assert(ops.accounts@[i].0 != ops.accounts@[k].0);
                    }
                }
            } else {
                assert forall|i: int|
                    0 <= i < ops.accounts@.len() && first + i < n && (
                    #[trigger] ops.accounts@[i]).0 == address implies first + i < n - 1 by {
                    assert(i != k);
                }
            }
        } else {
            assert(!(all[n - 1] is UpdateAccount));
        }
    }
}

proof fn lemma_leaves_after_steps(
    ops: SparseTrieOps,
    address: B256,
    leaves: Map<Seq<u8>, Seq<u8>>,
    n: int,
)
    requires
        0 <= n <= steps_of(ops).len(),
        forall|i: int, j: int|
            0 <= i < j < ops.storages@.len() ==> (#[trigger] ops.storages@[i]).0 != (
            #[trigger] ops.storages@[j]).0,
    ensures
        ({
            let result = leaves_after_steps(steps_of(ops).take(n), address, leaves);
            &&& forall|i: int|
                0 <= i < ops.storages@.len() && 1 + i < n && (#[trigger] ops.storages@[i]).0
                    == address ==> result == ops.storages@[i].1.applied_to(leaves)
            &&& (forall|i: int|
                0 <= i < ops.storages@.len() && 1 + i < n ==> (#[trigger] ops.storages@[i]).0
                    != address) ==> result == leaves
        }),
    decreases n,
{
    if n > 0 {
        let all = steps_of(ops);
        lemma_leaves_after_steps(ops, address, leaves, n - 1);
        assert(all.take(n).drop_last() =~= all.take(n - 1));
        assert(all.take(n).last() == all[n - 1]);
        if 1 <= n - 1 < 1 + ops.storages@.len() {
            let k = n - 2;
            assert(all[n - 1] == SparseTrieStep::UpdateStorage(
                ops.storages@[k].0,
                ops.storages@[k].1,
            ));
            if ops.storages@[k].0 == address {
                assert forall|i: int|
                    0 <= i < ops.storages@.len() && 1 + i < n && (#[trigger] ops.storages@[i]).0
                        == address implies i == k by {
                    if i < k {
                        assert(ops.storages@[i].0 != ops.storages@[k].0);
                    }
                }
            } else {
                assert forall|i: int|
                    0 <= i < ops.storages@.len() && 1 + i < n && (#[trigger] ops.storages@[i]).0
                        == address implies 1 + i < n - 1 by {
                    assert(i != k);
                }
            }
        } else {
            assert(!(all[n - 1] is UpdateStorage));
        }
    }
}

proof fn lemma_addresses_differ(ops: SparseTrieOps, update: SparseTrieUpdate)
    requires
        ops.carry_out(update),
    ensures
        forall|i: int, j: int|
            0 <= i < j < ops.accounts@.len() ==> (#[trigger] ops.accounts@[i]).0 != (
            #[trigger] ops.accounts@[j]).0,
        forall|i: int, j: int|
            0 <= i < j < ops.storages@.len() ==> (#[trigger] ops.storages@[i]).0 != (
            #[trigger] ops.storages@[j]).0,
        forall|i: int|
            0 <= i < ops.accounts@.len() ==> update.state.accounts@.contains_key(
                (#[trigger] ops.accounts@[i]).0,
            ),
        forall|i: int|
            0 <= i < ops.storages@.len() ==> update.state.storages@.contains_key(
                (#[trigger] ops.storages@[i]).0,
            ),
        forall|a: B256| #[trigger]
            update.state.accounts@.contains_key(a) ==> exists|i: int|
                0 <= i < ops.accounts@.len() && (#[trigger] ops.accounts@[i]).0 == a,
        forall|a: B256| #[trigger]
            update.state.storages@.contains_key(a) ==> exists|i: int|
                0 <= i < ops.storages@.len() && (#[trigger] ops.storages@[i]).0 == a,
{
    let storages = choose|changes: Seq<(B256, HashedStorage)>| #[trigger]
        enumerates(changes, update.state.storages@) && storage_ops_carry_out(
            ops.storages@,
            changes,
        );
    let accounts = choose|changes: Seq<(B256, Option<Account>)>| #[trigger]
        enumerates(changes, update.state.accounts@) && account_ops_carry_out(
            ops.accounts@,
            changes,
        );
    assert forall|i: int, j: int| 0 <= i < j < ops.accounts@.len() implies (
    #[trigger] ops.accounts@[i]).0 != (#[trigger] ops.accounts@[j]).0 by {
        assert(accounts[i].0 != accounts[j].0);
    }
    assert forall|i: int, j: int| 0 <= i < j < ops.storages@.len() implies (
    #[trigger] ops.storages@[i]).0 != (#[trigger] ops.storages@[j]).0 by {
        assert(storages[i].0 != storages[j].0);
    }
    assert forall|i: int| 0 <= i < ops.accounts@.len() implies update.state.accounts@.contains_key(
        (#[trigger] ops.accounts@[i]).0,
    ) by {
        assert(update.state.accounts@.contains_key(accounts[i].0));
    }
    assert forall|i: int| 0 <= i < ops.storages@.len() implies update.state.storages@.contains_key(
        (#[trigger] ops.storages@[i]).0,
    ) by {
        assert(update.state.storages@.contains_key(storages[i].0));
    }
    assert forall|a: B256| #[trigger] update.state.accounts@.contains_key(a) implies exists|i: int|
        0 <= i < ops.accounts@.len() && (#[trigger] ops.accounts@[i]).0 == a by {
        let i = choose|i: int| 0 <= i < accounts.len() && (#[trigger] accounts[i]).0 == a;
        assert(ops.accounts@[i].0 == a);
    }
    assert forall|a: B256| #[trigger] update.state.storages@.contains_key(a) implies exists|i: int|
        0 <= i < ops.storages@.len() && (#[trigger] ops.storages@[i]).0 == a by {
        let i = choose|i: int| 0 <= i < storages.len() && (#[trigger] storages[i]).0 == a;
        assert(ops.storages@[i].0 == a);
    }
}

/// Carrying out the steps of an update, one after the other, writes every account that the state
/// update changes as the state update has it, one that it destroys without nonce, balance and code,
/// and no other; and makes of the trie of every storage the trie of the storage that the state
/// update leaves.
pub proof fn steps_carry_the_state_over(
    steps: Seq<SparseTrieStep>,
    update: SparseTrieUpdate,
    address: B256,
    account: Account,
    leaves: Map<Seq<u8>, Seq<u8>>,
    slots: Map<B256, U256>,
)
    requires
        exists|ops: SparseTrieOps| #[trigger] ops.carry_out(update) && steps == steps_of(ops),
        is_trie_of(leaves, slots),
    ensures
        update@.state.accounts.contains_key(address) ==> stands_for(
            account_after_steps(steps, address, account),
            update@.state.accounts[address],
        ),
        !update@.state.accounts.contains_key(address) ==> account_after_steps(
            steps,
            address,
            account,
        ) == account,
        is_trie_of(
            leaves_after_steps(steps, address, leaves),
            update@.state.slots_after(address, slots),
        ),
        !update@.state.storages.contains_key(address) ==> leaves_after_steps(steps, address, leaves)
            == leaves,
{
    let ops = choose|ops: SparseTrieOps| #[trigger]
        ops.carry_out(update) && steps == steps_of(ops);
    let n = steps.len() as int;
    assert(steps.take(n) =~= steps);
    lemma_addresses_differ(ops, update);
    lemma_account_after_steps(ops, address, account, n);
    lemma_leaves_after_steps(ops, address, leaves, n);
    operations_carry_the_state_over(ops, update, address, Some(account), leaves, slots);
    if update.state.accounts@.contains_key(address) {
        let i = choose|i: int|
            0 <= i < ops.accounts@.len() && (#[trigger] ops.accounts@[i]).0 == address;
        assert(ops.accounts@[i].0 == address);
    }
    if update.state.storages@.contains_key(address) {
        let i = choose|i: int|
            0 <= i < ops.storages@.len() && (#[trigger] ops.storages@[i]).0 == address;
        assert(ops.storages@[i].0 == address);
    }
}

/// The steps of an update reveal its proof first and hash below the second level last; in between
/// they change the storage trie of each changed storage once, as the storage changes, and after all
/// of these write each changed account once, as the account changes, and nothing else.
pub proof fn steps_change_each_storage_and_account_once(
    steps: Seq<SparseTrieStep>,
    update: SparseTrieUpdate,
)
    requires
        exists|ops: SparseTrieOps| #[trigger] ops.carry_out(update) && steps == steps_of(ops),
    ensures
        steps.len() >= 2,
        steps[0] == SparseTrieStep::Reveal(update.multiproof),
        steps.last() == SparseTrieStep::CalculateBelowLevel(2),
        forall|i: int|
            0 < i < steps.len() - 1 ==> match (#[trigger] steps[i]) {
                SparseTrieStep::UpdateStorage(a, ops) => update@.state.storages.contains_key(a)
                    && ops.carry_out(update@.state.storages[a]),
                SparseTrieStep::UpdateAccount(a, account) => update@.state.accounts.contains_key(a)
                    && stands_for(account, update@.state.accounts[a]),
                _ => false,
            },
        forall|a: B256| #[trigger]
            update@.state.storages.contains_key(a) ==> exists|i: int|
                0 < i < steps.len() - 1 && (#[trigger] steps[i]) is UpdateStorage
                    && steps[i]->UpdateStorage_0 == a,
        forall|a: B256| #[trigger]
            update@.state.accounts.contains_key(a) ==> exists|i: int|
                0 < i < steps.len() - 1 && (#[trigger] steps[i]) is UpdateAccount
                    && steps[i]->UpdateAccount_0 == a,
        forall|i: int, j: int|
            #![trigger steps[i], steps[j]]
            0 <= i < j < steps.len() ==> {
                &&& !(steps[i] is UpdateAccount && steps[j] is UpdateStorage)
                &&& steps[i] is UpdateAccount && steps[j] is UpdateAccount
                    ==> steps[i]->UpdateAccount_0 != steps[j]->UpdateAccount_0
                &&& steps[i] is UpdateStorage && steps[j] is UpdateStorage
                    ==> steps[i]->UpdateStorage_0 != steps[j]->UpdateStorage_0
            },
{
    let ops = choose|ops: SparseTrieOps| #[trigger]
        ops.carry_out(update) && steps == steps_of(ops);
    lemma_addresses_differ(ops, update);
    let s = ops.storages@.len() as int;
    let n = ops.accounts@.len() as int;
    let storages = choose|changes: Seq<(B256, HashedStorage)>| #[trigger]
        enumerates(changes, update.state.storages@) && storage_ops_carry_out(
            ops.storages@,
            changes,
        );
    let accounts = choose|changes: Seq<(B256, Option<Account>)>| #[trigger]
        enumerates(changes, update.state.accounts@) && account_ops_carry_out(
            ops.accounts@,
            changes,
        );
    lemma_empty_account_has_no_balance();
    assert forall|i: int| 0 < i < steps.len() - 1 implies match (#[trigger] steps[i]) {
        SparseTrieStep::UpdateStorage(a, ops) => update@.state.storages.contains_key(a)
            && ops.carry_out(update@.state.storages[a]),
        SparseTrieStep::UpdateAccount(a, account) => update@.state.accounts.contains_key(a)
            && stands_for(account, update@.state.accounts[a]),
        _ => false,
    } by {
        if i <= s {
            assert(ops.storages@[i - 1].0 == storages[i - 1].0);
            assert(update.state.storages@.contains_key(storages[i - 1].0));
            assert(update@.state.storages[storages[i - 1].0] == storages[i - 1].1@);
        } else {
            let k = i - 1 - s;
            assert(ops.accounts@[k] == (accounts[k].0, account_or_empty(accounts[k].1)));
            assert(update.state.accounts@.contains_key(accounts[k].0));
        }
    }
    assert forall|a: B256| #[trigger] update@.state.storages.contains_key(a) implies exists|i: int|
        0 < i < steps.len() - 1 && (#[trigger] steps[i]) is UpdateStorage
            && steps[i]->UpdateStorage_0 == a by {
        assert(update.state.storages@.contains_key(a));
        let i = choose|i: int|
            0 <= i < ops.storages@.len() && (#[trigger] ops.storages@[i]).0 == a;
        assert(steps[i + 1] == SparseTrieStep::UpdateStorage(
            ops.storages@[i].0,
            ops.storages@[i].1,
        ));
    }
    assert forall|a: B256| #[trigger] update@.state.accounts.contains_key(a) implies exists|i: int|
        0 < i < steps.len() - 1 && (#[trigger] steps[i]) is UpdateAccount
            && steps[i]->UpdateAccount_0 == a by {
        let i = choose|i: int|
            0 <= i < ops.accounts@.len() && (#[trigger] ops.accounts@[i]).0 == a;
        assert(steps[i + 1 + s] == SparseTrieStep::UpdateAccount(
            ops.accounts@[i].0,
            ops.accounts@[i].1,
        ));
    }
    assert forall|i: int, j: int|
        #![trigger steps[i], steps[j]]
        0 <= i < j < steps.len() implies {
        &&& !(steps[i] is UpdateAccount && steps[j] is UpdateStorage)
        &&& steps[i] is UpdateAccount && steps[j] is UpdateAccount ==> steps[i]->UpdateAccount_0
            != steps[j]->UpdateAccount_0
        &&& steps[i] is UpdateStorage && steps[j] is UpdateStorage ==> steps[i]->UpdateStorage_0
            != steps[j]->UpdateStorage_0
    } by {
        if steps[i] is UpdateAccount && steps[j] is UpdateAccount {
            assert(ops.accounts@[i - 1 - s].0 != ops.accounts@[j - 1 - s].0);
        }
        if steps[i] is UpdateStorage && steps[j] is UpdateStorage {
            assert(ops.storages@[i - 1].0 != ops.storages@[j - 1].0);
        }
    }
}

/// The path of the leaf that the operation is about.
pub open spec fn path_of(op: LeafOp) -> Seq<u8> {
    match op {
        LeafOp::Remove { path } => path@,
        LeafOp::Update { path, .. } => path@,
    }
}

/// After the operation, whatever was there before, the leaf of the slot holds the encoding of the
/// value, or is gone if the value is zero.
pub open spec fn leaf_holds(op: LeafOp, slot: B256, value: U256) -> bool {
    let leaves = op.applied_to(Map::empty().insert(nibbles_of(slot@), Seq::empty()));
    &&& path_of(op) == nibbles_of(slot@)
    &&& leaves.contains_key(nibbles_of(slot@)) <==> value.value() != 0
    &&& value.value() != 0 ==> leaves[nibbles_of(slot@)] == rlp_of_u256(value)
}

/// The operation gives a changed slot its value.
pub open spec fn writes_a_changed_slot(op: LeafOp, change: HashedStorageView) -> bool {
    exists|slot: B256| #[trigger]
        change.storage.contains_key(slot) && leaf_holds(op, slot, change.storage[slot])
}

/// The operations of a storage change write each changed slot once and no other leaf: a slot that
/// becomes zero is removed, any other gets the encoding of its value.
pub proof fn each_changed_slot_is_written_once(ops: StorageTrieOps, change: HashedStorageView)
    requires
        ops.carry_out(change),
    ensures
        ops.wipe <==> change.wiped,
        forall|i: int, j: int|
            0 <= i < j < ops.leaves@.len() ==> path_of(#[trigger] ops.leaves@[i]) != path_of(
                #[trigger] ops.leaves@[j],
            ),
        forall|slot: B256| #[trigger]
            change.storage.contains_key(slot) ==> exists|i: int|
                0 <= i < ops.leaves@.len() && path_of(#[trigger] ops.leaves@[i]) == nibbles_of(
                    slot@,
                ),
        forall|i: int|
            0 <= i < ops.leaves@.len() ==> writes_a_changed_slot(#[trigger] ops.leaves@[i], change),
{
    let entries = choose|entries: Seq<(B256, U256)>| #[trigger]
        enumerates(entries, change.storage) && ops_set(ops.leaves@, entries);
    assert forall|i: int, j: int| 0 <= i < j < ops.leaves@.len() implies path_of(
        #[trigger] ops.leaves@[i],
    ) != path_of(#[trigger] ops.leaves@[j]) by {
        assert(ops.leaves@[i].sets(entries[i].0, entries[i].1));
        assert(ops.leaves@[j].sets(entries[j].0, entries[j].1));
        assert(entries[i].0 != entries[j].0);
        nibbles_identify_the_hash(entries[i].0, entries[j].0);
    }
    assert forall|slot: B256| #[trigger] change.storage.contains_key(slot) implies exists|i: int|
        0 <= i < ops.leaves@.len() && path_of(#[trigger] ops.leaves@[i]) == nibbles_of(slot@) by {
        let i = choose|i: int| 0 <= i < entries.len() && (#[trigger] entries[i]).0 == slot;
        assert(ops.leaves@[i].sets(entries[i].0, entries[i].1));
    }
    assert forall|i: int| 0 <= i < ops.leaves@.len() implies writes_a_changed_slot(
        #[trigger] ops.leaves@[i],
        change,
    ) by {
        assert(ops.leaves@[i].sets(entries[i].0, entries[i].1));
        assert(change.storage.contains_key(entries[i].0));
    }
}

/// The sparse trie task ends once the channel of the updates is closed: then the root is
/// calculated, and what is reported is that root with its trie updates and with the number of times
/// that the sparse trie was updated, or what went wrong.
pub proof fn the_task_reports_the_root_and_its_rounds<Source, Updates>(
    rounds: Seq<SparseTrieRound>,
    before: SparseTrieProgress,
    after: SparseTrieProgress,
    step: SparseTrieTaskStep,
    result: Result<(B256, Updates), String>,
    end: Result<StateRootMessage<Source, Updates>, ParallelStateRootError>,
)
    requires
        rounds_ran(rounds),
        before.num_iterations == (if rounds.len() == 0 {
            0
        } else {
            rounds.last().after.num_iterations
        }),
        received_handled(before, None, after, step),
        root_reported(after, result, end),
    ensures
        step is CalculateRoot,
        match (result, end) {
            (
                Ok((root, updates)),
                Ok(StateRootMessage::RootCalculated { state_root, trie_updates, iterations }),
            ) => state_root == root && trie_updates == updates && iterations == rounds.len(),
            (Err(detail), Err(ParallelStateRootError::Other(text))) => text@
                == "could not calculate state root: "@ + detail@,
            _ => false,
        },
{
    rounds_cover_what_was_received(rounds);
}

/// The task goes on after an update of the sparse trie exactly if the update went well; an update
/// that fails ends the task with the error that a failing calculation of the root would end it
/// with.
pub proof fn a_failed_update_ends_the_task_like_a_failed_root<Source, Updates>(
    progress: SparseTrieProgress,
    result: Result<(), String>,
    goes_on: Result<(), ParallelStateRootError>,
    root: Result<(B256, Updates), String>,
    end: Result<StateRootMessage<Source, Updates>, ParallelStateRootError>,
)
    requires
        update_answered(result, goes_on),
        root_reported(progress, root, end),
    ensures
        goes_on is Ok <==> result is Ok,
        end is Ok <==> root is Ok,
        result is Err && root is Err && result->Err_0@ == root->Err_0@ ==> match (goes_on, end) {
            (
                Err(ParallelStateRootError::Other(update_error)),
                Err(ParallelStateRootError::Other(root_error)),
            ) => update_error@ == root_error@,
            _ => false,
        },
{
}

} // verus!
