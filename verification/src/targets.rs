//! Proof targets: which accounts, and which storage slots of theirs, a multiproof has to cover.

use vstd::prelude::*;

use crate::hashed_state::{HashedPostState, HashedPostStateView};
use crate::maps::{
    enumerates, enumerates_set, map_get, map_insert, map_into_entries, map_keys, map_len,
    map_remove, set_contains, set_insert, set_len, set_to_vec, BytesMap, BytesSet,
};
use crate::merge::views;
use crate::primitives::B256;

verus! {

/// Accounts to be proved, each with the slots of its storage to be proved; all keys are hashed.
#[derive(Debug, Clone, PartialEq)]
pub struct MultiProofTargets {
    /// The slots by account.
    pub accounts: BytesMap<32, BytesSet<32>>,
}

impl View for MultiProofTargets {
    type V = Map<B256, Set<B256>>;

    open spec fn view(&self) -> Map<B256, Set<B256>> {
        views(self.accounts@)
    }
}

impl Default for MultiProofTargets {
    fn default() -> (targets: MultiProofTargets)
        ensures
            targets@ == Map::<B256, Set<B256>>::empty(),
    {
        let targets = MultiProofTargets { accounts: Default::default() };
        assert(targets@ =~= Map::<B256, Set<B256>>::empty());
        targets
    }
}

impl MultiProofTargets {
    /// Returns true if there are no targets.
    pub fn is_empty(&self) -> (empty: bool)
        ensures
            empty == (self@ == Map::<B256, Set<B256>>::empty()),
    {
        let empty = self.accounts.is_empty();
        proof {
            assert(self@.dom() =~= self.accounts@.dom());
            assert(self.accounts@.is_empty() == (self.accounts@.dom() =~= Set::<B256>::empty()));
            if empty {
                assert(self@ =~= Map::<B256, Set<B256>>::empty());
            }
        }
        empty
    }

    /// The number of accounts.
    pub fn len(&self) -> (len: usize)
        ensures
            len == self@.dom().len(),
    {
        assert(self@.dom() =~= self.accounts@.dom());
        map_len(&self.accounts)
    }

    /// Whether the account is a target.
    pub fn contains_key(&self, account: &B256) -> (found: bool)
        ensures
            found == self@.contains_key(*account),
    {
        map_get(&self.accounts, account).is_some()
    }

    /// The slots of the account, if the account is a target.
    pub fn get(&self, account: &B256) -> (slots: Option<&BytesSet<32>>)
        ensures
            match slots {
                Some(s) => self@.contains_key(*account) && self@[*account] == s@,
                None => !self@.contains_key(*account),
            },
    {
        map_get(&self.accounts, account)
    }

    /// Makes the account a target with the given slots, in place of those it had.
    pub fn insert(&mut self, account: B256, slots: BytesSet<32>)
        ensures
            final(self)@ == old(self)@.insert(account, slots@),
    {
        let ghost before = self@;
        map_insert(&mut self.accounts, account, slots);
        assert(self@ =~= before.insert(account, slots@));
    }
}

/// A set of slots holding the given ones.
pub fn slot_set(slots: &Vec<B256>) -> (set: BytesSet<32>)
    ensures
        set@ == slots@.to_set(),
{
    let mut set: BytesSet<32> = Default::default();
    let mut i: usize = 0;
    while i < slots.len()
        invariant
            i <= slots@.len(),
            forall|s: B256| #[trigger]
                set@.contains(s) <==> exists|j: int| 0 <= j < i && #[trigger] slots@[j] == s,
        decreases slots@.len() - i,
    {
        let ghost before = set@;
        let slot = slots[i];
        set_insert(&mut set, slot);
        assert forall|s: B256| #[trigger] set@.contains(s) implies exists|j: int|
            0 <= j < i + 1 && #[trigger] slots@[j] == s by {
            if s == slot {
                assert(slots@[i as int] == s);
            } else {
                assert(before.contains(s));
            }
        }
        i = i + 1;
    }
    assert(set@ =~= slots@.to_set());
    set
}

/// The elements of `slots` that are not in `other`.
pub fn slots_missing_from(slots: &BytesSet<32>, other: &BytesSet<32>) -> (missing: BytesSet<32>)
    ensures
        missing@ == slots@.difference(other@),
{
    let mut missing: BytesSet<32> = Default::default();
    let all = set_to_vec(slots);
    let mut i: usize = 0;
    while i < all.len()
        invariant
            i <= all@.len(),
            forall|s: B256| #[trigger]
                missing@.contains(s) <==> !other@.contains(s) && exists|j: int|
                    0 <= j < i && #[trigger] all@[j] == s,
        decreases all@.len() - i,
    {
        let ghost before = missing@;
        let slot = all[i];
        if !set_contains(other, &slot) {
            set_insert(&mut missing, slot);
        }
        assert forall|s: B256| #[trigger]
            missing@.contains(s) <==> !other@.contains(s) && exists|j: int|
                0 <= j < i + 1 && #[trigger] all@[j] == s by {
            assert(before.contains(s) <==> !other@.contains(s) && exists|j: int|
                0 <= j < i && #[trigger] all@[j] == s);
            if s == slot {
                assert(all@[i as int] == s);
            }
        }
        i = i + 1;
    }
    assert forall|s: B256| missing@.contains(s) <==> slots@.difference(other@).contains(s) by {
        assert(all@.contains(s) <==> slots@.contains(s));
    }
    assert(missing@ =~= slots@.difference(other@));
    missing
}

/// The slots that have been fetched of an account.
pub open spec fn fetched_slots(fetched: Map<B256, Set<B256>>, account: B256) -> Set<B256> {
    if fetched.contains_key(account) {
        fetched[account]
    } else {
        Set::empty()
    }
}

/// The changed slots of an account that have not been fetched yet.
pub open spec fn new_slots(
    state: HashedPostStateView,
    fetched: Map<B256, Set<B256>>,
    account: B256,
) -> Set<B256> {
    if state.storages.contains_key(account) {
        state.storages[account].storage.dom().difference(fetched_slots(fetched, account))
    } else {
        Set::empty()
    }
}

/// The targets that a state update adds to those already fetched: an account that has changed and
/// has not been fetched, and an account with a changed slot that has not been fetched; of each,
/// the changed slots that have not been fetched.
pub open spec fn proof_targets(
    state: HashedPostStateView,
    fetched: Map<B256, Set<B256>>,
) -> Map<B256, Set<B256>> {
    Map::new(
        |a: B256|
            (state.accounts.contains_key(a) && !fetched.contains_key(a)) || new_slots(
                state,
                fetched,
                a,
            ) != Set::<B256>::empty(),
        |a: B256| new_slots(state, fetched, a),
    )
}

/// The targets of a prefetch request that have not been fetched: an account that has not been
/// fetched, with all of its slots, and any other account of which a slot has not been fetched,
/// with those slots.
pub open spec fn prefetch_targets(
    targets: Map<B256, Set<B256>>,
    fetched: Map<B256, Set<B256>>,
) -> Map<B256, Set<B256>> {
    Map::new(
        |a: B256|
            targets.contains_key(a) && (!fetched.contains_key(a) || !targets[a].subset_of(
                fetched[a],
            )),
        |a: B256| targets[a].difference(fetched_slots(fetched, a)),
    )
}

/// The union of two sets of targets, account by account.
pub open spec fn targets_union(
    first: Map<B256, Set<B256>>,
    second: Map<B256, Set<B256>>,
) -> Map<B256, Set<B256>> {
    Map::new(
        |a: B256| first.contains_key(a) || second.contains_key(a),
        |a: B256| fetched_slots(first, a).union(fetched_slots(second, a)),
    )
}

/// Adds the targets of `other` to `targets`.
pub fn extend_multi_proof_targets_ref(targets: &mut MultiProofTargets, other: &MultiProofTargets)
    ensures
        final(targets)@ == targets_union(old(targets)@, other@),
{
    let ghost before = targets@;
    let accounts = map_keys(&other.accounts);
    let mut i: usize = 0;
    while i < accounts.len()
        invariant
            i <= accounts@.len(),
            enumerates_set(accounts@, other.accounts@.dom()),
            forall|a: B256| #[trigger]
                targets@.contains_key(a) <==> before.contains_key(a) || exists|j: int|
                    0 <= j < i && #[trigger] accounts@[j] == a,
            forall|a: B256| #[trigger]
                targets@.contains_key(a) ==> targets@[a] == (if exists|j: int|
                    0 <= j < i && #[trigger] accounts@[j] == a {
                    fetched_slots(before, a).union(other@[a])
                } else {
                    before[a]
                }),
        decreases accounts@.len() - i,
    {
        let account = accounts[i];
        let ghost step_before = targets@;
        assert(accounts@.contains(account));
        assert(forall|j: int| 0 <= j < i ==> accounts@[j] != account);
        match map_get(&other.accounts, &account) {
            Some(slots) => {
                let mut union: BytesSet<32> = match map_remove(&mut targets.accounts, &account) {
                    Some(present) => present,
                    None => Default::default(),
                };
                assert(union@ =~= fetched_slots(step_before, account));
                assert(union@ =~= fetched_slots(before, account));
                let all = set_to_vec(slots);
                let mut k: usize = 0;
                while k < all.len()
                    invariant
                        k <= all@.len(),
                        forall|s: B256| #[trigger]
                            union@.contains(s) <==> fetched_slots(before, account).contains(s)
                                || exists|j: int| 0 <= j < k && #[trigger] all@[j] == s,
                    decreases all@.len() - k,
                {
                    let ghost union_before = union@;
                    let slot = all[k];
                    set_insert(&mut union, slot);
                    assert forall|s: B256| #[trigger] union@.contains(s) implies fetched_slots(
                        before,
                        account,
                    ).contains(s) || exists|j: int| 0 <= j < k + 1 && #[trigger] all@[j] == s by {
                        if s == slot {
                            assert(all@[k as int] == s);
                        } else {
                            assert(union_before.contains(s));
                        }
                    }
                    k = k + 1;
                }
                assert forall|s: B256| union@.contains(s) <==> fetched_slots(
                    before,
                    account,
                ).union(slots@).contains(s) by {
                    assert(all@.contains(s) <==> slots@.contains(s));
                }
                assert(union@ =~= fetched_slots(before, account).union(slots@));
                assert(other@[account] == slots@);
                let ghost merged = union@;
                map_insert(&mut targets.accounts, account, union);
                assert(targets@ =~= step_before.insert(account, merged));
            },
            None => {
                assert(false);
            },
        }
        assert forall|a: B256| #[trigger]
            targets@.contains_key(a) <==> before.contains_key(a) || exists|j: int|
                0 <= j < i + 1 && #[trigger] accounts@[j] == a by {
            if a == account {
                assert(accounts@[i as int] == a);
            } else {
                assert(step_before.contains_key(a) <==> targets@.contains_key(a));
            }
        }
        assert forall|a: B256| #[trigger] targets@.contains_key(a) implies targets@[a] == (
        if exists|j: int| 0 <= j < i + 1 && #[trigger] accounts@[j] == a {
            fetched_slots(before, a).union(other@[a])
        } else {
            before[a]
        }) by {
            if a == account {
                assert(accounts@[i as int] == a);
            } else {
                assert(step_before.contains_key(a));
                assert(targets@[a] == step_before[a]);
            }
        }
        i = i + 1;
    }
    proof {
        let union = targets_union(before, other@);
        assert forall|a: B256| (exists|j: int| 0 <= j < i && #[trigger] accounts@[j] == a)
            == other@.contains_key(a) by {
            assert(accounts@.contains(a) <==> other.accounts@.dom().contains(a));
        }
        assert forall|a: B256| targets@.contains_key(a) <==> union.contains_key(a) by {}
        assert forall|a: B256| targets@.contains_key(a) implies targets@[a] == union[a] by {
            if !other@.contains_key(a) {
                assert(union[a] =~= before[a]);
            }
        }
        assert(targets@ =~= union);
    }
}

/// Returns accounts only with those storages that were not already fetched, and
/// if there are no such storages and the account itself was already fetched, the
/// account shouldn't be included.
pub fn get_proof_targets(
    state_update: &HashedPostState,
    fetched_proof_targets: &MultiProofTargets,
) -> (targets: MultiProofTargets)
    ensures
        targets@ == proof_targets(state_update@, fetched_proof_targets@),
{
    let mut targets = MultiProofTargets::default();
    let ghost fetched = fetched_proof_targets@;

    // first collect all new accounts (not previously fetched)
    let accounts = map_keys(&state_update.accounts);
    let mut i: usize = 0;
    while i < accounts.len()
        invariant
            i <= accounts@.len(),
            fetched == fetched_proof_targets@,
            forall|a: B256| #[trigger]
                targets@.contains_key(a) <==> !fetched.contains_key(a) && exists|j: int|
                    0 <= j < i && #[trigger] accounts@[j] == a,
            forall|a: B256| #[trigger]
                targets@.contains_key(a) ==> targets@[a] == Set::<B256>::empty(),
        decreases accounts@.len() - i,
    {
        let account = accounts[i];
        let ghost before = targets@;
        if !fetched_proof_targets.contains_key(&account) {
            targets.insert(account, Default::default());
        }
        assert forall|a: B256| #[trigger]
            targets@.contains_key(a) <==> !fetched.contains_key(a) && exists|j: int|
                0 <= j < i + 1 && #[trigger] accounts@[j] == a by {
            assert(before.contains_key(a) <==> !fetched.contains_key(a) && exists|j: int|
                0 <= j < i && #[trigger] accounts@[j] == a);
            if a == account {
                assert(accounts@[i as int] == a);
            }
        }
        i = i + 1;
    }
    let ghost changed = targets@;
    assert forall|a: B256| changed.contains_key(a) <==> !fetched.contains_key(a)
        && state_update@.accounts.contains_key(a) by {
        assert(accounts@.contains(a) <==> state_update.accounts@.dom().contains(a));
    }

    // then process storage slots for all accounts in the state update
    let storages = map_keys(&state_update.storages);
    let ghost state = state_update@;
    let mut k: usize = 0;
    while k < storages.len()
        invariant
            k <= storages@.len(),
            enumerates_set(storages@, state_update.storages@.dom()),
            state == state_update@,
            fetched == fetched_proof_targets@,
            forall|a: B256| #[trigger]
                changed.contains_key(a) ==> changed[a] == Set::<B256>::empty(),
            forall|a: B256| #[trigger]
                targets@.contains_key(a) <==> changed.contains_key(a) || (exists|j: int|
                    0 <= j < k && #[trigger] storages@[j] == a) && new_slots(state, fetched, a)
                    != Set::<B256>::empty(),
            forall|a: B256| #[trigger]
                targets@.contains_key(a) ==> targets@[a] == (if exists|j: int|
                    0 <= j < k && #[trigger] storages@[j] == a {
                    new_slots(state, fetched, a)
                } else {
                    Set::<B256>::empty()
                }),
        decreases storages@.len() - k,
    {
        let account = storages[k];
        let ghost before = targets@;
        assert(storages@.contains(account));
        assert(forall|j: int| 0 <= j < k ==> storages@[j] != account);
        match map_get(&state_update.storages, &account) {
            Some(storage) => {
                assert(state.storages[account] == storage@);
                let slots = slot_set(&map_keys(&storage.storage));
                assert(slots@ =~= storage.storage@.dom()) by {
                    assert forall|s: B256| slots@.contains(s) <==> storage.storage@.dom().contains(
                        s,
                    ) by {}
                }
                let missing = match fetched_proof_targets.get(&account) {
                    Some(known) => slots_missing_from(&slots, known),
                    None => slots,
                };
                assert(missing@ =~= new_slots(state, fetched, account));
                let ghost found = missing@;
                if !missing.is_empty() {
                    targets.insert(account, missing);
                }
                assert(found.is_empty() ==> found =~= Set::<B256>::empty());
                assert(!found.is_empty() ==> found != Set::<B256>::empty());
            },
            None => {
                assert(false);
            },
        }
        assert forall|a: B256| #[trigger]
            targets@.contains_key(a) <==> changed.contains_key(a) || (exists|j: int|
                0 <= j < k + 1 && #[trigger] storages@[j] == a) && new_slots(state, fetched, a)
                != Set::<B256>::empty() by {
            assert(before.contains_key(a) <==> changed.contains_key(a) || (exists|j: int|
                0 <= j < k && #[trigger] storages@[j] == a) && new_slots(state, fetched, a)
                != Set::<B256>::empty());
            if a == account {
                assert(storages@[k as int] == a);
            }
        }
        assert forall|a: B256| #[trigger] targets@.contains_key(a) implies targets@[a] == (
        if exists|j: int| 0 <= j < k + 1 && #[trigger] storages@[j] == a {
            new_slots(state, fetched, a)
        } else {
            Set::<B256>::empty()
        }) by {
            if a == account {
                assert(storages@[k as int] == a);
                if targets@ == before {
                    assert(before.contains_key(a));
                }
            } else {
                assert(before.contains_key(a));
                assert(targets@[a] == before[a]);
            }
        }
        k = k + 1;
    }
    proof {
        let wanted = proof_targets(state, fetched);
        assert forall|a: B256| (exists|j: int| 0 <= j < k && #[trigger] storages@[j] == a)
            == state.storages.contains_key(a) by {
            assert(storages@.contains(a) <==> state_update.storages@.dom().contains(a));
        }
        assert forall|a: B256| targets@.contains_key(a) <==> wanted.contains_key(a) by {}
        assert forall|a: B256| targets@.contains_key(a) implies targets@[a] == wanted[a] by {}
        assert(targets@ =~= wanted);
    }
    targets
}

/// Leaves out of a prefetch request what has been fetched already.
pub fn get_prefetch_proof_targets(
    targets: MultiProofTargets,
    fetched_proof_targets: &MultiProofTargets,
) -> (remaining: MultiProofTargets)
    ensures
        remaining@ == prefetch_targets(targets@, fetched_proof_targets@),
{
    let ghost asked = targets@;
    let ghost fetched = fetched_proof_targets@;
    let ghost asked_map = targets.accounts@;
    let mut remaining = MultiProofTargets::default();
    let mut entries = map_into_entries(targets.accounts);
    let ghost all = entries@;
    let ghost mut done: Set<B256> = Set::empty();
    let ghost wanted = prefetch_targets(asked, fetched);
    while entries.len() > 0
        invariant
            enumerates(all, asked_map),
            asked == views(asked_map),
            fetched == fetched_proof_targets@,
            wanted == prefetch_targets(asked, fetched),
            entries@.len() <= all.len(),
            entries@ == all.take(entries@.len() as int),
            forall|a: B256| #[trigger]
                done.contains(a) <==> exists|i: int|
                    entries@.len() <= i < all.len() && (#[trigger] all[i]).0 == a,
            forall|a: B256| #[trigger]
                remaining@.contains_key(a) <==> done.contains(a) && wanted.contains_key(a),
            forall|a: B256| #[trigger] remaining@.contains_key(a) ==> remaining@[a] == wanted[a],
        decreases entries.len(),
    {
        let ghost n = entries@.len() - 1;
        let ghost before = remaining@;
        match entries.pop() {
            Some(entry) => {
                let (account, slots) = entry;
                assert(all[n] == (account, slots));
                assert(asked_map.contains_key(all[n].0));
                assert(asked[account] == slots@);
                match fetched_proof_targets.get(&account) {
                    // the account has not been fetched yet, so everything of it is to be fetched
                    None => {
                        assert(wanted[account] =~= slots@);
                        remaining.insert(account, slots);
                    },
                    // keep only the slots that have not been fetched yet, if there are any
                    Some(known) => {
                        let missing = slots_missing_from(&slots, known);
                        let ghost found = missing@;
                        if !missing.is_empty() {
                            remaining.insert(account, missing);
                        }
                        assert(found == slots@.difference(known@));
                        proof {
                            if found.is_empty() {
                                assert(slots@.subset_of(known@)) by {
                                    assert forall|s: B256| slots@.contains(s) implies known@.contains(
                                        s,
                                    ) by {
                                        assert(!found.contains(s));
                                    }
                                }
                            } else {
                                assert(!(found =~= Set::<B256>::empty()));
                                let s = choose|s: B256| found.contains(s);
                                assert(found.contains(s));
                                assert(slots@.contains(s) && !known@.contains(s));
                                assert(wanted.contains_key(account));
                                assert(found =~= wanted[account]);
                            }
                        }
                    },
                }
                proof {
                    done = done.insert(account);
                    assert(entries@ =~= all.take(n));
                    assert forall|a: B256| #[trigger] done.contains(a) implies exists|i: int|
                        entries@.len() <= i < all.len() && (#[trigger] all[i]).0 == a by {
                        if a == account {
                            assert(all[n].0 == a);
                        }
                    }
                }
            },
            None => {},
        }
    }
    proof {
        assert forall|a: B256| asked.contains_key(a) implies done.contains(a) by {
            assert(asked_map.contains_key(a));
            let i = choose|i: int| 0 <= i < all.len() && (#[trigger] all[i]).0 == a;
            assert(all[i].0 == a);
        }
        assert(remaining@ =~= wanted);
    }
    remaining
}

/// Adds the number of slots of an account to a count.
pub open spec fn count_slots(targets: Map<B256, Set<B256>>) -> spec_fn(nat, B256) -> nat {
    |count: nat, account: B256| count + targets[account].len()
}

/// The number of slots of all accounts together.
pub open spec fn slot_count(targets: Map<B256, Set<B256>>) -> nat {
    targets.dom().fold(0nat, count_slots(targets))
}

impl MultiProofTargets {
    /// The number of accounts and the number of slots of all accounts together; `None` if the
    /// latter does not fit.
    pub fn counts(&self) -> (counts: Option<(usize, usize)>)
        ensures
            counts == (if slot_count(self@) > usize::MAX {
                None
            } else {
                Some((self@.dom().len() as usize, slot_count(self@) as usize))
            }),
            self@.dom().len() <= usize::MAX,
    {
        let accounts = map_keys(&self.accounts);
        let ghost count = count_slots(self@);
        let mut slots: u128 = 0;
        let mut i: usize = 0;
        proof {
            vstd::set::fold::lemma_fold_empty(0nat, count);
            assert(accounts@.take(0).to_set() =~= Set::empty());
        }
        while i < accounts.len()
            invariant
                i <= accounts@.len(),
                enumerates_set(accounts@, self.accounts@.dom()),
                count == count_slots(self@),
                slots as nat == accounts@.take(i as int).to_set().fold(0nat, count),
                slots <= i * usize::MAX,
            decreases accounts@.len() - i,
        {
            let account = accounts[i];
            let ghost seen = accounts@.take(i as int).to_set();
            proof {
                assert(accounts@.contains(account));
                assert(!seen.contains(account));
                assert(accounts@.take(i + 1).to_set() =~= seen.insert(account)) by {
                    assert forall|a: B256| accounts@.take(i + 1).to_set().contains(a)
                        <==> seen.insert(account).contains(a) by {
                        if a == account {
                            assert(accounts@.take(i + 1)[i as int] == a);
                        }
                        if seen.contains(a) {
                            let j = choose|j: int|
                                0 <= j < i && #[trigger] accounts@.take(i as int)[j] == a;
                            assert(accounts@.take(i + 1)[j] == a);
                        }
                        if accounts@.take(i + 1).to_set().contains(a) {
                            let j = choose|j: int|
                                0 <= j < i + 1 && #[trigger] accounts@.take(i + 1)[j] == a;
                            if j < i {
                                assert(accounts@.take(i as int)[j] == a);
                            }
                        }
                    }
                }
                vstd::set::fold::lemma_fold_insert(seen, 0nat, count, account);
                assert(i * usize::MAX <= usize::MAX * usize::MAX) by (nonlinear_arith)
                    requires
                        i <= usize::MAX,
                ;
                assert((i + 1) * usize::MAX == i * usize::MAX + usize::MAX) by (nonlinear_arith);
                assert(usize::MAX * usize::MAX + usize::MAX <= u128::MAX) by (nonlinear_arith)
                    requires
                        usize::MAX <= 0xffff_ffff_ffff_ffff,
                ;
            }
            match map_get(&self.accounts, &account) {
                Some(set) => {
                    assert(self@[account] == set@);
                    slots = slots + set_len(set) as u128;
                },
                None => {
                    assert(false);
                },
            }
            i = i + 1;
        }
        proof {
            assert(accounts@.take(i as int) =~= accounts@);
            assert(accounts@.to_set() =~= self@.dom()) by {
                assert forall|a: B256| accounts@.to_set().contains(a) <==> self@.dom().contains(
                    a,
                ) by {
                    assert(accounts@.contains(a) <==> self.accounts@.dom().contains(a));
                }
            }
            accounts@.unique_seq_to_set();
        }
        if slots > usize::MAX as u128 {
            None
        } else {
            Some((self.len(), slots as usize))
        }
    }
}

/// What is asked for in answer to a state update belongs to the update and is not fetched yet:
/// each slot is a changed slot that has not been fetched, and an account asked for without slots
/// is a changed account that has not been fetched.
pub proof fn proof_targets_are_new(state: HashedPostStateView, fetched: Map<B256, Set<B256>>)
    ensures
        forall|a: B256, s: B256|
            #![trigger proof_targets(state, fetched)[a].contains(s)]
            proof_targets(state, fetched).contains_key(a) && proof_targets(
                state,
                fetched,
            )[a].contains(s) ==> state.storages.contains_key(a)
                && state.storages[a].storage.contains_key(s) && !fetched_slots(
                fetched,
                a,
            ).contains(s),
        forall|a: B256|
            #![trigger proof_targets(state, fetched).contains_key(a)]
            proof_targets(state, fetched).contains_key(a) && proof_targets(state, fetched)[a]
                == Set::<B256>::empty() ==> state.accounts.contains_key(a)
                && !fetched.contains_key(a),
{
}

/// Once the targets of a state update have been added, every changed account and every changed
/// slot of the update is fetched, and so is everything that was fetched before.
pub proof fn proof_targets_cover_the_update(
    state: HashedPostStateView,
    fetched: Map<B256, Set<B256>>,
)
    ensures
        ({
            let after = targets_union(fetched, proof_targets(state, fetched));
            &&& forall|a: B256| #[trigger]
                state.accounts.contains_key(a) ==> after.contains_key(a)
            &&& forall|a: B256, s: B256|
                #![trigger state.storages[a].storage.contains_key(s)]
                state.storages.contains_key(a) && state.storages[a].storage.contains_key(s)
                    ==> after.contains_key(a) && after[a].contains(s)
            &&& forall|a: B256| #[trigger]
                fetched.contains_key(a) ==> after.contains_key(a) && fetched[a].subset_of(after[a])
        }),
{
    let targets = proof_targets(state, fetched);
    let after = targets_union(fetched, targets);
    assert forall|a: B256, s: B256|
        #![trigger state.storages[a].storage.contains_key(s)]
        state.storages.contains_key(a) && state.storages[a].storage.contains_key(
            s,
        ) implies after.contains_key(a) && after[a].contains(s) by {
        if !fetched_slots(fetched, a).contains(s) {
            assert(new_slots(state, fetched, a).contains(s));
            assert(new_slots(state, fetched, a) != Set::<B256>::empty());
            assert(targets.contains_key(a));
        }
    }
}

/// Proofs that were already requested are not requested again: a state update that comes a second
/// time, after its targets have been added to the fetched ones, has no targets.
pub proof fn repeated_update_has_no_targets(
    state: HashedPostStateView,
    fetched: Map<B256, Set<B256>>,
)
    ensures
        proof_targets(state, targets_union(fetched, proof_targets(state, fetched))) == Map::<
            B256,
            Set<B256>,
        >::empty(),
{
    proof_targets_cover_the_update(state, fetched);
    let after = targets_union(fetched, proof_targets(state, fetched));
    assert forall|a: B256| !proof_targets(state, after).contains_key(a) by {
        if state.storages.contains_key(a) {
            assert forall|s: B256| !new_slots(state, after, a).contains(s) by {
                if state.storages[a].storage.contains_key(s) {
                    assert(after[a].contains(s));
                }
            }
        }
        assert(new_slots(state, after, a) =~= Set::<B256>::empty());
    }
    assert(proof_targets(state, after) =~= Map::<B256, Set<B256>>::empty());
}

/// What is left of a prefetch request belongs to the request and is not fetched yet: each slot is
/// a requested slot that has not been fetched, and an account left without slots is a requested
/// account that has not been fetched.
pub proof fn prefetch_targets_are_new(
    targets: Map<B256, Set<B256>>,
    fetched: Map<B256, Set<B256>>,
)
    ensures
        forall|a: B256, s: B256|
            #![trigger prefetch_targets(targets, fetched)[a].contains(s)]
            prefetch_targets(targets, fetched).contains_key(a) && prefetch_targets(
                targets,
                fetched,
            )[a].contains(s) ==> targets.contains_key(a) && targets[a].contains(s)
                && !fetched_slots(fetched, a).contains(s),
        forall|a: B256|
            #![trigger prefetch_targets(targets, fetched).contains_key(a)]
            prefetch_targets(targets, fetched).contains_key(a) && prefetch_targets(
                targets,
                fetched,
            )[a] == Set::<B256>::empty() ==> targets.contains_key(a) && !fetched.contains_key(a),
{
    assert forall|a: B256|
        #![trigger prefetch_targets(targets, fetched).contains_key(a)]
        prefetch_targets(targets, fetched).contains_key(a) && prefetch_targets(targets, fetched)[a]
            == Set::<B256>::empty() implies targets.contains_key(a) && !fetched.contains_key(a) by {
        if fetched.contains_key(a) {
            assert forall|s: B256| targets[a].contains(s) implies fetched[a].contains(s) by {
                assert(!prefetch_targets(targets, fetched)[a].contains(s));
            }
        }
    }
}

/// Once what is left of a prefetch request has been added, everything requested is fetched, and
/// so is everything that was fetched before.
pub proof fn prefetch_targets_cover_the_request(
    targets: Map<B256, Set<B256>>,
    fetched: Map<B256, Set<B256>>,
)
    ensures
        ({
            let after = targets_union(fetched, prefetch_targets(targets, fetched));
            &&& forall|a: B256| #[trigger]
                targets.contains_key(a) ==> after.contains_key(a) && targets[a].subset_of(after[a])
            &&& forall|a: B256| #[trigger]
                fetched.contains_key(a) ==> after.contains_key(a) && fetched[a].subset_of(after[a])
        }),
{
    let left = prefetch_targets(targets, fetched);
    let after = targets_union(fetched, left);
    assert forall|a: B256| #[trigger] targets.contains_key(a) implies after.contains_key(a)
        && targets[a].subset_of(after[a]) by {
        assert forall|s: B256| targets[a].contains(s) implies after[a].contains(s) by {
            if !fetched_slots(fetched, a).contains(s) {
                assert(left.contains_key(a));
                assert(left[a].contains(s));
            }
        }
    }
}

/// Proofs that were already requested are not requested again: nothing is left of a prefetch
/// request that comes a second time, after what was left of it has been added to the fetched
/// targets.
pub proof fn repeated_prefetch_has_no_targets(
    targets: Map<B256, Set<B256>>,
    fetched: Map<B256, Set<B256>>,
)
    ensures
        prefetch_targets(targets, targets_union(fetched, prefetch_targets(targets, fetched)))
            == Map::<B256, Set<B256>>::empty(),
{
    prefetch_targets_cover_the_request(targets, fetched);
    let after = targets_union(fetched, prefetch_targets(targets, fetched));
    assert(prefetch_targets(targets, after) =~= Map::<B256, Set<B256>>::empty());
}

/// A prefetch request for accounts none of which has been fetched is left as it is.
pub proof fn fresh_prefetch_is_kept(targets: Map<B256, Set<B256>>, fetched: Map<B256, Set<B256>>)
    requires
        forall|a: B256| #[trigger] targets.contains_key(a) ==> !fetched.contains_key(a),
    ensures
        prefetch_targets(targets, fetched) == targets,
{
    assert forall|a: B256| targets.contains_key(a) implies prefetch_targets(targets, fetched)[a]
        == targets[a] by {
        assert(targets[a].difference(Set::empty()) =~= targets[a]);
    }
    assert(prefetch_targets(targets, fetched) =~= targets);
}

/// A prefetch request and a state update are deduplicated alike: what is left of a request is what
/// a state update that changes just the requested accounts and slots asks for.
pub proof fn prefetch_and_update_are_deduplicated_alike(
    targets: Map<B256, Set<B256>>,
    state: HashedPostStateView,
    fetched: Map<B256, Set<B256>>,
)
    requires
        state.accounts.dom() == targets.dom(),
        forall|a: B256| #[trigger] state.storages.contains_key(a) ==> targets.contains_key(a),
        forall|a: B256| #[trigger]
            targets.contains_key(a) ==> targets[a] == (if state.storages.contains_key(a) {
                state.storages[a].storage.dom()
            } else {
                Set::empty()
            }),
    ensures
        prefetch_targets(targets, fetched) == proof_targets(state, fetched),
{
    let left = prefetch_targets(targets, fetched);
    let wanted = proof_targets(state, fetched);
    assert forall|a: B256|
        {
            &&& #[trigger] left.contains_key(a) <==> wanted.contains_key(a)
            &&& left.contains_key(a) ==> left[a] == wanted[a]
        } by {
        assert(state.accounts.contains_key(a) <==> targets.contains_key(a)) by {
            assert(state.accounts.dom().contains(a) <==> targets.dom().contains(a));
        }
        if targets.contains_key(a) {
            let new = new_slots(state, fetched, a);
            assert(new =~= targets[a].difference(fetched_slots(fetched, a)));
            if new == Set::<B256>::empty() && fetched.contains_key(a) {
                assert forall|s: B256| targets[a].contains(s) implies fetched[a].contains(s) by {
                    assert(!new.contains(s));
                }
            }
            if fetched.contains_key(a) && targets[a].subset_of(fetched[a]) {
                assert(new =~= Set::<B256>::empty());
            }
        }
    }
    assert(left =~= wanted);
}

/// A state update asks exactly for what it changes and was not fetched: a slot is asked for if it
/// is a changed slot of the account and is not among the fetched slots of the account; an account
/// is asked for if it is a changed account that was not fetched, or if one of its slots is asked
/// for.
pub proof fn an_update_asks_for_what_is_missing(
    state: HashedPostStateView,
    fetched: Map<B256, Set<B256>>,
    a: B256,
    s: B256,
)
    ensures
        proof_targets(state, fetched).contains_key(a) && proof_targets(state, fetched)[a].contains(
            s,
        ) <==> {
            &&& state.storages.contains_key(a)
            &&& state.storages[a].storage.contains_key(s)
            &&& !(fetched.contains_key(a) && fetched[a].contains(s))
        },
        proof_targets(state, fetched).contains_key(a) <==> {
            ||| state.accounts.contains_key(a) && !fetched.contains_key(a)
            ||| exists|t: B256| #[trigger]
                state.storages[a].storage.contains_key(t) && state.storages.contains_key(a) && !(
                fetched.contains_key(a) && fetched[a].contains(t))
        },
{
    let new = new_slots(state, fetched, a);
    if state.storages.contains_key(a) && state.storages[a].storage.contains_key(s) && !(
    fetched.contains_key(a) && fetched[a].contains(s)) {
        assert(new.contains(s));
        assert(new != Set::<B256>::empty());
    }
    if exists|t: B256| #[trigger]
        state.storages[a].storage.contains_key(t) && state.storages.contains_key(a) && !(
        fetched.contains_key(a) && fetched[a].contains(t)) {
        let t = choose|t: B256| #[trigger]
            state.storages[a].storage.contains_key(t) && state.storages.contains_key(a) && !(
            fetched.contains_key(a) && fetched[a].contains(t));
        assert(new.contains(t));
        assert(new != Set::<B256>::empty());
    }
    if new != Set::<B256>::empty() {
        if forall|t: B256| !new.contains(t) {
            assert(new =~= Set::<B256>::empty());
        }
        let t = choose|t: B256| new.contains(t);
        assert(new.contains(t));
        assert(state.storages[a].storage.contains_key(t));
    }
}

/// A prefetch asks exactly for what was requested and was not fetched: a slot is asked for if it is
/// a requested slot of the account and is not among the fetched slots of the account; an account is
/// asked for if it is a requested account that was not fetched, or if one of its slots is asked
/// for.
pub proof fn a_prefetch_asks_for_what_is_missing(
    targets: Map<B256, Set<B256>>,
    fetched: Map<B256, Set<B256>>,
    a: B256,
    s: B256,
)
    ensures
        prefetch_targets(targets, fetched).contains_key(a) && prefetch_targets(
            targets,
            fetched,
        )[a].contains(s) <==> {
            &&& targets.contains_key(a)
            &&& targets[a].contains(s)
            &&& !(fetched.contains_key(a) && fetched[a].contains(s))
        },
        prefetch_targets(targets, fetched).contains_key(a) <==> targets.contains_key(a) && {
            ||| !fetched.contains_key(a)
            ||| exists|t: B256| #[trigger] targets[a].contains(t) && !fetched[a].contains(t)
        },
{
    if targets.contains_key(a) && fetched.contains_key(a) && !targets[a].subset_of(fetched[a]) {
        let t = choose|t: B256| #[trigger] targets[a].contains(t) && !fetched[a].contains(t);
        assert(targets[a].contains(t) && !fetched[a].contains(t));
    }
}

/// The union of two sets of targets holds the accounts and the slots of both, and no others.
pub proof fn united_targets_are_those_of_both(
    first: Map<B256, Set<B256>>,
    second: Map<B256, Set<B256>>,
    a: B256,
    s: B256,
)
    ensures
        targets_union(first, second).contains_key(a) <==> first.contains_key(a)
            || second.contains_key(a),
        targets_union(first, second).contains_key(a) && targets_union(first, second)[a].contains(s)
            <==> {
            ||| first.contains_key(a) && first[a].contains(s)
            ||| second.contains_key(a) && second[a].contains(s)
        },
{
}

/// No targets have no slots, and another account adds as many slots as it has.
pub proof fn slots_are_counted_account_by_account(
    targets: Map<B256, Set<B256>>,
    account: B256,
    slots: Set<B256>,
)
    requires
        targets.dom().finite(),
        !targets.contains_key(account),
    ensures
        slot_count(Map::empty()) == 0,
        slot_count(targets.insert(account, slots)) == slot_count(targets) + slots.len(),
{
    let none = Map::<B256, Set<B256>>::empty();
    vstd::set::fold::lemma_fold_empty(0nat, count_slots(none));
    assert(none.dom() =~= Set::<B256>::empty());
    let more = targets.insert(account, slots);
    assert(more.dom() =~= targets.dom().insert(account));
    vstd::set::fold::lemma_fold_insert(targets.dom(), 0nat, count_slots(more), account);
    lemma_count_does_not_see_others(targets, targets.dom(), account, slots);
}

proof fn lemma_count_does_not_see_others(
    targets: Map<B256, Set<B256>>,
    accounts: Set<B256>,
    account: B256,
    slots: Set<B256>,
)
    requires
        accounts.finite(),
        !accounts.contains(account),
    ensures
        accounts.fold(0nat, count_slots(targets.insert(account, slots))) == accounts.fold(
            0nat,
            count_slots(targets),
        ),
    decreases accounts.len(),
{
    let more = targets.insert(account, slots);
    if accounts.len() == 0 {
        assert(accounts =~= Set::<B256>::empty());
        vstd::set::fold::lemma_fold_empty(0nat, count_slots(more));
        vstd::set::fold::lemma_fold_empty(0nat, count_slots(targets));
    } else {
        let a = accounts.choose();
        let rest = accounts.remove(a);
        lemma_count_does_not_see_others(targets, rest, account, slots);
        assert(accounts =~= rest.insert(a));
        vstd::set::fold::lemma_fold_insert(rest, 0nat, count_slots(more), a);
        vstd::set::fold::lemma_fold_insert(rest, 0nat, count_slots(targets), a);
    }
}

} // verus!
