//! Updates of the sparse trie.

use vstd::prelude::*;

use crate::hashed_state::{
    state_changes_take_effect_in_order, Account, HashedPostState, HashedPostStateView,
};
use crate::multiproof::{MultiProof, MultiProofView, NodePath};
use crate::primitives::{B256, U256};

verus! {

/// A trie update that can be applied to sparse trie alongside the proofs for touched parts of the
/// state.
#[derive(Debug)]
pub struct SparseTrieUpdate {
    /// The state update that was used to calculate the proof
    pub state: HashedPostState,
    /// The calculated multiproof
    pub multiproof: MultiProof,
}

/// What a [`SparseTrieUpdate`] holds.
#[verifier::ext_equal]
pub ghost struct SparseTrieUpdateView {
    pub state: HashedPostStateView,
    pub multiproof: MultiProofView,
}

impl View for SparseTrieUpdate {
    type V = SparseTrieUpdateView;

    open spec fn view(&self) -> SparseTrieUpdateView {
        SparseTrieUpdateView { state: self.state@, multiproof: self.multiproof@ }
    }
}

impl SparseTrieUpdateView {
    /// The update that changes and proves nothing.
    pub open spec fn empty() -> SparseTrieUpdateView {
        SparseTrieUpdateView {
            state: HashedPostStateView::empty(),
            multiproof: MultiProofView::empty(),
        }
    }

    /// Whether the update changes and proves nothing.
    pub open spec fn is_empty(self) -> bool {
        self.state.is_empty() && self.multiproof.is_empty()
    }

    /// This update followed by `next`, as one update.
    pub open spec fn followed_by(self, next: SparseTrieUpdateView) -> SparseTrieUpdateView {
        SparseTrieUpdateView {
            state: self.state.followed_by(next.state),
            multiproof: self.multiproof.joined_with(next.multiproof),
        }
    }
}

impl Default for SparseTrieUpdate {
    fn default() -> (update: SparseTrieUpdate)
        ensures
            update@ == SparseTrieUpdateView::empty(),
    {
        SparseTrieUpdate { state: HashedPostState::default(), multiproof: MultiProof::default() }
    }
}

impl SparseTrieUpdate {
    /// Returns true if the update is empty.
    pub fn is_empty(&self) -> (empty: bool)
        ensures
            empty == self@.is_empty(),
    {
        self.state.is_empty() && self.multiproof.is_empty()
    }

    /// Construct update from multiproof.
    pub fn from_multiproof(multiproof: MultiProof) -> (update: SparseTrieUpdate)
        ensures
            update.multiproof == multiproof,
            update.state@ == HashedPostStateView::empty(),
    {
        SparseTrieUpdate { state: HashedPostState::default(), multiproof }
    }

    /// Extend update with contents of the other.
    pub fn extend(&mut self, other: SparseTrieUpdate)
        ensures
            final(self)@ == old(self)@.followed_by(other@),
    {
        self.state.extend(other.state);
        self.multiproof.extend(other.multiproof);
    }
}

/// Several updates, one after the other, as one update.
pub open spec fn combined(updates: Seq<SparseTrieUpdateView>) -> SparseTrieUpdateView
    decreases updates.len(),
{
    if updates.len() == 0 {
        SparseTrieUpdateView::empty()
    } else if updates.len() == 1 {
        updates[0]
    } else {
        combined(updates.drop_last()).followed_by(updates.last())
    }
}

/// The views of the updates.
pub open spec fn update_views(updates: Seq<SparseTrieUpdate>) -> Seq<SparseTrieUpdateView> {
    Seq::new(updates.len(), |i: int| updates[i]@)
}

/// Combines updates into one, in their order; `None` if there are none.
pub fn combine(updates: Vec<SparseTrieUpdate>) -> (update: Option<SparseTrieUpdate>)
    ensures
        match update {
            Some(u) => updates@.len() > 0 && u@ == combined(update_views(updates@)),
            None => updates@.len() == 0,
        },
{
    let ghost all = updates@;
    let mut merged: Option<SparseTrieUpdate> = None;
    for next in updates_iter: updates
        invariant
            updates_iter.seq() == all,
            match merged {
                Some(m) => updates_iter.index() > 0 && m@ == combined(
                    update_views(all.take(updates_iter.index())),
                ),
                None => updates_iter.index() == 0,
            },
    {
        let ghost n = updates_iter.index();
        proof {
            let longer = update_views(all.take(n + 1));
            assert(longer.drop_last() =~= update_views(all.take(n)));
            assert(longer.last() == next@);
        }
        merged = match merged {
            None => Some(next),
            Some(mut m) => {
                m.extend(next);
                Some(m)
            },
        };
    }
    assert(all.take(all.len() as int) =~= all);
    merged
}

/// The update that changes and proves nothing leaves any update as it is, before and after it.
pub proof fn empty_update_is_neutral(update: SparseTrieUpdateView)
    ensures
        update.followed_by(SparseTrieUpdateView::empty()) == update,
        SparseTrieUpdateView::empty().followed_by(update) == update,
{
    let empty = SparseTrieUpdateView::empty();
    assert(update.followed_by(empty) =~= update) by {
        assert(update.followed_by(empty).state.accounts =~= update.state.accounts);
        assert(update.followed_by(empty).state.storages =~= update.state.storages);
        assert(update.followed_by(empty).multiproof =~= update.multiproof) by {
            assert(update.followed_by(empty).multiproof.storages =~= update.multiproof.storages);
        }
    }
    assert(empty.followed_by(update) =~= update) by {
        assert(empty.followed_by(update).state.accounts =~= update.state.accounts);
        assert(empty.followed_by(update).state.storages =~= update.state.storages);
        assert(empty.followed_by(update).multiproof =~= update.multiproof) by {
            assert(empty.followed_by(update).multiproof.storages =~= update.multiproof.storages);
        }
    }
}

/// Of three updates in a row it does not matter which two are put together first.
pub proof fn updates_combine_in_any_grouping(
    a: SparseTrieUpdateView,
    b: SparseTrieUpdateView,
    c: SparseTrieUpdateView,
)
    ensures
        a.followed_by(b).followed_by(c) == a.followed_by(b.followed_by(c)),
{
    let left = a.followed_by(b).followed_by(c);
    let right = a.followed_by(b.followed_by(c));
    assert(left.state.accounts =~= right.state.accounts);
    assert forall|k: B256| left.state.storages.contains_key(k) implies left.state.storages[k]
        == right.state.storages[k] by {
        if a.state.storages.contains_key(k) && b.state.storages.contains_key(k)
            && c.state.storages.contains_key(k) {
            let x = a.state.storages[k];
            let y = b.state.storages[k];
            let z = c.state.storages[k];
            assert(x.followed_by(y).followed_by(z) =~= x.followed_by(y.followed_by(z)));
        }
    }
    assert(left.state.storages =~= right.state.storages);
    assert(left.multiproof.account_subtree =~= right.multiproof.account_subtree);
    assert(left.multiproof.branch_node_hash_masks =~= right.multiproof.branch_node_hash_masks);
    assert(left.multiproof.branch_node_tree_masks =~= right.multiproof.branch_node_tree_masks);
    assert forall|k: B256| left.multiproof.storages.contains_key(
        k,
    ) implies left.multiproof.storages[k] == right.multiproof.storages[k] by {
        if a.multiproof.storages.contains_key(k) && b.multiproof.storages.contains_key(k)
            && c.multiproof.storages.contains_key(k) {
            let x = a.multiproof.storages[k];
            let y = b.multiproof.storages[k];
            let z = c.multiproof.storages[k];
            assert(x.joined_with(y).joined_with(z) =~= x.joined_with(y.joined_with(z)));
        }
    }
    assert(left.multiproof.storages =~= right.multiproof.storages);
    assert(left =~= right);
}

/// It does not matter into which batches a row of updates is cut: putting together the updates
/// put together of two batches is putting together all of them.
pub proof fn updates_combine_in_any_batches(
    first: Seq<SparseTrieUpdateView>,
    second: Seq<SparseTrieUpdateView>,
)
    ensures
        combined(first + second) == combined(first).followed_by(combined(second)),
    decreases second.len(),
{
    let all = first + second;
    if second.len() == 0 {
        assert(all =~= first);
        empty_update_is_neutral(combined(first));
    } else if first.len() == 0 {
        assert(all =~= second);
        empty_update_is_neutral(combined(second));
    } else {
        let init = second.drop_last();
        assert(all.drop_last() =~= first + init);
        assert(all.last() == second.last());
        updates_combine_in_any_batches(first, init);
        if init.len() == 0 {
            assert(first + init =~= first);
        } else {
            updates_combine_in_any_grouping(combined(first), combined(init), second.last());
        }
    }
}

/// It does not matter into how many batches a row of updates is cut, and where.
pub proof fn updates_combine_in_any_cut(batches: Seq<Seq<SparseTrieUpdateView>>)
    ensures
        combined(Seq::new(batches.len(), |i: int| combined(batches[i]))) == combined(
            batches.flatten(),
        ),
    decreases batches.len(),
{
    let together = Seq::new(batches.len(), |i: int| combined(batches[i]));
    if batches.len() > 0 {
        let earlier = batches.drop_last();
        let before = Seq::new(earlier.len(), |i: int| combined(earlier[i]));
        let last = seq![combined(batches.last())];
        updates_combine_in_any_cut(earlier);
        assert(together =~= before + last);
        updates_combine_in_any_batches(before, last);
        assert(batches =~= earlier.push(batches.last()));
        earlier.lemma_flatten_push(batches.last());
        updates_combine_in_any_batches(earlier.flatten(), batches.last());
    }
}

/// An account after the updates, one after the other.
pub open spec fn account_after_all(
    updates: Seq<SparseTrieUpdateView>,
    address: B256,
    account: Option<Account>,
) -> Option<Account>
    decreases updates.len(),
{
    if updates.len() == 0 {
        account
    } else {
        updates.last().state.account_after(
            address,
            account_after_all(updates.drop_last(), address, account),
        )
    }
}

/// The storage slots of an account after the updates, one after the other.
pub open spec fn slots_after_all(
    updates: Seq<SparseTrieUpdateView>,
    address: B256,
    slots: Map<B256, U256>,
) -> Map<B256, U256>
    decreases updates.len(),
{
    if updates.len() == 0 {
        slots
    } else {
        updates.last().state.slots_after(
            address,
            slots_after_all(updates.drop_last(), address, slots),
        )
    }
}

/// Updates put together have the effect of all of them, one after the other, on every account and
/// on every storage.
pub proof fn combined_update_has_the_effect_of_all(
    updates: Seq<SparseTrieUpdateView>,
    address: B256,
    account: Option<Account>,
    slots: Map<B256, U256>,
)
    ensures
        combined(updates).state.account_after(address, account) == account_after_all(
            updates,
            address,
            account,
        ),
        combined(updates).state.slots_after(address, slots) == slots_after_all(
            updates,
            address,
            slots,
        ),
    decreases updates.len(),
{
    reveal_with_fuel(account_after_all, 2);
    reveal_with_fuel(slots_after_all, 2);
    if updates.len() == 1 {
        assert(updates.drop_last().len() == 0);
    } else if updates.len() > 1 {
        let earlier = updates.drop_last();
        combined_update_has_the_effect_of_all(earlier, address, account, slots);
        state_changes_take_effect_in_order(
            combined(earlier).state,
            updates.last().state,
            address,
            account,
            slots,
        );
    }
}

/// Updates put together are empty exactly if each of them is.
pub proof fn combined_update_is_empty_if_all_are(updates: Seq<SparseTrieUpdateView>)
    ensures
        combined(updates).is_empty() <==> forall|i: int|
            0 <= i < updates.len() ==> (#[trigger] updates[i]).is_empty(),
    decreases updates.len(),
{
    if updates.len() == 0 {
        assert(combined(updates).state.accounts.dom() =~= Set::<B256>::empty());
        assert(combined(updates).state.storages.dom() =~= Set::<B256>::empty());
        assert(combined(updates).multiproof.account_subtree.dom() =~= Set::<NodePath>::empty());
        assert(combined(updates).multiproof.branch_node_hash_masks.dom() =~= Set::<
            NodePath,
        >::empty());
        assert(combined(updates).multiproof.branch_node_tree_masks.dom() =~= Set::<
            NodePath,
        >::empty());
        assert(combined(updates).multiproof.storages.dom() =~= Set::<B256>::empty());
    } else if updates.len() == 1 {
        assert(combined(updates) == updates[0]);
    } else {
        let init = updates.drop_last();
        combined_update_is_empty_if_all_are(init);
        let a = combined(init);
        let b = updates.last();
        let both = a.followed_by(b);
        assert(both.state.accounts.dom() =~= a.state.accounts.dom().union(b.state.accounts.dom()));
        assert(both.state.storages.dom() =~= a.state.storages.dom().union(b.state.storages.dom()));
        assert(both.multiproof.account_subtree.dom() =~= a.multiproof.account_subtree.dom().union(
            b.multiproof.account_subtree.dom(),
        ));
        assert(both.multiproof.branch_node_hash_masks.dom()
            =~= a.multiproof.branch_node_hash_masks.dom().union(
            b.multiproof.branch_node_hash_masks.dom(),
        ));
        assert(both.multiproof.branch_node_tree_masks.dom()
            =~= a.multiproof.branch_node_tree_masks.dom().union(
            b.multiproof.branch_node_tree_masks.dom(),
        ));
        assert(both.multiproof.storages.dom() =~= a.multiproof.storages.dom().union(
            b.multiproof.storages.dom(),
        ));
        lemma_union_is_empty(a.state.accounts.dom(), b.state.accounts.dom());
        lemma_union_is_empty(a.state.storages.dom(), b.state.storages.dom());
        lemma_union_is_empty(a.multiproof.account_subtree.dom(), b.multiproof.account_subtree.dom());
        lemma_union_is_empty(
            a.multiproof.branch_node_hash_masks.dom(),
            b.multiproof.branch_node_hash_masks.dom(),
        );
        lemma_union_is_empty(
            a.multiproof.branch_node_tree_masks.dom(),
            b.multiproof.branch_node_tree_masks.dom(),
        );
        lemma_union_is_empty(a.multiproof.storages.dom(), b.multiproof.storages.dom());
        assert(both.is_empty() <==> a.is_empty() && b.is_empty());
        if forall|i: int| 0 <= i < updates.len() ==> (#[trigger] updates[i]).is_empty() {
            assert forall|i: int| 0 <= i < init.len() implies (#[trigger] init[i]).is_empty() by {
                assert(updates[i].is_empty());
            }
            assert(updates[updates.len() - 1].is_empty());
        }
        if both.is_empty() {
            assert forall|i: int| 0 <= i < updates.len() implies (
            #[trigger] updates[i]).is_empty() by {
                if i < init.len() {
                    assert(init[i].is_empty());
                }
            }
        }
    }
}

proof fn lemma_union_is_empty<A>(a: Set<A>, b: Set<A>)
    ensures
        a.union(b) == Set::<A>::empty() <==> a == Set::<A>::empty() && b == Set::<A>::empty(),
{
    if a.union(b) == Set::<A>::empty() {
        assert forall|x: A| !a.contains(x) && !b.contains(x) by {
            assert(!a.union(b).contains(x));
        }
        assert(a =~= Set::<A>::empty());
        assert(b =~= Set::<A>::empty());
    }
    if a == Set::<A>::empty() && b == Set::<A>::empty() {
        assert(a.union(b) =~= Set::<A>::empty());
    }
}

/// `map` unites `maps`: it holds the keys of all of them and no others, each with the value that
/// the last of the maps holding the key gives it.
pub open spec fn unites<K, V>(map: Map<K, V>, maps: Seq<Map<K, V>>) -> bool {
    &&& forall|k: K| #[trigger]
        map.contains_key(k) <==> exists|i: int|
            0 <= i < maps.len() && (#[trigger] maps[i]).contains_key(k)
    &&& forall|k: K, i: int|
        #![trigger maps[i].contains_key(k)]
        0 <= i < maps.len() && maps[i].contains_key(k) && (forall|j: int|
            i < j < maps.len() ==> !(#[trigger] maps[j]).contains_key(k)) ==> map[k] == maps[i][k]
}

/// The nodes that the update holds for the storage trie of an account.
pub open spec fn storage_nodes(update: SparseTrieUpdateView, address: B256) -> Map<
    NodePath,
    Vec<u8>,
> {
    if update.multiproof.storages.contains_key(address) {
        update.multiproof.storages[address].subtree
    } else {
        Map::empty()
    }
}

/// The hash masks that the update holds for the storage trie of an account.
pub open spec fn storage_hash_masks(update: SparseTrieUpdateView, address: B256) -> Map<
    NodePath,
    u16,
> {
    if update.multiproof.storages.contains_key(address) {
        update.multiproof.storages[address].branch_node_hash_masks
    } else {
        Map::empty()
    }
}

/// The tree masks that the update holds for the storage trie of an account.
pub open spec fn storage_tree_masks(update: SparseTrieUpdateView, address: B256) -> Map<
    NodePath,
    u16,
> {
    if update.multiproof.storages.contains_key(address) {
        update.multiproof.storages[address].branch_node_tree_masks
    } else {
        Map::empty()
    }
}

/// Nothing is lost when updates are put together: of the account nodes, of the masks, of the nodes
/// and masks of each storage and of the changed accounts, the combined update holds those of all
/// updates and no others, where of two under one key the later one stays.
pub proof fn combined_update_holds_all_of_the_parts(
    updates: Seq<SparseTrieUpdateView>,
    address: B256,
)
    ensures
        unites(
            combined(updates).multiproof.account_subtree,
            Seq::new(updates.len(), |i: int| updates[i].multiproof.account_subtree),
        ),
        unites(
            combined(updates).multiproof.branch_node_hash_masks,
            Seq::new(updates.len(), |i: int| updates[i].multiproof.branch_node_hash_masks),
        ),
        unites(
            combined(updates).multiproof.branch_node_tree_masks,
            Seq::new(updates.len(), |i: int| updates[i].multiproof.branch_node_tree_masks),
        ),
        unites(
            storage_nodes(combined(updates), address),
            Seq::new(updates.len(), |i: int| storage_nodes(updates[i], address)),
        ),
        unites(
            storage_hash_masks(combined(updates), address),
            Seq::new(updates.len(), |i: int| storage_hash_masks(updates[i], address)),
        ),
        unites(
            storage_tree_masks(combined(updates), address),
            Seq::new(updates.len(), |i: int| storage_tree_masks(updates[i], address)),
        ),
        unites(
            combined(updates).state.accounts,
            Seq::new(updates.len(), |i: int| updates[i].state.accounts),
        ),
    decreases updates.len(),
{
    let all = combined(updates);
    if updates.len() == 1 {
        assert(all == updates[0]);
        lemma_one_unites(Seq::new(updates.len(), |i: int| updates[i].multiproof.account_subtree));
        lemma_one_unites(
            Seq::new(updates.len(), |i: int| updates[i].multiproof.branch_node_hash_masks),
        );
        lemma_one_unites(
            Seq::new(updates.len(), |i: int| updates[i].multiproof.branch_node_tree_masks),
        );
        lemma_one_unites(Seq::new(updates.len(), |i: int| storage_nodes(updates[i], address)));
        lemma_one_unites(Seq::new(updates.len(), |i: int| storage_hash_masks(updates[i], address)));
        lemma_one_unites(Seq::new(updates.len(), |i: int| storage_tree_masks(updates[i], address)));
        lemma_one_unites(Seq::new(updates.len(), |i: int| updates[i].state.accounts));
    } else if updates.len() > 1 {
        let init = updates.drop_last();
        let a = combined(init);
        let b = updates.last();
        combined_update_holds_all_of_the_parts(init, address);
        assert(all == a.followed_by(b));
        lemma_unites(
            a.multiproof.account_subtree,
            Seq::new(init.len(), |i: int| init[i].multiproof.account_subtree),
            b.multiproof.account_subtree,
            Seq::new(updates.len(), |i: int| updates[i].multiproof.account_subtree),
        );
        lemma_unites(
            a.multiproof.branch_node_hash_masks,
            Seq::new(init.len(), |i: int| init[i].multiproof.branch_node_hash_masks),
            b.multiproof.branch_node_hash_masks,
            Seq::new(updates.len(), |i: int| updates[i].multiproof.branch_node_hash_masks),
        );
        lemma_unites(
            a.multiproof.branch_node_tree_masks,
            Seq::new(init.len(), |i: int| init[i].multiproof.branch_node_tree_masks),
            b.multiproof.branch_node_tree_masks,
            Seq::new(updates.len(), |i: int| updates[i].multiproof.branch_node_tree_masks),
        );
        lemma_unites(
            a.state.accounts,
            Seq::new(init.len(), |i: int| init[i].state.accounts),
            b.state.accounts,
            Seq::new(updates.len(), |i: int| updates[i].state.accounts),
        );
        lemma_unites(
            storage_nodes(a, address),
            Seq::new(init.len(), |i: int| storage_nodes(init[i], address)),
            storage_nodes(b, address),
            Seq::new(updates.len(), |i: int| storage_nodes(updates[i], address)),
        );
        lemma_unites(
            storage_hash_masks(a, address),
            Seq::new(init.len(), |i: int| storage_hash_masks(init[i], address)),
            storage_hash_masks(b, address),
            Seq::new(updates.len(), |i: int| storage_hash_masks(updates[i], address)),
        );
        lemma_unites(
            storage_tree_masks(a, address),
            Seq::new(init.len(), |i: int| storage_tree_masks(init[i], address)),
            storage_tree_masks(b, address),
            Seq::new(updates.len(), |i: int| storage_tree_masks(updates[i], address)),
        );
        assert(storage_nodes(all, address) =~= storage_nodes(a, address).union_prefer_right(
            storage_nodes(b, address),
        ));
        assert(storage_hash_masks(all, address) =~= storage_hash_masks(
            a,
            address,
        ).union_prefer_right(storage_hash_masks(b, address)));
        assert(storage_tree_masks(all, address) =~= storage_tree_masks(
            a,
            address,
        ).union_prefer_right(storage_tree_masks(b, address)));
    }
}

/// The combined update has a changed storage, or a storage proof, for exactly the accounts that one
/// of the updates has one for.
pub proof fn combined_update_keeps_every_storage(
    updates: Seq<SparseTrieUpdateView>,
    address: B256,
)
    ensures
        combined(updates).state.storages.contains_key(address) <==> exists|i: int|
            0 <= i < updates.len() && (#[trigger] updates[i]).state.storages.contains_key(address),
        combined(updates).multiproof.storages.contains_key(address) <==> exists|i: int|
            0 <= i < updates.len() && (#[trigger] updates[i]).multiproof.storages.contains_key(
                address,
            ),
    decreases updates.len(),
{
    let all = combined(updates);
    if updates.len() == 1 {
        assert(all == updates[0]);
    } else if updates.len() > 1 {
        let init = updates.drop_last();
        let a = combined(init);
        let n = updates.len() - 1;
        combined_update_keeps_every_storage(init, address);
        assert(all.state.storages.contains_key(address) <==> a.state.storages.contains_key(address)
            || updates[n].state.storages.contains_key(address));
        assert(all.multiproof.storages.contains_key(address)
            <==> a.multiproof.storages.contains_key(address)
            || updates[n].multiproof.storages.contains_key(address));
        if a.state.storages.contains_key(address) {
            let i = choose|i: int|
                0 <= i < init.len() && (#[trigger] init[i]).state.storages.contains_key(address);
            assert(updates[i].state.storages.contains_key(address));
        }
        if exists|i: int|
            0 <= i < updates.len() && (#[trigger] updates[i]).state.storages.contains_key(
                address,
            ) {
            let i = choose|i: int|
                0 <= i < updates.len() && (#[trigger] updates[i]).state.storages.contains_key(
                    address,
                );
            if i < n {
                assert(init[i].state.storages.contains_key(address));
            }
        }
        if a.multiproof.storages.contains_key(address) {
            let i = choose|i: int|
                0 <= i < init.len() && (#[trigger] init[i]).multiproof.storages.contains_key(
                    address,
                );
            assert(updates[i].multiproof.storages.contains_key(address));
        }
        if exists|i: int|
            0 <= i < updates.len() && (#[trigger] updates[i]).multiproof.storages.contains_key(
                address,
            ) {
            let i = choose|i: int|
                0 <= i < updates.len() && (#[trigger] updates[i]).multiproof.storages.contains_key(
                    address,
                );
            if i < n {
                assert(init[i].multiproof.storages.contains_key(address));
            }
        }
    }
}

/// The root of a storage proof of the combined update is that of the first update that has a
/// storage proof for the account.
pub proof fn combined_update_keeps_the_first_storage_root(
    updates: Seq<SparseTrieUpdateView>,
    address: B256,
    first: int,
)
    requires
        0 <= first < updates.len(),
        updates[first].multiproof.storages.contains_key(address),
        forall|j: int|
            0 <= j < first ==> !(#[trigger] updates[j]).multiproof.storages.contains_key(address),
    ensures
        combined(updates).multiproof.storages[address].root
            == updates[first].multiproof.storages[address].root,
    decreases updates.len(),
{
    if updates.len() > 1 {
        let init = updates.drop_last();
        combined_update_keeps_every_storage(init, address);
        if first < init.len() {
            assert(init[first] == updates[first]);
            assert forall|j: int| 0 <= j < first implies !(
            #[trigger] init[j]).multiproof.storages.contains_key(address) by {
                assert(!updates[j].multiproof.storages.contains_key(address));
            }
            combined_update_keeps_the_first_storage_root(init, address, first);
        } else if combined(init).multiproof.storages.contains_key(address) {
            let j = choose|j: int|
                0 <= j < init.len() && (#[trigger] init[j]).multiproof.storages.contains_key(
                    address,
                );
            assert(updates[j].multiproof.storages.contains_key(address));
        }
    }
}

/// An update is empty exactly if it holds no changed account, no changed storage, no node, no mask
/// and no storage proof; and the empty update is.
pub proof fn an_empty_update_holds_nothing(update: SparseTrieUpdateView)
    ensures
        SparseTrieUpdateView::empty().is_empty(),
        update.is_empty() <==> {
            &&& forall|k: B256| !#[trigger] update.state.accounts.contains_key(k)
            &&& forall|k: B256| !#[trigger] update.state.storages.contains_key(k)
            &&& forall|p: NodePath| !#[trigger] update.multiproof.account_subtree.contains_key(p)
            &&& forall|p: NodePath|
                !#[trigger] update.multiproof.branch_node_hash_masks.contains_key(p)
            &&& forall|p: NodePath|
                !#[trigger] update.multiproof.branch_node_tree_masks.contains_key(p)
            &&& forall|k: B256| !#[trigger] update.multiproof.storages.contains_key(k)
        },
{
    lemma_no_keys(update.state.accounts);
    lemma_no_keys(update.state.storages);
    lemma_no_keys(update.multiproof.account_subtree);
    lemma_no_keys(update.multiproof.branch_node_hash_masks);
    lemma_no_keys(update.multiproof.branch_node_tree_masks);
    lemma_no_keys(update.multiproof.storages);
}

proof fn lemma_no_keys<K, V>(map: Map<K, V>)
    ensures
        map.dom() == Set::<K>::empty() <==> forall|k: K| !#[trigger] map.contains_key(k),
{
    if forall|k: K| !#[trigger] map.contains_key(k) {
        assert(map.dom() =~= Set::<K>::empty());
    }
    if map.dom() == Set::<K>::empty() {
        assert forall|k: K| !#[trigger] map.contains_key(k) by {
            assert(!map.dom().contains(k));
        }
    }
}

proof fn lemma_one_unites<K, V>(maps: Seq<Map<K, V>>)
    requires
        maps.len() == 1,
    ensures
        unites(maps[0], maps),
{
    assert forall|k: K| #[trigger] maps[0].contains_key(k) implies exists|i: int|
        0 <= i < maps.len() && (#[trigger] maps[i]).contains_key(k) by {
        assert(maps[0].contains_key(k));
    }
}

proof fn lemma_unites<K, V>(a: Map<K, V>, maps: Seq<Map<K, V>>, b: Map<K, V>, all: Seq<Map<K, V>>)
    requires
        unites(a, maps),
        all =~= maps.push(b),
    ensures
        unites(a.union_prefer_right(b), all),
{
    let both = a.union_prefer_right(b);
    let n = maps.len() as int;
    assert forall|k: K| #[trigger] both.contains_key(k) <==> exists|i: int|
        0 <= i < all.len() && (#[trigger] all[i]).contains_key(k) by {
        if a.contains_key(k) {
            let i = choose|i: int| 0 <= i < maps.len() && (#[trigger] maps[i]).contains_key(k);
            assert(all[i].contains_key(k));
        }
        if b.contains_key(k) {
            assert(all[n].contains_key(k));
        }
        if exists|i: int| 0 <= i < all.len() && (#[trigger] all[i]).contains_key(k) {
            let i = choose|i: int| 0 <= i < all.len() && (#[trigger] all[i]).contains_key(k);
            if i < n {
                assert(maps[i].contains_key(k));
            }
        }
    }
    assert forall|k: K, i: int|
        #![trigger all[i].contains_key(k)]
        0 <= i < all.len() && all[i].contains_key(k) && (forall|j: int|
            i < j < all.len() ==> !(#[trigger] all[j]).contains_key(k)) implies both[k]
        == all[i][k] by {
        if i < n {
            assert(!all[n].contains_key(k));
            assert(maps[i].contains_key(k));
            assert forall|j: int| i < j < maps.len() implies !(#[trigger] maps[j]).contains_key(
                k,
            ) by {
                assert(!all[j].contains_key(k));
            }
        }
    }
}

/// The update wipes the storage of the account.
pub open spec fn wipes_storage(update: SparseTrieUpdateView, address: B256) -> bool {
    update.state.storages.contains_key(address) && update.state.storages[address].wiped
}

/// The update changes the slot of the account.
pub open spec fn changes_slot(update: SparseTrieUpdateView, address: B256, slot: B256) -> bool {
    update.state.storages.contains_key(address)
        && update.state.storages[address].storage.contains_key(slot)
}

proof fn lemma_followed_storage(
    a: SparseTrieUpdateView,
    b: SparseTrieUpdateView,
    address: B256,
    slot: B256,
)
    ensures
        ({
            let both = a.followed_by(b);
            &&& wipes_storage(both, address) <==> wipes_storage(a, address) || wipes_storage(
                b,
                address,
            )
            &&& changes_slot(both, address, slot) <==> changes_slot(b, address, slot) || (
            changes_slot(a, address, slot) && !wipes_storage(b, address))
            &&& changes_slot(b, address, slot) ==> both.state.storages[address].storage[slot]
                == b.state.storages[address].storage[slot]
            &&& changes_slot(a, address, slot) && !wipes_storage(b, address) && !changes_slot(
                b,
                address,
                slot,
            ) ==> both.state.storages[address].storage[slot]
                == a.state.storages[address].storage[slot]
        }),
{
}

/// The combined update wipes a storage exactly if one of the updates does.
pub proof fn combined_update_wipes_if_one_does(
    updates: Seq<SparseTrieUpdateView>,
    address: B256,
)
    ensures
        wipes_storage(combined(updates), address) <==> exists|i: int|
            0 <= i < updates.len() && #[trigger] wipes_storage(updates[i], address),
    decreases updates.len(),
{
    let all = combined(updates);
    if updates.len() == 1 {
        assert(all == updates[0]);
        assert(wipes_storage(updates[0], address) == wipes_storage(all, address));
    } else if updates.len() > 1 {
        let init = updates.drop_last();
        let n = updates.len() - 1;
        combined_update_wipes_if_one_does(init, address);
        lemma_followed_storage(combined(init), updates[n], address, address);
        if wipes_storage(combined(init), address) {
            let i = choose|i: int|
                0 <= i < init.len() && #[trigger] wipes_storage(init[i], address);
            assert(wipes_storage(updates[i], address));
        }
        if exists|i: int| 0 <= i < updates.len() && #[trigger] wipes_storage(updates[i], address) {
            let i = choose|i: int|
                0 <= i < updates.len() && #[trigger] wipes_storage(updates[i], address);
            if i < n {
                assert(wipes_storage(init[i], address));
            }
        }
    }
}

/// The update changes the slot, and none of those after it wipes the storage.
pub open spec fn change_is_kept(
    updates: Seq<SparseTrieUpdateView>,
    address: B256,
    slot: B256,
    i: int,
) -> bool {
    &&& 0 <= i < updates.len()
    &&& changes_slot(updates[i], address, slot)
    &&& forall|j: int| i < j < updates.len() ==> !wipes_storage(#[trigger] updates[j], address)
}

/// The combined update changes a slot exactly if one of the updates does after which none wipes the
/// storage, and gives it the value of the last of those.
pub proof fn combined_update_keeps_the_slots_since_the_last_wipe(
    updates: Seq<SparseTrieUpdateView>,
    address: B256,
    slot: B256,
)
    ensures
        changes_slot(combined(updates), address, slot) <==> exists|i: int| #[trigger]
            change_is_kept(updates, address, slot, i),
        forall|i: int| #[trigger]
            change_is_kept(updates, address, slot, i) && (forall|j: int|
                i < j < updates.len() ==> !changes_slot(#[trigger] updates[j], address, slot))
                ==> combined(updates).state.storages[address].storage[slot]
                == updates[i].state.storages[address].storage[slot],
    decreases updates.len(),
{
    let all = combined(updates);
    if updates.len() == 1 {
        assert(all == updates[0]);
        if changes_slot(all, address, slot) {
            assert(change_is_kept(updates, address, slot, 0));
        }
    } else if updates.len() > 1 {
        let init = updates.drop_last();
        let n = updates.len() - 1;
        let a = combined(init);
        combined_update_keeps_the_slots_since_the_last_wipe(init, address, slot);
        lemma_followed_storage(a, updates[n], address, slot);
        assert forall|i: int| 0 <= i < n implies (#[trigger] change_is_kept(
            updates,
            address,
            slot,
            i,
        ) <==> change_is_kept(init, address, slot, i) && !wipes_storage(updates[n], address)) by {
            assert(init[i] == updates[i]);
            if change_is_kept(updates, address, slot, i) {
                assert forall|j: int| i < j < init.len() implies !wipes_storage(
                    #[trigger] init[j],
                    address,
                ) by {
                    assert(!wipes_storage(updates[j], address));
                }
            }
            if change_is_kept(init, address, slot, i) && !wipes_storage(updates[n], address) {
                assert forall|j: int| i < j < updates.len() implies !wipes_storage(
                    #[trigger] updates[j],
                    address,
                ) by {
                    if j < n {
                        assert(!wipes_storage(init[j], address));
                    }
                }
            }
        }
        if changes_slot(all, address, slot) {
            if changes_slot(updates[n], address, slot) {
                assert(change_is_kept(updates, address, slot, n));
            } else {
                let i = choose|i: int| #[trigger] change_is_kept(init, address, slot, i);
                assert(change_is_kept(updates, address, slot, i));
            }
        }
        if exists|i: int| #[trigger] change_is_kept(updates, address, slot, i) {
            let i = choose|i: int| #[trigger] change_is_kept(updates, address, slot, i);
            if i < n {
                assert(change_is_kept(init, address, slot, i));
            }
        }
        assert forall|i: int| #[trigger]
            change_is_kept(updates, address, slot, i) && (forall|j: int|
                i < j < updates.len() ==> !changes_slot(
                    #[trigger] updates[j],
                    address,
                    slot,
                )) implies all.state.storages[address].storage[slot]
            == updates[i].state.storages[address].storage[slot] by {
            if i < n {
                assert(change_is_kept(init, address, slot, i));
                assert(!changes_slot(updates[n], address, slot));
                assert(init[i] == updates[i]);
                assert forall|j: int| i < j < init.len() implies !changes_slot(
                    #[trigger] init[j],
                    address,
                    slot,
                ) by {
                    assert(!changes_slot(updates[j], address, slot));
                }
            }
        }
    }
}

} // verus!
