//! From the state updates that come in as messages to the state that the sparse trie ends in.

use vstd::prelude::*;

use revm_state::EvmState;

use crate::evm::{
    addresses_hash_apart, evm_state_contents, hashed_changes_are_those_of_the_touched_accounts,
    hashed_entries, reads_state, slots_hash_apart, EvmAccount, EvmAccountView,
};
use crate::hashed_state::{Account, HashedPostStateView};
use crate::lifecycle::{
    arrivals, at_the_start, carried_out, come_in, messages_came_in, on_the_way_after,
    proofs_came_in, requests_are_kept_track_of, runs_are_kept_track_of, sent_updates,
    sent_updates_amount_to_the_delivered, state_after, MessageStep, ProofStep,
};
use crate::manager::{dispatches, MultiproofDispatch, MultiproofInput};
use crate::message::StateRootMessage;
use crate::multiproof::MultiProofView;
use crate::primitives::{
    keccak256_of, nibbles_of, rlp_of_u256, Address, B256, KECCAK_EMPTY, U256,
};
use crate::sequencer::{arrived, deliveries, proofs_are_delivered_in_order};
use crate::sparse_trie::{
    account_or_empty, is_trie_of, leaves_after_all, operations_carry_a_row_of_updates_over,
    received_in, rounds_cover_what_was_received, rounds_ran, stands_for, trie_account_after_all,
    SparseTrieOps, SparseTrieRound,
};
use crate::task::{
    end_reached, proof_handled, state_update_handled, RunAction, RunProgress, StateRootTask,
};
use crate::update::{
    account_after_all, combined, combined_update_has_the_effect_of_all, slots_after_all,
    update_views, SparseTrieUpdate, SparseTrieUpdateView,
};

verus! {

/// `state` holds the hashed changes of a state update, read in some order.
pub open spec fn hashes_update(update: EvmState, state: HashedPostStateView) -> bool {
    exists|entries: Seq<(Address, EvmAccount)>| #[trigger]
        reads_state(entries, evm_state_contents(update)) && state == hashed_entries(entries)
}

/// `state` is what the state update of the step was hashed to when it was handled.
pub open spec fn hashed_in_step<Source, Updates>(
    step: MessageStep<Source, Updates>,
    state: HashedPostStateView,
) -> bool {
    &&& step.message matches Some(StateRootMessage::StateUpdate(source, update))
        && step.action matches RunAction::Dispatch(dispatch) && hashes_update(update, state)
        && state_update_handled(
        step.before.0.fetched_proof_targets@,
        step.before.0.multiproof_manager@,
        source,
        state,
        step.before.0.proof_sequencer.next_sequence,
        step.after.0,
        dispatch,
    )
}

/// What the state update of the step was hashed to when it was handled.
pub open spec fn hashed_update<Source, Updates>(
    step: MessageStep<Source, Updates>,
) -> HashedPostStateView {
    choose|state: HashedPostStateView| hashed_in_step(step, state)
}

/// The state updates that came in, in the order of their arrival.
pub open spec fn state_updates<Source, Updates>(steps: Seq<MessageStep<Source, Updates>>) -> Seq<
    EvmState,
>
    decreases steps.len(),
{
    if steps.len() == 0 {
        Seq::empty()
    } else {
        match steps.last().message {
            Some(StateRootMessage::StateUpdate(_, update)) => state_updates(
                steps.drop_last(),
            ).push(update),
            _ => state_updates(steps.drop_last()),
        }
    }
}

/// What the state updates that came in were hashed to, in the order of their arrival.
pub open spec fn hashed_updates<Source, Updates>(
    steps: Seq<MessageStep<Source, Updates>>,
) -> Seq<HashedPostStateView>
    decreases steps.len(),
{
    if steps.len() == 0 {
        Seq::empty()
    } else {
        match steps.last().message {
            Some(StateRootMessage::StateUpdate(_, _)) => hashed_updates(steps.drop_last()).push(
                hashed_update(steps.last()),
            ),
            _ => hashed_updates(steps.drop_last()),
        }
    }
}

/// The state changes that the requested proofs are for, by number: none for a prefetch.
pub open spec fn requested_states<Source, Updates>(
    steps: Seq<MessageStep<Source, Updates>>,
) -> Seq<HashedPostStateView>
    decreases steps.len(),
{
    if steps.len() == 0 {
        Seq::empty()
    } else {
        match steps.last().message {
            Some(StateRootMessage::StateUpdate(_, _)) => requested_states(steps.drop_last()).push(
                hashed_update(steps.last()),
            ),
            Some(StateRootMessage::PrefetchProofs(_)) => requested_states(steps.drop_last()).push(
                HashedPostStateView::empty(),
            ),
            _ => requested_states(steps.drop_last()),
        }
    }
}

/// The state changes that were handed out with an empty proof to be sent back or with a calculation
/// to be started, by number.
pub open spec fn handed_out<Source, Updates>(steps: Seq<MessageStep<Source, Updates>>) -> Map<
    u64,
    HashedPostStateView,
>
    decreases steps.len(),
{
    if steps.len() == 0 {
        Map::empty()
    } else {
        let earlier = handed_out(steps.drop_last());
        match steps.last().action {
            RunAction::Dispatch(MultiproofDispatch::EmptyProof { sequence_number, state }) =>
                earlier.insert(sequence_number, state@),
            RunAction::Dispatch(MultiproofDispatch::Spawn(input)) => earlier.insert(
                input.proof_sequence_number,
                input.hashed_state_update@,
            ),
            RunAction::Proof { started: Some(input), .. } => earlier.insert(
                input.proof_sequence_number,
                input.hashed_state_update@,
            ),
            _ => earlier,
        }
    }
}

/// Every proof that came in carries the state changes that were handed out under its number.
pub open spec fn proofs_carry_their_states<Source, Updates>(
    steps: Seq<MessageStep<Source, Updates>>,
) -> bool
    decreases steps.len(),
{
    steps.len() > 0 ==> {
        let earlier = steps.drop_last();
        &&& proofs_carry_their_states(earlier)
        &&& match steps.last().message {
            Some(StateRootMessage::EmptyProof { sequence_number, state }) => state@ == handed_out(
                earlier,
            )[sequence_number],
            Some(StateRootMessage::ProofCalculated(proof)) => proof.update@.state == handed_out(
                earlier,
            )[proof.sequence_number],
            _ => true,
        }
    }
}

/// The updates that were sent to the sparse trie, in order.
pub open spec fn sent<Source, Updates>(steps: Seq<MessageStep<Source, Updates>>) -> Seq<
    SparseTrieUpdateView,
>
    decreases steps.len(),
{
    if steps.len() == 0 {
        Seq::empty()
    } else {
        match steps.last().action {
            RunAction::Proof { update: Some(update), .. } => sent(steps.drop_last()).push(update@),
            _ => sent(steps.drop_last()),
        }
    }
}

/// An account after the state changes, one after the other.
pub open spec fn account_after_states(
    states: Seq<HashedPostStateView>,
    address: B256,
    account: Option<Account>,
) -> Option<Account>
    decreases states.len(),
{
    if states.len() == 0 {
        account
    } else {
        states.last().account_after(
            address,
            account_after_states(states.drop_last(), address, account),
        )
    }
}

/// The storage slots of an account after the state changes, one after the other.
pub open spec fn slots_after_states(
    states: Seq<HashedPostStateView>,
    address: B256,
    slots: Map<B256, U256>,
) -> Map<B256, U256>
    decreases states.len(),
{
    if states.len() == 0 {
        slots
    } else {
        states.last().slots_after(address, slots_after_states(states.drop_last(), address, slots))
    }
}

proof fn lemma_effect_of_states(
    updates: Seq<SparseTrieUpdateView>,
    states: Seq<HashedPostStateView>,
    address: B256,
    account: Option<Account>,
    slots: Map<B256, U256>,
)
    requires
        updates.len() == states.len(),
        forall|i: int| 0 <= i < updates.len() ==> (#[trigger] updates[i]).state == states[i],
    ensures
        account_after_all(updates, address, account) == account_after_states(
            states,
            address,
            account,
        ),
        slots_after_all(updates, address, slots) == slots_after_states(states, address, slots),
    decreases updates.len(),
{
    if updates.len() > 0 {
        assert forall|i: int| 0 <= i < updates.len() - 1 implies (
        #[trigger] updates.drop_last()[i]).state == states.drop_last()[i] by {
            assert(updates[i].state == states[i]);
        }
        assert(updates[updates.len() - 1].state == states[states.len() - 1]);
        lemma_effect_of_states(updates.drop_last(), states.drop_last(), address, account, slots);
    }
}

proof fn lemma_prefetches_change_nothing<Source, Updates>(
    steps: Seq<MessageStep<Source, Updates>>,
    address: B256,
    account: Option<Account>,
    slots: Map<B256, U256>,
)
    ensures
        account_after_states(requested_states(steps), address, account) == account_after_states(
            hashed_updates(steps),
            address,
            account,
        ),
        slots_after_states(requested_states(steps), address, slots) == slots_after_states(
            hashed_updates(steps),
            address,
            slots,
        ),
    decreases steps.len(),
{
    if steps.len() > 0 {
        let earlier = steps.drop_last();
        lemma_prefetches_change_nothing(earlier, address, account, slots);
        match steps.last().message {
            Some(StateRootMessage::StateUpdate(_, _)) => {
                assert(requested_states(steps).drop_last() =~= requested_states(earlier));
                assert(hashed_updates(steps).drop_last() =~= hashed_updates(earlier));
            },
            Some(StateRootMessage::PrefetchProofs(_)) => {
                assert(requested_states(steps).drop_last() =~= requested_states(earlier));
            },
            _ => {},
        }
    }
}

/// A state update that was handled was hashed: its changes, read in some order, are those that the
/// proof was requested for.
pub proof fn lemma_update_is_hashed<Source, Updates>(
    start: (StateRootTask<Source>, RunProgress),
    steps: Seq<MessageStep<Source, Updates>>,
)
    requires
        steps.len() > 0,
        messages_came_in(start, steps),
        steps.last().message matches Some(StateRootMessage::StateUpdate(_, _)),
    ensures
        hashed_in_step(steps.last(), hashed_update(steps.last())),
{
    let step = steps.last();
    if let Some(StateRootMessage::StateUpdate(source, update)) = step.message {
        if let RunAction::Dispatch(dispatch) = step.action {
            let entries = choose|entries: Seq<(Address, EvmAccount)>| #[trigger]
                reads_state(entries, evm_state_contents(update)) && state_update_handled(
                    step.before.0.fetched_proof_targets@,
                    step.before.0.multiproof_manager@,
                    source,
                    hashed_entries(entries),
                    step.before.0.proof_sequencer.next_sequence,
                    step.after.0,
                    dispatch,
                );
            assert(hashes_update(update, hashed_entries(entries)));
            assert(hashed_in_step(step, hashed_entries(entries)));
        }
    }
}

proof fn lemma_hashed_updates<Source, Updates>(
    start: (StateRootTask<Source>, RunProgress),
    steps: Seq<MessageStep<Source, Updates>>,
)
    requires
        messages_came_in(start, steps),
    ensures
        hashed_updates(steps).len() == state_updates(steps).len(),
        forall|i: int|
            0 <= i < state_updates(steps).len() ==> hashes_update(
                #[trigger] state_updates(steps)[i],
                hashed_updates(steps)[i],
            ),
    decreases steps.len(),
{
    if steps.len() > 0 {
        lemma_hashed_updates(start, steps.drop_last());
        if steps.last().message matches Some(StateRootMessage::StateUpdate(_, _)) {
            lemma_update_is_hashed(start, steps);
        }
    }
}

/// What was handed out, and what waits to be, are the state changes of the requests.
spec fn states_match<Source, Updates>(
    task: StateRootTask<Source>,
    steps: Seq<MessageStep<Source, Updates>>,
) -> bool {
    let requested = requested_states(steps);
    let out = handed_out(steps);
    let on_the_way = on_the_way_after(steps);
    let pending = task.multiproof_manager@.pending;
    &&& requested.len() == task.proof_sequencer.next_sequence
    &&& forall|n: u64| #[trigger]
        out.contains_key(n) ==> n < requested.len() && out[n] == requested[n as int]
    &&& forall|n: u64| #[trigger] on_the_way.running.contains(n) ==> out.contains_key(n)
    &&& forall|n: u64| #[trigger] on_the_way.empty_proofs.contains(n) ==> out.contains_key(n)
    &&& forall|i: int|
        0 <= i < pending.len() ==> {
            &&& (#[trigger] pending[i]).proof_sequence_number < requested.len()
            &&& pending[i].hashed_state_update@
                == requested[pending[i].proof_sequence_number as int]
        }
}

proof fn lemma_request_matches<Source, Updates>(
    steps: Seq<MessageStep<Source, Updates>>,
    input: MultiproofInput<Source>,
    dispatch: MultiproofDispatch<Source>,
)
    requires
        steps.len() > 0,
        states_match(steps.last().before.0, steps.drop_last()),
        steps.last().action == RunAction::<Source, Updates>::Dispatch(dispatch),
        steps.last().message matches Some(m) && (m is StateUpdate || m is PrefetchProofs),
        requested_states(steps) == requested_states(steps.drop_last()).push(
            input.hashed_state_update@,
        ),
        input.proof_sequence_number == steps.last().before.0.proof_sequencer.next_sequence,
        steps.last().after.0.proof_sequencer.next_sequence
            == steps.last().before.0.proof_sequencer.next_sequence + 1,
        dispatches(
            steps.last().before.0.multiproof_manager@,
            input,
            steps.last().after.0.multiproof_manager@,
            dispatch,
        ),
    ensures
        states_match(steps.last().after.0, steps),
{
    let earlier = steps.drop_last();
    let requested = requested_states(steps);
    let before = steps.last().before.0.multiproof_manager@.pending;
    let after = steps.last().after.0.multiproof_manager@.pending;
    let way = on_the_way_after(earlier);
    assert(come_in(way, steps.last().message) == way);
    assert(on_the_way_after(steps) == carried_out(way, steps.last().action));
    assert forall|n: u64| #[trigger] handed_out(steps).contains_key(n) implies n < requested.len()
        && handed_out(steps)[n] == requested[n as int] by {
        if handed_out(earlier).contains_key(n) {
            assert(n < requested_states(earlier).len());
        } else {
            assert(n == input.proof_sequence_number);
        }
    }
    assert forall|n: u64| #[trigger] on_the_way_after(steps).running.contains(n) implies handed_out(
        steps,
    ).contains_key(n) by {
        if way.running.contains(n) {
            assert(handed_out(earlier).contains_key(n));
        }
    }
    assert forall|n: u64| #[trigger]
        on_the_way_after(steps).empty_proofs.contains(n) implies handed_out(
        steps,
    ).contains_key(n) by {
        if way.empty_proofs.contains(n) {
            assert(handed_out(earlier).contains_key(n));
        }
    }
    assert forall|i: int| 0 <= i < after.len() implies {
        &&& (#[trigger] after[i]).proof_sequence_number < requested.len()
        &&& after[i].hashed_state_update@ == requested[after[i].proof_sequence_number as int]
    } by {
        if i < before.len() {
            assert(after[i] == before[i]);
            assert(before[i].proof_sequence_number < requested_states(earlier).len());
        }
    }
}

proof fn lemma_states_match<Source, Updates>(
    start: (StateRootTask<Source>, RunProgress),
    steps: Seq<MessageStep<Source, Updates>>,
)
    requires
        at_the_start(start),
        messages_came_in(start, steps),
    ensures
        states_match(state_after(start, steps).0, steps),
    decreases steps.len(),
{
    if steps.len() > 0 {
        let earlier = steps.drop_last();
        let step = steps.last();
        let task = step.before.0;
        lemma_states_match(start, earlier);
        match step.message {
            Some(StateRootMessage::PrefetchProofs(_)) => {
                if let RunAction::Dispatch(dispatch) = step.action {
                    let input = choose|input: MultiproofInput<Source>|
                        {
                            &&& input.hashed_state_update@ == HashedPostStateView::empty()
                            &&& input.proof_sequence_number == task.proof_sequencer.next_sequence
                            &&& #[trigger] dispatches(
                                task.multiproof_manager@,
                                input,
                                step.after.0.multiproof_manager@,
                                dispatch,
                            )
                        };
                    lemma_request_matches(steps, input, dispatch);
                }
            },
            Some(StateRootMessage::StateUpdate(_, _)) => {
                lemma_update_is_hashed(start, steps);
                if let RunAction::Dispatch(dispatch) = step.action {
                    let input = choose|input: MultiproofInput<Source>|
                        {
                            &&& input.hashed_state_update@ == hashed_update(step)
                            &&& input.proof_sequence_number == task.proof_sequencer.next_sequence
                            &&& #[trigger] dispatches(
                                task.multiproof_manager@,
                                input,
                                step.after.0.multiproof_manager@,
                                dispatch,
                            )
                        };
                    lemma_request_matches(steps, input, dispatch);
                }
            },
            Some(StateRootMessage::ProofCalculated(_)) => {
                let before = task.multiproof_manager@.pending;
                let after = step.after.0.multiproof_manager@.pending;
                if before.len() > 0 {
                    assert(before[0].proof_sequence_number < requested_states(earlier).len());
                    assert forall|i: int| 0 <= i < after.len() implies #[trigger] after[i]
                        == before[i + 1] by {}
                }
            },
            Some(StateRootMessage::EmptyProof { .. }) => {},
            _ => {
                assert(!(step.action is Dispatch) && !(step.action is Proof));
                assert(requested_states(steps) == requested_states(earlier));
                assert(handed_out(steps) == handed_out(earlier));
                assert(on_the_way_after(steps) == on_the_way_after(earlier));
            },
        }
    }
}

/// The proofs that came in, and what was made of each.
spec fn proof_steps<Source, Updates>(steps: Seq<MessageStep<Source, Updates>>) -> Seq<ProofStep>
    decreases steps.len(),
{
    if steps.len() == 0 {
        Seq::empty()
    } else {
        let earlier = proof_steps(steps.drop_last());
        let before = steps.last().before.0.proof_sequencer;
        let after = steps.last().after.0.proof_sequencer;
        match (steps.last().message, steps.last().action) {
            (
                Some(StateRootMessage::EmptyProof { sequence_number, state }),
                RunAction::Proof { update: sent, .. },
            ) => earlier.push(
                ProofStep {
                    before,
                    sequence_number,
                    update: choose|update: SparseTrieUpdate|
                        {
                            &&& update.state == state
                            &&& update.multiproof@ == MultiProofView::empty()
                            &&& #[trigger] proof_handled(
                                before,
                                sequence_number,
                                update,
                                after,
                                sent,
                            )
                        },
                    after,
                    sent,
                },
            ),
            (
                Some(StateRootMessage::ProofCalculated(proof)),
                RunAction::Proof { update: sent, .. },
            ) => earlier.push(
                ProofStep {
                    before,
                    sequence_number: proof.sequence_number,
                    update: proof.update,
                    after,
                    sent,
                },
            ),
            _ => earlier,
        }
    }
}

proof fn lemma_proof_steps<Source, Updates>(
    start: (StateRootTask<Source>, RunProgress),
    steps: Seq<MessageStep<Source, Updates>>,
)
    requires
        at_the_start(start),
        messages_came_in(start, steps),
    ensures
        proofs_came_in(proof_steps(steps)),
        sent_updates(proof_steps(steps)) == sent(steps),
        ({
            let sequencer = state_after(start, steps).0.proof_sequencer;
            let proofs = proof_steps(steps);
            if proofs.len() == 0 {
                &&& sequencer.next_to_deliver == 0
                &&& sequencer.pending_proofs@ == Map::<u64, SparseTrieUpdate>::empty()
            } else {
                &&& sequencer.next_to_deliver == proofs.last().after.next_to_deliver
                &&& sequencer.pending_proofs@ == proofs.last().after.pending_proofs@
            }
        }),
    decreases steps.len(),
{
    if steps.len() > 0 {
        let earlier = steps.drop_last();
        let step = steps.last();
        lemma_proof_steps(start, earlier);
        match step.message {
            Some(StateRootMessage::EmptyProof { .. })
            | Some(StateRootMessage::ProofCalculated(_)) => {
                assert(proof_steps(steps).drop_last() =~= proof_steps(earlier));
            },
            _ => {},
        }
    }
}

proof fn lemma_proofs_carry_requested_states<Source, Updates>(
    start: (StateRootTask<Source>, RunProgress),
    steps: Seq<MessageStep<Source, Updates>>,
)
    requires
        at_the_start(start),
        messages_came_in(start, steps),
        proofs_carry_their_states(steps),
    ensures
        forall|i: int|
            0 <= i < proof_steps(steps).len() ==> {
                let proof_step = #[trigger] proof_steps(steps)[i];
                &&& proof_step.sequence_number < requested_states(steps).len()
                &&& proof_step.update@.state
                    == requested_states(steps)[proof_step.sequence_number as int]
            },
    decreases steps.len(),
{
    if steps.len() > 0 {
        let earlier = steps.drop_last();
        lemma_proofs_carry_requested_states(start, earlier);
        lemma_states_match(start, earlier);
        lemma_proof_steps(start, steps);
        assert forall|i: int| 0 <= i < proof_steps(steps).len() implies {
            let proof_step = #[trigger] proof_steps(steps)[i];
            &&& proof_step.sequence_number < requested_states(steps).len()
            &&& proof_step.update@.state
                == requested_states(steps)[proof_step.sequence_number as int]
        } by {
            if i < proof_steps(earlier).len() {
                assert(proof_steps(steps)[i] == proof_steps(earlier)[i]);
            } else {
                let n = proof_steps(steps)[i].sequence_number;
                assert(handed_out(earlier).contains_key(n));
            }
        }
    }
}

/// At every time of a run, the updates that were sent to the sparse trie have changed every account
/// and every storage as the state changes of the requests whose proofs were delivered, one after
/// the other in the order of the requests, would have; as long as every proof carries the state
/// changes that were handed out under its number.
pub proof fn sent_updates_have_the_effect_of_the_delivered_requests<Source, Updates>(
    start: (StateRootTask<Source>, RunProgress),
    steps: Seq<MessageStep<Source, Updates>>,
    address: B256,
    account: Option<Account>,
    slots: Map<B256, U256>,
)
    requires
        at_the_start(start),
        messages_came_in(start, steps),
        proofs_carry_their_states(steps),
    ensures
        ({
            let sequencer = state_after(start, steps).0.proof_sequencer;
            let delivered = requested_states(steps).take(sequencer.next_to_deliver as int);
            &&& requested_states(steps).len() == sequencer.next_sequence
            &&& sequencer.next_to_deliver <= sequencer.next_sequence
            &&& account_after_all(sent(steps), address, account) == account_after_states(
                delivered,
                address,
                account,
            )
            &&& slots_after_all(sent(steps), address, slots) == slots_after_states(
                delivered,
                address,
                slots,
            )
        }),
{
    let sequencer = state_after(start, steps).0.proof_sequencer;
    let requested = requested_states(steps);
    let proofs = proof_steps(steps);
    let came = arrivals(proofs);
    let d = deliveries(came);
    runs_are_kept_track_of(start, steps);
    lemma_states_match(start, steps);
    lemma_proof_steps(start, steps);
    lemma_proofs_carry_requested_states(start, steps);
    sent_updates_amount_to_the_delivered(proofs);
    assert(!arrived(came, sequencer.next_sequence)) by {
        if arrived(came, sequencer.next_sequence) {
            let j = choose|j: int|
                0 <= j < came.len() && (#[trigger] came[j]).0 == sequencer.next_sequence;
            assert(proofs[j].sequence_number < requested.len());
        }
    }
    proofs_are_delivered_in_order(came);
    assert(d.next == sequencer.next_to_deliver);
    let views = update_views(d.delivered);
    let delivered = requested.take(sequencer.next_to_deliver as int);
    assert forall|i: int| 0 <= i < views.len() implies (#[trigger] views[i]).state
        == delivered[i] by {
        let x = (i as u64, d.delivered[i]);
        assert(came.contains(x));
        let j = choose|j: int| 0 <= j < came.len() && came[j] == x;
        assert(proofs[j].update@.state == requested[proofs[j].sequence_number as int]);
    }
    lemma_effect_of_states(views, delivered, address, account, slots);
    combined_update_has_the_effect_of_all(views, address, account, slots);
    combined_update_has_the_effect_of_all(sent(steps), address, account, slots);
}

/// Once the end of a run is reached, the updates that were sent to the sparse trie have changed
/// every account and every storage as the state updates that came in, hashed, one after the other
/// in the order of their arrival, would have; as long as every proof carries the state changes that
/// were handed out under its number.
pub proof fn sent_updates_have_the_effect_of_all_state_updates<Source, Updates>(
    start: (StateRootTask<Source>, RunProgress),
    steps: Seq<MessageStep<Source, Updates>>,
    address: B256,
    account: Option<Account>,
    slots: Map<B256, U256>,
)
    requires
        at_the_start(start),
        messages_came_in(start, steps),
        proofs_carry_their_states(steps),
        end_reached(state_after(start, steps).1, state_after(start, steps).0.proof_sequencer),
    ensures
        hashed_updates(steps).len() == state_updates(steps).len(),
        forall|i: int|
            0 <= i < state_updates(steps).len() ==> hashes_update(
                #[trigger] state_updates(steps)[i],
                hashed_updates(steps)[i],
            ),
        account_after_all(sent(steps), address, account) == account_after_states(
            hashed_updates(steps),
            address,
            account,
        ),
        slots_after_all(sent(steps), address, slots) == slots_after_states(
            hashed_updates(steps),
            address,
            slots,
        ),
{
    runs_are_kept_track_of(start, steps);
    sent_updates_have_the_effect_of_the_delivered_requests(start, steps, address, account, slots);
    lemma_hashed_updates(start, steps);
    lemma_prefetches_change_nothing(steps, address, account, slots);
    let requested = requested_states(steps);
    assert(requested.take(requested.len() as int) =~= requested);
}

/// Once the end of a run is reached and the updates that were sent have been received and carried
/// out, in however many rounds, the sparse trie holds the state of all state updates
/// that came in, one after the other in the order of their arrival: every storage trie is the trie
/// of the slots that the hashed state updates leave, and every account is the one that they leave.
pub proof fn sparse_trie_ends_in_the_state_of_all_state_updates<Source, Updates>(
    start: (StateRootTask<Source>, RunProgress),
    steps: Seq<MessageStep<Source, Updates>>,
    rounds: Seq<SparseTrieRound>,
    ops: Seq<SparseTrieOps>,
    address: B256,
    account: Option<Account>,
    leaves: Map<Seq<u8>, Seq<u8>>,
    slots: Map<B256, U256>,
)
    requires
        at_the_start(start),
        messages_came_in(start, steps),
        proofs_carry_their_states(steps),
        end_reached(state_after(start, steps).1, state_after(start, steps).0.proof_sequencer),
        rounds_ran(rounds),
        received_in(rounds) == sent(steps),
        ops.len() == rounds.len(),
        forall|i: int| 0 <= i < ops.len() ==> (#[trigger] ops[i]).carry_out(rounds[i].update),
        is_trie_of(leaves, slots),
    ensures
        trie_account_after_all(ops, address, account_or_empty(account)) == account_or_empty(
            account_after_states(hashed_updates(steps), address, account),
        ),
        stands_for(
            trie_account_after_all(ops, address, account_or_empty(account)),
            account_after_states(hashed_updates(steps), address, account),
        ),
        is_trie_of(
            leaves_after_all(ops, address, leaves),
            slots_after_states(hashed_updates(steps), address, slots),
        ),
{
    let applied = Seq::new(rounds.len(), |i: int| rounds[i].update);
    let views = update_views(applied);
    sent_updates_have_the_effect_of_all_state_updates(start, steps, address, account, slots);
    rounds_cover_what_was_received(rounds);
    assert(views =~= Seq::new(rounds.len(), |i: int| rounds[i].update@));
    assert forall|i: int| 0 <= i < ops.len() implies (#[trigger] ops[i]).carry_out(applied[i]) by {
        assert(applied[i] == rounds[i].update);
    }
    combined_update_has_the_effect_of_all(views, address, account, slots);
    combined_update_has_the_effect_of_all(sent(steps), address, account, slots);
    operations_carry_a_row_of_updates_over(ops, applied, address, account, leaves, slots);
}

/// An account after the state updates, one after the other: the last update that touched it says
/// what it is, and whether it is still there.
pub open spec fn evm_account_after(
    updates: Seq<Map<Address, EvmAccountView>>,
    address: Address,
    account: Option<Account>,
) -> Option<Account>
    decreases updates.len(),
{
    if updates.len() == 0 {
        account
    } else {
        let update = updates.last();
        if !update.contains_key(address) || !update[address].touched {
            evm_account_after(updates.drop_last(), address, account)
        } else if update[address].selfdestructed {
            None
        } else {
            Some(
                Account {
                    nonce: update[address].nonce,
                    balance: update[address].balance,
                    bytecode_hash: if update[address].code_hash == KECCAK_EMPTY {
                        None
                    } else {
                        Some(update[address].code_hash)
                    },
                },
            )
        }
    }
}

/// A storage slot of an account after the state updates, one after the other: the last update that
/// changed it gives its value, where a slot with value zero is absent, unless a later one destroyed
/// the account.
pub open spec fn evm_slot_after(
    updates: Seq<Map<Address, EvmAccountView>>,
    address: Address,
    slot: B256,
    value: Option<U256>,
) -> Option<U256>
    decreases updates.len(),
{
    if updates.len() == 0 {
        value
    } else {
        let update = updates.last();
        let earlier = evm_slot_after(updates.drop_last(), address, slot, value);
        if !update.contains_key(address) || !update[address].touched {
            earlier
        } else if update[address].selfdestructed {
            None
        } else if update[address].storage.contains_key(slot)
            && update[address].storage[slot].original_value
            != update[address].storage[slot].present_value {
            if update[address].storage[slot].present_value.value() == 0 {
                None
            } else {
                Some(update[address].storage[slot].present_value)
            }
        } else {
            earlier
        }
    }
}

/// The contents of the state updates.
pub open spec fn contents(updates: Seq<EvmState>) -> Seq<Map<Address, EvmAccountView>> {
    Seq::new(updates.len(), |i: int| evm_state_contents(updates[i]))
}

/// The value of a slot, if it is there.
pub open spec fn slot_value(slots: Map<B256, U256>, slot: B256) -> Option<U256> {
    if slots.contains_key(slot) {
        Some(slots[slot])
    } else {
        None
    }
}

/// Within the update no two keys have one hash, and no other key has the hash of the address or of
/// the slot.
pub open spec fn hashes_apart(
    update: Map<Address, EvmAccountView>,
    address: Address,
    slot: B256,
) -> bool {
    &&& addresses_hash_apart(update)
    &&& forall|a: Address| #[trigger] update.contains_key(a) ==> slots_hash_apart(update[a].storage)
    &&& forall|a: Address| #[trigger]
        update.contains_key(a) && update[a].touched && keccak256_of(a@) == keccak256_of(address@)
            ==> a == address
    &&& update.contains_key(address) ==> forall|s: B256| #[trigger]
        update[address].storage.contains_key(s) && update[address].storage[s].original_value
            != update[address].storage[s].present_value && keccak256_of(s@) == keccak256_of(slot@)
            ==> s == slot
}

proof fn lemma_hashed_effect(
    entries: Seq<(Address, EvmAccount)>,
    update: Map<Address, EvmAccountView>,
    address: Address,
    slot: B256,
    account: Option<Account>,
    slots: Map<B256, U256>,
)
    requires
        reads_state(entries, update),
        hashes_apart(update, address, slot),
    ensures
        hashed_entries(entries).account_after(keccak256_of(address@), account)
            == evm_account_after(seq![update], address, account),
        slot_value(
            hashed_entries(entries).slots_after(keccak256_of(address@), slots),
            keccak256_of(slot@),
        ) == evm_slot_after(
            seq![update],
            address,
            slot,
            slot_value(slots, keccak256_of(slot@)),
        ),
{
    let state = hashed_entries(entries);
    let h = keccak256_of(address@);
    let k = keccak256_of(slot@);
    let one = seq![update];
    reveal_with_fuel(evm_account_after, 2);
    reveal_with_fuel(evm_slot_after, 2);
    hashed_changes_are_those_of_the_touched_accounts(entries, update);
    assert(one.drop_last().len() == 0);
    if update.contains_key(address) && update[address].touched {
        assert(update[address].touched);
        assert(state.accounts.contains_key(h));
        if !update[address].selfdestructed {
            let storage = update[address].storage;
            if storage.contains_key(slot) && storage[slot].original_value
                != storage[slot].present_value {
                assert(state.storages.contains_key(h));
                assert(state.storages[h].storage.contains_key(k));
            } else if state.storages.contains_key(h) {
                if state.storages[h].storage.contains_key(k) {
                    let s = choose|s: B256| #[trigger]
                        storage.contains_key(s) && storage[s].original_value
                            != storage[s].present_value && keccak256_of(s@) == k;
                    assert(s == slot);
                }
            }
        }
    } else {
        if state.accounts.contains_key(h) {
            let a = choose|a: Address|
                update.contains_key(a) && (#[trigger] update[a]).touched && keccak256_of(a@) == h;
            assert(a == address);
        }
        assert(!state.accounts.contains_key(h));
        assert(!state.storages.contains_key(h));
    }
}

/// The hashed state updates, one after the other, leave under the hash of an address the account
/// that the last update touching it says, and under the hash of a slot the value that the last
/// update changing it gives; as long as hashes do not collide.
pub proof fn later_state_updates_win(
    updates: Seq<EvmState>,
    states: Seq<HashedPostStateView>,
    address: Address,
    slot: B256,
    account: Option<Account>,
    slots: Map<B256, U256>,
)
    requires
        states.len() == updates.len(),
        forall|i: int|
            0 <= i < updates.len() ==> hashes_update(#[trigger] updates[i], states[i]),
        forall|i: int|
            0 <= i < updates.len() ==> hashes_apart(
                evm_state_contents(#[trigger] updates[i]),
                address,
                slot,
            ),
    ensures
        account_after_states(states, keccak256_of(address@), account) == evm_account_after(
            contents(updates),
            address,
            account,
        ),
        slot_value(
            slots_after_states(states, keccak256_of(address@), slots),
            keccak256_of(slot@),
        ) == evm_slot_after(
            contents(updates),
            address,
            slot,
            slot_value(slots, keccak256_of(slot@)),
        ),
    decreases updates.len(),
{
    if updates.len() > 0 {
        let n = updates.len() - 1;
        let earlier = updates.drop_last();
        let h = keccak256_of(address@);
        assert forall|i: int| 0 <= i < earlier.len() implies hashes_update(
            #[trigger] earlier[i],
            states.drop_last()[i],
        ) && hashes_apart(evm_state_contents(earlier[i]), address, slot) by {
            assert(hashes_update(updates[i], states[i]));
            assert(hashes_apart(evm_state_contents(updates[i]), address, slot));
        }
        later_state_updates_win(earlier, states.drop_last(), address, slot, account, slots);
        assert(contents(updates).drop_last() =~= contents(earlier));
        assert(hashes_update(updates[n], states[n]));
        assert(hashes_apart(evm_state_contents(updates[n]), address, slot));
        let update = contents(updates).last();
        let entries = choose|entries: Seq<(Address, EvmAccount)>| #[trigger]
            reads_state(entries, update) && states[n] == hashed_entries(entries);
        let earlier_account = account_after_states(states.drop_last(), h, account);
        let earlier_slots = slots_after_states(states.drop_last(), h, slots);
        lemma_hashed_effect(entries, update, address, slot, earlier_account, earlier_slots);
        reveal_with_fuel(evm_account_after, 2);
        reveal_with_fuel(evm_slot_after, 2);
        assert(seq![update].drop_last().len() == 0);
        assert(seq![update].last() == update);
    }
}

/// Once the end of a run is reached and the updates that were sent have been carried out, the
/// sparse trie holds the state accumulated from all state updates that came in, where later ones
/// win: the account under the hash of an address is the one that the last update touching it says,
/// and the leaf of a slot, at the nibbles of its hash, holds the RLP encoding of the value that the
/// last update changing it gives, or is absent if there is none; as long as hashes do not collide.
pub proof fn sparse_trie_ends_in_the_accumulated_state<Source, Updates>(
    start: (StateRootTask<Source>, RunProgress),
    steps: Seq<MessageStep<Source, Updates>>,
    rounds: Seq<SparseTrieRound>,
    ops: Seq<SparseTrieOps>,
    address: Address,
    slot: B256,
    account: Option<Account>,
    leaves: Map<Seq<u8>, Seq<u8>>,
    slots: Map<B256, U256>,
)
    requires
        at_the_start(start),
        messages_came_in(start, steps),
        proofs_carry_their_states(steps),
        end_reached(state_after(start, steps).1, state_after(start, steps).0.proof_sequencer),
        rounds_ran(rounds),
        received_in(rounds) == sent(steps),
        ops.len() == rounds.len(),
        forall|i: int| 0 <= i < ops.len() ==> (#[trigger] ops[i]).carry_out(rounds[i].update),
        is_trie_of(leaves, slots),
        forall|i: int|
            0 <= i < state_updates(steps).len() ==> hashes_apart(
                evm_state_contents(#[trigger] state_updates(steps)[i]),
                address,
                slot,
            ),
    ensures
        trie_account_after_all(ops, keccak256_of(address@), account_or_empty(account))
            == account_or_empty(
            evm_account_after(contents(state_updates(steps)), address, account),
        ),
        stands_for(
            trie_account_after_all(ops, keccak256_of(address@), account_or_empty(account)),
            evm_account_after(contents(state_updates(steps)), address, account),
        ),
        ({
            let path = nibbles_of(keccak256_of(slot@)@);
            let after = leaves_after_all(ops, keccak256_of(address@), leaves);
            match evm_slot_after(
                contents(state_updates(steps)),
                address,
                slot,
                slot_value(slots, keccak256_of(slot@)),
            ) {
                Some(value) => after.contains_key(path) && after[path] == rlp_of_u256(value),
                None => !after.contains_key(path),
            }
        }),
{
    let h = keccak256_of(address@);
    sparse_trie_ends_in_the_state_of_all_state_updates(
        start,
        steps,
        rounds,
        ops,
        h,
        account,
        leaves,
        slots,
    );
    lemma_hashed_updates(start, steps);
    later_state_updates_win(
        state_updates(steps),
        hashed_updates(steps),
        address,
        slot,
        account,
        slots,
    );
    let after = slots_after_states(hashed_updates(steps), h, slots);
    assert(after.contains_key(keccak256_of(slot@)) <==> leaves_after_all(
        ops,
        h,
        leaves,
    ).contains_key(nibbles_of(keccak256_of(slot@)@)));
}

/// The proofs that came in, each along with the state changes that it is for, by number; an empty
/// proof proves nothing.
pub open spec fn proofs_by_number<Source, Updates>(
    steps: Seq<MessageStep<Source, Updates>>,
) -> Map<u64, SparseTrieUpdateView>
    decreases steps.len(),
{
    if steps.len() == 0 {
        Map::empty()
    } else {
        let earlier = proofs_by_number(steps.drop_last());
        match steps.last().message {
            Some(StateRootMessage::EmptyProof { sequence_number, state }) => earlier.insert(
                sequence_number,
                SparseTrieUpdateView { state: state@, multiproof: MultiProofView::empty() },
            ),
            Some(StateRootMessage::ProofCalculated(proof)) => earlier.insert(
                proof.sequence_number,
                proof.update@,
            ),
            _ => earlier,
        }
    }
}

proof fn lemma_proofs_by_number<Source, Updates>(
    start: (StateRootTask<Source>, RunProgress),
    steps: Seq<MessageStep<Source, Updates>>,
)
    requires
        at_the_start(start),
        messages_came_in(start, steps),
    ensures
        forall|k: u64| #[trigger]
            proofs_by_number(steps).contains_key(k) <==> arrived(arrivals(proof_steps(steps)), k),
        forall|k: u64, update: SparseTrieUpdate| #[trigger]
            arrivals(proof_steps(steps)).contains((k, update)) ==> proofs_by_number(steps)[k]
                == update@,
        forall|k: u64| #[trigger]
            proofs_by_number(steps).contains_key(k) ==> k < state_after(
                start,
                steps,
            ).0.proof_sequencer.next_sequence,
    decreases steps.len(),
{
    let came = arrivals(proof_steps(steps));
    if steps.len() > 0 {
        let earlier = steps.drop_last();
        let step = steps.last();
        let before = arrivals(proof_steps(earlier));
        let sequencer = step.before.0.proof_sequencer;
        lemma_proofs_by_number(start, earlier);
        runs_are_kept_track_of(start, earlier);
        requests_are_kept_track_of(
            step.before,
            on_the_way_after(earlier),
            step.message,
            step.now,
            step.after,
            step.action,
        );
        lemma_proof_steps(start, steps);
        lemma_proof_steps(start, earlier);
        sent_updates_amount_to_the_delivered(proof_steps(earlier));
        if proof_steps(steps).len() > proof_steps(earlier).len() {
            let n = before.len() as int;
            let (number, update) = came[n];
            assert(came.drop_last() =~= before);
            assert(came =~= before.push((number, update)));
            assert(!arrived(before, sequencer.next_sequence)) by {
                if arrived(before, sequencer.next_sequence) {
                    assert(proofs_by_number(earlier).contains_key(sequencer.next_sequence));
                }
            }
            proofs_are_delivered_in_order(before);
            let d = deliveries(before);
            assert(!arrived(before, number)) by {
                if arrived(before, number) {
                    if number > d.next {
                        assert(d.pending.contains_key(number));
                    }
                }
            }
            assert(update@ =~= proofs_by_number(steps)[number]);
            assert forall|k: u64| #[trigger] proofs_by_number(steps).contains_key(k) <==> arrived(
                came,
                k,
            ) by {
                if arrived(before, k) {
                    let j = choose|j: int| 0 <= j < before.len() && (#[trigger] before[j]).0 == k;
                    assert(came[j].0 == k);
                }
                if k == number {
                    assert(came[n].0 == k);
                }
                if arrived(came, k) {
                    let j = choose|j: int| 0 <= j < came.len() && (#[trigger] came[j]).0 == k;
                    if j < n {
                        assert(before[j].0 == k);
                    }
                }
                assert(proofs_by_number(earlier).contains_key(k) <==> arrived(before, k));
            }
            assert forall|k: u64, other: SparseTrieUpdate| #[trigger]
                came.contains((k, other)) implies proofs_by_number(steps)[k] == other@ by {
                let j = choose|j: int| 0 <= j < came.len() && came[j] == (k, other);
                if j < n {
                    assert(before[j] == (k, other));
                    assert(before.contains((k, other)));
                    assert(before[j].0 == k);
                    assert(arrived(before, k));
                }
            }
        } else {
            assert(came =~= before);
            assert(proofs_by_number(steps) == proofs_by_number(earlier));
        }
    } else {
        assert(came.len() == 0);
    }
}

/// The sparse trie receives the proofs that came in, each along with its state changes, in the
/// order of their numbers and without delay: at every time, the updates that were sent amount to
/// the proofs of all numbers below the first one whose proof has not come in, one after the other;
/// the proofs of greater numbers that came in are kept.
pub proof fn sent_updates_are_the_proofs_in_order<Source, Updates>(
    start: (StateRootTask<Source>, RunProgress),
    steps: Seq<MessageStep<Source, Updates>>,
)
    requires
        at_the_start(start),
        messages_came_in(start, steps),
    ensures
        ({
            let sequencer = state_after(start, steps).0.proof_sequencer;
            let proofs = proofs_by_number(steps);
            &&& forall|k: u64|
                k < sequencer.next_to_deliver ==> #[trigger] proofs.contains_key(k)
            &&& !proofs.contains_key(sequencer.next_to_deliver)
            &&& combined(sent(steps)) == combined(
                Seq::new(sequencer.next_to_deliver as nat, |i: int| proofs[i as u64]),
            )
            &&& forall|k: u64| #[trigger]
                sequencer.pending_proofs@.contains_key(k) <==> proofs.contains_key(k) && k
                    > sequencer.next_to_deliver
            &&& forall|k: u64| #[trigger]
                sequencer.pending_proofs@.contains_key(k) ==> sequencer.pending_proofs@[k]@
                    == proofs[k]
        }),
{
    let sequencer = state_after(start, steps).0.proof_sequencer;
    let proofs = proofs_by_number(steps);
    let came = arrivals(proof_steps(steps));
    let d = deliveries(came);
    lemma_proofs_by_number(start, steps);
    lemma_proof_steps(start, steps);
    sent_updates_amount_to_the_delivered(proof_steps(steps));
    assert(!arrived(came, sequencer.next_sequence)) by {
        if arrived(came, sequencer.next_sequence) {
            assert(proofs.contains_key(sequencer.next_sequence));
        }
    }
    proofs_are_delivered_in_order(came);
    assert(d.next == sequencer.next_to_deliver);
    let in_order = Seq::new(sequencer.next_to_deliver as nat, |i: int| proofs[i as u64]);
    assert forall|i: int| 0 <= i < d.next implies #[trigger] update_views(d.delivered)[i]
        == in_order[i] by {
        assert(came.contains((i as u64, d.delivered[i])));
    }
    assert(update_views(d.delivered) =~= in_order);
    assert forall|k: u64| k < sequencer.next_to_deliver implies #[trigger] proofs.contains_key(k) by {
        let x = (k, d.delivered[k as int]);
        assert(came.contains((k as int as u64, d.delivered[k as int])));
        let j = choose|j: int| 0 <= j < came.len() && came[j] == x;
        assert(came[j].0 == k);
    }
    assert forall|k: u64| #[trigger] sequencer.pending_proofs@.contains_key(k) implies
        sequencer.pending_proofs@[k]@ == proofs[k] by {
        assert(came.contains((k, d.pending[k])));
    }
}

} // verus!
