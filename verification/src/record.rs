//! What a run of the state root task does, told by the messages that came in.

use vstd::prelude::*;

use crate::lifecycle::{
    at_the_start, brings_only_awaited, end_is_reached_once_all_is_delivered, messages_came_in,
    runs_are_kept_track_of, state_after, MessageStep,
};
use crate::message::{Nanos, ParallelStateRootError, StateRootMessage};
use crate::multiproof::NodePath;
use crate::primitives::B256;
use crate::sparse_trie::failure_of;
use crate::task::{RunAction, RunProgress, StateRootTask};
use crate::update::{an_empty_update_holds_nothing, SparseTrieUpdate};

verus! {

/// How many state updates came in.
pub open spec fn state_update_count<Source, Updates>(
    steps: Seq<MessageStep<Source, Updates>>,
) -> nat
    decreases steps.len(),
{
    if steps.len() == 0 {
        0
    } else {
        state_update_count(steps.drop_last()) + match steps.last().message {
            Some(StateRootMessage::StateUpdate(_, _)) => 1nat,
            _ => 0nat,
        }
    }
}

/// How many prefetch requests came in.
pub open spec fn prefetch_count<Source, Updates>(steps: Seq<MessageStep<Source, Updates>>) -> nat
    decreases steps.len(),
{
    if steps.len() == 0 {
        0
    } else {
        prefetch_count(steps.drop_last()) + match steps.last().message {
            Some(StateRootMessage::PrefetchProofs(_)) => 1nat,
            _ => 0nat,
        }
    }
}

/// How many proofs came in.
pub open spec fn proof_count<Source, Updates>(steps: Seq<MessageStep<Source, Updates>>) -> nat
    decreases steps.len(),
{
    if steps.len() == 0 {
        0
    } else {
        proof_count(steps.drop_last()) + match steps.last().message {
            Some(StateRootMessage::EmptyProof { .. }) => 1nat,
            Some(StateRootMessage::ProofCalculated(_)) => 1nat,
            _ => 0nat,
        }
    }
}

/// It was said that no more state updates will come.
pub open spec fn stream_is_over<Source, Updates>(steps: Seq<MessageStep<Source, Updates>>) -> bool
    decreases steps.len(),
{
    steps.len() > 0 && {
        ||| steps.last().message matches Some(StateRootMessage::FinishedStateUpdates)
        ||| stream_is_over(steps.drop_last())
    }
}

/// When the first state update came in.
pub open spec fn first_update<Source, Updates>(steps: Seq<MessageStep<Source, Updates>>) -> Option<
    Nanos,
>
    decreases steps.len(),
{
    if steps.len() == 0 {
        None
    } else {
        match (first_update(steps.drop_last()), steps.last().message) {
            (None, Some(StateRootMessage::StateUpdate(_, _))) => Some(steps.last().now),
            (earlier, _) => earlier,
        }
    }
}

/// When the last state update came in.
pub open spec fn last_update<Source, Updates>(steps: Seq<MessageStep<Source, Updates>>) -> Option<
    Nanos,
>
    decreases steps.len(),
{
    if steps.len() == 0 {
        None
    } else {
        match steps.last().message {
            Some(StateRootMessage::StateUpdate(_, _)) => Some(steps.last().now),
            _ => last_update(steps.drop_last()),
        }
    }
}

/// The run keeps count of the messages: of state updates, prefetch requests and proofs, of the
/// times of the first and the last state update, and of whether the stream of state updates is
/// over; and it has handed out as many numbers as there were requests.
pub proof fn the_run_counts_the_messages<Source, Updates>(
    start: (StateRootTask<Source>, RunProgress),
    steps: Seq<MessageStep<Source, Updates>>,
)
    requires
        at_the_start(start),
        !start.1.updates_finished,
        messages_came_in(start, steps),
    ensures
        ({
            let (task, run) = state_after(start, steps);
            &&& run.updates_received == state_update_count(steps)
            &&& run.prefetch_proofs_received == prefetch_count(steps)
            &&& run.proofs_processed == proof_count(steps)
            &&& run.updates_finished <==> stream_is_over(steps)
            &&& run.first_update_time == first_update(steps)
            &&& run.last_update_time == last_update(steps)
            &&& task.proof_sequencer.next_sequence == state_update_count(steps) + prefetch_count(
                steps,
            )
        }),
    decreases steps.len(),
{
    if steps.len() > 0 {
        the_run_counts_the_messages(start, steps.drop_last());
        lemma_first_update(steps.drop_last());
    }
}

proof fn lemma_first_update<Source, Updates>(steps: Seq<MessageStep<Source, Updates>>)
    ensures
        first_update(steps) is Some <==> state_update_count(steps) > 0,
    decreases steps.len(),
{
    if steps.len() > 0 {
        lemma_first_update(steps.drop_last());
    }
}

/// The first messages of a run came in one after the other, too.
pub proof fn lemma_earlier_messages<Source, Updates>(
    start: (StateRootTask<Source>, RunProgress),
    steps: Seq<MessageStep<Source, Updates>>,
    n: int,
)
    requires
        messages_came_in(start, steps),
        0 <= n <= steps.len(),
    ensures
        messages_came_in(start, steps.take(n)),
    decreases steps.len(),
{
    if n == steps.len() {
        assert(steps.take(n) =~= steps);
    } else {
        lemma_earlier_messages(start, steps.drop_last(), n);
        assert(steps.drop_last().take(n) =~= steps.take(n));
    }
}

/// The action tells the sparse trie that no more updates will come.
pub open spec fn tells_the_end<Source, Updates>(action: RunAction<Source, Updates>) -> bool {
    match action {
        RunAction::Proof { ended, .. } => ended,
        RunAction::UpdatesFinished { ended } => ended,
        _ => false,
    }
}

proof fn lemma_between(set: Set<u64>, low: u64, high: u64)
    requires
        set.finite(),
        low < high,
        forall|k: u64| #[trigger] set.contains(k) ==> low < k < high,
    ensures
        set.len() < high - low,
    decreases high - low,
{
    if high - low == 1 {
        assert(set =~= Set::<u64>::empty());
    } else {
        let last = (high - 1) as u64;
        let rest = set.remove(last);
        assert forall|k: u64| #[trigger] rest.contains(k) implies low < k < last by {
            assert(set.contains(k));
        }
        lemma_between(rest, low, last);
    }
}

proof fn lemma_last_step_tells_the_end<Source, Updates>(
    start: (StateRootTask<Source>, RunProgress),
    steps: Seq<MessageStep<Source, Updates>>,
)
    requires
        at_the_start(start),
        !start.1.updates_finished,
        messages_came_in(start, steps),
        steps.len() > 0,
    ensures
        tells_the_end(steps.last().action) <==> ({
            &&& steps.last().message matches Some(m) && (m is FinishedStateUpdates || m is EmptyProof
                || m is ProofCalculated)
            &&& steps.last().after.1.updates_finished
            &&& steps.last().after.0.proof_sequencer.next_to_deliver
                == steps.last().after.0.proof_sequencer.next_sequence
        }),
        tells_the_end(steps.last().action) <==> ({
            &&& steps.last().message matches Some(m) && (m is FinishedStateUpdates || m is EmptyProof
                || m is ProofCalculated)
            &&& stream_is_over(steps)
            &&& proof_count(steps) == state_update_count(steps) + prefetch_count(steps)
        }),
        proof_count(steps) <= state_update_count(steps) + prefetch_count(steps),
{
    let (task, run) = state_after(start, steps);
    let sequencer = task.proof_sequencer;
    runs_are_kept_track_of(start, steps);
    the_run_counts_the_messages(start, steps);
    end_is_reached_once_all_is_delivered(task, run);
    if sequencer.next_to_deliver < sequencer.next_sequence {
        assert forall|k: u64| #[trigger] sequencer.pending_proofs@.dom().contains(k) implies
            sequencer.next_to_deliver < k < sequencer.next_sequence by {
            assert(sequencer.pending_proofs@.contains_key(k));
        }
        lemma_between(
            sequencer.pending_proofs@.dom(),
            sequencer.next_to_deliver,
            sequencer.next_sequence,
        );
    } else {
        assert forall|k: u64| !#[trigger] sequencer.pending_proofs@.dom().contains(k) by {
            if sequencer.pending_proofs@.contains_key(k) {
                assert(k > sequencer.next_to_deliver);
            }
        }
        assert(sequencer.pending_proofs@.dom() =~= Set::<u64>::empty());
    }
}

/// The sparse trie is told that no more updates will come exactly when the stream of state updates
/// is over and a proof has come in for every state update and every prefetch request, which is when
/// all of their updates have been delivered: upon the message that brings this about, be it the end
/// of the stream or the last proof.
pub proof fn the_end_is_told_when_all_proofs_are_in<Source, Updates>(
    start: (StateRootTask<Source>, RunProgress),
    steps: Seq<MessageStep<Source, Updates>>,
    i: int,
)
    requires
        at_the_start(start),
        !start.1.updates_finished,
        messages_came_in(start, steps),
        0 <= i < steps.len(),
        steps[i].message matches Some(m) && (m is FinishedStateUpdates || m is EmptyProof
            || m is ProofCalculated),
    ensures
        tells_the_end(steps[i].action) <==> stream_is_over(steps.take(i + 1)) && proof_count(
            steps.take(i + 1),
        ) == state_update_count(steps.take(i + 1)) + prefetch_count(steps.take(i + 1)),
        tells_the_end(steps[i].action) <==> steps[i].after.1.updates_finished
            && steps[i].after.0.proof_sequencer.next_to_deliver
            == steps[i].after.0.proof_sequencer.next_sequence,
{
    lemma_earlier_messages(start, steps, i + 1);
    assert(steps.take(i + 1).last() == steps[i]);
    lemma_last_step_tells_the_end(start, steps.take(i + 1));
}

/// No other message tells the sparse trie that no more updates will come.
pub proof fn only_proofs_and_the_end_of_the_stream_tell_the_end<Source, Updates>(
    start: (StateRootTask<Source>, RunProgress),
    steps: Seq<MessageStep<Source, Updates>>,
    i: int,
)
    requires
        at_the_start(start),
        !start.1.updates_finished,
        messages_came_in(start, steps),
        0 <= i < steps.len(),
        tells_the_end(steps[i].action),
    ensures
        steps[i].message matches Some(m) && (m is FinishedStateUpdates || m is EmptyProof
            || m is ProofCalculated),
{
    lemma_earlier_messages(start, steps, i + 1);
    assert(steps.take(i + 1).last() == steps[i]);
    lemma_last_step_tells_the_end(start, steps.take(i + 1));
}

/// A run comes to its end: once the stream of state updates is over and the proofs of all state
/// updates and prefetch requests have come in, the sparse trie has been told that no more updates
/// will come.
pub proof fn the_end_has_been_told_once_all_proofs_are_in<Source, Updates>(
    start: (StateRootTask<Source>, RunProgress),
    steps: Seq<MessageStep<Source, Updates>>,
)
    requires
        at_the_start(start),
        !start.1.updates_finished,
        messages_came_in(start, steps),
        stream_is_over(steps),
        proof_count(steps) == state_update_count(steps) + prefetch_count(steps),
    ensures
        exists|i: int| 0 <= i < steps.len() && tells_the_end((#[trigger] steps[i]).action),
    decreases steps.len(),
{
    let earlier = steps.drop_last();
    let n = steps.len() - 1;
    lemma_last_step_tells_the_end(start, steps);
    if tells_the_end(steps[n].action) {
    } else {
        if earlier.len() > 0 {
            lemma_last_step_tells_the_end(start, earlier);
        }
        the_end_has_been_told_once_all_proofs_are_in(start, earlier);
        let i = choose|i: int|
            0 <= i < earlier.len() && tells_the_end((#[trigger] earlier[i]).action);
        assert(steps[i] == earlier[i]);
    }
}

/// How long it is at `now` since `then`; no time if there was no such time.
pub open spec fn time_since(then: Option<Nanos>, now: Nanos) -> int {
    match then {
        Some(then) => if now >= then {
            now - then
        } else {
            0
        },
        None => 0,
    }
}

/// A run returns exactly when the state root comes, a calculation fails or the channel is closed:
/// the state root and the trie updates as they came, with the times since the first and the last
/// state update, or an error that says what failed.
pub proof fn the_run_returns_what_came<Source, Updates>(
    start: (StateRootTask<Source>, RunProgress),
    steps: Seq<MessageStep<Source, Updates>>,
)
    requires
        at_the_start(start),
        !start.1.updates_finished,
        messages_came_in(start, steps),
        steps.len() > 0,
    ensures
        ({
            let step = steps.last();
            let earlier = steps.drop_last();
            match step.message {
                Some(StateRootMessage::RootCalculated { state_root, trie_updates, .. }) => {
                    &&& step.action matches RunAction::Return(Ok(outcome))
                    &&& outcome.state_root.0 == state_root
                    &&& outcome.state_root.1 == trie_updates
                    &&& outcome.total_time == time_since(first_update(earlier), step.now)
                    &&& outcome.time_from_last_update == time_since(last_update(earlier), step.now)
                },
                Some(StateRootMessage::ProofCalculationError(error)) => {
                    &&& step.action matches RunAction::Return(
                        Err(ParallelStateRootError::Other(text)),
                    )
                    &&& text@ == "could not calculate multiproof: "@ + error@
                },
                Some(StateRootMessage::RootCalculationError(error)) => {
                    &&& step.action matches RunAction::Return(
                        Err(ParallelStateRootError::Other(text)),
                    )
                    &&& text@ == "could not calculate state root: "@ + error@
                },
                None => {
                    &&& step.action matches RunAction::Return(
                        Err(ParallelStateRootError::Other(text)),
                    )
                    &&& text@ == "Internal message channel closed unexpectedly"@
                },
                _ => !(step.action is Return),
            }
        }),
{
    the_run_counts_the_messages(start, steps.drop_last());
}

/// No update goes to the sparse trie that changes and proves nothing.
pub proof fn sent_updates_hold_something<Source, Updates>(
    start: (StateRootTask<Source>, RunProgress),
    steps: Seq<MessageStep<Source, Updates>>,
    update: SparseTrieUpdate,
)
    requires
        messages_came_in(start, steps),
        steps.len() > 0,
        steps.last().action matches RunAction::Proof { update: Some(u), .. } && u == update,
    ensures
        ({
            ||| exists|k: B256| #[trigger] update@.state.accounts.contains_key(k)
            ||| exists|k: B256| #[trigger] update@.state.storages.contains_key(k)
            ||| exists|p: NodePath| #[trigger] update@.multiproof.account_subtree.contains_key(p)
            ||| exists|p: NodePath| #[trigger]
                update@.multiproof.branch_node_hash_masks.contains_key(p)
            ||| exists|p: NodePath| #[trigger]
                update@.multiproof.branch_node_tree_masks.contains_key(p)
            ||| exists|k: B256| #[trigger] update@.multiproof.storages.contains_key(k)
        }),
{
    an_empty_update_holds_nothing(update@);
}

/// A run takes every message that can come: as long as there are numbers left, any message but a
/// proof that is not awaited can be handled.
pub proof fn a_run_takes_every_message<Source, Updates>(
    start: (StateRootTask<Source>, RunProgress),
    steps: Seq<MessageStep<Source, Updates>>,
    message: Option<StateRootMessage<Source, Updates>>,
)
    requires
        at_the_start(start),
        !start.1.updates_finished,
        messages_came_in(start, steps),
        state_update_count(steps) + prefetch_count(steps) < u64::MAX,
        brings_only_awaited(state_after(start, steps).0.proof_sequencer, message),
    ensures
        state_after(start, steps).0.can_take(state_after(start, steps).1, message),
{
    let (task, run) = state_after(start, steps);
    let sequencer = task.proof_sequencer;
    runs_are_kept_track_of(start, steps);
    the_run_counts_the_messages(start, steps);
    if steps.len() > 0 {
        lemma_last_step_tells_the_end(start, steps);
    }
    assert(!sequencer.pending_proofs@.contains_key(sequencer.next_sequence));
}

/// If the sparse trie task fails, and only then, a message says so, and upon it the run returns an
/// error that says what failed.
pub proof fn a_failed_sparse_trie_task_ends_the_run<Source, Updates>(
    start: (StateRootTask<Source>, RunProgress),
    steps: Seq<MessageStep<Source, Updates>>,
    result: Result<(), String>,
)
    requires
        at_the_start(start),
        !start.1.updates_finished,
        messages_came_in(start, steps),
        steps.len() > 0,
        steps.last().message == failure_of::<Source, Updates>(result),
        steps.last().message is Some,
    ensures
        result matches Err(error) && steps.last().action matches RunAction::Return(
            Err(ParallelStateRootError::Other(text)),
        ) && text@ == "could not calculate state root: "@ + error@,
{
    the_run_returns_what_came(start, steps);
}

} // verus!
