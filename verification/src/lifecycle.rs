//! What holds of a run of the state root task, from its first message to its end.

use vstd::prelude::*;

use crate::hashed_state::Account;
use crate::manager::{dispatches, MultiproofDispatch, MultiproofInput};
use crate::message::{Nanos, StateRootMessage};
use crate::primitives::{B256, U256};
use crate::sequencer::{
    arrived, buffered, complete_arrivals_are_delivered, deliveries, late_proof_is_dropped,
    lemma_run_end, proofs_are_delivered_in_order, run_end, run_values, without_run, ProofSequencer,
};
use crate::task::{
    end_reached, message_handled, proof_handled, RunAction, RunProgress, StateRootTask,
};
use crate::update::{
    account_after_all, combined, combined_update_has_the_effect_of_all, empty_update_is_neutral,
    slots_after_all, update_views, updates_combine_in_any_batches, SparseTrieUpdate,
    SparseTrieUpdateView,
};

verus! {

/// A proof with the number was requested and has not come in yet.
pub open spec fn awaited(sequencer: ProofSequencer, sequence_number: u64) -> bool {
    &&& sequencer.next_to_deliver <= sequence_number < sequencer.next_sequence
    &&& !sequencer.pending_proofs@.contains_key(sequence_number)
}

/// If the message brings a proof, it is an awaited one.
pub open spec fn brings_only_awaited<Source, Updates>(
    sequencer: ProofSequencer,
    message: Option<StateRootMessage<Source, Updates>>,
) -> bool {
    match message {
        Some(StateRootMessage::EmptyProof { sequence_number, .. }) => awaited(
            sequencer,
            sequence_number,
        ),
        Some(StateRootMessage::ProofCalculated(proof)) => awaited(
            sequencer,
            proof.sequence_number,
        ),
        _ => true,
    }
}

/// Each proof that has come in was requested, and is delivered or buffered.
pub open spec fn accounted(sequencer: ProofSequencer, proofs_processed: u64) -> bool {
    let pending = sequencer.pending_proofs@;
    &&& pending.dom().finite()
    &&& proofs_processed == sequencer.next_to_deliver + pending.len()
    &&& sequencer.next_to_deliver <= sequencer.next_sequence
    &&& forall|k: u64| #[trigger] pending.contains_key(k) ==> k < sequencer.next_sequence
}

proof fn lemma_without_run_len<T>(buffer: Map<u64, T>, start: int, end: int)
    requires
        buffer.dom().finite(),
        0 <= start <= end <= u64::MAX + 1,
        forall|k: u64| start <= k < end ==> #[trigger] buffer.contains_key(k),
    ensures
        without_run(buffer, start, end).dom().finite(),
        without_run(buffer, start, end).len() + (end - start) == buffer.len(),
    decreases end - start,
{
    let rest = without_run(buffer, start, end);
    if start == end {
        assert(rest =~= buffer);
    } else {
        let last = (end - 1) as u64;
        lemma_without_run_len(buffer, start, end - 1);
        let longer = without_run(buffer, start, end - 1);
        assert(buffer.contains_key(last));
        assert(longer.contains_key(last));
        assert(rest =~= longer.remove(last));
        assert(rest.dom() =~= longer.dom().remove(last));
    }
}

proof fn lemma_proof_is_accounted_for(
    before: ProofSequencer,
    proofs_processed: u64,
    sequence_number: u64,
    update: SparseTrieUpdate,
    after: ProofSequencer,
    delivered: Option<SparseTrieUpdate>,
)
    requires
        before.wf(),
        accounted(before, proofs_processed),
        awaited(before, sequence_number),
        proofs_processed < u64::MAX,
        proof_handled(before, sequence_number, update, after, delivered),
    ensures
        accounted(after, (proofs_processed + 1) as u64),
{
    let start = before.next_to_deliver as int;
    let buffer = buffered(before.pending_proofs@, before.next_to_deliver, sequence_number, update);
    let end = run_end(buffer, start);
    lemma_run_end(buffer, start);
    assert(buffer.dom() =~= before.pending_proofs@.dom().insert(sequence_number));
    lemma_without_run_len(buffer, start, end);
    assert forall|k: u64| #[trigger] buffer.contains_key(k) implies k < before.next_sequence by {}
    if end > before.next_sequence {
        assert(buffer.contains_key(before.next_sequence));
    }
}

/// As long as each proof that comes in was requested and comes once, every proof that has come in
/// is delivered or buffered.
pub proof fn proofs_are_accounted_for<Source, Updates>(
    before: (StateRootTask<Source>, RunProgress),
    message: Option<StateRootMessage<Source, Updates>>,
    now: Nanos,
    after: (StateRootTask<Source>, RunProgress),
    action: RunAction<Source, Updates>,
)
    requires
        before.0.in_run(before.1),
        before.0.can_take(before.1, message),
        accounted(before.0.proof_sequencer, before.1.proofs_processed),
        brings_only_awaited(before.0.proof_sequencer, message),
        message_handled(before, message, now, after, action),
    ensures
        accounted(after.0.proof_sequencer, after.1.proofs_processed),
{
    let (task, run) = before;
    match message {
        Some(StateRootMessage::EmptyProof { sequence_number, state }) => {
            if let RunAction::Proof { update: delivered, .. } = action {
                let update = choose|update: SparseTrieUpdate|
                    update.state == state && #[trigger] proof_handled(
                        task.proof_sequencer,
                        sequence_number,
                        update,
                        after.0.proof_sequencer,
                        delivered,
                    );
                lemma_proof_is_accounted_for(
                    task.proof_sequencer,
                    run.proofs_processed,
                    sequence_number,
                    update,
                    after.0.proof_sequencer,
                    delivered,
                );
            }
        },
        Some(StateRootMessage::ProofCalculated(proof)) => {
            if let RunAction::Proof { update: delivered, .. } = action {
                lemma_proof_is_accounted_for(
                    task.proof_sequencer,
                    run.proofs_processed,
                    proof.sequence_number,
                    proof.update,
                    after.0.proof_sequencer,
                    delivered,
                );
            }
        },
        _ => {},
    }
}

/// The end of the calculation is reached exactly when no more state updates will come and the
/// proofs of all requests have been delivered.
pub proof fn end_is_reached_once_all_is_delivered<Source>(
    task: StateRootTask<Source>,
    run: RunProgress,
)
    requires
        task.in_run(run),
        accounted(task.proof_sequencer, run.proofs_processed),
    ensures
        end_reached(run, task.proof_sequencer) <==> run.updates_finished
            && task.proof_sequencer.next_to_deliver == task.proof_sequencer.next_sequence,
{
    let sequencer = task.proof_sequencer;
    let pending = sequencer.pending_proofs@;
    let none = Map::<u64, SparseTrieUpdate>::empty();
    if pending == none {
        assert(pending.dom() =~= Set::<u64>::empty());
    }
    if sequencer.next_to_deliver == sequencer.next_sequence {
        assert forall|k: u64| !pending.contains_key(k) by {
            if pending.contains_key(k) {
                assert(k > sequencer.next_to_deliver);
            }
        }
        assert(pending =~= none);
        assert(pending.dom() =~= Set::<u64>::empty());
    }
}

/// Once the proofs of all requests have been delivered, no proof of theirs leads to another update
/// of the sparse trie, even if it comes again.
pub proof fn no_update_after_all_is_delivered<Source, Updates>(
    before: (StateRootTask<Source>, RunProgress),
    message: Option<StateRootMessage<Source, Updates>>,
    now: Nanos,
    after: (StateRootTask<Source>, RunProgress),
    action: RunAction<Source, Updates>,
)
    requires
        before.0.in_run(before.1),
        before.0.proof_sequencer.next_to_deliver == before.0.proof_sequencer.next_sequence,
        message matches Some(StateRootMessage::EmptyProof { sequence_number, .. })
            ==> sequence_number < before.0.proof_sequencer.next_sequence,
        message matches Some(StateRootMessage::ProofCalculated(proof)) ==> proof.sequence_number
            < before.0.proof_sequencer.next_sequence,
        message_handled(before, message, now, after, action),
    ensures
        action matches RunAction::Proof { update, .. } ==> update is None,
{
    let sequencer = before.0.proof_sequencer;
    assert(!sequencer.pending_proofs@.contains_key(sequencer.next_to_deliver));
}

/// The proofs that were asked for and are on their way, each by its number.
#[verifier::ext_equal]
pub ghost struct OnTheWay {
    /// Calculations that were started and have not reported their result.
    pub running: Set<u64>,
    /// Empty proofs that were sent back and have not come in.
    pub empty_proofs: Set<u64>,
}

impl OnTheWay {
    /// Nothing is on its way.
    pub open spec fn nothing() -> OnTheWay {
        OnTheWay { running: Set::empty(), empty_proofs: Set::empty() }
    }
}

/// The numbers of the proofs that calculations wait to be started for.
pub open spec fn waiting_numbers<Source>(pending: Seq<MultiproofInput<Source>>) -> Seq<u64> {
    Seq::new(pending.len(), |i: int| pending[i].proof_sequence_number)
}

/// Each awaited proof is being calculated, is an empty one on its way, or waits for its calculation
/// to be started; one of these only, and nothing else is.
pub open spec fn keeps_track<Source>(task: StateRootTask<Source>, on_the_way: OnTheWay) -> bool {
    let manager = task.multiproof_manager@;
    let waiting = waiting_numbers(manager.pending);
    &&& on_the_way.running.finite()
    &&& on_the_way.running.len() == manager.inflight
    &&& waiting.no_duplicates()
    &&& on_the_way.running.disjoint(on_the_way.empty_proofs)
    &&& forall|n: u64| #[trigger]
        waiting.contains(n) ==> !on_the_way.running.contains(n)
            && !on_the_way.empty_proofs.contains(n)
    &&& forall|n: u64| #[trigger]
        awaited(task.proof_sequencer, n) <==> {
            ||| on_the_way.running.contains(n)
            ||| on_the_way.empty_proofs.contains(n)
            ||| waiting.contains(n)
        }
}

/// If the message brings a proof, it is one that was on its way.
pub open spec fn was_on_the_way<Source, Updates>(
    on_the_way: OnTheWay,
    message: Option<StateRootMessage<Source, Updates>>,
) -> bool {
    match message {
        Some(StateRootMessage::EmptyProof { sequence_number, .. }) =>
            on_the_way.empty_proofs.contains(sequence_number),
        Some(StateRootMessage::ProofCalculated(proof)) => on_the_way.running.contains(
            proof.sequence_number,
        ),
        _ => true,
    }
}

/// What is on its way once the message has come in.
pub open spec fn come_in<Source, Updates>(
    on_the_way: OnTheWay,
    message: Option<StateRootMessage<Source, Updates>>,
) -> OnTheWay {
    match message {
        Some(StateRootMessage::EmptyProof { sequence_number, .. }) => OnTheWay {
            empty_proofs: on_the_way.empty_proofs.remove(sequence_number),
            ..on_the_way
        },
        Some(StateRootMessage::ProofCalculated(proof)) => OnTheWay {
            running: on_the_way.running.remove(proof.sequence_number),
            ..on_the_way
        },
        _ => on_the_way,
    }
}

/// What is on its way once a request has been answered as the manager said.
pub open spec fn dispatched<Source>(
    on_the_way: OnTheWay,
    dispatch: MultiproofDispatch<Source>,
) -> OnTheWay {
    match dispatch {
        MultiproofDispatch::EmptyProof { sequence_number, .. } => OnTheWay {
            empty_proofs: on_the_way.empty_proofs.insert(sequence_number),
            ..on_the_way
        },
        MultiproofDispatch::Spawn(input) => OnTheWay {
            running: on_the_way.running.insert(input.proof_sequence_number),
            ..on_the_way
        },
        MultiproofDispatch::Queued => on_the_way,
    }
}

/// What is on its way once the action has been carried out.
pub open spec fn carried_out<Source, Updates>(
    on_the_way: OnTheWay,
    action: RunAction<Source, Updates>,
) -> OnTheWay {
    match action {
        RunAction::Dispatch(dispatch) => dispatched(on_the_way, dispatch),
        RunAction::Proof { started: Some(input), .. } => OnTheWay {
            running: on_the_way.running.insert(input.proof_sequence_number),
            ..on_the_way
        },
        _ => on_the_way,
    }
}

proof fn lemma_request_is_kept_track_of<Source>(
    before: StateRootTask<Source>,
    proofs_processed: u64,
    on_the_way: OnTheWay,
    input: MultiproofInput<Source>,
    after: StateRootTask<Source>,
    dispatch: MultiproofDispatch<Source>,
)
    requires
        before.wf(),
        accounted(before.proof_sequencer, proofs_processed),
        keeps_track(before, on_the_way),
        before.proof_sequencer.next_sequence < u64::MAX,
        input.proof_sequence_number == before.proof_sequencer.next_sequence,
        dispatches(before.multiproof_manager@, input, after.multiproof_manager@, dispatch),
        after.proof_sequencer.next_sequence == before.proof_sequencer.next_sequence + 1,
        after.proof_sequencer.next_to_deliver == before.proof_sequencer.next_to_deliver,
        after.proof_sequencer.pending_proofs@ == before.proof_sequencer.pending_proofs@,
    ensures
        keeps_track(after, dispatched(on_the_way, dispatch)),
{
    let number = input.proof_sequence_number;
    let manager = before.multiproof_manager@;
    let waiting = waiting_numbers(manager.pending);
    let later = waiting_numbers(after.multiproof_manager@.pending);
    assert(!awaited(before.proof_sequencer, number));
    assert forall|n: u64| #[trigger] awaited(after.proof_sequencer, n) <==> awaited(
        before.proof_sequencer,
        n,
    ) || n == number by {}
    if dispatch is Queued {
        assert(later =~= waiting.push(number));
        assert forall|n: u64| #[trigger] later.contains(n) <==> waiting.contains(n) || n
            == number by {
            if waiting.contains(n) {
                let i = choose|i: int| 0 <= i < waiting.len() && waiting[i] == n;
                assert(later[i] == n);
            }
            if n == number {
                assert(later[waiting.len() as int] == n);
            }
        }
        assert(later.no_duplicates()) by {
            assert forall|i: int, j: int| 0 <= i < later.len() && 0 <= j < later.len() && i
                != j implies later[i] != later[j] by {
                if i < waiting.len() {
                    assert(waiting.contains(waiting[i]));
                }
                if j < waiting.len() {
                    assert(waiting.contains(waiting[j]));
                }
            }
        }
    } else {
        assert(later =~= waiting);
    }
}

proof fn lemma_awaited_after_proof(
    before: ProofSequencer,
    sequence_number: u64,
    update: SparseTrieUpdate,
    after: ProofSequencer,
    delivered: Option<SparseTrieUpdate>,
)
    requires
        awaited(before, sequence_number),
        proof_handled(before, sequence_number, update, after, delivered),
    ensures
        forall|n: u64| #[trigger]
            awaited(after, n) <==> awaited(before, n) && n != sequence_number,
{
    let start = before.next_to_deliver as int;
    let buffer = buffered(before.pending_proofs@, before.next_to_deliver, sequence_number, update);
    lemma_run_end(buffer, start);
    assert forall|n: u64| #[trigger] awaited(after, n) <==> awaited(before, n) && n
        != sequence_number by {
        if before.next_to_deliver <= n < run_end(buffer, start) {
            assert(buffer.contains_key(n));
        }
    }
}

/// As long as each proof that comes in was on its way, every request is kept track of: its proof is
/// being calculated, is an empty one on its way, or waits for its calculation to be started, until
/// it comes in.
pub proof fn requests_are_kept_track_of<Source, Updates>(
    before: (StateRootTask<Source>, RunProgress),
    on_the_way: OnTheWay,
    message: Option<StateRootMessage<Source, Updates>>,
    now: Nanos,
    after: (StateRootTask<Source>, RunProgress),
    action: RunAction<Source, Updates>,
)
    requires
        before.0.in_run(before.1),
        before.0.can_take(before.1, message),
        accounted(before.0.proof_sequencer, before.1.proofs_processed),
        keeps_track(before.0, on_the_way),
        was_on_the_way(on_the_way, message),
        message_handled(before, message, now, after, action),
    ensures
        brings_only_awaited(before.0.proof_sequencer, message),
        keeps_track(after.0, carried_out(come_in(on_the_way, message), action)),
{
    let (task, run) = before;
    match message {
        Some(StateRootMessage::PrefetchProofs(targets)) => {
            if let RunAction::Dispatch(dispatch) = action {
                let input = choose|input: MultiproofInput<Source>|
                    input.proof_sequence_number == task.proof_sequencer.next_sequence
                        && #[trigger] dispatches(
                        task.multiproof_manager@,
                        input,
                        after.0.multiproof_manager@,
                        dispatch,
                    );
                lemma_request_is_kept_track_of(
                    task,
                    run.proofs_processed,
                    on_the_way,
                    input,
                    after.0,
                    dispatch,
                );
            }
        },
        Some(StateRootMessage::StateUpdate(source, update)) => {
            if let RunAction::Dispatch(dispatch) = action {
                let input = choose|input: MultiproofInput<Source>|
                    input.proof_sequence_number == task.proof_sequencer.next_sequence
                        && #[trigger] dispatches(
                        task.multiproof_manager@,
                        input,
                        after.0.multiproof_manager@,
                        dispatch,
                    );
                lemma_request_is_kept_track_of(
                    task,
                    run.proofs_processed,
                    on_the_way,
                    input,
                    after.0,
                    dispatch,
                );
            }
        },
        Some(StateRootMessage::EmptyProof { sequence_number, state }) => {
            if let RunAction::Proof { update: delivered, .. } = action {
                let update = choose|update: SparseTrieUpdate|
                    update.state == state && #[trigger] proof_handled(
                        task.proof_sequencer,
                        sequence_number,
                        update,
                        after.0.proof_sequencer,
                        delivered,
                    );
                lemma_awaited_after_proof(
                    task.proof_sequencer,
                    sequence_number,
                    update,
                    after.0.proof_sequencer,
                    delivered,
                );
            }
        },
        Some(StateRootMessage::ProofCalculated(proof)) => {
            if let RunAction::Proof { update: delivered, .. } = action {
                lemma_awaited_after_proof(
                    task.proof_sequencer,
                    proof.sequence_number,
                    proof.update,
                    after.0.proof_sequencer,
                    delivered,
                );
                let pending = task.multiproof_manager@.pending;
                lemma_completion_is_kept_track_of(pending, after.0.multiproof_manager@.pending);
                if pending.len() > 0 {
                    let first = waiting_numbers(pending)[0];
                    assert(waiting_numbers(pending).contains(first));
                    assert(!on_the_way.running.contains(first));
                }
            }
        },
        _ => {},
    }
}

proof fn lemma_completion_is_kept_track_of<Source>(
    before: Seq<MultiproofInput<Source>>,
    after: Seq<MultiproofInput<Source>>,
)
    requires
        waiting_numbers(before).no_duplicates(),
        after == (if before.len() > 0 {
            before.drop_first()
        } else {
            before
        }),
    ensures
        waiting_numbers(after).no_duplicates(),
        forall|n: u64| #[trigger]
            waiting_numbers(after).contains(n) <==> waiting_numbers(before).contains(n) && (
            before.len() > 0 ==> n != before[0].proof_sequence_number),
{
    let waiting = waiting_numbers(before);
    let later = waiting_numbers(after);
    if before.len() > 0 {
        assert(later =~= waiting.drop_first());
        assert forall|n: u64| #[trigger] later.contains(n) <==> waiting.contains(n) && n
            != waiting[0] by {
            if later.contains(n) {
                let i = choose|i: int| 0 <= i < later.len() && later[i] == n;
                assert(waiting[i + 1] == n);
            }
            if waiting.contains(n) && n != waiting[0] {
                let i = choose|i: int| 0 <= i < waiting.len() && waiting[i] == n;
                assert(later[i - 1] == n);
            }
        }
    }
}

/// A run does not wait in vain: once no more state updates will come, the end is reached exactly
/// when no proof is on its way.
pub proof fn a_proof_is_on_its_way_until_the_end<Source>(
    task: StateRootTask<Source>,
    run: RunProgress,
    on_the_way: OnTheWay,
)
    requires
        task.in_run(run),
        accounted(task.proof_sequencer, run.proofs_processed),
        keeps_track(task, on_the_way),
        run.updates_finished,
    ensures
        end_reached(run, task.proof_sequencer) <==> on_the_way == OnTheWay::nothing(),
{
    end_is_reached_once_all_is_delivered(task, run);
    let sequencer = task.proof_sequencer;
    let waiting = waiting_numbers(task.multiproof_manager@.pending);
    if end_reached(run, sequencer) {
        assert forall|n: u64|
            !on_the_way.running.contains(n) && !on_the_way.empty_proofs.contains(n) by {
            assert(!awaited(sequencer, n));
        }
        assert(on_the_way =~= OnTheWay::nothing());
    } else {
        let next = sequencer.next_to_deliver;
        assert(awaited(sequencer, next));
        if waiting.contains(next) {
            assert(waiting.len() > 0);
            assert(on_the_way.running.len() >= 1);
        }
    }
}

/// A message that came in, and what was made of it.
pub ghost struct MessageStep<Source, Updates> {
    /// The task and the run when the message came in.
    pub before: (StateRootTask<Source>, RunProgress),
    /// The message.
    pub message: Option<StateRootMessage<Source, Updates>>,
    /// When it came in.
    pub now: Nanos,
    /// The task and the run afterwards.
    pub after: (StateRootTask<Source>, RunProgress),
    /// What was to be done.
    pub action: RunAction<Source, Updates>,
}

/// A new task at the start of a run.
pub open spec fn at_the_start<Source>(state: (StateRootTask<Source>, RunProgress)) -> bool {
    let (task, run) = state;
    &&& task.in_run(run)
    &&& task.proof_sequencer.next_sequence == 0
    &&& task.proof_sequencer.next_to_deliver == 0
    &&& task.proof_sequencer.pending_proofs@ == Map::<u64, SparseTrieUpdate>::empty()
    &&& task.multiproof_manager@.inflight == 0
    &&& task.multiproof_manager@.pending == Seq::<MultiproofInput<Source>>::empty()
    &&& run.proofs_processed == 0
}

/// Where a run stands after the messages.
pub open spec fn state_after<Source, Updates>(
    start: (StateRootTask<Source>, RunProgress),
    steps: Seq<MessageStep<Source, Updates>>,
) -> (StateRootTask<Source>, RunProgress) {
    if steps.len() == 0 {
        start
    } else {
        steps.last().after
    }
}

/// What is on its way after the messages, if every action was carried out.
pub open spec fn on_the_way_after<Source, Updates>(
    steps: Seq<MessageStep<Source, Updates>>,
) -> OnTheWay
    decreases steps.len(),
{
    if steps.len() == 0 {
        OnTheWay::nothing()
    } else {
        let step = steps.last();
        carried_out(come_in(on_the_way_after(steps.drop_last()), step.message), step.action)
    }
}

/// The messages came in one after the other, from the start on, and each was handled; every proof
/// among them was on its way.
pub open spec fn messages_came_in<Source, Updates>(
    start: (StateRootTask<Source>, RunProgress),
    steps: Seq<MessageStep<Source, Updates>>,
) -> bool
    decreases steps.len(),
{
    steps.len() > 0 ==> {
        let earlier = steps.drop_last();
        let step = steps.last();
        &&& messages_came_in(start, earlier)
        &&& step.before == state_after(start, earlier)
        &&& step.before.0.can_take(step.before.1, step.message)
        &&& was_on_the_way(on_the_way_after(earlier), step.message)
        &&& message_handled(step.before, step.message, step.now, step.after, step.action)
        &&& step.after.0.in_run(step.after.1)
    }
}

/// At every time of a run, each requested proof is delivered, buffered or kept track of, no more
/// calculations run than may; and once no more state updates will come, the end is reached exactly
/// when no proof is on its way, which is when the proofs of all requests have been delivered.
pub proof fn runs_are_kept_track_of<Source, Updates>(
    start: (StateRootTask<Source>, RunProgress),
    steps: Seq<MessageStep<Source, Updates>>,
)
    requires
        at_the_start(start),
        messages_came_in(start, steps),
    ensures
        ({
            let (task, run) = state_after(start, steps);
            let on_the_way = on_the_way_after(steps);
            let sequencer = task.proof_sequencer;
            &&& task.in_run(run)
            &&& accounted(sequencer, run.proofs_processed)
            &&& keeps_track(task, on_the_way)
            &&& on_the_way.running.len() <= task.multiproof_manager@.max_concurrent
            &&& task.multiproof_manager@.pending.len() > 0 ==> on_the_way.running.len()
                == task.multiproof_manager@.max_concurrent
            &&& run.updates_finished ==> {
                &&& end_reached(run, sequencer) <==> on_the_way == OnTheWay::nothing()
                &&& end_reached(run, sequencer) <==> sequencer.next_to_deliver
                    == sequencer.next_sequence
            }
        }),
    decreases steps.len(),
{
    let (task, run) = state_after(start, steps);
    let on_the_way = on_the_way_after(steps);
    if steps.len() == 0 {
        let waiting = waiting_numbers(task.multiproof_manager@.pending);
        assert(task.proof_sequencer.pending_proofs@.dom() =~= Set::<u64>::empty());
        assert(waiting =~= Seq::<u64>::empty());
    } else {
        let step = steps.last();
        let earlier = steps.drop_last();
        runs_are_kept_track_of(start, earlier);
        requests_are_kept_track_of(
            step.before,
            on_the_way_after(earlier),
            step.message,
            step.now,
            step.after,
            step.action,
        );
        proofs_are_accounted_for(step.before, step.message, step.now, step.after, step.action);
    }
    end_is_reached_once_all_is_delivered(task, run);
    if run.updates_finished {
        a_proof_is_on_its_way_until_the_end(task, run, on_the_way);
    }
}

/// A proof that came in, and what was made of it.
pub ghost struct ProofStep {
    /// The sequencer when the proof came in.
    pub before: ProofSequencer,
    /// The number of the proof.
    pub sequence_number: u64,
    /// The proof with the state update that it is for.
    pub update: SparseTrieUpdate,
    /// The sequencer afterwards.
    pub after: ProofSequencer,
    /// The update that went to the sparse trie.
    pub sent: Option<SparseTrieUpdate>,
}

/// The proofs came in one after the other, from the start on: between two of them, proofs may have
/// been requested, but nothing was delivered or buffered.
pub open spec fn proofs_came_in(steps: Seq<ProofStep>) -> bool
    decreases steps.len(),
{
    steps.len() > 0 ==> {
        let step = steps.last();
        let earlier = steps.drop_last();
        &&& proofs_came_in(earlier)
        &&& proof_handled(step.before, step.sequence_number, step.update, step.after, step.sent)
        &&& if earlier.len() == 0 {
            &&& step.before.next_to_deliver == 0
            &&& step.before.pending_proofs@ == Map::<u64, SparseTrieUpdate>::empty()
        } else {
            &&& step.before.next_to_deliver == earlier.last().after.next_to_deliver
            &&& step.before.pending_proofs@ == earlier.last().after.pending_proofs@
        }
    }
}

/// The proofs that came in, each with its number.
pub open spec fn arrivals(steps: Seq<ProofStep>) -> Seq<(u64, SparseTrieUpdate)> {
    Seq::new(steps.len(), |i: int| (steps[i].sequence_number, steps[i].update))
}

/// The updates that went to the sparse trie.
pub open spec fn sent_updates(steps: Seq<ProofStep>) -> Seq<SparseTrieUpdateView>
    decreases steps.len(),
{
    if steps.len() == 0 {
        Seq::empty()
    } else {
        match steps.last().sent {
            Some(update) => sent_updates(steps.drop_last()).push(update@),
            None => sent_updates(steps.drop_last()),
        }
    }
}

/// At any time, the updates that went to the sparse trie, one after the other, amount to the
/// updates that were delivered, one after the other.
pub proof fn sent_updates_amount_to_the_delivered(steps: Seq<ProofStep>)
    requires
        proofs_came_in(steps),
    ensures
        combined(sent_updates(steps)) == combined(
            update_views(deliveries(arrivals(steps)).delivered),
        ),
        steps.len() > 0 ==> {
            &&& steps.last().after.next_to_deliver == deliveries(arrivals(steps)).next
            &&& steps.last().after.pending_proofs@ == deliveries(arrivals(steps)).pending
        },
    decreases steps.len(),
{
    let d = deliveries(arrivals(steps));
    if steps.len() == 0 {
        assert(update_views(d.delivered) =~= Seq::<SparseTrieUpdateView>::empty());
    } else {
        let earlier = steps.drop_last();
        let step = steps.last();
        sent_updates_amount_to_the_delivered(earlier);
        assert(arrivals(steps).drop_last() =~= arrivals(earlier));
        let before = deliveries(arrivals(earlier));
        let start = step.before.next_to_deliver as int;
        let buffer = buffered(
            step.before.pending_proofs@,
            step.before.next_to_deliver,
            step.sequence_number,
            step.update,
        );
        let end = run_end(buffer, start);
        assert(before.next == start);
        let ready = update_views(run_values(buffer, start, end));
        let sent = sent_updates(earlier);
        assert(update_views(d.delivered) =~= update_views(before.delivered) + ready);
        updates_combine_in_any_batches(update_views(before.delivered), ready);
        match step.sent {
            Some(update) => {
                let one = seq![update@];
                assert(sent_updates(steps) =~= sent + one);
                updates_combine_in_any_batches(sent, one);
            },
            None => {
                lemma_empty_update(combined(ready));
                empty_update_is_neutral(combined(sent));
            },
        }
    }
}

proof fn lemma_empty_update(update: SparseTrieUpdateView)
    requires
        update.is_empty(),
    ensures
        update == SparseTrieUpdateView::empty(),
{
    let empty = SparseTrieUpdateView::empty();
    assert(update.state =~= empty.state);
    assert(update.multiproof =~= empty.multiproof);
}

/// The sparse trie is told of all state updates in the order of the requests: once the proofs of
/// all requests have come in, in whatever order and however often, the updates that went to the
/// sparse trie, one after the other, amount to the updates of all requests, one after the other.
pub proof fn sparse_trie_receives_all_updates_in_order(
    steps: Seq<ProofStep>,
    requested: Seq<SparseTrieUpdate>,
)
    requires
        requested.len() <= u64::MAX,
        proofs_came_in(steps),
        forall|i: int|
            0 <= i < steps.len() ==> {
                &&& (#[trigger] steps[i]).sequence_number < requested.len()
                &&& steps[i].update == requested[steps[i].sequence_number as int]
            },
        forall|k: u64| k < requested.len() ==> #[trigger] arrived(arrivals(steps), k),
    ensures
        combined(sent_updates(steps)) == combined(update_views(requested)),
        steps.len() > 0 ==> {
            &&& steps.last().after.next_to_deliver == requested.len()
            &&& steps.last().after.pending_proofs@ == Map::<u64, SparseTrieUpdate>::empty()
        },
{
    let all = arrivals(steps);
    let d = deliveries(all);
    sent_updates_amount_to_the_delivered(steps);
    assert forall|j: int| 0 <= j < all.len() implies (#[trigger] all[j]).0 < requested.len() as u64
        && all[j].1 == requested[all[j].0 as int] by {
        assert(steps[j].sequence_number < requested.len());
    }
    complete_arrivals_are_delivered(all, requested.len() as u64);
    assert(!arrived(all, requested.len() as u64));
    proofs_are_delivered_in_order(all);
    assert forall|i: int| 0 <= i < requested.len() implies d.delivered[i] == requested[i] by {
        let x = (i as u64, d.delivered[i]);
        assert(all.contains(x));
        let j = choose|j: int| 0 <= j < all.len() && all[j] == x;
        assert(all[j].1 == requested[all[j].0 as int]);
    }
    assert(d.delivered =~= requested);
}

/// Once the proofs of all requests have come in, the updates that went to the sparse trie have
/// changed every account and every storage as the state updates of all requests, one after the
/// other in the order of the requests, would have.
pub proof fn sparse_trie_ends_in_the_requested_state(
    steps: Seq<ProofStep>,
    requested: Seq<SparseTrieUpdate>,
    address: B256,
    account: Option<Account>,
    slots: Map<B256, U256>,
)
    requires
        requested.len() <= u64::MAX,
        proofs_came_in(steps),
        forall|i: int|
            0 <= i < steps.len() ==> {
                &&& (#[trigger] steps[i]).sequence_number < requested.len()
                &&& steps[i].update == requested[steps[i].sequence_number as int]
            },
        forall|k: u64| k < requested.len() ==> #[trigger] arrived(arrivals(steps), k),
    ensures
        account_after_all(sent_updates(steps), address, account) == account_after_all(
            update_views(requested),
            address,
            account,
        ),
        slots_after_all(sent_updates(steps), address, slots) == slots_after_all(
            update_views(requested),
            address,
            slots,
        ),
{
    sparse_trie_receives_all_updates_in_order(steps, requested);
    combined_update_has_the_effect_of_all(sent_updates(steps), address, account, slots);
    combined_update_has_the_effect_of_all(update_views(requested), address, account, slots);
}

/// A proof whose number was delivered before sends nothing to the sparse trie and leaves everything
/// as it was.
pub proof fn a_late_proof_sends_nothing(
    before: ProofSequencer,
    sequence_number: u64,
    update: SparseTrieUpdate,
    after: ProofSequencer,
    sent: Option<SparseTrieUpdate>,
)
    requires
        before.wf(),
        sequence_number < before.next_to_deliver,
        proof_handled(before, sequence_number, update, after, sent),
    ensures
        sent is None,
        after.next_sequence == before.next_sequence,
        after.next_to_deliver == before.next_to_deliver,
        after.pending_proofs@ == before.pending_proofs@,
{
    late_proof_is_dropped(before, sequence_number, update);
}

} // verus!
