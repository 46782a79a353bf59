//! The state root task: what it does about each message.

use vstd::prelude::*;

use revm_state::EvmState;

use crate::evm::{
    evm_state_contents, evm_state_to_hashed_post_state, hashed_entries, reads_state, EvmAccount,
};
use crate::hashed_state::{HashedPostState, HashedPostStateView};
use crate::manager::{
    dispatches, rayon_thread_pool_size, ManagerView, MultiproofDispatch, MultiproofInput,
    MultiproofManager,
};
use crate::message::{
    channel_closed_error, multiproof_error, root_error, Nanos, ParallelStateRootError,
    ProofCalculated, StateRootComputeOutcome, StateRootMessage, StateRootResult,
};
use crate::multiproof::{MultiProof, MultiProofView};
use crate::primitives::{Address, B256};
use crate::sequencer::{buffered, run_end, run_values, without_run, ProofSequencer};
use crate::targets::{
    extend_multi_proof_targets_ref, get_proof_targets, get_prefetch_proof_targets, prefetch_targets,
    proof_targets, targets_union, MultiProofTargets,
};
use crate::update::{combine, combined, update_views, SparseTrieUpdate};

verus! {

/// Convenience params struct to pass to [`check_end_condition`].
pub struct CheckEndConditionParams<'a> {
    /// How many proofs have come in.
    pub proofs_processed: u64,
    /// How many state updates have come in.
    pub updates_received: u64,
    /// How many prefetch requests have come in.
    pub prefetch_proofs_received: u64,
    /// Whether no more state updates will come.
    pub updates_finished: bool,
    /// Where the proofs are put in order.
    pub proof_sequencer: &'a ProofSequencer,
}

/// Returns true if all state updates finished and all proofs processed.
pub fn check_end_condition(params: CheckEndConditionParams<'_>) -> (ended: bool)
    requires
        params.updates_received + params.prefetch_proofs_received <= u64::MAX,
    ensures
        ended == ({
            &&& params.proofs_processed >= params.updates_received + params.prefetch_proofs_received
            &&& params.proof_sequencer.pending_proofs@ == Map::<u64, SparseTrieUpdate>::empty()
            &&& params.updates_finished
        }),
{
    let all_proofs_received = params.proofs_processed >= params.updates_received
        + params.prefetch_proofs_received;
    let no_pending = !params.proof_sequencer.has_pending();
    all_proofs_received && no_pending && params.updates_finished
}

/// Standalone task that receives a transaction state stream and updates relevant
/// data structures to calculate state root.
///
/// It keeps track of the proof targets that were fetched, of the calculations in flight and of the
/// order of the proofs. Running the calculations and updating the sparse trie is left to others:
/// the task says when to do it.
#[derive(Debug)]
pub struct StateRootTask<Source> {
    /// Proof targets that have been already fetched.
    pub fetched_proof_targets: MultiProofTargets,
    /// Proof sequencing handler.
    pub proof_sequencer: ProofSequencer,
    /// Manages calculation of multiproofs.
    pub multiproof_manager: MultiproofManager<Source>,
}

/// How far a run of the task has come.
#[derive(Debug)]
pub struct RunProgress {
    /// How many prefetch requests have come in.
    pub prefetch_proofs_received: u64,
    /// How many state updates have come in.
    pub updates_received: u64,
    /// How many proofs have come in.
    pub proofs_processed: u64,
    /// Whether no more state updates will come.
    pub updates_finished: bool,
    /// Timestamp when the first state update was received
    pub first_update_time: Option<Nanos>,
    /// Timestamp when the last state update was received
    pub last_update_time: Option<Nanos>,
}

impl RunProgress {
    /// The timestamps are there from the first state update on.
    pub open spec fn wf(self) -> bool {
        &&& self.first_update_time is Some <==> self.updates_received > 0
        &&& self.last_update_time is Some <==> self.updates_received > 0
    }

    /// A run in which nothing has come in yet.
    pub fn new() -> (run: RunProgress)
        ensures
            run.wf(),
            run.prefetch_proofs_received == 0,
            run.updates_received == 0,
            run.proofs_processed == 0,
            !run.updates_finished,
    {
        RunProgress {
            prefetch_proofs_received: 0,
            updates_received: 0,
            proofs_processed: 0,
            updates_finished: false,
            first_update_time: None,
            last_update_time: None,
        }
    }
}

/// What is to be done after a message.
#[derive(Debug)]
pub enum RunAction<Source, Updates> {
    /// A multiproof was requested.
    Dispatch(MultiproofDispatch<Source>),
    /// A proof came in.
    Proof {
        /// The waiting calculation that is to be started, if any.
        started: Option<MultiproofInput<Source>>,
        /// The update that is to be sent to the sparse trie, if any.
        update: Option<SparseTrieUpdate>,
        /// Whether the sparse trie is to be told, after that, that no more updates will come.
        ended: bool,
    },
    /// The stream of state updates is over.
    UpdatesFinished {
        /// Whether the sparse trie is to be told that no more updates will come.
        ended: bool,
    },
    /// The run is over.
    Return(StateRootResult<Updates>),
}

/// How a prefetch request is handled: a proof is requested, under the next number, of what was not
/// fetched before, and that counts as fetched.
pub open spec fn prefetch_handled<Source>(
    before: StateRootTask<Source>,
    targets: Map<B256, Set<B256>>,
    after: StateRootTask<Source>,
    dispatch: MultiproofDispatch<Source>,
) -> bool {
    let wanted = prefetch_targets(targets, before.fetched_proof_targets@);
    &&& after.fetched_proof_targets@ == targets_union(before.fetched_proof_targets@, wanted)
    &&& after.proof_sequencer.next_sequence == before.proof_sequencer.next_sequence + 1
    &&& after.proof_sequencer.next_to_deliver == before.proof_sequencer.next_to_deliver
    &&& after.proof_sequencer.pending_proofs@ == before.proof_sequencer.pending_proofs@
    &&& exists|input: MultiproofInput<Source>|
        {
            &&& input.source is None
            &&& input.hashed_state_update@ == HashedPostStateView::empty()
            &&& input.proof_targets@ == wanted
            &&& input.proof_sequence_number == before.proof_sequencer.next_sequence
            &&& #[trigger] dispatches(
                before.multiproof_manager@,
                input,
                after.multiproof_manager@,
                dispatch,
            )
        }
}

/// How a state update is handled: a proof is requested, under the given number, of what it touches
/// and was not fetched before, and that counts as fetched.
pub open spec fn state_update_handled<Source>(
    fetched: Map<B256, Set<B256>>,
    manager: ManagerView<MultiproofInput<Source>>,
    source: Source,
    state: HashedPostStateView,
    proof_sequence_number: u64,
    after: StateRootTask<Source>,
    dispatch: MultiproofDispatch<Source>,
) -> bool {
    let wanted = proof_targets(state, fetched);
    &&& after.fetched_proof_targets@ == targets_union(fetched, wanted)
    &&& exists|input: MultiproofInput<Source>|
        {
            &&& input.source == Some(source)
            &&& input.hashed_state_update@ == state
            &&& input.proof_targets@ == wanted
            &&& input.proof_sequence_number == proof_sequence_number
            &&& #[trigger] dispatches(manager, input, after.multiproof_manager@, dispatch)
        }
}

/// How a proof is handled: it goes to the sequencer, and the updates that are ready to be delivered
/// come out as one update, unless there are none or they amount to nothing.
pub open spec fn proof_handled(
    before: ProofSequencer,
    sequence_number: u64,
    update: SparseTrieUpdate,
    after: ProofSequencer,
    delivered: Option<SparseTrieUpdate>,
) -> bool {
    let start = before.next_to_deliver as int;
    let buffer = buffered(before.pending_proofs@, before.next_to_deliver, sequence_number, update);
    let end = run_end(buffer, start);
    let ready = update_views(run_values(buffer, start, end));
    &&& after.next_sequence == before.next_sequence
    &&& after.next_to_deliver == end
    &&& after.pending_proofs@ == without_run(buffer, start, end)
    &&& match delivered {
        Some(u) => ready.len() > 0 && u@ == combined(ready) && !u@.is_empty(),
        None => ready.len() == 0 || combined(ready).is_empty(),
    }
}

/// How an empty proof for a state update is handled: as any proof that proves nothing.
pub open spec fn empty_proof_handled(
    before: ProofSequencer,
    sequence_number: u64,
    state: HashedPostState,
    after: ProofSequencer,
    delivered: Option<SparseTrieUpdate>,
) -> bool {
    exists|update: SparseTrieUpdate|
        {
            &&& update.state == state
            &&& update.multiproof@ == MultiProofView::empty()
            &&& #[trigger] proof_handled(before, sequence_number, update, after, delivered)
        }
}

/// All state updates finished and all proofs processed.
pub open spec fn end_reached(run: RunProgress, sequencer: ProofSequencer) -> bool {
    &&& run.proofs_processed >= run.updates_received + run.prefetch_proofs_received
    &&& sequencer.pending_proofs@ == Map::<u64, SparseTrieUpdate>::empty()
    &&& run.updates_finished
}

/// The time from `start` to `now`; none where there was no start.
pub open spec fn elapsed_since(start: Option<Nanos>, now: Nanos) -> int {
    match start {
        Some(start) if now >= start => now - start,
        _ => 0,
    }
}

/// How a message is handled; `None` stands for the channel having been closed.
pub open spec fn message_handled<Source, Updates>(
    before: (StateRootTask<Source>, RunProgress),
    message: Option<StateRootMessage<Source, Updates>>,
    now: Nanos,
    after: (StateRootTask<Source>, RunProgress),
    action: RunAction<Source, Updates>,
) -> bool {
    let (task, run) = before;
    match message {
        Some(StateRootMessage::PrefetchProofs(targets)) => {
            &&& after.1 == RunProgress {
                prefetch_proofs_received: (run.prefetch_proofs_received + 1) as u64,
                ..run
            }
            &&& action matches RunAction::Dispatch(dispatch) && prefetch_handled(
                task,
                targets@,
                after.0,
                dispatch,
            )
        },
        Some(StateRootMessage::StateUpdate(source, update)) => {
            &&& after.1 == RunProgress {
                updates_received: (run.updates_received + 1) as u64,
                first_update_time: if run.updates_received == 0 {
                    Some(now)
                } else {
                    run.first_update_time
                },
                last_update_time: Some(now),
                ..run
            }
            &&& after.0.proof_sequencer.next_sequence == task.proof_sequencer.next_sequence + 1
            &&& after.0.proof_sequencer.next_to_deliver == task.proof_sequencer.next_to_deliver
            &&& after.0.proof_sequencer.pending_proofs@ == task.proof_sequencer.pending_proofs@
            &&& action matches RunAction::Dispatch(dispatch) && exists|
                entries: Seq<(Address, EvmAccount)>,
            |
                #[trigger] reads_state(entries, evm_state_contents(update))
                    && state_update_handled(
                    task.fetched_proof_targets@,
                    task.multiproof_manager@,
                    source,
                    hashed_entries(entries),
                    task.proof_sequencer.next_sequence,
                    after.0,
                    dispatch,
                )
        },
        Some(StateRootMessage::EmptyProof { sequence_number, state }) => {
            &&& after.1 == RunProgress {
                proofs_processed: (run.proofs_processed + 1) as u64,
                ..run
            }
            &&& after.0.fetched_proof_targets == task.fetched_proof_targets
            &&& after.0.multiproof_manager == task.multiproof_manager
            &&& action matches RunAction::Proof { started, update: delivered, ended }
                && started is None && ended == end_reached(after.1, after.0.proof_sequencer)
                && empty_proof_handled(
                task.proof_sequencer,
                sequence_number,
                state,
                after.0.proof_sequencer,
                delivered,
            )
        },
        Some(StateRootMessage::ProofCalculated(proof)) => {
            &&& after.1 == RunProgress {
                proofs_processed: (run.proofs_processed + 1) as u64,
                ..run
            }
            &&& after.0.fetched_proof_targets == task.fetched_proof_targets
            &&& action matches RunAction::Proof { started, update: delivered, ended } && (
            after.0.multiproof_manager@, started) == task.multiproof_manager@.completed() && ended
                == end_reached(after.1, after.0.proof_sequencer) && proof_handled(
                task.proof_sequencer,
                proof.sequence_number,
                proof.update,
                after.0.proof_sequencer,
                delivered,
            )
        },
        Some(StateRootMessage::FinishedStateUpdates) => {
            &&& after.0 == task
            &&& after.1 == RunProgress { updates_finished: true, ..run }
            &&& action == RunAction::<Source, Updates>::UpdatesFinished {
                ended: end_reached(after.1, after.0.proof_sequencer),
            }
        },
        Some(StateRootMessage::RootCalculated { state_root, trie_updates, .. }) => {
            &&& after == before
            &&& action matches RunAction::Return(Ok(outcome)) && outcome.state_root == (
                state_root,
                trie_updates,
            ) && outcome.total_time == elapsed_since(run.first_update_time, now)
                && outcome.time_from_last_update == elapsed_since(run.last_update_time, now)
        },
        Some(StateRootMessage::ProofCalculationError(error)) => {
            &&& after == before
            &&& action matches RunAction::Return(Err(ParallelStateRootError::Other(text))) && text@
                == "could not calculate multiproof: "@ + error@
        },
        Some(StateRootMessage::RootCalculationError(error)) => {
            &&& after == before
            &&& action matches RunAction::Return(Err(ParallelStateRootError::Other(text))) && text@
                == "could not calculate state root: "@ + error@
        },
        None => {
            &&& after == before
            &&& action matches RunAction::Return(Err(ParallelStateRootError::Other(text))) && text@
                == "Internal message channel closed unexpectedly"@
        },
    }
}

impl<Source> StateRootTask<Source> {
    /// The manager and the sequencer are well formed.
    pub open spec fn wf(self) -> bool {
        self.multiproof_manager@.wf() && self.proof_sequencer.wf()
    }

    /// The task is well formed, and a proof was requested, under a number of its own, for each
    /// state update and each prefetch request of the run.
    pub open spec fn in_run(self, run: RunProgress) -> bool {
        &&& self.wf()
        &&& run.wf()
        &&& self.proof_sequencer.next_sequence == run.updates_received
            + run.prefetch_proofs_received
    }

    /// The message can be handled: the counters do not overflow.
    pub open spec fn can_take<Updates>(
        self,
        run: RunProgress,
        message: Option<StateRootMessage<Source, Updates>>,
    ) -> bool {
        match message {
            Some(StateRootMessage::PrefetchProofs(_))
            | Some(StateRootMessage::StateUpdate(_, _)) => self.proof_sequencer.next_sequence
                < u64::MAX,
            Some(StateRootMessage::EmptyProof { sequence_number, .. }) => run.proofs_processed
                < u64::MAX && self.proof_sequencer.has_room(sequence_number),
            Some(StateRootMessage::ProofCalculated(proof)) => run.proofs_processed < u64::MAX
                && self.proof_sequencer.has_room(proof.sequence_number),
            _ => true,
        }
    }

    /// Creates a new state root task for a host that can run `available_parallelism` threads in
    /// parallel, if that is known.
    pub fn new(available_parallelism: Option<usize>) -> (task: StateRootTask<Source>)
        ensures
            task.wf(),
            task.fetched_proof_targets@ == Map::<B256, Set<B256>>::empty(),
            task.proof_sequencer.next_sequence == 0,
            task.proof_sequencer.next_to_deliver == 0,
            task.proof_sequencer.pending_proofs@ == Map::<u64, SparseTrieUpdate>::empty(),
            task.multiproof_manager@.inflight == 0,
            task.multiproof_manager@.pending == Seq::<MultiproofInput<Source>>::empty(),
            task.multiproof_manager@.max_concurrent == (match available_parallelism {
                Some(n) => vstd::math::max(n - 2, 3) - 2,
                None => 1,
            }),
            available_parallelism matches Some(n) ==> (n >= 5
                ==> task.multiproof_manager@.max_concurrent + 4 == n),
            task.multiproof_manager@.max_concurrent >= 1,
    {
        StateRootTask {
            fetched_proof_targets: MultiProofTargets::default(),
            proof_sequencer: ProofSequencer::new(),
            multiproof_manager: MultiproofManager::new(
                rayon_thread_pool_size(available_parallelism),
            ),
        }
    }

    /// Calls `get_proof_targets` with existing proof targets for prefetching.
    pub fn get_prefetch_proof_targets(&self, targets: MultiProofTargets) -> (remaining:
        MultiProofTargets)
        ensures
            remaining@ == prefetch_targets(targets@, self.fetched_proof_targets@),
    {
        get_prefetch_proof_targets(targets, &self.fetched_proof_targets)
    }

    /// Handles request for proof prefetch.
    pub fn on_prefetch_proof(&mut self, targets: MultiProofTargets) -> (dispatch:
        MultiproofDispatch<Source>)
        requires
            old(self).proof_sequencer.next_sequence < u64::MAX,
        ensures
            old(self).wf() ==> final(self).wf(),
            prefetch_handled(*old(self), targets@, *final(self), dispatch),
    {
        let proof_targets = self.get_prefetch_proof_targets(targets);
        extend_multi_proof_targets_ref(&mut self.fetched_proof_targets, &proof_targets);
        let proof_sequence_number = self.proof_sequencer.next_sequence();
        let input = MultiproofInput {
            source: None,
            hashed_state_update: HashedPostState::default(),
            proof_targets,
            proof_sequence_number,
        };
        let dispatch = self.multiproof_manager.spawn_or_queue(input);
        assert(dispatches(
            old(self).multiproof_manager@,
            input,
            self.multiproof_manager@,
            dispatch,
        ));
        dispatch
    }

    /// Handles state updates that are hashed already.
    ///
    /// Returns proof targets derived from the state update, and what is to be done about them.
    pub fn on_hashed_state_update(
        &mut self,
        source: Source,
        hashed_state_update: HashedPostState,
        proof_sequence_number: u64,
    ) -> (handled: (MultiProofTargets, MultiproofDispatch<Source>))
        ensures
            old(self).wf() ==> final(self).wf(),
            final(self).proof_sequencer == old(self).proof_sequencer,
            handled.0@ == proof_targets(hashed_state_update@, old(self).fetched_proof_targets@),
            state_update_handled(
                old(self).fetched_proof_targets@,
                old(self).multiproof_manager@,
                source,
                hashed_state_update@,
                proof_sequence_number,
                *final(self),
                handled.1,
            ),
    {
        let proof_targets = get_proof_targets(&hashed_state_update, &self.fetched_proof_targets);
        extend_multi_proof_targets_ref(&mut self.fetched_proof_targets, &proof_targets);
        let mut derived = MultiProofTargets::default();
        extend_multi_proof_targets_ref(&mut derived, &proof_targets);
        proof {
            let none = Map::<B256, Set<B256>>::empty();
            assert forall|a: B256| proof_targets@.contains_key(a) implies targets_union(
                none,
                proof_targets@,
            )[a] == proof_targets@[a] by {
                assert(Set::<B256>::empty().union(proof_targets@[a]) =~= proof_targets@[a]);
            }
            assert(derived@ =~= proof_targets@);
        }
        let input = MultiproofInput {
            source: Some(source),
            hashed_state_update,
            proof_targets,
            proof_sequence_number,
        };
        let dispatch = self.multiproof_manager.spawn_or_queue(input);
        assert(dispatches(
            old(self).multiproof_manager@,
            input,
            self.multiproof_manager@,
            dispatch,
        ));
        (derived, dispatch)
    }

    /// Handles state updates.
    ///
    /// Returns proof targets derived from the state update, and what is to be done about them.
    pub fn on_state_update(
        &mut self,
        source: Source,
        update: EvmState,
        proof_sequence_number: u64,
    ) -> (handled: (MultiProofTargets, MultiproofDispatch<Source>))
        ensures
            old(self).wf() ==> final(self).wf(),
            final(self).proof_sequencer == old(self).proof_sequencer,
            exists|entries: Seq<(Address, EvmAccount)>|
                {
                    &&& #[trigger] reads_state(entries, evm_state_contents(update))
                    &&& handled.0@ == proof_targets(
                        hashed_entries(entries),
                        old(self).fetched_proof_targets@,
                    )
                    &&& state_update_handled(
                        old(self).fetched_proof_targets@,
                        old(self).multiproof_manager@,
                        source,
                        hashed_entries(entries),
                        proof_sequence_number,
                        *final(self),
                        handled.1,
                    )
                },
    {
        let hashed_state_update = evm_state_to_hashed_post_state(update);
        self.on_hashed_state_update(source, hashed_state_update, proof_sequence_number)
    }

    /// Handler for new proof calculated, aggregates all the existing sequential proofs.
    pub fn on_proof(&mut self, sequence_number: u64, update: SparseTrieUpdate) -> (delivered:
        Option<SparseTrieUpdate>)
        requires
            old(self).proof_sequencer.has_room(sequence_number),
        ensures
            proof_handled(
                old(self).proof_sequencer,
                sequence_number,
                update,
                final(self).proof_sequencer,
                delivered,
            ),
            old(self).proof_sequencer.wf() ==> final(self).proof_sequencer.wf(),
            final(self).fetched_proof_targets == old(self).fetched_proof_targets,
            final(self).multiproof_manager == old(self).multiproof_manager,
    {
        let ready_proofs = self.proof_sequencer.add_proof(sequence_number, update);
        // Merge all ready proofs and state updates
        match combine(ready_proofs) {
            Some(merged) => {
                // Return None if the resulting proof is empty
                if merged.is_empty() {
                    None
                } else {
                    Some(merged)
                }
            },
            None => None,
        }
    }

    /// Returns true if the message can be handled without an overflow.
    pub fn can_handle<Updates>(
        &self,
        run: &RunProgress,
        message: &Option<StateRootMessage<Source, Updates>>,
    ) -> (can: bool)
        ensures
            can == self.can_take(*run, *message),
    {
        match message {
            Some(StateRootMessage::PrefetchProofs(_))
            | Some(StateRootMessage::StateUpdate(_, _)) => self.proof_sequencer.next_sequence
                < u64::MAX,
            Some(StateRootMessage::EmptyProof { sequence_number, .. }) => run.proofs_processed
                < u64::MAX && self.proof_sequencer.has_room_for(*sequence_number),
            Some(StateRootMessage::ProofCalculated(proof)) => run.proofs_processed < u64::MAX
                && self.proof_sequencer.has_room_for(proof.sequence_number),
            _ => true,
        }
    }

    /// Handles a message that came in at the time `now`, or the closing of the channel, and says
    /// what is to be done.
    pub fn on_message<Updates>(
        &mut self,
        run: &mut RunProgress,
        message: Option<StateRootMessage<Source, Updates>>,
        now: Nanos,
    ) -> (action: RunAction<Source, Updates>)
        requires
            old(self).in_run(*old(run)),
            old(self).can_take(*old(run), message),
        ensures
            final(self).in_run(*final(run)),
            message_handled(
                (*old(self), *old(run)),
                message,
                now,
                (*final(self), *final(run)),
                action,
            ),
    {
        match message {
            Some(StateRootMessage::PrefetchProofs(targets)) => {
                run.prefetch_proofs_received = run.prefetch_proofs_received + 1;
                RunAction::Dispatch(self.on_prefetch_proof(targets))
            },
            Some(StateRootMessage::StateUpdate(source, update)) => {
                if run.updates_received == 0 {
                    run.first_update_time = Some(now);
                }
                run.last_update_time = Some(now);
                run.updates_received = run.updates_received + 1;
                let next_sequence = self.proof_sequencer.next_sequence();
                let (_, dispatch) = self.on_state_update(source, update, next_sequence);
                RunAction::Dispatch(dispatch)
            },
            Some(StateRootMessage::FinishedStateUpdates) => {
                run.updates_finished = true;
                RunAction::UpdatesFinished { ended: self.check_end(run) }
            },
            Some(StateRootMessage::EmptyProof { sequence_number, state }) => {
                run.proofs_processed = run.proofs_processed + 1;
                let update = self.on_empty_proof(sequence_number, state);
                RunAction::Proof { started: None, update, ended: self.check_end(run) }
            },
            Some(StateRootMessage::ProofCalculated(proof_calculated)) => {
                // we increment proofs_processed for both state updates and prefetches,
                // because both are used for the root termination condition.
                run.proofs_processed = run.proofs_processed + 1;
                let ProofCalculated { sequence_number, update, .. } = *proof_calculated;
                let started = self.multiproof_manager.on_calculation_complete();
                let update = self.on_proof(sequence_number, update);
                RunAction::Proof { started, update, ended: self.check_end(run) }
            },
            Some(StateRootMessage::RootCalculated { state_root, trie_updates, .. }) => {
                let total_time = elapsed(run.first_update_time, now);
                let time_from_last_update = elapsed(run.last_update_time, now);
                RunAction::Return(
                    Ok(
                        StateRootComputeOutcome {
                            state_root: (state_root, trie_updates),
                            total_time,
                            time_from_last_update,
                        },
                    ),
                )
            },
            Some(StateRootMessage::ProofCalculationError(error)) => RunAction::Return(
                Err(multiproof_error(&error)),
            ),
            Some(StateRootMessage::RootCalculationError(error)) => RunAction::Return(
                Err(root_error(&error)),
            ),
            // this means our internal message channel is closed, which shouldn't happen
            // in normal operation since we hold both ends
            None => RunAction::Return(Err(channel_closed_error())),
        }
    }

    /// Handler for a state update that needs no proof.
    fn on_empty_proof(&mut self, sequence_number: u64, state: HashedPostState) -> (delivered:
        Option<SparseTrieUpdate>)
        requires
            old(self).proof_sequencer.has_room(sequence_number),
        ensures
            empty_proof_handled(
                old(self).proof_sequencer,
                sequence_number,
                state,
                final(self).proof_sequencer,
                delivered,
            ),
            old(self).proof_sequencer.wf() ==> final(self).proof_sequencer.wf(),
            final(self).fetched_proof_targets == old(self).fetched_proof_targets,
            final(self).multiproof_manager == old(self).multiproof_manager,
    {
        let update = SparseTrieUpdate { state, multiproof: MultiProof::default() };
        let delivered = self.on_proof(sequence_number, update);
        assert(update.multiproof@ == MultiProofView::empty());
        delivered
    }

    /// Whether the end of the calculation is reached.
    fn check_end(&self, run: &RunProgress) -> (ended: bool)
        requires
            run.updates_received + run.prefetch_proofs_received <= u64::MAX,
        ensures
            ended == end_reached(*run, self.proof_sequencer),
    {
        check_end_condition(
            CheckEndConditionParams {
                proofs_processed: run.proofs_processed,
                updates_received: run.updates_received,
                prefetch_proofs_received: run.prefetch_proofs_received,
                updates_finished: run.updates_finished,
                proof_sequencer: &self.proof_sequencer,
            },
        )
    }
}

/// The time from `start` to `now`; none where there was no start.
fn elapsed(start: Option<Nanos>, now: Nanos) -> (time: Nanos)
    ensures
        time == elapsed_since(start, now),
{
    match start {
        Some(start) => now.saturating_sub(start),
        None => 0,
    }
}

} // verus!
