//! Limiting how many multiproof calculations run at a time.

use vstd::prelude::*;

use std::collections::VecDeque;

use crate::hashed_state::HashedPostState;
use crate::message::{multiproof_message, Nanos, ProofCalculated, StateRootMessage};
use crate::multiproof::MultiProof;
use crate::primitives::B256;
use crate::targets::{slot_count, MultiProofTargets};
use crate::update::SparseTrieUpdate;

verus! {

/// The size of the thread pool on a host that can run `available` threads in parallel.
pub open spec fn pool_size(available: Option<usize>) -> int {
    match available {
        Some(n) => if n > 5 {
            n - 2
        } else {
            3
        },
        None => 3,
    }
}

/// The host can run enough threads in parallel.
pub open spec fn enough_threads(available: Option<usize>) -> bool {
    available matches Some(n) && n > 4
}

/// The host can run enough threads exactly if it can run all threads of the pool and two more; the
/// pool has at least three threads, never more than it has to, and no fewer on a host that can run
/// more threads.
pub proof fn enough_threads_are_two_more_than_the_pool_has(m: usize, n: usize)
    ensures
        enough_threads(Some(n)) <==> pool_size(Some(n)) + 2 <= n,
        !enough_threads(None),
        pool_size(None) == 3,
        pool_size(Some(n)) >= 3,
        pool_size(Some(n)) >= n - 2,
        pool_size(Some(n)) == 3 || pool_size(Some(n)) == n - 2,
        m <= n ==> pool_size(Some(m)) <= pool_size(Some(n)),
{
}

/// Determines the size of the rayon thread pool to be used in the state root task, for a host that
/// can run `available` threads in parallel, if that is known.
///
/// The value is the number of threads less two, which are left to the rest of the system, but
/// never below three.
pub fn rayon_thread_pool_size(available: Option<usize>) -> (size: usize)
    ensures
        size == pool_size(available),
        available matches Some(n) ==> size == vstd::math::max(n - 2, 3),
        available matches Some(n) ==> (n >= 5 ==> size + 2 == n) && (n < 5 ==> size == 3),
        available is None ==> size == 3,
        size >= 3,
{
    match available {
        Some(n) => {
            let rest = n.saturating_sub(2);
            if rest < 3 {
                3
            } else {
                rest
            }
        },
        None => 3,
    }
}

/// Determines if the host has enough parallelism to run the state root task.
///
/// It requires at least 5 parallel threads.
pub fn has_enough_parallelism(available: Option<usize>) -> (enough: bool)
    ensures
        enough == enough_threads(available),
        enough == (available matches Some(n) && n >= 5),
{
    match available {
        Some(n) => n >= 5,
        None => false,
    }
}

/// Input parameters for spawning a multiproof calculation.
#[derive(Debug)]
pub struct MultiproofInput<Source> {
    /// Where the state update comes from; `None` for a prefetch.
    pub source: Option<Source>,
    /// The state update that the proof is for.
    pub hashed_state_update: HashedPostState,
    /// What is to be proved.
    pub proof_targets: MultiProofTargets,
    /// The number of the proof in the order of requests.
    pub proof_sequence_number: u64,
}

/// The message about the finished calculation of a multiproof.
pub open spec fn reply<Source, Updates>(
    input: MultiproofInput<Source>,
    elapsed: Nanos,
    result: Result<MultiProof, String>,
) -> StateRootMessage<Source, Updates> {
    match result {
        Ok(multiproof) => StateRootMessage::ProofCalculated(
            Box::new(
                ProofCalculated {
                    sequence_number: input.proof_sequence_number,
                    update: SparseTrieUpdate { state: input.hashed_state_update, multiproof },
                    account_targets: input.proof_targets@.dom().len() as usize,
                    storage_targets: slot_count(input.proof_targets@) as usize,
                    elapsed,
                },
            ),
        ),
        Err(error) => StateRootMessage::ProofCalculationError(error),
    }
}

impl<Source> MultiproofInput<Source> {
    /// The message about the finished calculation of this multiproof: the proof, along with the
    /// number and the state update that it was calculated for and with how many accounts and slots
    /// it had to cover, or what went wrong.
    pub fn into_message<Updates>(
        self,
        elapsed: Nanos,
        result: Result<MultiProof, String>,
    ) -> (message: StateRootMessage<Source, Updates>)
        requires
            slot_count(self.proof_targets@) <= usize::MAX,
        ensures
            message == reply::<Source, Updates>(self, elapsed, result),
            message == (match result {
                Ok(multiproof) => StateRootMessage::<Source, Updates>::ProofCalculated(
                    Box::new(
                        ProofCalculated {
                            sequence_number: self.proof_sequence_number,
                            update: SparseTrieUpdate {
                                state: self.hashed_state_update,
                                multiproof,
                            },
                            account_targets: self.proof_targets@.dom().len() as usize,
                            storage_targets: slot_count(self.proof_targets@) as usize,
                            elapsed,
                        },
                    ),
                ),
                Err(error) => StateRootMessage::<Source, Updates>::ProofCalculationError(error),
            }),
    {
        let (account_targets, storage_targets) = match self.proof_targets.counts() {
            Some(counts) => counts,
            None => {
                assert(false);
                (0, 0)
            },
        };
        multiproof_message(
            self.proof_sequence_number,
            self.hashed_state_update,
            account_targets,
            storage_targets,
            elapsed,
            result,
        )
    }
}

/// What is to be done about a request for a multiproof.
#[derive(Debug)]
pub enum MultiproofDispatch<Source> {
    /// There is nothing to prove: the empty proof is to be sent back at once.
    EmptyProof {
        /// The number of the proof in the order of requests.
        sequence_number: u64,
        /// The state update that the proof is for.
        state: HashedPostState,
    },
    /// The calculation is to be started.
    Spawn(MultiproofInput<Source>),
    /// The calculation waits for another one to finish.
    Queued,
}

/// Manages concurrent multiproof calculations.
/// Takes care of not having more calculations in flight than a given thread
/// pool size, further calculation requests are queued and spawn later, after
/// availability has been signaled.
#[derive(Debug)]
pub struct MultiproofManager<Source> {
    /// Maximum number of concurrent calculations.
    pub max_concurrent: usize,
    /// Currently running calculations.
    pub inflight: usize,
    /// Queued calculations.
    pub pending: VecDeque<MultiproofInput<Source>>,
}

/// What a [`MultiproofManager`] holds.
#[verifier::ext_equal]
pub ghost struct ManagerView<Input> {
    pub max_concurrent: nat,
    pub inflight: nat,
    pub pending: Seq<Input>,
}

impl<Source> View for MultiproofManager<Source> {
    type V = ManagerView<MultiproofInput<Source>>;

    open spec fn view(&self) -> ManagerView<MultiproofInput<Source>> {
        ManagerView {
            max_concurrent: self.max_concurrent as nat,
            inflight: self.inflight as nat,
            pending: self.pending@,
        }
    }
}

impl<Input> ManagerView<Input> {
    /// At least one calculation may run, no more than may run do, and a calculation waits only
    /// while as many as may run do.
    pub open spec fn wf(self) -> bool {
        &&& 1 <= self.max_concurrent
        &&& self.inflight <= self.max_concurrent
        &&& self.pending.len() > 0 ==> self.inflight == self.max_concurrent
    }

    /// A request with something to prove: the manager afterwards, and the calculation that is
    /// started.
    pub open spec fn requested(self, input: Input) -> (ManagerView<Input>, Option<Input>) {
        if self.inflight >= self.max_concurrent {
            (ManagerView { pending: self.pending.push(input), ..self }, None)
        } else {
            (ManagerView { inflight: self.inflight + 1, ..self }, Some(input))
        }
    }

    /// A calculation is over: the manager afterwards, and the calculation that is started.
    pub open spec fn completed(self) -> (ManagerView<Input>, Option<Input>) {
        let running = if self.inflight == 0 {
            0
        } else {
            (self.inflight - 1) as nat
        };
        if self.pending.len() > 0 {
            (
                ManagerView {
                    inflight: running + 1,
                    pending: self.pending.drop_first(),
                    ..self
                },
                Some(self.pending[0]),
            )
        } else {
            (ManagerView { inflight: running, ..self }, None)
        }
    }
}

/// How a manager answers a request: the empty proof comes back at once where there is nothing to
/// prove; otherwise the calculation starts or waits.
pub open spec fn dispatches<Source>(
    before: ManagerView<MultiproofInput<Source>>,
    input: MultiproofInput<Source>,
    after: ManagerView<MultiproofInput<Source>>,
    dispatch: MultiproofDispatch<Source>,
) -> bool {
    if input.proof_targets@ == Map::<B256, Set<B256>>::empty() {
        &&& after == before
        &&& dispatch == MultiproofDispatch::<Source>::EmptyProof {
            sequence_number: input.proof_sequence_number,
            state: input.hashed_state_update,
        }
    } else {
        let (requested, started) = before.requested(input);
        &&& after == requested
        &&& dispatch == (match started {
            Some(s) => MultiproofDispatch::Spawn(s),
            None => MultiproofDispatch::Queued,
        })
    }
}

impl<Source> MultiproofManager<Source> {
    /// Creates a new [`MultiproofManager`].
    pub fn new(thread_pool_size: usize) -> (manager: MultiproofManager<Source>)
        requires
            thread_pool_size > 2,
        ensures
            manager@.wf(),
            manager@.max_concurrent == thread_pool_size - 2,
            manager@.inflight == 0,
            manager@.pending == Seq::<MultiproofInput<Source>>::empty(),
    {
        // we keep 2 threads to be used internally by the state root task
        let max_concurrent = thread_pool_size - 2;
        MultiproofManager {
            max_concurrent,
            inflight: 0,
            pending: VecDeque::with_capacity(max_concurrent),
        }
    }

    /// Spawns a new multiproof calculation or enqueues it for later if
    /// `max_concurrent` are already inflight.
    pub fn spawn_or_queue(&mut self, input: MultiproofInput<Source>) -> (dispatch:
        MultiproofDispatch<Source>)
        ensures
            dispatches(old(self)@, input, final(self)@, dispatch),
            old(self)@.wf() ==> final(self)@.wf(),
    {
        // If there are no proof targets, we can just send an empty multiproof back immediately
        if input.proof_targets.is_empty() {
            return MultiproofDispatch::EmptyProof {
                sequence_number: input.proof_sequence_number,
                state: input.hashed_state_update,
            };
        }
        if self.inflight >= self.max_concurrent {
            self.pending.push_back(input);
            return MultiproofDispatch::Queued;
        }
        MultiproofDispatch::Spawn(self.spawn_multiproof(input))
    }

    /// Signals that a multiproof calculation has finished and there's room to
    /// spawn a new calculation if needed. Returns that calculation.
    pub fn on_calculation_complete(&mut self) -> (started: Option<MultiproofInput<Source>>)
        ensures
            (final(self)@, started) == old(self)@.completed(),
            old(self)@.wf() ==> final(self)@.wf(),
    {
        self.inflight = self.inflight.saturating_sub(1);
        match self.pending.pop_front() {
            Some(input) => Some(self.spawn_multiproof(input)),
            None => None,
        }
    }

    /// Counts a multiproof calculation as running and hands it back to be started.
    pub fn spawn_multiproof(&mut self, input: MultiproofInput<Source>) -> (started: MultiproofInput<
        Source,
    >)
        requires
            old(self).inflight < usize::MAX,
        ensures
            started == input,
            final(self).inflight == old(self).inflight + 1,
            final(self).max_concurrent == old(self).max_concurrent,
            final(self).pending == old(self).pending,
    {
        self.inflight = self.inflight + 1;
        input
    }
}

/// What happens to a manager.
pub enum ManagerEvent<Input> {
    /// A calculation is requested.
    Request(Input),
    /// A calculation is over.
    Complete,
}

/// The calculations that have been requested, in order.
pub open spec fn requests<Input>(events: Seq<ManagerEvent<Input>>) -> Seq<Input>
    decreases events.len(),
{
    if events.len() == 0 {
        Seq::empty()
    } else {
        match events.last() {
            ManagerEvent::Request(input) => requests(events.drop_last()).push(input),
            ManagerEvent::Complete => requests(events.drop_last()),
        }
    }
}

/// The manager after `events`, and the calculations started on the way, in order.
pub open spec fn manager_after<Input>(
    manager: ManagerView<Input>,
    events: Seq<ManagerEvent<Input>>,
) -> (ManagerView<Input>, Seq<Input>)
    decreases events.len(),
{
    if events.len() == 0 {
        (manager, Seq::empty())
    } else {
        let (before, earlier) = manager_after(manager, events.drop_last());
        let (after, started) = match events.last() {
            ManagerEvent::Request(input) => before.requested(input),
            ManagerEvent::Complete => before.completed(),
        };
        (
            after,
            match started {
                Some(input) => earlier.push(input),
                None => earlier,
            },
        )
    }
}

/// The number of calculations that are over.
pub open spec fn completions<Input>(events: Seq<ManagerEvent<Input>>) -> nat
    decreases events.len(),
{
    if events.len() == 0 {
        0
    } else {
        match events.last() {
            ManagerEvent::Request(_) => completions(events.drop_last()),
            ManagerEvent::Complete => completions(events.drop_last()) + 1,
        }
    }
}

/// Whatever happens to a new manager, no more calculations have been started and are not over than
/// may be in flight, none waits while there is room for it, and each requested calculation is
/// started once or still waits, in the order of the requests.
pub proof fn calculations_start_in_order_within_the_limit<Input>(
    manager: ManagerView<Input>,
    events: Seq<ManagerEvent<Input>>,
)
    requires
        manager.wf(),
        manager.inflight == 0,
        manager.pending == Seq::<Input>::empty(),
    ensures
        ({
            let (after, started) = manager_after(manager, events);
            &&& after.wf()
            &&& after.pending.len() > 0 ==> after.inflight == manager.max_concurrent
            &&& after.max_concurrent == manager.max_concurrent
            &&& started.len() - completions(events) <= after.inflight <= manager.max_concurrent
            &&& started + after.pending == requests(events)
        }),
    decreases events.len(),
{
    let (after, started) = manager_after(manager, events);
    if events.len() == 0 {
        assert(started + after.pending =~= requests(events));
    } else {
        calculations_start_in_order_within_the_limit(manager, events.drop_last());
        let (before, earlier) = manager_after(manager, events.drop_last());
        match events.last() {
            ManagerEvent::Request(input) => {
                assert(before.pending.len() == 0 || before.inflight >= before.max_concurrent);
                assert(started + after.pending =~= (earlier + before.pending).push(input));
            },
            ManagerEvent::Complete => {
                assert(started + after.pending =~= earlier + before.pending);
            },
        }
    }
}

/// A finished calculation takes one off those that run or wait, if there are any: the first one
/// that waits is started, or, if none waits, one less runs.
pub proof fn a_finished_calculation_is_taken_off<Input>(manager: ManagerView<Input>)
    requires
        manager.wf(),
    ensures
        ({
            let (after, started) = manager.completed();
            let work = manager.inflight + manager.pending.len();
            &&& after.max_concurrent == manager.max_concurrent
            &&& work > 0 ==> after.inflight + after.pending.len() == work - 1
            &&& work == 0 ==> after == manager
            &&& started is Some <==> manager.pending.len() > 0
            &&& started matches Some(input) ==> manager.pending == seq![input] + after.pending
            &&& started is None ==> after.pending.len() == 0
        }),
{
    let (after, started) = manager.completed();
    if manager.pending.len() > 0 {
        assert(manager.pending =~= seq![manager.pending[0]] + after.pending);
    }
}

} // verus!
