//! What the requested multiproofs are for: every account and slot that is to be proved is asked
//! for.

use vstd::prelude::*;

use crate::hashed_state::HashedPostStateView;
use crate::lifecycle::{
    at_the_start, brings_only_awaited, messages_came_in, on_the_way_after, runs_are_kept_track_of,
    state_after, was_on_the_way, MessageStep,
};
use crate::manager::{dispatches, reply, MultiproofDispatch, MultiproofInput};
use crate::message::{Nanos, StateRootMessage};
use crate::multiproof::MultiProof;
use crate::primitives::B256;
use crate::record::lemma_earlier_messages;
use crate::stream::{handed_out, hashed_update, hashes_update, lemma_update_is_hashed};
use crate::targets::{
    a_prefetch_asks_for_what_is_missing, an_update_asks_for_what_is_missing, prefetch_targets,
    proof_targets, slot_count, united_targets_are_those_of_both,
};
use crate::task::{RunAction, RunProgress, StateRootTask};

verus! {

/// The slot of the account is among the targets.
pub open spec fn has_slot(targets: Map<B256, Set<B256>>, account: B256, slot: B256) -> bool {
    targets.contains_key(account) && targets[account].contains(slot)
}

/// The message asks for a multiproof.
pub open spec fn is_request<Source, Updates>(
    message: Option<StateRootMessage<Source, Updates>>,
) -> bool {
    match message {
        Some(StateRootMessage::PrefetchProofs(_)) => true,
        Some(StateRootMessage::StateUpdate(_, _)) => true,
        _ => false,
    }
}

/// The request of the step is about the account: the state update changes it, or it is to be
/// prefetched.
pub open spec fn wants_account<Source, Updates>(
    step: MessageStep<Source, Updates>,
    account: B256,
) -> bool {
    match step.message {
        Some(StateRootMessage::PrefetchProofs(targets)) => targets@.contains_key(account),
        Some(StateRootMessage::StateUpdate(_, _)) => hashed_update(step).accounts.contains_key(
            account,
        ),
        _ => false,
    }
}

/// The request of the step is about the slot of the account: the state update changes it, or it is
/// to be prefetched.
pub open spec fn wants_slot<Source, Updates>(
    step: MessageStep<Source, Updates>,
    account: B256,
    slot: B256,
) -> bool {
    match step.message {
        Some(StateRootMessage::PrefetchProofs(targets)) => targets@.contains_key(account)
            && targets@[account].contains(slot),
        Some(StateRootMessage::StateUpdate(_, _)) => {
            let storages = hashed_update(step).storages;
            storages.contains_key(account) && storages[account].storage.contains_key(slot)
        },
        _ => false,
    }
}

/// The state changes that the request of the step is for: none for a prefetch.
pub open spec fn state_of_request<Source, Updates>(
    step: MessageStep<Source, Updates>,
) -> HashedPostStateView {
    match step.message {
        Some(StateRootMessage::StateUpdate(_, _)) => hashed_update(step),
        _ => HashedPostStateView::empty(),
    }
}

/// The calculation that was asked for in the step, if any: it was started at once, or waits last.
pub open spec fn asked_in<Source, Updates>(step: MessageStep<Source, Updates>) -> Option<
    MultiproofInput<Source>,
> {
    match step.action {
        RunAction::Dispatch(MultiproofDispatch::Spawn(input)) => Some(input),
        RunAction::Dispatch(MultiproofDispatch::Queued) => Some(
            step.after.0.multiproof_manager@.pending.last(),
        ),
        _ => None,
    }
}

/// All calculations that were asked for, in the order of the requests.
pub open spec fn asked<Source, Updates>(steps: Seq<MessageStep<Source, Updates>>) -> Seq<
    MultiproofInput<Source>,
>
    decreases steps.len(),
{
    if steps.len() == 0 {
        Seq::empty()
    } else {
        match asked_in(steps.last()) {
            Some(input) => asked(steps.drop_last()).push(input),
            None => asked(steps.drop_last()),
        }
    }
}

/// The calculations that were started, in order.
pub open spec fn started<Source, Updates>(steps: Seq<MessageStep<Source, Updates>>) -> Seq<
    MultiproofInput<Source>,
>
    decreases steps.len(),
{
    if steps.len() == 0 {
        Seq::empty()
    } else {
        match steps.last().action {
            RunAction::Dispatch(MultiproofDispatch::Spawn(input)) => started(
                steps.drop_last(),
            ).push(input),
            RunAction::Proof { started: Some(input), .. } => started(steps.drop_last()).push(input),
            _ => started(steps.drop_last()),
        }
    }
}

proof fn lemma_request<Source, Updates>(
    start: (StateRootTask<Source>, RunProgress),
    steps: Seq<MessageStep<Source, Updates>>,
) -> (input: MultiproofInput<Source>)
    requires
        messages_came_in(start, steps),
        steps.len() > 0,
        is_request(steps.last().message),
    ensures
        ({
            let step = steps.last();
            let fetched = step.before.0.fetched_proof_targets@;
            &&& step.action matches RunAction::Dispatch(dispatch)
            &&& dispatches(
                step.before.0.multiproof_manager@,
                input,
                step.after.0.multiproof_manager@,
                dispatch,
            )
            &&& input.source == (match step.message {
                Some(StateRootMessage::StateUpdate(source, _)) => Some(source),
                _ => None,
            })
            &&& input.hashed_state_update@ == state_of_request(step)
            &&& input.proof_sequence_number == step.before.0.proof_sequencer.next_sequence
            &&& forall|a: B256| #[trigger]
                step.after.0.fetched_proof_targets@.contains_key(a) <==> fetched.contains_key(a)
                    || input.proof_targets@.contains_key(a)
            &&& forall|a: B256, s: B256| #[trigger]
                has_slot(step.after.0.fetched_proof_targets@, a, s) <==> has_slot(fetched, a, s)
                    || has_slot(input.proof_targets@, a, s)
            &&& forall|a: B256, s: B256| #[trigger]
                has_slot(input.proof_targets@, a, s) <==> wants_slot(step, a, s) && !has_slot(
                    fetched,
                    a,
                    s,
                )
            &&& forall|a: B256| #[trigger]
                input.proof_targets@.contains_key(a) <==> {
                    ||| wants_account(step, a) && !fetched.contains_key(a)
                    ||| exists|s: B256| #[trigger]
                        wants_slot(step, a, s) && !has_slot(fetched, a, s)
                }
            &&& step.message matches Some(StateRootMessage::StateUpdate(_, update))
                ==> hashes_update(update, hashed_update(step))
        }),
{
    let step = steps.last();
    let fetched = step.before.0.fetched_proof_targets@;
    let after = step.after.0.fetched_proof_targets@;
    let dispatch = step.action->Dispatch_0;
    match step.message {
        Some(StateRootMessage::StateUpdate(source, update)) => {
            lemma_update_is_hashed(start, steps);
            let state = hashed_update(step);
            let input = choose|input: MultiproofInput<Source>|
                {
                    &&& input.source == Some(source)
                    &&& input.hashed_state_update@ == state
                    &&& input.proof_targets@ == proof_targets(state, fetched)
                    &&& input.proof_sequence_number == step.before.0.proof_sequencer.next_sequence
                    &&& #[trigger] dispatches(
                        step.before.0.multiproof_manager@,
                        input,
                        step.after.0.multiproof_manager@,
                        dispatch,
                    )
                };
            let wanted = input.proof_targets@;
            assert forall|a: B256, s: B256| #[trigger] has_slot(after, a, s) <==> has_slot(
                fetched,
                a,
                s,
            ) || has_slot(wanted, a, s) by {
                united_targets_are_those_of_both(fetched, wanted, a, s);
            }
            assert forall|a: B256| #[trigger] after.contains_key(a) <==> fetched.contains_key(a)
                || wanted.contains_key(a) by {
                united_targets_are_those_of_both(fetched, wanted, a, a);
            }
            assert forall|a: B256, s: B256| #[trigger] has_slot(wanted, a, s) <==> wants_slot(
                step,
                a,
                s,
            ) && !has_slot(fetched, a, s) by {
                an_update_asks_for_what_is_missing(state, fetched, a, s);
            }
            assert forall|a: B256| #[trigger] wanted.contains_key(a) <==> {
                ||| wants_account(step, a) && !fetched.contains_key(a)
                ||| exists|s: B256| #[trigger] wants_slot(step, a, s) && !has_slot(fetched, a, s)
            } by {
                an_update_asks_for_what_is_missing(state, fetched, a, a);
                if exists|t: B256| #[trigger]
                    state.storages[a].storage.contains_key(t) && state.storages.contains_key(a) && !(
                    fetched.contains_key(a) && fetched[a].contains(t)) {
                    let t = choose|t: B256| #[trigger]
                        state.storages[a].storage.contains_key(t) && state.storages.contains_key(a)
                            && !(fetched.contains_key(a) && fetched[a].contains(t));
                    assert(wants_slot(step, a, t) && !has_slot(fetched, a, t));
                }
                if exists|s: B256| #[trigger] wants_slot(step, a, s) && !has_slot(fetched, a, s) {
                    let s = choose|s: B256| #[trigger]
                        wants_slot(step, a, s) && !has_slot(fetched, a, s);
                    assert(state.storages[a].storage.contains_key(s));
                }
            }
            input
        },
        Some(StateRootMessage::PrefetchProofs(targets)) => {
            let input = choose|input: MultiproofInput<Source>|
                {
                    &&& input.source is None
                    &&& input.hashed_state_update@ == HashedPostStateView::empty()
                    &&& input.proof_targets@ == prefetch_targets(targets@, fetched)
                    &&& input.proof_sequence_number == step.before.0.proof_sequencer.next_sequence
                    &&& #[trigger] dispatches(
                        step.before.0.multiproof_manager@,
                        input,
                        step.after.0.multiproof_manager@,
                        dispatch,
                    )
                };
            let wanted = input.proof_targets@;
            assert forall|a: B256, s: B256| #[trigger] has_slot(after, a, s) <==> has_slot(
                fetched,
                a,
                s,
            ) || has_slot(wanted, a, s) by {
                united_targets_are_those_of_both(fetched, wanted, a, s);
            }
            assert forall|a: B256| #[trigger] after.contains_key(a) <==> fetched.contains_key(a)
                || wanted.contains_key(a) by {
                united_targets_are_those_of_both(fetched, wanted, a, a);
            }
            assert forall|a: B256, s: B256| #[trigger] has_slot(wanted, a, s) <==> wants_slot(
                step,
                a,
                s,
            ) && !has_slot(fetched, a, s) by {
                a_prefetch_asks_for_what_is_missing(targets@, fetched, a, s);
            }
            assert forall|a: B256| #[trigger] wanted.contains_key(a) <==> {
                ||| wants_account(step, a) && !fetched.contains_key(a)
                ||| exists|s: B256| #[trigger] wants_slot(step, a, s) && !has_slot(fetched, a, s)
            } by {
                a_prefetch_asks_for_what_is_missing(targets@, fetched, a, a);
                if exists|t: B256| #[trigger] targets@[a].contains(t) && !fetched[a].contains(t) {
                    let t = choose|t: B256| #[trigger]
                        targets@[a].contains(t) && !fetched[a].contains(t);
                    if targets@.contains_key(a) {
                        assert(wants_slot(step, a, t) && !has_slot(fetched, a, t));
                    }
                }
                if exists|s: B256| #[trigger] wants_slot(step, a, s) && !has_slot(fetched, a, s) {
                    let s = choose|s: B256| #[trigger]
                        wants_slot(step, a, s) && !has_slot(fetched, a, s);
                    assert(targets@[a].contains(s));
                }
            }
            input
        },
        _ => arbitrary(),
    }
}

/// A state update or prefetch request asks for exactly what it is about and was not fetched, under
/// the next number and along with the state changes of the update; and exactly that counts as
/// fetched from then on. If nothing is missing, the empty proof is sent back at once and nothing is
/// asked for; else the calculation is started if another may run, or waits behind those that wait.
pub proof fn a_request_asks_for_what_is_missing<Source, Updates>(
    start: (StateRootTask<Source>, RunProgress),
    steps: Seq<MessageStep<Source, Updates>>,
)
    requires
        messages_came_in(start, steps),
        steps.len() > 0,
        is_request(steps.last().message),
    ensures
        ({
            let step = steps.last();
            let fetched = step.before.0.fetched_proof_targets@;
            let fetched_after = step.after.0.fetched_proof_targets@;
            let number = step.before.0.proof_sequencer.next_sequence;
            let manager = step.before.0.multiproof_manager@;
            let manager_after = step.after.0.multiproof_manager@;
            &&& step.message matches Some(StateRootMessage::StateUpdate(_, update))
                ==> hashes_update(update, hashed_update(step))
            &&& manager_after.max_concurrent == manager.max_concurrent
            &&& forall|a: B256| #[trigger]
                fetched_after.contains_key(a) <== fetched.contains_key(a) || wants_account(step, a)
            &&& forall|a: B256, s: B256| #[trigger]
                has_slot(fetched_after, a, s) <==> has_slot(fetched, a, s) || wants_slot(step, a, s)
            &&& match asked_in(step) {
                Some(input) => {
                    let targets = input.proof_targets@;
                    &&& input.source == (match step.message {
                        Some(StateRootMessage::StateUpdate(source, _)) => Some(source),
                        _ => None,
                    })
                    &&& input.hashed_state_update@ == state_of_request(step)
                    &&& input.proof_sequence_number == number
                    &&& exists|a: B256| #[trigger] targets.contains_key(a)
                    &&& forall|a: B256| #[trigger]
                        targets.contains_key(a) <==> {
                            ||| wants_account(step, a) && !fetched.contains_key(a)
                            ||| exists|s: B256| #[trigger]
                                wants_slot(step, a, s) && !has_slot(fetched, a, s)
                        }
                    &&& forall|a: B256, s: B256| #[trigger]
                        has_slot(targets, a, s) <==> wants_slot(step, a, s) && !has_slot(
                            fetched,
                            a,
                            s,
                        )
                    &&& forall|a: B256| #[trigger]
                        fetched_after.contains_key(a) <==> fetched.contains_key(a)
                            || targets.contains_key(a)
                    &&& if step.action matches RunAction::Dispatch(MultiproofDispatch::Spawn(_)) {
                        &&& manager.inflight < manager.max_concurrent
                        &&& manager_after.inflight == manager.inflight + 1
                        &&& manager_after.pending == manager.pending
                    } else {
                        &&& manager.inflight >= manager.max_concurrent
                        &&& manager_after.inflight == manager.inflight
                        &&& manager_after.pending == manager.pending.push(input)
                    }
                },
                None => {
                    &&& step.action matches RunAction::Dispatch(
                        MultiproofDispatch::EmptyProof { sequence_number, state },
                    )
                    &&& sequence_number == number
                    &&& state@ == state_of_request(step)
                    &&& manager_after == manager
                    &&& forall|a: B256| #[trigger]
                        fetched_after.contains_key(a) <==> fetched.contains_key(a)
                    &&& forall|a: B256| #[trigger]
                        wants_account(step, a) ==> fetched.contains_key(a)
                    &&& forall|a: B256, s: B256| #[trigger]
                        wants_slot(step, a, s) ==> has_slot(fetched, a, s)
                },
            }
        }),
{
    let step = steps.last();
    let fetched = step.before.0.fetched_proof_targets@;
    let fetched_after = step.after.0.fetched_proof_targets@;
    let input = lemma_request(start, steps);
    let targets = input.proof_targets@;
    assert forall|a: B256| fetched.contains_key(a) || wants_account(step, a) implies #[trigger]
        fetched_after.contains_key(a) by {
        assert(targets.contains_key(a) || !targets.contains_key(a));
    }
    assert forall|a: B256, s: B256| #[trigger] has_slot(fetched_after, a, s) <==> has_slot(
        fetched,
        a,
        s,
    ) || wants_slot(step, a, s) by {
        assert(has_slot(targets, a, s) || !has_slot(targets, a, s));
    }
    if targets == Map::<B256, Set<B256>>::empty() {
        assert forall|a: B256, s: B256| #[trigger] wants_slot(step, a, s) implies has_slot(
            fetched,
            a,
            s,
        ) by {
            assert(!has_slot(targets, a, s));
        }
        assert forall|a: B256| #[trigger] wants_account(step, a) implies fetched.contains_key(a) by {
            assert(!targets.contains_key(a));
        }
    } else {
        if forall|a: B256| !(#[trigger] targets.contains_key(a)) {
            assert(targets =~= Map::<B256, Set<B256>>::empty());
        }
        assert(asked_in(step) == Some(input));
    }
}

/// Calculations are started in the order in which they were asked for, and none is lost: those that
/// were started, and after them those that wait, are all that were asked for. How many may run at a
/// time stays as it was.
pub proof fn calculations_are_started_in_the_order_of_the_requests<Source, Updates>(
    start: (StateRootTask<Source>, RunProgress),
    steps: Seq<MessageStep<Source, Updates>>,
)
    requires
        at_the_start(start),
        messages_came_in(start, steps),
    ensures
        started(steps) + state_after(start, steps).0.multiproof_manager@.pending == asked(steps),
        state_after(start, steps).0.multiproof_manager@.max_concurrent
            == start.0.multiproof_manager@.max_concurrent,
    decreases steps.len(),
{
    let pending = state_after(start, steps).0.multiproof_manager@.pending;
    if steps.len() == 0 {
        assert(started(steps) + pending =~= asked(steps));
    } else {
        let step = steps.last();
        let earlier = steps.drop_last();
        calculations_are_started_in_the_order_of_the_requests(start, earlier);
        let before = state_after(start, earlier).0.multiproof_manager@.pending;
        runs_are_kept_track_of(start, earlier);
        if is_request(step.message) {
            a_request_asks_for_what_is_missing(start, steps);
        }
        match step.action {
            RunAction::Dispatch(MultiproofDispatch::Queued) => {
                assert(pending =~= before.push(pending.last()));
            },
            RunAction::Proof { started: Some(input), .. } => {
                assert(before =~= seq![input] + pending);
            },
            _ => {},
        }
        assert(started(steps) + pending =~= asked(steps));
    }
}

/// At every time of a run, the accounts and slots that count as fetched are those that calculations
/// were asked for, each of which was started or waits.
pub proof fn what_counts_as_fetched_was_asked_for<Source, Updates>(
    start: (StateRootTask<Source>, RunProgress),
    steps: Seq<MessageStep<Source, Updates>>,
)
    requires
        at_the_start(start),
        start.0.fetched_proof_targets@ == Map::<B256, Set<B256>>::empty(),
        messages_came_in(start, steps),
    ensures
        started(steps) + state_after(start, steps).0.multiproof_manager@.pending == asked(steps),
        forall|a: B256| #[trigger]
            state_after(start, steps).0.fetched_proof_targets@.contains_key(a) <==> exists|i: int|
                0 <= i < asked(steps).len() && (#[trigger] asked(
                    steps,
                )[i]).proof_targets@.contains_key(a),
        forall|a: B256, s: B256| #[trigger]
            has_slot(state_after(start, steps).0.fetched_proof_targets@, a, s) <==> exists|i: int|
                0 <= i < asked(steps).len() && has_slot(
                    (#[trigger] asked(steps)[i]).proof_targets@,
                    a,
                    s,
                ),
    decreases steps.len(),
{
    calculations_are_started_in_the_order_of_the_requests(start, steps);
    if steps.len() > 0 {
        let step = steps.last();
        let earlier = steps.drop_last();
        let fetched = state_after(start, earlier).0.fetched_proof_targets@;
        let fetched_after = state_after(start, steps).0.fetched_proof_targets@;
        let before = asked(earlier);
        let now = asked(steps);
        what_counts_as_fetched_was_asked_for(start, earlier);
        if is_request(step.message) {
            a_request_asks_for_what_is_missing(start, steps);
        }
        match asked_in(step) {
            Some(input) => {
                assert(now == before.push(input));
                assert(now[before.len() as int] == input);
                assert forall|a: B256| #[trigger]
                    fetched_after.contains_key(a) <==> exists|i: int|
                    0 <= i < now.len() && (#[trigger] now[i]).proof_targets@.contains_key(a) by {
                    if fetched.contains_key(a) {
                        let i = choose|i: int|
                            0 <= i < before.len() && (
                            #[trigger] before[i]).proof_targets@.contains_key(a);
                        assert(now[i] == before[i]);
                    }
                    if exists|i: int|
                        0 <= i < now.len() && (#[trigger] now[i]).proof_targets@.contains_key(a) {
                        let i = choose|i: int|
                            0 <= i < now.len() && (#[trigger] now[i]).proof_targets@.contains_key(a);
                        if i < before.len() {
                            assert(now[i] == before[i]);
                        }
                    }
                }
                assert forall|a: B256, s: B256| #[trigger]
                    has_slot(fetched_after, a, s) <==> exists|i: int|
                    0 <= i < now.len() && has_slot((#[trigger] now[i]).proof_targets@, a, s) by {
                    assert(has_slot(input.proof_targets@, a, s) <==> wants_slot(step, a, s)
                        && !has_slot(fetched, a, s));
                    if has_slot(fetched, a, s) {
                        let i = choose|i: int|
                            0 <= i < before.len() && has_slot(
                                (#[trigger] before[i]).proof_targets@,
                                a,
                                s,
                            );
                        assert(now[i] == before[i]);
                    }
                    if exists|i: int|
                        0 <= i < now.len() && has_slot((#[trigger] now[i]).proof_targets@, a, s) {
                        let i = choose|i: int|
                            0 <= i < now.len() && has_slot(
                                (#[trigger] now[i]).proof_targets@,
                                a,
                                s,
                            );
                        if i < before.len() {
                            assert(now[i] == before[i]);
                        }
                    }
                }
            },
            None => {
                assert(now == before);
                assert forall|a: B256, s: B256| #[trigger] has_slot(fetched_after, a, s) <==> has_slot(
                    fetched,
                    a,
                    s,
                ) by {
                    if is_request(step.message) {
                        assert(wants_slot(step, a, s) ==> has_slot(fetched, a, s));
                    }
                }
            },
        }
    }
}

proof fn lemma_fetched_grows<Source, Updates>(
    start: (StateRootTask<Source>, RunProgress),
    steps: Seq<MessageStep<Source, Updates>>,
    n: int,
)
    requires
        messages_came_in(start, steps),
        0 <= n <= steps.len(),
    ensures
        forall|a: B256| #[trigger]
            state_after(start, steps.take(n)).0.fetched_proof_targets@.contains_key(a)
                ==> state_after(start, steps).0.fetched_proof_targets@.contains_key(a),
        forall|a: B256, s: B256| #[trigger]
            has_slot(state_after(start, steps.take(n)).0.fetched_proof_targets@, a, s) ==> has_slot(
                state_after(start, steps).0.fetched_proof_targets@,
                a,
                s,
            ),
    decreases steps.len(),
{
    if n == steps.len() {
        assert(steps.take(n) =~= steps);
    } else {
        let earlier = steps.drop_last();
        lemma_fetched_grows(start, earlier, n);
        assert(earlier.take(n) =~= steps.take(n));
        if is_request(steps.last().message) {
            a_request_asks_for_what_is_missing(start, steps);
        }
        let fetched = state_after(start, earlier).0.fetched_proof_targets@;
        let fetched_after = state_after(start, steps).0.fetched_proof_targets@;
        assert forall|a: B256| #[trigger] fetched.contains_key(a) implies fetched_after.contains_key(
            a,
        ) by {}
        assert forall|a: B256, s: B256| #[trigger] has_slot(fetched, a, s) implies has_slot(
            fetched_after,
            a,
            s,
        ) by {}
    }
}

/// Whatever a state update changes or a prefetch request names is proved: from then on, each of its
/// accounts and slots is among the targets of a calculation that was started or waits.
pub proof fn whatever_a_request_is_about_is_asked_for<Source, Updates>(
    start: (StateRootTask<Source>, RunProgress),
    steps: Seq<MessageStep<Source, Updates>>,
    n: int,
)
    requires
        at_the_start(start),
        start.0.fetched_proof_targets@ == Map::<B256, Set<B256>>::empty(),
        messages_came_in(start, steps),
        0 <= n < steps.len(),
    ensures
        started(steps) + state_after(start, steps).0.multiproof_manager@.pending == asked(steps),
        forall|a: B256| #[trigger]
            wants_account(steps[n], a) ==> exists|i: int|
                0 <= i < asked(steps).len() && (#[trigger] asked(
                    steps,
                )[i]).proof_targets@.contains_key(a),
        forall|a: B256, s: B256| #[trigger]
            wants_slot(steps[n], a, s) ==> exists|i: int|
                0 <= i < asked(steps).len() && has_slot(
                    (#[trigger] asked(steps)[i]).proof_targets@,
                    a,
                    s,
                ),
{
    let until = steps.take(n + 1);
    lemma_earlier_messages(start, steps, n + 1);
    assert(until.last() == steps[n]);
    what_counts_as_fetched_was_asked_for(start, steps);
    lemma_fetched_grows(start, steps, n + 1);
    if is_request(steps[n].message) {
        a_request_asks_for_what_is_missing(start, until);
    }
    let fetched = state_after(start, until).0.fetched_proof_targets@;
    let fetched_after = state_after(start, steps).0.fetched_proof_targets@;
    assert forall|a: B256| #[trigger] wants_account(steps[n], a) implies exists|i: int|
        0 <= i < asked(steps).len() && (#[trigger] asked(steps)[i]).proof_targets@.contains_key(
            a,
        ) by {
        assert(fetched.contains_key(a));
        assert(fetched_after.contains_key(a));
    }
    assert forall|a: B256, s: B256| #[trigger] wants_slot(steps[n], a, s) implies exists|i: int|
        0 <= i < asked(steps).len() && has_slot(
            (#[trigger] asked(steps)[i]).proof_targets@,
            a,
            s,
        ) by {
        assert(has_slot(fetched, a, s));
        assert(has_slot(fetched_after, a, s));
    }
}

proof fn lemma_asked_numbers<Source, Updates>(
    start: (StateRootTask<Source>, RunProgress),
    steps: Seq<MessageStep<Source, Updates>>,
)
    requires
        at_the_start(start),
        messages_came_in(start, steps),
    ensures
        forall|i: int, j: int|
            0 <= i < j < asked(steps).len() ==> (#[trigger] asked(steps)[i]).proof_sequence_number
                < (#[trigger] asked(steps)[j]).proof_sequence_number,
        forall|i: int|
            0 <= i < asked(steps).len() ==> (#[trigger] asked(steps)[i]).proof_sequence_number
                < state_after(start, steps).0.proof_sequencer.next_sequence,
    decreases steps.len(),
{
    if steps.len() > 0 {
        let earlier = steps.drop_last();
        let step = steps.last();
        lemma_asked_numbers(start, earlier);
        if is_request(step.message) {
            a_request_asks_for_what_is_missing(start, steps);
            assert forall|i: int| 0 <= i < asked(earlier).len() implies (
            #[trigger] asked(earlier)[i]).proof_sequence_number
                < step.before.0.proof_sequencer.next_sequence by {}
        } else {
            assert(asked(steps) == asked(earlier));
        }
    }
}

proof fn lemma_started_states<Source, Updates>(
    start: (StateRootTask<Source>, RunProgress),
    steps: Seq<MessageStep<Source, Updates>>,
)
    requires
        at_the_start(start),
        messages_came_in(start, steps),
    ensures
        forall|i: int|
            0 <= i < started(steps).len() ==> handed_out(steps)[(#[trigger] started(
                steps,
            )[i]).proof_sequence_number] == started(steps)[i].hashed_state_update@,
    decreases steps.len(),
{
    if steps.len() > 0 {
        let earlier = steps.drop_last();
        let step = steps.last();
        let before = started(earlier);
        let now = started(steps);
        lemma_started_states(start, earlier);
        lemma_asked_numbers(start, steps);
        lemma_asked_numbers(start, earlier);
        calculations_are_started_in_the_order_of_the_requests(start, steps);
        calculations_are_started_in_the_order_of_the_requests(start, earlier);
        if is_request(step.message) {
            a_request_asks_for_what_is_missing(start, steps);
        }
        assert forall|i: int| 0 <= i < now.len() implies handed_out(steps)[(
        #[trigger] now[i]).proof_sequence_number] == now[i].hashed_state_update@ by {
            assert(now[i] == asked(steps)[i]);
            if i < before.len() {
                assert(before[i] == now[i]);
                assert(before[i] == asked(earlier)[i]);
                if now.len() > before.len() {
                    assert(now[before.len() as int] == asked(steps)[before.len() as int]);
                }
            }
        }
    }
}

/// A calculation that was started reports under the number that it was started for, and with the
/// state changes that were handed out under that number, along with the proof as it was calculated,
/// how long that took and how many accounts and slots it was to cover; as long as it has not
/// reported yet, its report is awaited. A calculation that fails reports the error.
pub proof fn a_started_calculation_reports_under_its_number<Source, Updates>(
    start: (StateRootTask<Source>, RunProgress),
    steps: Seq<MessageStep<Source, Updates>>,
    i: int,
    elapsed: Nanos,
    result: Result<MultiProof, String>,
)
    requires
        at_the_start(start),
        messages_came_in(start, steps),
        0 <= i < started(steps).len(),
        on_the_way_after(steps).running.contains(started(steps)[i].proof_sequence_number),
    ensures
        ({
            let message = reply::<Source, Updates>(started(steps)[i], elapsed, result);
            let sequencer = state_after(start, steps).0.proof_sequencer;
            let targets = started(steps)[i].proof_targets@;
            &&& was_on_the_way(on_the_way_after(steps), Some(message))
            &&& brings_only_awaited(sequencer, Some(message))
            &&& match (result, message) {
                (Ok(multiproof), StateRootMessage::ProofCalculated(proof)) => {
                    &&& proof.update@.state == handed_out(steps)[proof.sequence_number]
                    &&& proof.update.multiproof == multiproof
                    &&& proof.elapsed == elapsed
                    &&& targets.dom().len() <= usize::MAX ==> proof.account_targets
                        == targets.dom().len()
                    &&& slot_count(targets) <= usize::MAX ==> proof.storage_targets == slot_count(
                        targets,
                    )
                },
                (Err(error), StateRootMessage::ProofCalculationError(text)) => text == error,
                _ => false,
            }
        }),
{
    lemma_started_states(start, steps);
    runs_are_kept_track_of(start, steps);
    assert(handed_out(steps)[started(steps)[i].proof_sequence_number] == started(
        steps,
    )[i].hashed_state_update@);
}

} // verus!
