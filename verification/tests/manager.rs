use state_root::hashed_state::HashedPostState;
use state_root::manager::{
    has_enough_parallelism, rayon_thread_pool_size, MultiproofDispatch, MultiproofInput,
    MultiproofManager,
};
use state_root::message::{multiproof_message, ProofFetchSource, StateRootMessage};
use state_root::multiproof::MultiProof;
use state_root::targets::MultiProofTargets;

fn input(number: u64) -> MultiproofInput<u64> {
    let mut proof_targets = MultiProofTargets::default();
    proof_targets.insert([1; 32], Default::default());
    MultiproofInput {
        source: Some(number),
        hashed_state_update: HashedPostState::default(),
        proof_targets,
        proof_sequence_number: number,
    }
}

fn spawned(dispatch: MultiproofDispatch<u64>) -> Option<u64> {
    match dispatch {
        MultiproofDispatch::Spawn(input) => Some(input.proof_sequence_number),
        _ => None,
    }
}

#[test]
fn the_pool_leaves_two_threads_and_has_at_least_three() {
    assert_eq!(rayon_thread_pool_size(None), 3);
    assert_eq!(rayon_thread_pool_size(Some(1)), 3);
    assert_eq!(rayon_thread_pool_size(Some(5)), 3);
    assert_eq!(rayon_thread_pool_size(Some(6)), 4);
    assert_eq!(rayon_thread_pool_size(Some(64)), 62);
}

#[test]
fn five_threads_are_enough() {
    assert!(!has_enough_parallelism(None));
    assert!(!has_enough_parallelism(Some(4)));
    assert!(has_enough_parallelism(Some(5)));
}

#[test]
fn calculations_beyond_the_limit_wait_for_their_turn() {
    let mut manager: MultiproofManager<u64> = MultiproofManager::new(4);
    assert_eq!(manager.max_concurrent, 2);
    assert_eq!(spawned(manager.spawn_or_queue(input(0))), Some(0));
    assert_eq!(spawned(manager.spawn_or_queue(input(1))), Some(1));
    assert!(matches!(manager.spawn_or_queue(input(2)), MultiproofDispatch::Queued));
    assert!(matches!(manager.spawn_or_queue(input(3)), MultiproofDispatch::Queued));
    assert_eq!(manager.inflight, 2);

    assert_eq!(manager.on_calculation_complete().unwrap().proof_sequence_number, 2);
    assert_eq!(manager.on_calculation_complete().unwrap().proof_sequence_number, 3);
    assert_eq!(manager.inflight, 2);
    assert!(manager.on_calculation_complete().is_none());
    assert!(manager.on_calculation_complete().is_none());
    assert_eq!(manager.inflight, 0);
    assert!(manager.on_calculation_complete().is_none());
    assert_eq!(manager.inflight, 0);
    assert_eq!(spawned(manager.spawn_or_queue(input(4))), Some(4));
}

#[test]
fn the_smallest_pool_runs_one_calculation_at_a_time() {
    let mut manager: MultiproofManager<u64> = MultiproofManager::new(3);
    assert_eq!(spawned(manager.spawn_or_queue(input(0))), Some(0));
    assert!(matches!(manager.spawn_or_queue(input(1)), MultiproofDispatch::Queued));
}

#[test]
fn without_targets_the_empty_proof_comes_back_at_once() {
    let mut manager: MultiproofManager<u64> = MultiproofManager::new(3);
    let mut empty = input(7);
    empty.proof_targets = MultiProofTargets::default();
    empty.hashed_state_update.accounts.insert([5; 32], None);
    match manager.spawn_or_queue(empty) {
        MultiproofDispatch::EmptyProof { sequence_number, state } => {
            assert_eq!(sequence_number, 7);
            assert!(state.accounts.contains_key(&[5; 32]));
        }
        other => panic!("unexpected dispatch {:?}", other),
    }
    assert_eq!(manager.inflight, 0);
    assert!(manager.pending.is_empty());
}

#[test]
fn a_finished_calculation_is_reported_with_its_state_update() {
    let mut state = HashedPostState::default();
    state.accounts.insert([2; 32], None);
    let message: StateRootMessage<u64, ()> =
        multiproof_message(4, state.clone(), 1, 2, 3, Ok(MultiProof::default()));
    match message {
        StateRootMessage::ProofCalculated(proof) => {
            assert_eq!(proof.sequence_number, 4);
            assert_eq!(proof.update.state, state);
            assert_eq!(proof.update.multiproof, MultiProof::default());
            assert_eq!((proof.account_targets, proof.storage_targets), (1, 2));
            assert_eq!(proof.elapsed, 3);
        }
        other => panic!("unexpected message {:?}", other),
    }
    let failed: StateRootMessage<u64, ()> =
        multiproof_message(4, state, 1, 2, 3, Err("no database".to_string()));
    assert!(matches!(failed, StateRootMessage::ProofCalculationError(text) if text == "no database"));
}

#[test]
fn fetch_sources_are_named() {
    assert_eq!(format!("{:?}", ProofFetchSource::Prefetch), "Prefetch");
    assert_eq!(format!("{:?}", ProofFetchSource::StateUpdate), "StateUpdate");
}

#[test]
fn a_started_calculation_counts_whatever_the_limit() {
    let mut manager: MultiproofManager<u64> = MultiproofManager::new(3);
    for number in 0..3 {
        assert_eq!(manager.spawn_multiproof(input(number)).proof_sequence_number, number);
    }
    assert_eq!(manager.inflight, 3);
    assert_eq!(manager.max_concurrent, 1);
    assert!(manager.pending.is_empty());
    assert!(matches!(manager.spawn_or_queue(input(3)), MultiproofDispatch::Queued));
}

#[test]
fn the_message_of_a_calculation_is_that_of_its_input() {
    let mut request = input(6);
    request.proof_targets.insert([2; 32], vec![[1; 32], [2; 32]].into_iter().collect());
    request.hashed_state_update.accounts.insert([9; 32], None);
    let state = request.hashed_state_update.clone();
    let message: StateRootMessage<u64, ()> = request.into_message(4, Ok(MultiProof::default()));
    match message {
        StateRootMessage::ProofCalculated(proof) => {
            assert_eq!(proof.sequence_number, 6);
            assert_eq!(proof.update.state, state);
            assert_eq!((proof.account_targets, proof.storage_targets), (2, 2));
            assert_eq!(proof.elapsed, 4);
        }
        other => panic!("unexpected message {:?}", other),
    }
    let failed: StateRootMessage<u64, ()> = input(6).into_message(4, Err("gone".to_string()));
    assert!(matches!(failed, StateRootMessage::ProofCalculationError(text) if text == "gone"));
}
