use std::collections::{BTreeMap, VecDeque};

use alloy_trie::root::{state_root_unhashed, storage_root_unhashed};
use alloy_trie::{HashBuilder, Nibbles, TrieAccount};
use revm_primitives::{Address, HashMap, B256, KECCAK_EMPTY, U256};
use revm_state::{Account as RevmAccount, AccountInfo, AccountStatus, EvmState, EvmStorageSlot};
use state_root::evm::evm_state_to_hashed_post_state;
use state_root::hashed_state::{Account, HashedPostState, HashedStorage};
use state_root::manager::{MultiproofDispatch, MultiproofInput};
use state_root::message::{
    channel_closed_error, multiproof_error, root_error, ParallelStateRootError, ProofCalculated,
    StateRootComputeOutcome, StateRootMessage,
};
use state_root::multiproof::{node_path, MultiProof};
use state_root::primitives::unpack_nibbles;
use state_root::sequencer::ProofSequencer;
use state_root::sparse_trie::{
    sparse_trie_steps, LeafOp, SparseTrieProgress, SparseTrieStep, SparseTrieTaskStep,
};
use state_root::targets::MultiProofTargets;
use state_root::task::{
    check_end_condition, CheckEndConditionParams, RunAction, RunProgress, StateRootTask,
};
use state_root::update::SparseTrieUpdate;

type Message = StateRootMessage<usize, ()>;

/// A row of numbers without pattern, the same at every run.
struct Numbers(u64);

impl Numbers {
    fn next(&mut self) -> u64 {
        self.0 ^= self.0 << 13;
        self.0 ^= self.0 >> 7;
        self.0 ^= self.0 << 17;
        self.0
    }

    fn below(&mut self, bound: u64) -> u64 {
        self.next() % bound
    }
}

fn create_mock_state_updates(num_accounts: usize, updates_per_account: usize) -> Vec<EvmState> {
    let mut rng = Numbers(0x2545_f491_4f6c_dd1d);
    let all_addresses: Vec<Address> = (0..num_accounts)
        .map(|_| {
            let mut bytes = [0u8; 20];
            for chunk in bytes.chunks_mut(4) {
                chunk.copy_from_slice(&rng.next().to_be_bytes()[..4]);
            }
            Address::from(bytes)
        })
        .collect();
    let mut updates = Vec::new();

    for _ in 0..updates_per_account {
        let num_accounts_in_update = 1 + rng.below(num_accounts as u64) as usize;
        let mut state_update = EvmState::default();

        let selected_addresses = &all_addresses[0..num_accounts_in_update];

        for &address in selected_addresses {
            let mut storage = HashMap::default();
            if rng.below(10) < 7 {
                for _ in 0..1 + rng.below(9) {
                    let slot = U256::from(rng.next());
                    storage.insert(
                        slot,
                        EvmStorageSlot::new_changed(U256::ZERO, U256::from(rng.next())),
                    );
                }
            }

            let account = RevmAccount {
                info: AccountInfo {
                    balance: U256::from(rng.next()),
                    nonce: rng.next(),
                    code_hash: KECCAK_EMPTY,
                    code: Some(Default::default()),
                },
                storage,
                status: AccountStatus::Touched,
            };

            state_update.insert(address, account);
        }

        updates.push(state_update);
    }

    updates
}

/// A sparse trie that holds all leaves.
#[derive(Default)]
struct FullTrie {
    accounts: BTreeMap<[u8; 32], Account>,
    storages: BTreeMap<[u8; 32], BTreeMap<Vec<u8>, Vec<u8>>>,
}

impl FullTrie {
    fn update(&mut self, update: SparseTrieUpdate) {
        for step in sparse_trie_steps(update) {
            match step {
                SparseTrieStep::UpdateStorage(address, ops) => {
                    let leaves = self.storages.entry(address).or_default();
                    if ops.wipe {
                        leaves.clear();
                    }
                    for op in ops.leaves {
                        match op {
                            LeafOp::Remove { path } => {
                                leaves.remove(&path);
                            }
                            LeafOp::Update { path, value } => {
                                leaves.insert(path, value);
                            }
                        }
                    }
                }
                SparseTrieStep::UpdateAccount(address, account) => {
                    self.accounts.insert(address, account);
                }
                SparseTrieStep::Reveal(_) | SparseTrieStep::CalculateBelowLevel(_) => {}
            }
        }
    }

    fn root(&self) -> B256 {
        let mut state = HashBuilder::default();
        for (address, account) in &self.accounts {
            let mut storage = HashBuilder::default();
            for (path, value) in self.storages.get(address).into_iter().flatten() {
                storage.add_leaf(Nibbles::from_nibbles(path), value);
            }
            let account = TrieAccount {
                nonce: account.nonce,
                balance: U256::from_be_bytes(account.balance.be_bytes),
                storage_root: storage.root(),
                code_hash: account.bytecode_hash.map_or(KECCAK_EMPTY, B256::from),
            };
            state.add_leaf(Nibbles::unpack(address), &alloy_rlp::encode(&account));
        }
        state.root()
    }
}

/// What a host does for the task: it runs calculations and updates the sparse trie.
struct Host {
    task: StateRootTask<usize>,
    run: RunProgress,
    messages: VecDeque<Message>,
    calculations: Vec<MultiproofInput<usize>>,
    most_calculations: usize,
    trie: FullTrie,
    trie_progress: SparseTrieProgress,
    trie_closed: bool,
    now: u128,
}

impl Host {
    fn new(available_parallelism: Option<usize>) -> Host {
        Host {
            task: StateRootTask::new(available_parallelism),
            run: RunProgress::new(),
            messages: VecDeque::new(),
            calculations: Vec::new(),
            most_calculations: 0,
            trie: FullTrie::default(),
            trie_progress: SparseTrieProgress::new(),
            trie_closed: false,
            now: 1000,
        }
    }

    fn start(&mut self, input: MultiproofInput<usize>) {
        self.calculations.push(input);
        self.most_calculations = self.most_calculations.max(self.calculations.len());
    }

    /// Finishes the calculation that was started last.
    fn finish_a_calculation(&mut self) -> bool {
        let Some(input) = self.calculations.pop() else { return false };
        let mut proof = MultiProof::default();
        for account in input.proof_targets.accounts.keys() {
            proof
                .account_subtree
                .insert(node_path(&unpack_nibbles(account)).unwrap(), vec![account[0]]);
        }
        self.messages.push_back(input.into_message(1, Ok(proof)));
        true
    }

    fn close_the_trie(&mut self) {
        assert!(!self.trie_closed);
        self.trie_closed = true;
        assert!(matches!(
            self.trie_progress.on_received(None),
            SparseTrieTaskStep::CalculateRoot
        ));
        let root = self.trie.root();
        self.messages.push_back(self.trie_progress.on_root(Ok((root.0, ()))).unwrap());
    }

    fn handle(
        &mut self,
        message: Option<Message>,
    ) -> Option<Result<StateRootComputeOutcome<()>, ParallelStateRootError>> {
        self.now += 10;
        assert!(self.task.can_handle(&self.run, &message));
        match self.task.on_message(&mut self.run, message, self.now) {
            RunAction::Dispatch(MultiproofDispatch::EmptyProof { sequence_number, state }) => {
                self.messages.push_back(StateRootMessage::EmptyProof { sequence_number, state });
            }
            RunAction::Dispatch(MultiproofDispatch::Spawn(input)) => self.start(input),
            RunAction::Dispatch(MultiproofDispatch::Queued) => {}
            RunAction::Proof { started, update, ended } => {
                if let Some(input) = started {
                    self.start(input);
                }
                if let Some(update) = update {
                    assert!(!self.trie_closed);
                    assert!(!update.is_empty());
                    match self.trie_progress.on_received(Some((update, vec![]))) {
                        SparseTrieTaskStep::Update(update) => self.trie.update(update),
                        SparseTrieTaskStep::CalculateRoot => panic!("an update was received"),
                    }
                }
                if ended {
                    self.close_the_trie();
                }
            }
            RunAction::UpdatesFinished { ended } => {
                if ended {
                    self.close_the_trie();
                }
            }
            RunAction::Return(result) => return Some(result),
        }
        None
    }

    fn run_to_the_end(&mut self) -> Result<StateRootComputeOutcome<()>, ParallelStateRootError> {
        loop {
            match self.messages.pop_front() {
                Some(message) => {
                    if let Some(result) = self.handle(Some(message)) {
                        return result;
                    }
                }
                None => assert!(self.finish_a_calculation()),
            }
        }
    }
}

fn update_of(address: u8, slot: u64, value: u64) -> EvmState {
    let mut storage = HashMap::default();
    storage.insert(
        U256::from(slot),
        EvmStorageSlot::new_changed(U256::from(value + 1), U256::from(value)),
    );
    let mut state = EvmState::default();
    state.insert(
        Address::repeat_byte(address),
        RevmAccount {
            info: AccountInfo::default(),
            storage,
            status: AccountStatus::Touched,
        },
    );
    state
}

fn prefetch(account: u8) -> MultiProofTargets {
    let mut targets = MultiProofTargets::default();
    targets.insert([account; 32], Default::default());
    targets
}

#[test]
fn test_state_root_task() {
    let state_updates = create_mock_state_updates(10, 10);
    let mut accumulated_state: HashMap<Address, (AccountInfo, HashMap<B256, U256>)> =
        HashMap::default();

    for update in &state_updates {
        for (address, account) in update {
            let storage: HashMap<B256, U256> = account
                .storage
                .iter()
                .map(|(k, v)| (B256::from(*k), v.present_value))
                .collect();

            let entry = accumulated_state.entry(*address).or_default();
            entry.0 = account.info.clone();
            entry.1.extend(storage);
        }
    }

    let mut host = Host::new(Some(7));
    for (i, update) in state_updates.into_iter().enumerate() {
        host.messages.push_back(StateRootMessage::StateUpdate(i, update));
    }
    host.messages.push_back(StateRootMessage::FinishedStateUpdates);

    let (root_from_task, _) = host.run_to_the_end().expect("task failed").state_root;
    let root_from_base = state_root_unhashed(accumulated_state.into_iter().map(
        |(address, (info, storage))| {
            (
                address,
                TrieAccount {
                    nonce: info.nonce,
                    balance: info.balance,
                    storage_root: storage_root_unhashed(storage),
                    code_hash: info.code_hash,
                },
            )
        },
    ));

    assert_eq!(
        root_from_task, root_from_base.0,
        "State root mismatch: task={root_from_task:?}, base={root_from_base:?}"
    );
    assert_eq!(host.run.updates_received, 10);
    assert_eq!(host.run.proofs_processed, 10);
    assert!(host.calculations.is_empty());
    assert!(host.most_calculations <= 3);
    assert!(host.trie_closed);
}

#[test]
fn later_updates_win_whatever_order_the_proofs_come_in() {
    let mut host = Host::new(None);
    for (i, value) in [5u64, 0, 6].into_iter().enumerate() {
        host.messages.push_back(StateRootMessage::StateUpdate(i, update_of(1, 1, value)));
    }
    host.messages.push_back(StateRootMessage::PrefetchProofs(prefetch(9)));
    host.messages.push_back(StateRootMessage::FinishedStateUpdates);
    let outcome = host.run_to_the_end().unwrap();
    assert_eq!(outcome.state_root.0, host.trie.root().0);
    let leaves: Vec<_> = host.trie.storages.values().flat_map(|t| t.values()).collect();
    assert_eq!(leaves, vec![&vec![6u8]]);
    assert_eq!(host.run.prefetch_proofs_received, 1);
    assert_eq!(host.run.proofs_processed, 4);
}

#[test]
fn an_update_of_what_was_fetched_needs_no_proof() {
    let mut host = Host::new(None);
    assert!(host.handle(Some(StateRootMessage::StateUpdate(0, update_of(1, 1, 5)))).is_none());
    assert_eq!(host.calculations.len(), 1);
    assert_eq!(host.calculations[0].source, Some(0));
    assert_eq!(host.calculations[0].proof_sequence_number, 0);
    assert!(host.handle(Some(StateRootMessage::StateUpdate(1, update_of(1, 1, 6)))).is_none());
    assert_eq!(host.calculations.len(), 1);
    assert!(matches!(
        host.messages.pop_front(),
        Some(StateRootMessage::EmptyProof { sequence_number: 1, .. })
    ));
    assert!(host.task.fetched_proof_targets.contains_key(
        &revm_primitives::keccak256(Address::repeat_byte(1)).0
    ));
}

#[test]
fn a_prefetch_asks_for_what_is_missing() {
    let mut host = Host::new(None);
    assert!(host.handle(Some(StateRootMessage::PrefetchProofs(prefetch(4)))).is_none());
    assert_eq!(host.calculations.len(), 1);
    let input = &host.calculations[0];
    assert_eq!(input.source, None);
    assert!(input.hashed_state_update.is_empty());
    assert_eq!(input.proof_targets, prefetch(4));
    assert!(host.handle(Some(StateRootMessage::PrefetchProofs(prefetch(4)))).is_none());
    assert_eq!(host.calculations.len(), 1);
    assert!(matches!(
        host.messages.pop_front(),
        Some(StateRootMessage::EmptyProof { sequence_number: 1, .. })
    ));
    assert_eq!(host.task.proof_sequencer.next_sequence, 2);
}

#[test]
fn a_state_update_returns_its_targets() {
    let mut task: StateRootTask<usize> = StateRootTask::new(None);
    let update = update_of(1, 1, 5);
    let address = revm_primitives::keccak256(Address::repeat_byte(1)).0;
    let (targets, dispatch) = task.on_state_update(3, update.clone(), 8);
    assert_eq!(targets.len(), 1);
    assert_eq!(targets.get(&address).unwrap().len(), 1);
    match dispatch {
        MultiproofDispatch::Spawn(input) => {
            assert_eq!(input.source, Some(3));
            assert_eq!(input.proof_sequence_number, 8);
            assert_eq!(input.proof_targets, targets);
            assert_eq!(
                input.hashed_state_update,
                evm_state_to_hashed_post_state(update.clone())
            );
        }
        other => panic!("unexpected dispatch {:?}", other),
    }
    assert_eq!(task.fetched_proof_targets, targets);
    let hashed = evm_state_to_hashed_post_state(update);
    let (again, dispatch) = task.on_hashed_state_update(4, hashed, 9);
    assert!(again.is_empty());
    assert!(matches!(dispatch, MultiproofDispatch::EmptyProof { sequence_number: 9, .. }));
}

#[test]
fn proofs_that_are_ready_are_put_together() {
    let tagged = |tag: u8| {
        let mut update = SparseTrieUpdate::default();
        update.state.accounts.insert([tag; 32], None);
        update
    };
    let mut task: StateRootTask<usize> = StateRootTask::new(None);
    assert!(task.on_proof(2, tagged(2)).is_none());
    assert!(task.on_proof(1, tagged(1)).is_none());
    let ready = task.on_proof(0, tagged(0)).unwrap();
    assert_eq!(ready.state.accounts.len(), 3);
    assert!(task.on_proof(3, SparseTrieUpdate::default()).is_none());
    assert_eq!(task.proof_sequencer.next_to_deliver, 4);
    assert!(task.on_proof(0, tagged(9)).is_none());
}

#[test]
fn the_end_needs_all_proofs_and_no_more_updates() {
    let mut sequencer = ProofSequencer::new();
    let ends = |processed: u64, finished: bool, sequencer: &ProofSequencer| {
        check_end_condition(CheckEndConditionParams {
            proofs_processed: processed,
            updates_received: 2,
            prefetch_proofs_received: 1,
            updates_finished: finished,
            proof_sequencer: sequencer,
        })
    };
    assert!(ends(3, true, &sequencer));
    assert!(!ends(2, true, &sequencer));
    assert!(!ends(3, false, &sequencer));
    sequencer.add_proof(1, SparseTrieUpdate::default());
    assert!(!ends(3, true, &sequencer));
}

#[test]
fn a_stream_that_is_over_at_once_ends_at_once() {
    let mut host = Host::new(None);
    assert!(host.handle(Some(StateRootMessage::FinishedStateUpdates)).is_none());
    assert!(host.trie_closed);
    let outcome = host.run_to_the_end().unwrap();
    assert_eq!(outcome.state_root.0, alloy_trie::EMPTY_ROOT_HASH.0);
    // no state update has come, so no time has passed since one
    assert_eq!((outcome.total_time, outcome.time_from_last_update), (0, 0));
}

#[test]
fn a_run_of_prefetches_alone_returns_the_root() {
    let mut host = Host::new(None);
    let nothing = MultiProofTargets::default();
    assert!(host.handle(Some(StateRootMessage::PrefetchProofs(nothing))).is_none());
    assert!(host.handle(Some(StateRootMessage::FinishedStateUpdates)).is_none());
    assert!(!host.trie_closed);
    let empty = host.messages.pop_front();
    assert!(matches!(empty, Some(StateRootMessage::EmptyProof { sequence_number: 0, .. })));
    assert!(host.handle(empty).is_none());
    assert!(host.trie_closed);
    let root = StateRootMessage::RootCalculated {
        state_root: [1; 32],
        trie_updates: (),
        iterations: 0,
    };
    let outcome = host.handle(Some(root)).unwrap().unwrap();
    assert_eq!(outcome.state_root, ([1; 32], ()));
    assert_eq!((outcome.total_time, outcome.time_from_last_update), (0, 0));
}

#[test]
fn the_end_waits_for_proofs_that_are_out() {
    let mut host = Host::new(None);
    host.handle(Some(StateRootMessage::StateUpdate(0, update_of(1, 1, 1))));
    host.handle(Some(StateRootMessage::StateUpdate(1, update_of(1, 1, 2))));
    host.handle(Some(StateRootMessage::FinishedStateUpdates));
    assert!(!host.trie_closed);
    // the empty proof of the second update comes first and waits
    let second = host.messages.pop_front();
    host.handle(second);
    assert!(!host.trie_closed);
    assert!(host.trie.accounts.is_empty());
    assert!(host.finish_a_calculation());
    let first = host.messages.pop_front();
    host.handle(first);
    assert!(host.trie_closed);
    assert_eq!(host.trie.accounts.len(), 1);
    // a proof that comes again after the end changes nothing
    let again = StateRootMessage::EmptyProof {
        sequence_number: 0,
        state: HashedPostState::default(),
    };
    match host.task.on_message(&mut host.run, Some(again) as Option<Message>, 0) {
        RunAction::Proof { started, update, .. } => {
            assert!(started.is_none());
            assert!(update.is_none());
        }
        other => panic!("unexpected action {:?}", other),
    }
}

#[test]
fn times_run_from_the_first_and_the_last_update() {
    let mut host = Host::new(None);
    host.now = 100;
    host.handle(Some(StateRootMessage::StateUpdate(0, update_of(1, 1, 1))));
    assert_eq!(host.run.first_update_time, Some(110));
    host.now = 200;
    host.handle(Some(StateRootMessage::StateUpdate(1, update_of(1, 1, 2))));
    assert_eq!(host.run.first_update_time, Some(110));
    assert_eq!(host.run.last_update_time, Some(210));
    host.now = 300;
    let root = StateRootMessage::RootCalculated {
        state_root: [8; 32],
        trie_updates: (),
        iterations: 1,
    };
    let outcome = host.handle(Some(root)).unwrap().unwrap();
    assert_eq!(outcome.state_root, ([8; 32], ()));
    assert_eq!(outcome.total_time, 200);
    assert_eq!(outcome.time_from_last_update, 100);
}

#[test]
fn errors_end_the_run_with_their_text() {
    let text = |error: ParallelStateRootError| match error {
        ParallelStateRootError::Other(text) => text,
    };
    let ended = |message: Option<Message>| {
        text(Host::new(None).handle(message).expect("the run is over").unwrap_err())
    };
    assert_eq!(
        ended(Some(StateRootMessage::ProofCalculationError("gone".to_string()))),
        "could not calculate multiproof: gone"
    );
    assert_eq!(
        ended(Some(StateRootMessage::RootCalculationError("blind".to_string()))),
        "could not calculate state root: blind"
    );
    assert_eq!(ended(None), "Internal message channel closed unexpectedly");
    assert_eq!(text(multiproof_error(&"a".to_string())), "could not calculate multiproof: a");
    assert_eq!(text(root_error(&"b".to_string())), "could not calculate state root: b");
    assert_eq!(text(channel_closed_error()), "Internal message channel closed unexpectedly");
}

#[test]
fn a_calculated_proof_makes_room_for_a_waiting_calculation() {
    let mut host = Host::new(None);
    host.handle(Some(StateRootMessage::PrefetchProofs(prefetch(1))));
    host.handle(Some(StateRootMessage::PrefetchProofs(prefetch(2))));
    assert_eq!(host.calculations.len(), 1);
    assert_eq!(host.task.multiproof_manager.pending.len(), 1);
    assert!(host.finish_a_calculation());
    let message = host.messages.pop_front();
    host.handle(message);
    assert_eq!(host.calculations.len(), 1);
    assert_eq!(host.calculations[0].proof_sequence_number, 1);
    assert!(host.task.multiproof_manager.pending.is_empty());
}

#[test]
fn messages_that_would_overflow_are_told() {
    let mut task: StateRootTask<usize> = StateRootTask::new(None);
    let mut run = RunProgress::new();
    let update: Option<Message> = Some(StateRootMessage::StateUpdate(0, EvmState::default()));
    let proof: Option<Message> =
        Some(StateRootMessage::ProofCalculated(Box::new(ProofCalculated {
            sequence_number: 0,
            update: SparseTrieUpdate::default(),
            account_targets: 0,
            storage_targets: 0,
            elapsed: 0,
        })));
    assert!(task.can_handle(&run, &update));
    assert!(task.can_handle(&run, &proof));
    task.proof_sequencer.next_sequence = u64::MAX;
    assert!(!task.can_handle(&run, &update));
    run.proofs_processed = u64::MAX;
    assert!(!task.can_handle(&run, &proof));
}

#[test]
fn a_destroyed_account_loses_its_slots() {
    let mut trie = FullTrie::default();
    let mut first = SparseTrieUpdate::default();
    let mut storage = HashedStorage::new(false);
    storage.storage.insert(
        [1; 32],
        state_root::primitives::U256 { be_bytes: [3; 32] },
    );
    first.state.accounts.insert([7; 32], Some(Account { nonce: 4, ..Default::default() }));
    first.state.storages.insert([7; 32], storage);
    trie.update(first);
    assert_eq!(trie.storages[&[7; 32]].len(), 1);
    let mut second = SparseTrieUpdate::default();
    second.state.accounts.insert([7; 32], None);
    second.state.storages.insert([7; 32], HashedStorage::new(true));
    trie.update(second);
    assert!(trie.storages[&[7; 32]].is_empty());
    assert_eq!(trie.accounts[&[7; 32]], Account::default());
}
