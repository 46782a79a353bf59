//! Messages to the state root task, and its result.

use vstd::prelude::*;

use revm_state::EvmState;
use vstd::string::StringExecFns;

use crate::hashed_state::HashedPostState;
use crate::multiproof::MultiProof;
use crate::primitives::B256;
use crate::targets::MultiProofTargets;
use crate::update::SparseTrieUpdate;

verus! {

/// A span of time in nanoseconds.
pub type Nanos = u128;

/// Outcome of the state root computation, including the state root itself with
/// the trie updates and the total time spent.
#[derive(Debug)]
pub struct StateRootComputeOutcome<Updates> {
    /// The computed state root and trie updates
    pub state_root: (B256, Updates),
    /// The total time spent calculating the state root
    pub total_time: Nanos,
    /// The time spent calculating the state root since the last state update
    pub time_from_last_update: Nanos,
}

/// Why the state root could not be computed.
#[derive(Debug)]
pub enum ParallelStateRootError {
    /// A description of what went wrong.
    Other(String),
}

/// What went wrong where a multiproof could not be calculated.
pub fn multiproof_error(detail: &String) -> (error: ParallelStateRootError)
    ensures
        error matches ParallelStateRootError::Other(text) && text@
            == "could not calculate multiproof: "@ + detail@,
{
    let text = "could not calculate multiproof: ".to_owned().concat(detail.as_str());
    ParallelStateRootError::Other(text)
}

/// What went wrong where the state root could not be calculated.
pub fn root_error(detail: &String) -> (error: ParallelStateRootError)
    ensures
        error matches ParallelStateRootError::Other(text) && text@
            == "could not calculate state root: "@ + detail@,
{
    let text = "could not calculate state root: ".to_owned().concat(detail.as_str());
    ParallelStateRootError::Other(text)
}

/// What went wrong where the channel to the task was closed.
pub fn channel_closed_error() -> (error: ParallelStateRootError)
    ensures
        error matches ParallelStateRootError::Other(text) && text@
            == "Internal message channel closed unexpectedly"@,
{
    ParallelStateRootError::Other("Internal message channel closed unexpectedly".to_owned())
}

/// Result of the state root calculation
pub type StateRootResult<Updates> = Result<StateRootComputeOutcome<Updates>, ParallelStateRootError>;

/// Messages used internally by the state root task
///
/// `Source` tells where a state change comes from and `Updates` holds the updated trie nodes; both
/// are passed on as they are.
#[derive(Debug)]
pub enum StateRootMessage<Source, Updates> {
    /// Prefetch proof targets
    PrefetchProofs(MultiProofTargets),
    /// New state update from transaction execution with its source
    StateUpdate(Source, EvmState),
    /// Empty proof for a specific state update
    EmptyProof {
        /// The index of this proof in the sequence of state updates
        sequence_number: u64,
        /// The state update that was used to calculate the proof
        state: HashedPostState,
    },
    /// Proof calculation completed for a specific state update
    ProofCalculated(Box<ProofCalculated>),
    /// Error during proof calculation, described in words
    ProofCalculationError(String),
    /// State root calculation completed
    RootCalculated {
        /// Final state root.
        state_root: B256,
        /// Trie updates.
        trie_updates: Updates,
        /// The number of time sparse trie was updated.
        iterations: u64,
    },
    /// Error during state root calculation, described in words
    RootCalculationError(String),
    /// Signals state update stream end.
    FinishedStateUpdates,
}

/// Message about completion of proof calculation for a specific state update
#[derive(Debug)]
pub struct ProofCalculated {
    /// The index of this proof in the sequence of state updates
    pub sequence_number: u64,
    /// Sparse trie update
    pub update: SparseTrieUpdate,
    /// Total number of account targets
    pub account_targets: usize,
    /// Total number of storage slot targets
    pub storage_targets: usize,
    /// The time taken to calculate the proof.
    pub elapsed: Nanos,
}

/// Whether or not a proof was fetched due to a state update, or due to a prefetch command.
#[derive(Debug)]
pub enum ProofFetchSource {
    /// The proof was fetched due to a prefetch command.
    Prefetch,
    /// The proof was fetched due to a state update.
    StateUpdate,
}

/// The message about a finished multiproof calculation: the proof along with the state update that
/// it was calculated for, or what went wrong.
pub fn multiproof_message<Source, Updates>(
    sequence_number: u64,
    hashed_state_update: HashedPostState,
    account_targets: usize,
    storage_targets: usize,
    elapsed: Nanos,
    result: Result<MultiProof, String>,
) -> (message: StateRootMessage<Source, Updates>)
    ensures
        match result {
            Ok(multiproof) => message == StateRootMessage::<Source, Updates>::ProofCalculated(
                Box::new(
                    ProofCalculated {
                        sequence_number,
                        update: SparseTrieUpdate { state: hashed_state_update, multiproof },
                        account_targets,
                        storage_targets,
                        elapsed,
                    },
                ),
            ),
            Err(error) => message == StateRootMessage::<Source, Updates>::ProofCalculationError(
                error,
            ),
        },
{
    match result {
        Ok(multiproof) => StateRootMessage::ProofCalculated(
            Box::new(
                ProofCalculated {
                    sequence_number,
                    update: SparseTrieUpdate { state: hashed_state_update, multiproof },
                    account_targets,
                    storage_targets,
                    elapsed,
                },
            ),
        ),
        Err(error) => StateRootMessage::ProofCalculationError(error),
    }
}

} // verus!
