//! State root task: decisions and data behind the parallel computation of a state root.

pub mod config;
pub mod evm;
pub mod hashed_state;
pub mod lifecycle;
pub mod manager;
pub mod maps;
pub mod merge;
pub mod message;
pub mod multiproof;
pub mod primitives;
pub mod record;
pub mod requests;
pub mod sequencer;
pub mod sparse_trie;
pub mod stream;
pub mod targets;
pub mod task;
pub mod update;
