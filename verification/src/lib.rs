//! Structure-aware input engine for a coverage-guided API fuzzer.
//!
//! The crate models API-call sequences and dependency graphs generated from a
//! typed schema, the deterministic sampling machinery that drives them, the
//! feedback logic over shared-memory coverage observations, and the supervisor
//! state machine for the worker subprocess.

use vstd::prelude::*;

pub mod events;
pub mod ext;
pub mod feedback;
pub mod graph;
pub mod graph_mutations;
pub mod rng;
pub mod scheduler;
pub mod shmem;
pub mod parametric;
pub mod schema;
pub mod seq;
pub mod worker;

verus! {

/// Which kind of input the fuzzer drives through the worker.
#[derive(Clone, Copy, Debug, PartialEq, Eq, Structural)]
pub enum FuzzerMode {
    Bytes,
    Graph,
    Parametric,
    Sequence,
}

/// Errors surfaced by the input engine.
///
/// `HugeGraph` marks a completion pass that exceeded its iteration budget;
/// the caller reverts the edit. `Unknown` carries a message for the rest.
#[derive(Clone, Debug)]
pub enum RailcarError {
    HugeGraph,
    Unknown(String),
}

impl RailcarError {
    /// Human-readable form, in place of a `Display` impl.
    pub fn describe(&self) -> String {
        match self {
            RailcarError::HugeGraph => "huge graph".to_owned(),
            RailcarError::Unknown(msg) => msg.clone(),
        }
    }
}

/// Completion stops and reports `HugeGraph` after this many node fills.
pub const MAX_COMPLETION_ITER: usize = 70;

/// Only the first this-many fills of a completion pass may mint new API nodes.
pub const MAX_COMPLETE_WITH_ENDPOINTS: usize = 10;

/// Upper bound (exclusive) for sampled numeric constants.
pub const MAX_RANDOM_NUMBER: u64 = 1000;

/// Sampled sizes and string lengths lie in `0 ..= MAX_RANDOM_SIZE + 1`.
pub const MAX_RANDOM_SIZE: usize = 10;

/// Default length of a node's context byte buffer.
pub const DEFAULT_CONTEXT_LENGTH: usize = 128;

/// An API-call sequence longer than this is completed with constants only.
pub const MAX_SEQ_LEN: usize = 15;

/// How many inputs to generate when the seed corpus yields none.
pub const INITIAL_CORPUS_SIZE: usize = 32;

/// Number of cells in the shared coverage map.
pub const COVERAGE_MAP_SIZE: usize = 0x8000;

/// When set, concretization weighs candidates by likelihood instead of
/// picking uniformly. Kept off, as an A/B switch.
pub const ENABLE_LIKELIHOOD_BASED_CONCRETIZATION: bool = false;

/// Outcome of one mutation step. `Undo` asks the caller to restore the
/// pre-mutation clone.
#[derive(Clone, Copy, Debug, PartialEq, Eq, Structural)]
pub enum MutationResult {
    Mutated,
    Skipped,
    Undo,
}

/// Structural length of an input, as the progress score counts it.
pub trait HasSeqLen {
    fn seq_len_of(&self) -> usize;
}

/// A runtime check of an input's validity invariant.
pub trait CanValidate {
    fn check_valid(&self) -> bool;
}

} // verus!
