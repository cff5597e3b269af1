//! A version-control core in which a commit may stand on several branches at
//! once, each with a probability, until an observation binds it to one.

pub mod change;
pub mod entanglement;
pub mod quantum_state;
pub mod temporal_merge;

pub use change::{ChangeType, FileChange};
pub use quantum_state::{QuantumCommit, QuantumError, QuantumRepository, PROB_SCALE};
pub use temporal_merge::{ConflictStrategy, TemporalMergeError, TemporalMerger};
