//! Replicas of one set of operations, and the protocols that bring a client and a server to the same
//! names while sending few of the operations that both have already.
pub mod convergence;
pub mod course;
pub mod differences;
pub mod digest;
pub mod history;
pub mod ids;
pub mod merging;
pub mod messages;
pub mod operations;
pub mod prefixes;
pub mod progress;
pub mod protocol;
pub mod sequence;
pub mod subdivision;
pub mod sync;

pub use ids::{OperationCount, OperationId, ReplicaId, RepoId};
