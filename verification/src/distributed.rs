//! Coordination-free replication: vector clocks, local commit, merging of
//! versioned updates, and a simulated cluster.

pub mod vector_clock;
pub mod local_commit;
pub mod convergence;
pub mod regrouping;
pub mod simulation;

pub use local_commit::{
    AlgebraicOperation, AlgebraicTransaction, LocalCommitError, LocalCommitProtocol, VersionedUpdate,
};
pub use simulation::{
    Message, NetworkCondition, SimulatedCluster, SimulatedNode, SimulationBuilder, SimulationConfig,
    SimulationStats,
};
pub use vector_clock::{CausalOrder, NodeId, VectorClock};
