//! The cluster control plane of a message broker: the replicated metadata state machine, the
//! bounded peer transports, the driver decisions of the metadata Raft group, the data-plane serve
//! rules, and the stable error codes.

pub mod cluster;
pub mod codes;
pub mod text;
