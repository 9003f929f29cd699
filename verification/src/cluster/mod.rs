//! The metadata plane and the data plane of a clustered node.

pub mod command;
pub mod dataplane;
pub mod driver;
pub mod error;
pub mod frame;
pub mod ids;
pub mod order;
pub mod runtime;
pub mod serve;
pub mod serve_accept;
pub mod state_machine;
pub mod stream;
pub mod text_map;
pub mod transport;
pub mod wire;
