//! Verified core of the NetAhoy netcode: wire types, sequence ordering,
//! prediction and command histories, interpolation buffers, server command
//! queues, lag-compensation history, and the debug network conditioner.

pub mod protocol;
pub mod math;
pub mod pmove;
pub mod client;
pub mod server;
pub mod debug;
