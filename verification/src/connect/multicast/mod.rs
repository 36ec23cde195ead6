//! Access to a multicast group, directly or through the relay process of the host.

pub mod communicator;
pub mod join;
pub mod message;
pub mod server;
