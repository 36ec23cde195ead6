//! The two ways of sending bytes to a multicast group.

pub mod error;
pub mod ipc;

use vstd::prelude::*;

use crate::address::GroupAddress;
use crate::connect::multicast::join::JoinError;

verus! {

/// Making a value from the address of a group. What it takes to do so is the
/// implementor's business: binding a socket, or reaching the relay.
pub trait AsyncTryFromSocketAddr: Sized {
    fn try_from_socket_addr(addr: GroupAddress) -> Result<Self, JoinError>;
}

/// The capability of sending bytes to a multicast group.
pub trait Communicator: AsyncTryFromSocketAddr {
    /// Sends `bytes` and returns how many of them went out, as the transport
    /// reported it. The count is not held against the length of `bytes`.
    fn communicate(&mut self, bytes: &[u8]) -> Result<usize, std::io::Error>;
}

/// What a client of the relay answers to a send: the bytes are accepted, and
/// none is reported as sent to the group by the client itself.
pub fn acknowledge(bytes: &[u8]) -> (sent: Result<usize, std::io::Error>)
    ensures
        sent is Ok,
        sent->Ok_0 == 0,
{
    Ok(0)
}

} // verus!
