//! Joining a multicast group with a socket of one's own.

use vstd::prelude::*;

use crate::address::{GroupAddress, Ipv4};
use crate::connect::multicast::communicator::ipc::ConnectError;
use crate::connect::multicast::server::SendError;

verus! {

/// Why a session with a multicast group could not be opened.
#[derive(Debug)]
pub enum JoinError {
    /// The address is not in the multicast range. No socket was touched.
    NotMulticast,
    /// Binding the socket or joining the group failed.
    Os(std::io::Error),
    /// The relay of the group could not be reached.
    Connect(ConnectError),
    /// The group was joined, but the announcement could not be sent.
    Announce(SendError),
}

impl From<std::io::Error> for JoinError {
    fn from(error: std::io::Error) -> (wrapped: Self) {
        JoinError::Os(error)
    }
}

impl vstd::std_specs::convert::FromSpecImpl<std::io::Error> for JoinError {
    open spec fn obeys_from_spec() -> bool {
        true
    }

    open spec fn from_spec(error: std::io::Error) -> Self {
        JoinError::Os(error)
    }
}

/// What to ask of the operating system to join a group: a socket bound to
/// `bind_ip:bind_port`, then membership of `group` on `interface`.
#[derive(Clone, Copy, Debug, PartialEq, Eq, Structural)]
pub struct JoinPlan {
    pub bind_ip: Ipv4,
    pub bind_port: u16,
    pub group: Ipv4,
    pub interface: Ipv4,
}

/// The plan for `address`: bind to the wildcard address on the group's
/// port, join the group on the wildcard interface.
pub open spec fn plan_for(address: GroupAddress) -> JoinPlan {
    JoinPlan {
        bind_ip: Ipv4::spec_unspecified(),
        bind_port: address.port,
        group: address.ip,
        interface: Ipv4::spec_unspecified(),
    }
}

/// Decides, before anything is asked of the operating system, whether
/// `address` can be joined at all, and with which calls. An address outside
/// the multicast range is refused; every other address gets its plan.
pub fn connect_to_multicast(address: GroupAddress) -> (plan: Result<JoinPlan, JoinError>)
    ensures
        address.spec_is_multicast() ==> plan == Ok::<JoinPlan, JoinError>(plan_for(address)),
        !address.spec_is_multicast() ==> plan == Err::<JoinPlan, JoinError>(
            JoinError::NotMulticast,
        ),
{
    if !address.is_multicast() {
        return Err(JoinError::NotMulticast);
    }
    Ok(
        JoinPlan {
            bind_ip: Ipv4::unspecified(),
            bind_port: address.port(),
            group: address.ip(),
            interface: Ipv4::unspecified(),
        },
    )
}

} // verus!
