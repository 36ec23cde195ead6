//! Multicast discovery for local chat processes: addresses, control messages,
//! and the decisions of the relay process that shares one multicast socket
//! among the processes of a host.

pub mod address;
pub mod connect;
pub mod text;

use vstd::prelude::*;

use crate::address::{GroupAddress, Ipv4};
use crate::connect::get_my_ip::PeerIp;

verus! {

/// The port on which chat peers announce themselves.
pub const SERVER_PORT: u16 = 4983;

/// The multicast group used for discovery, `224.0.1.123`.
pub fn multicast_ip() -> (ip: Ipv4)
    ensures
        ip == (Ipv4 { a: 224, b: 0, c: 1, d: 123 }),
        ip.spec_is_multicast(),
{
    Ipv4 { a: 224, b: 0, c: 1, d: 123 }
}

/// The discovery group with its port, `224.0.1.123:4983`.
pub fn multicast_address() -> (addr: GroupAddress)
    ensures
        addr == (GroupAddress { ip: Ipv4 { a: 224, b: 0, c: 1, d: 123 }, port: SERVER_PORT }),
        addr.spec_is_multicast(),
{
    GroupAddress { ip: multicast_ip(), port: SERVER_PORT }
}

/// Why bytes are not a greeting.
#[derive(Clone, Copy, Debug, PartialEq, Eq, Structural)]
pub enum HiError {
    /// The bytes do not begin with `HI`.
    NotHi,
}

/// The port that a greeting carries: the letters `HI`, then the port, most
/// significant byte first. A greeting has four bytes at least; what follows
/// the port is not looked at.
pub open spec fn hi_port(bytes: Seq<u8>) -> Result<u16, HiError>
    recommends
        bytes.len() >= 4,
{
    if bytes[0] != 0x48 || bytes[1] != 0x49 {
        Err(HiError::NotHi)
    } else {
        Ok((bytes[2] * 256 + bytes[3]) as u16)
    }
}

/// Reads the port from a greeting. The bytes must be long enough to hold
/// one: the two letters and the port.
pub fn parse_hi(bytes: &[u8]) -> (port: Result<u16, HiError>)
    requires
        bytes@.len() >= 4,
    ensures
        port == hi_port(bytes@),
{
    if bytes[0] != 0x48 || bytes[1] != 0x49 {
        return Err(HiError::NotHi);
    }
    let port: u16 = (bytes[2] as u16) * 256 + (bytes[3] as u16);
    Ok(port)
}

/// What the task that listens to the group does after a read.
#[derive(Clone, Copy, Debug, PartialEq, Eq, Structural)]
pub enum MemberAction {
    /// Nothing more will come: end the task.
    Stop,
    /// Not a greeting of another host: read on.
    Skip,
    /// Another host greeted: connect to its chat server at this address.
    Connect(GroupAddress),
    /// A greeting came from an IPv6 address: end the task with an error.
    Ipv6Unsupported,
}

/// What follows from a read on the group's socket: `None` for a failed
/// read, else the datagram with its sender. A greeting is a datagram of
/// exactly four bytes that [`hi_port`] accepts; one from this host itself is
/// passed over.
pub open spec fn member_action(received: Option<(Seq<u8>, PeerIp)>, my_ip: Ipv4) -> MemberAction {
    match received {
        None => MemberAction::Stop,
        Some((datagram, sender)) => if datagram.len() == 0 {
            MemberAction::Stop
        } else if datagram.len() == 4 && hi_port(datagram) is Ok {
            match sender {
                PeerIp::V6 => MemberAction::Ipv6Unsupported,
                PeerIp::V4(ip) => if ip == my_ip {
                    MemberAction::Skip
                } else {
                    MemberAction::Connect(GroupAddress { ip, port: hi_port(datagram)->Ok_0 })
                },
            }
        } else {
            MemberAction::Skip
        },
    }
}

/// Decides what the task that listens to the group does after a read.
pub fn handle_new_multicast_members(received: Option<(&[u8], PeerIp)>, my_ip: Ipv4) -> (action:
    MemberAction)
    ensures
        action == member_action(
            match received {
                Some((datagram, sender)) => Some((datagram@, sender)),
                None => None,
            },
            my_ip,
        ),
{
    match received {
        None => MemberAction::Stop,
        Some((datagram, sender)) => {
            if datagram.len() == 0 {
                return MemberAction::Stop;
            }
            if datagram.len() != 4 {
                return MemberAction::Skip;
            }
            match parse_hi(datagram) {
                Err(_) => MemberAction::Skip,
                Ok(port) => match sender {
                    PeerIp::V6 => MemberAction::Ipv6Unsupported,
                    PeerIp::V4(ip) => {
                        if ip == my_ip {
                            MemberAction::Skip
                        } else {
                            MemberAction::Connect(GroupAddress { ip, port })
                        }
                    },
                },
            }
        },
    }
}

/// What happened to the task that takes in chat connections.
#[derive(Clone, Copy, Debug, PartialEq, Eq, Structural)]
pub enum IntakeEvent {
    /// A connection was accepted and handed to the channel.
    Forwarded,
    /// A connection was accepted, but the channel did not take it.
    ForwardFailed,
    /// Accepting a connection failed.
    AcceptFailed,
    /// The receiving side of the channel is gone.
    ChannelClosed,
}

/// Whether the task that takes in chat connections goes on after `event`:
/// it ends when the channel has no receiver any more, and only then.
pub fn handle_incoming_connections(event: IntakeEvent) -> (go_on: bool)
    ensures
        go_on == (event == IntakeEvent::Forwarded || event == IntakeEvent::AcceptFailed),
{
    match event {
        IntakeEvent::Forwarded => true,
        IntakeEvent::AcceptFailed => true,
        IntakeEvent::ForwardFailed => false,
        IntakeEvent::ChannelClosed => false,
    }
}

} // verus!
