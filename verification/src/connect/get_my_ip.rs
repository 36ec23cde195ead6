//! Finding out under which address this host is seen in its network.
//!
//! The probe sends an identifier of its own to a multicast group and reads
//! what arrives there until its identifier comes back: the sender of that
//! datagram is this host.

use vstd::prelude::*;

use crate::address::{GroupAddress, Ipv4};

verus! {

/// The port of the group that probes are sent to.
pub const PROBE_PORT: u16 = 28324;

/// The length of the identifier that a probe sends.
pub const IDENTIFIER_LEN: usize = 16;

/// The group that probes are sent to, `224.0.0.125:28324`.
pub fn probe_address() -> (address: GroupAddress)
    ensures
        address == (GroupAddress { ip: Ipv4 { a: 224, b: 0, c: 0, d: 125 }, port: PROBE_PORT }),
        address.spec_is_multicast(),
{
    GroupAddress { ip: Ipv4 { a: 224, b: 0, c: 0, d: 125 }, port: PROBE_PORT }
}

/// The address from which a datagram came, as far as the probe looks at it.
#[derive(Clone, Copy, Debug, PartialEq, Eq, Structural)]
pub enum PeerIp {
    V4(Ipv4),
    V6,
}

/// Why a probe did not find the address.
#[derive(Clone, Copy, Debug, PartialEq, Eq, Structural)]
pub enum ProbeError {
    /// The identifier came back from an IPv6 address.
    Ipv6Unsupported,
    /// Reading failed before the identifier came back.
    NotFound,
}

/// What the probe does after a read.
#[derive(Clone, Copy, Debug, PartialEq, Eq, Structural)]
pub enum ProbeStep {
    /// The datagram is not the probe's own: read the next one.
    Continue,
    /// The probe's own datagram came from this address.
    Found(Ipv4),
    /// The probe has failed.
    Fail(ProbeError),
}

/// What the probe does after a read, given the identifier it sent and what
/// the read returned: `None` for a failed read, else the datagram with its
/// sender.
pub open spec fn probe_step(identifier: Seq<u8>, received: Option<(Seq<u8>, PeerIp)>) -> ProbeStep {
    match received {
        None => ProbeStep::Fail(ProbeError::NotFound),
        Some((datagram, sender)) => if datagram == identifier {
            match sender {
                PeerIp::V4(ip) => ProbeStep::Found(ip),
                PeerIp::V6 => ProbeStep::Fail(ProbeError::Ipv6Unsupported),
            }
        } else {
            ProbeStep::Continue
        },
    }
}

/// Whether two byte strings are the same.
pub fn same_bytes(left: &[u8], right: &[u8]) -> (same: bool)
    ensures
        same == (left@ == right@),
{
    if left.len() != right.len() {
        return false;
    }
    let mut i: usize = 0;
    while i < left.len()
        invariant
            left.len() == right.len(),
            i <= left.len(),
            forall|j: int| 0 <= j < i ==> left@[j] == right@[j],
        decreases left.len() - i,
    {
        if left[i] != right[i] {
            return false;
        }
        i += 1;
    }
    assert(left@ =~= right@);
    true
}

/// Decides what the probe does after a read. Only a datagram that equals the
/// identifier in every byte and in length ends the probe.
pub fn get_my_ip(identifier: &[u8], received: Option<(&[u8], PeerIp)>) -> (step: ProbeStep)
    ensures
        step == probe_step(
            identifier@,
            match received {
                Some((datagram, sender)) => Some((datagram@, sender)),
                None => None,
            },
        ),
{
    match received {
        None => ProbeStep::Fail(ProbeError::NotFound),
        Some((datagram, sender)) => {
            if same_bytes(datagram, identifier) {
                match sender {
                    PeerIp::V4(ip) => ProbeStep::Found(ip),
                    PeerIp::V6 => ProbeStep::Fail(ProbeError::Ipv6Unsupported),
                }
            } else {
                ProbeStep::Continue
            }
        },
    }
}

} // verus!
