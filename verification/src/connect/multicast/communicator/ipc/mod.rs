//! The relayed way: a relay process per group, and its local clients.
//!
//! A client finds the relay of a group under a name made from the group's
//! address. If nobody listens under that name the client has a relay
//! spawned and connects again until it gets through.

pub mod broker;

use interprocess::local_socket::{GenericNamespaced, Name, ToNsName};
use vstd::prelude::*;

use crate::address::GroupAddress;
use crate::text::{
    all_digits, decimal, is_digit, lemma_decimal, lemma_decimal_injective,
    lemma_split_at_separator, no_nul, push_char, push_decimal, push_text,
};

verus! {

/// The name of the local channel on which the relay of `address` listens:
/// `multicast_communicator:`, the address as `a.b.c.d:port`, then `.sock`.
pub open spec fn channel_name(address: GroupAddress) -> Seq<char> {
    "multicast_communicator:"@ + address_text(address) + ".sock"@
}

/// An address as `a.b.c.d:port`, every number in decimal.
pub open spec fn address_text(address: GroupAddress) -> Seq<char> {
    decimal(address.ip.a as nat).push('.') + (decimal(address.ip.b as nat).push('.') + (decimal(
        address.ip.c as nat,
    ).push('.') + (decimal(address.ip.d as nat).push(':') + decimal(address.port as nat))))
}

/// `interprocess::local_socket::Name`, a name in the namespace that the
/// operating system keeps for local channels. Nothing is known of what is
/// inside.
#[verifier::external_type_specification]
#[verifier::external_body]
pub struct ExName<'s>(interprocess::local_socket::Name<'s>);

/// The name that the platform makes of a text: what `ToNsName::to_ns_name`
/// of `interprocess` returns for it with the name type `GenericNamespaced`,
/// where it returns a name. The mapping looks at the text alone.
pub uninterp spec fn namespaced_name(text: Seq<char>) -> Name<'static>;

/// `ToNsName::to_ns_name` of `interprocess`, for a `String` and the name type
/// `GenericNamespaced`: maps a text to the name that the platform uses for
/// it. Two things are claimed. The name depends on the text alone, so it is
/// [`namespaced_name`] of the text. And the mapping succeeds for a text
/// without a NUL character: on Linux it takes every text, and on the other
/// platforms it refuses a text only for a NUL inside it.
#[verifier::external_body]
fn to_namespaced_name(text: String) -> (mapped: Result<Name<'static>, std::io::Error>)
    ensures
        no_nul(text@) ==> mapped is Ok,
        mapped matches Ok(name) ==> name == namespaced_name(text@),
{
    text.to_ns_name::<GenericNamespaced>()
}

/// The name under which the relay of `address` listens, as the platform
/// wants it: the text [`channel_name`] of the address, mapped into the
/// namespace of local channels. No channel name holds a NUL character, so
/// there is such a name for every address.
pub fn local_socket_name(address: GroupAddress) -> (name: Result<Name<'static>, std::io::Error>)
    ensures
        name is Ok,
        name->Ok_0 == namespaced_name(channel_name(address)),
{
    proof {
        lemma_channel_name_has_no_nul(address);
    }
    to_namespaced_name(channel_text(address))
}

/// A channel name is made of letters, digits and punctuation: no NUL
/// character stands in it.
pub proof fn lemma_channel_name_has_no_nul(address: GroupAddress)
    ensures
        no_nul(channel_name(address)),
{
    reveal_strlit("multicast_communicator:");
    reveal_strlit(".sock");
    lemma_decimal(address.port as nat);
    let a = decimal(address.ip.a as nat).push('.');
    let b = decimal(address.ip.b as nat).push('.');
    let c = decimal(address.ip.c as nat).push('.');
    let d = decimal(address.ip.d as nat).push(':');
    let e = decimal(address.port as nat);
    lemma_numeral_with_separator_has_no_nul(address.ip.a as nat, '.');
    lemma_numeral_with_separator_has_no_nul(address.ip.b as nat, '.');
    lemma_numeral_with_separator_has_no_nul(address.ip.c as nat, '.');
    lemma_numeral_with_separator_has_no_nul(address.ip.d as nat, ':');
    assert(no_nul(e)) by {
        assert forall|i: int| 0 <= i < e.len() implies (#[trigger] e[i]) != '\0' by {
            assert(is_digit(e[i]));
        }
    }
    lemma_concat_has_no_nul(d, e);
    lemma_concat_has_no_nul(c, d + e);
    lemma_concat_has_no_nul(b, c + (d + e));
    lemma_concat_has_no_nul(a, b + (c + (d + e)));
    assert(no_nul("multicast_communicator:"@));
    assert(no_nul(".sock"@));
    lemma_concat_has_no_nul("multicast_communicator:"@, address_text(address));
    lemma_concat_has_no_nul("multicast_communicator:"@ + address_text(address), ".sock"@);
}

/// A numeral followed by a separator that is not NUL holds no NUL.
proof fn lemma_numeral_with_separator_has_no_nul(n: nat, separator: char)
    requires
        separator != '\0',
    ensures
        no_nul(decimal(n).push(separator)),
{
    lemma_decimal(n);
    let numeral = decimal(n);
    let text = numeral.push(separator);
    assert forall|i: int| 0 <= i < text.len() implies (#[trigger] text[i]) != '\0' by {
        if i < numeral.len() {
            assert(text[i] == numeral[i]);
            assert(is_digit(numeral[i]));
        }
    }
}

/// Two texts without NUL make a text without NUL when put together.
proof fn lemma_concat_has_no_nul(front: Seq<char>, back: Seq<char>)
    requires
        no_nul(front),
        no_nul(back),
    ensures
        no_nul(front + back),
{
    let text = front + back;
    assert forall|i: int| 0 <= i < text.len() implies (#[trigger] text[i]) != '\0' by {
        if i < front.len() {
            assert(text[i] == front[i]);
        } else {
            assert(text[i] == back[i - front.len()]);
        }
    }
}

/// Derives the text of the channel's name from the group address.
pub fn channel_text(address: GroupAddress) -> (name: String)
    ensures
        name@ == channel_name(address),
{
    let mut name = "multicast_communicator:".to_owned();
    push_decimal(&mut name, address.ip.a as u16);
    push_char(&mut name, '.');
    push_decimal(&mut name, address.ip.b as u16);
    push_char(&mut name, '.');
    push_decimal(&mut name, address.ip.c as u16);
    push_char(&mut name, '.');
    push_decimal(&mut name, address.ip.d as u16);
    push_char(&mut name, ':');
    push_decimal(&mut name, address.port);
    assert(name@ =~= "multicast_communicator:"@ + address_text(address));
    push_text(&mut name, ".sock");
    name
}

/// The text of a channel name behind its fixed beginning, with the dot of
/// `.sock` written as a separator after the port.
pub open spec fn name_fields(
    a: Seq<char>,
    b: Seq<char>,
    c: Seq<char>,
    d: Seq<char>,
    port: Seq<char>,
    rest: Seq<char>,
) -> Seq<char> {
    a.push('.') + (b.push('.') + (c.push('.') + (d.push(':') + (port.push('.') + rest))))
}

/// A channel name is its fixed beginning followed by the five numerals of
/// the address, each with its separator, and the rest of `.sock`.
proof fn lemma_channel_name_fields(address: GroupAddress)
    ensures
        channel_name(address) == "multicast_communicator:"@ + name_fields(
            decimal(address.ip.a as nat),
            decimal(address.ip.b as nat),
            decimal(address.ip.c as nat),
            decimal(address.ip.d as nat),
            decimal(address.port as nat),
            ".sock"@.skip(1),
        ),
{
    reveal_strlit(".sock");
    let suffix = ".sock"@;
    let rest = suffix.skip(1);
    assert(suffix =~= seq!['.'] + rest);
    let p = decimal(address.port as nat);
    let d = decimal(address.ip.d as nat);
    let c = decimal(address.ip.c as nat);
    let b = decimal(address.ip.b as nat);
    let a = decimal(address.ip.a as nat);
    let e = p.push('.') + rest;
    assert(e =~= p + suffix);
    let t = d.push(':') + e;
    assert(t =~= (d.push(':') + p) + suffix);
    let u = c.push('.') + t;
    assert(u =~= (c.push('.') + (d.push(':') + p)) + suffix);
    let v = b.push('.') + u;
    assert(v =~= (b.push('.') + (c.push('.') + (d.push(':') + p))) + suffix);
    let w = a.push('.') + v;
    assert(w =~= address_text(address) + suffix);
    assert(channel_name(address) =~= "multicast_communicator:"@ + w);
}

/// Texts made of five numerals and their separators are equal only if the
/// numerals are.
proof fn lemma_name_fields_injective(
    a1: Seq<char>,
    b1: Seq<char>,
    c1: Seq<char>,
    d1: Seq<char>,
    z1: Seq<char>,
    a2: Seq<char>,
    b2: Seq<char>,
    c2: Seq<char>,
    d2: Seq<char>,
    z2: Seq<char>,
    rest: Seq<char>,
)
    requires
        all_digits(a1) && all_digits(b1) && all_digits(c1) && all_digits(d1) && all_digits(z1),
        all_digits(a2) && all_digits(b2) && all_digits(c2) && all_digits(d2) && all_digits(z2),
        name_fields(a1, b1, c1, d1, z1, rest) == name_fields(a2, b2, c2, d2, z2, rest),
    ensures
        a1 == a2 && b1 == b2 && c1 == c2 && d1 == d2 && z1 == z2,
{
    assert(!is_digit('.') && !is_digit(':'));
    let e1 = z1.push('.') + rest;
    let e2 = z2.push('.') + rest;
    let t1 = d1.push(':') + e1;
    let t2 = d2.push(':') + e2;
    let u1 = c1.push('.') + t1;
    let u2 = c2.push('.') + t2;
    let v1 = b1.push('.') + u1;
    let v2 = b2.push('.') + u2;
    lemma_split_at_separator(a1, a2, '.', v1, v2);
    lemma_split_at_separator(b1, b2, '.', u1, u2);
    lemma_split_at_separator(c1, c2, '.', t1, t2);
    lemma_split_at_separator(d1, d2, ':', e1, e2);
    lemma_split_at_separator(z1, z2, '.', rest, rest);
}

/// Every group has one channel name and no two groups share one: clients of
/// the same group look for their relay under the same name, and a relay of
/// another group, in the octets or in the port, never listens under it.
pub proof fn lemma_one_channel_per_group(first: GroupAddress, second: GroupAddress)
    ensures
        channel_name(first) == channel_name(second) <==> first == second,
{
    if channel_name(first) == channel_name(second) {
        lemma_channel_name_injective(first, second);
    }
}

/// Equal channel names come from equal addresses.
proof fn lemma_channel_name_injective(first: GroupAddress, second: GroupAddress)
    requires
        channel_name(first) == channel_name(second),
    ensures
        first == second,
{
    let prefix = "multicast_communicator:"@;
    let rest = ".sock"@.skip(1);
    let (a1, b1, c1, d1, z1) = (
        decimal(first.ip.a as nat),
        decimal(first.ip.b as nat),
        decimal(first.ip.c as nat),
        decimal(first.ip.d as nat),
        decimal(first.port as nat),
    );
    let (a2, b2, c2, d2, z2) = (
        decimal(second.ip.a as nat),
        decimal(second.ip.b as nat),
        decimal(second.ip.c as nat),
        decimal(second.ip.d as nat),
        decimal(second.port as nat),
    );
    lemma_channel_name_fields(first);
    lemma_channel_name_fields(second);
    let w1 = name_fields(a1, b1, c1, d1, z1, rest);
    let w2 = name_fields(a2, b2, c2, d2, z2, rest);
    assert(w1 == w2) by {
        assert(w1 =~= (prefix + w1).skip(prefix.len() as int));
        assert(w2 =~= (prefix + w2).skip(prefix.len() as int));
    }
    lemma_decimal(first.ip.a as nat);
    lemma_decimal(first.ip.b as nat);
    lemma_decimal(first.ip.c as nat);
    lemma_decimal(first.ip.d as nat);
    lemma_decimal(first.port as nat);
    lemma_decimal(second.ip.a as nat);
    lemma_decimal(second.ip.b as nat);
    lemma_decimal(second.ip.c as nat);
    lemma_decimal(second.ip.d as nat);
    lemma_decimal(second.port as nat);
    lemma_name_fields_injective(a1, b1, c1, d1, z1, a2, b2, c2, d2, z2, rest);
    lemma_decimal_injective(first.ip.a as nat, second.ip.a as nat);
    lemma_decimal_injective(first.ip.b as nat, second.ip.b as nat);
    lemma_decimal_injective(first.ip.c as nat, second.ip.c as nat);
    lemma_decimal_injective(first.ip.d as nat, second.ip.d as nat);
    lemma_decimal_injective(first.port as nat, second.port as nat);
}

/// Why a client did not reach the relay of its group.
#[derive(Clone, Copy, Debug, PartialEq, Eq, Structural)]
pub enum ConnectError {
    /// No relay could be spawned.
    SpawnFailed,
    /// The relay was spawned, but the allowed number of attempts to connect
    /// to it has been used up.
    Timeout,
}

/// How far a client has come on its way to the relay.
#[derive(Clone, Copy, Debug, PartialEq, Eq, Structural)]
pub enum ClientPhase {
    /// The first attempt to connect is under way.
    Connecting,
    /// Nobody listened: a relay is being spawned.
    Spawning,
    /// A relay was spawned: attempts to connect go on until one succeeds.
    Retrying,
    /// The connection stands.
    Connected,
    /// The client gave up.
    Failed(ConnectError),
}

/// What came back from the last thing the client did.
#[derive(Clone, Copy, Debug, PartialEq, Eq, Structural)]
pub enum ClientEvent {
    /// The attempt to connect succeeded.
    Connected,
    /// The attempt to connect failed.
    ConnectFailed,
    /// A relay process was spawned.
    Spawned,
    /// No relay process could be spawned.
    SpawnFailed,
}

/// What the client does next.
#[derive(Clone, Copy, Debug, PartialEq, Eq, Structural)]
pub enum ClientAction {
    /// Try to connect to the channel of the group.
    Connect,
    /// Spawn a relay process for the group.
    SpawnBroker,
    /// Use the connection.
    Done,
    /// Report the error.
    Fail(ConnectError),
}

/// A client on its way to the relay, as a mathematical value.
pub struct ClientModel {
    pub phase: ClientPhase,
    /// How many more attempts to connect to a spawned relay may fail before
    /// the client gives up; `None` for no limit.
    pub remaining: Option<nat>,
}

impl ClientModel {
    pub open spec fn init(limit: Option<nat>) -> ClientModel {
        ClientModel { phase: ClientPhase::Connecting, remaining: limit }
    }

    /// The state after one event. An event that does not answer what the
    /// client was doing changes nothing.
    pub open spec fn step(self, event: ClientEvent) -> ClientModel {
        match (self.phase, event) {
            (ClientPhase::Connecting, ClientEvent::Connected) => ClientModel {
                phase: ClientPhase::Connected,
                ..self
            },
            (ClientPhase::Connecting, ClientEvent::ConnectFailed) => ClientModel {
                phase: ClientPhase::Spawning,
                ..self
            },
            (ClientPhase::Spawning, ClientEvent::Spawned) => ClientModel {
                phase: if self.remaining == Some(0nat) {
                    ClientPhase::Failed(ConnectError::Timeout)
                } else {
                    ClientPhase::Retrying
                },
                ..self
            },
            (ClientPhase::Spawning, ClientEvent::SpawnFailed) => ClientModel {
                phase: ClientPhase::Failed(ConnectError::SpawnFailed),
                ..self
            },
            (ClientPhase::Retrying, ClientEvent::Connected) => ClientModel {
                phase: ClientPhase::Connected,
                ..self
            },
            (ClientPhase::Retrying, ClientEvent::ConnectFailed) => match self.remaining {
                None => self,
                Some(left) => if left <= 1 {
                    ClientModel {
                        phase: ClientPhase::Failed(ConnectError::Timeout),
                        remaining: Some(0nat),
                    }
                } else {
                    ClientModel {
                        phase: ClientPhase::Retrying,
                        remaining: Some((left - 1) as nat),
                    }
                },
            },
            _ => self,
        }
    }

    /// What the client does in its phase.
    pub open spec fn pending(self) -> ClientAction {
        match self.phase {
            ClientPhase::Connecting => ClientAction::Connect,
            ClientPhase::Spawning => ClientAction::SpawnBroker,
            ClientPhase::Retrying => ClientAction::Connect,
            ClientPhase::Connected => ClientAction::Done,
            ClientPhase::Failed(error) => ClientAction::Fail(error),
        }
    }

    /// The state after a sequence of events, first to last.
    pub open spec fn run(self, events: Seq<ClientEvent>) -> ClientModel
        decreases events.len(),
    {
        if events.len() == 0 {
            self
        } else {
            self.run(events.drop_last()).step(events.last())
        }
    }

    /// Whether the client has come to rest: connected, or failed for good.
    pub open spec fn settled(self) -> bool {
        self.phase == ClientPhase::Connected || self.phase is Failed
    }
}

/// A client on its way to the relay of one group.
pub struct RelayClient {
    address: GroupAddress,
    phase: ClientPhase,
    remaining: Option<u64>,
}

impl View for RelayClient {
    type V = ClientModel;

    closed spec fn view(&self) -> ClientModel {
        ClientModel {
            phase: self.phase,
            remaining: match self.remaining {
                Some(left) => Some(left as nat),
                None => None,
            },
        }
    }
}

impl RelayClient {
    pub closed spec fn spec_address(&self) -> GroupAddress {
        self.address
    }

    /// A client that, once a relay is spawned, tries to connect until it
    /// gets through.
    pub fn new(address: GroupAddress) -> (client: RelayClient)
        ensures
            client.spec_address() == address,
            client@ == ClientModel::init(None),
    {
        RelayClient { address, phase: ClientPhase::Connecting, remaining: None }
    }

    /// A client that gives up with [`ConnectError::Timeout`] once `limit`
    /// attempts to connect to the spawned relay have failed.
    pub fn with_limit(address: GroupAddress, limit: u64) -> (client: RelayClient)
        ensures
            client.spec_address() == address,
            client@ == ClientModel::init(Some(limit as nat)),
    {
        RelayClient { address, phase: ClientPhase::Connecting, remaining: Some(limit) }
    }

    #[verifier::when_used_as_spec(spec_address)]
    pub fn address(&self) -> (address: GroupAddress)
        ensures
            address == self.spec_address(),
    {
        self.address
    }

    pub fn phase(&self) -> (phase: ClientPhase)
        ensures
            phase == self@.phase,
    {
        self.phase
    }

    /// The name of the channel that the client connects to.
    pub fn channel(&self) -> (name: String)
        ensures
            name@ == channel_name(self.spec_address()),
    {
        channel_text(self.address)
    }

    /// What the client does in its phase.
    pub fn pending(&self) -> (action: ClientAction)
        ensures
            action == self@.pending(),
    {
        match self.phase {
            ClientPhase::Connecting => ClientAction::Connect,
            ClientPhase::Spawning => ClientAction::SpawnBroker,
            ClientPhase::Retrying => ClientAction::Connect,
            ClientPhase::Connected => ClientAction::Done,
            ClientPhase::Failed(error) => ClientAction::Fail(error),
        }
    }

    /// Takes what came back from the last action and says what to do next.
    pub fn handle(&mut self, event: ClientEvent) -> (action: ClientAction)
        ensures
            final(self).spec_address() == old(self).spec_address(),
            final(self)@ == old(self)@.step(event),
            action == old(self)@.step(event).pending(),
    {
        match (self.phase, event) {
            (ClientPhase::Connecting, ClientEvent::Connected) => {
                self.phase = ClientPhase::Connected;
            },
            (ClientPhase::Connecting, ClientEvent::ConnectFailed) => {
                self.phase = ClientPhase::Spawning;
            },
            (ClientPhase::Spawning, ClientEvent::Spawned) => {
                match self.remaining {
                    Some(0) => {
                        self.phase = ClientPhase::Failed(ConnectError::Timeout);
                    },
                    _ => {
                        self.phase = ClientPhase::Retrying;
                    },
                }
            },
            (ClientPhase::Spawning, ClientEvent::SpawnFailed) => {
                self.phase = ClientPhase::Failed(ConnectError::SpawnFailed);
            },
            (ClientPhase::Retrying, ClientEvent::Connected) => {
                self.phase = ClientPhase::Connected;
            },
            (ClientPhase::Retrying, ClientEvent::ConnectFailed) => {
                match self.remaining {
                    None => {},
                    Some(left) => {
                        if left <= 1 {
                            self.phase = ClientPhase::Failed(ConnectError::Timeout);
                            self.remaining = Some(0);
                        } else {
                            self.remaining = Some(left - 1);
                        }
                    },
                }
            },
            _ => {},
        }
        self.pending()
    }
}

/// A relay is asked for at most once on the way of a client, and only after
/// the first attempt to connect has failed: once the client has left its
/// first two phases it never asks again.
pub proof fn lemma_spawns_at_most_once(state: ClientModel, event: ClientEvent)
    ensures
        state.step(event).pending() == ClientAction::SpawnBroker ==> (state.phase
            == ClientPhase::Connecting && event == ClientEvent::ConnectFailed) || state.phase
            == ClientPhase::Spawning,
        state.phase != ClientPhase::Connecting && state.phase != ClientPhase::Spawning
            ==> state.step(event).phase != ClientPhase::Connecting && state.step(event).phase
            != ClientPhase::Spawning,
{
}

/// A client that has connected or failed stays as it is, whatever comes.
pub proof fn lemma_settled_is_final(state: ClientModel, events: Seq<ClientEvent>)
    requires
        state.settled(),
    ensures
        state.run(events) == state,
    decreases events.len(),
{
    if events.len() > 0 {
        lemma_settled_is_final(state, events.drop_last());
    }
}

/// With a limit a client cannot retry without end: once the relay is
/// spawned, that many failed attempts in a row bring it to
/// [`ConnectError::Timeout`], and every attempt before that is answered by
/// another one.
pub proof fn lemma_limit_bounds_retries(state: ClientModel, failures: nat)
    requires
        state.phase == ClientPhase::Retrying,
        state.remaining is Some,
        state.remaining.unwrap() >= 1,
    ensures
        failures < state.remaining.unwrap() ==> state.run(
            Seq::new(failures, |i: int| ClientEvent::ConnectFailed),
        ) == (ClientModel {
            phase: ClientPhase::Retrying,
            remaining: Some((state.remaining.unwrap() - failures) as nat),
        }),
        failures >= state.remaining.unwrap() ==> state.run(
            Seq::new(failures, |i: int| ClientEvent::ConnectFailed),
        ) == (ClientModel {
            phase: ClientPhase::Failed(ConnectError::Timeout),
            remaining: Some(0nat),
        }),
    decreases failures,
{
    let events = Seq::new(failures, |i: int| ClientEvent::ConnectFailed);
    if failures > 0 {
        let earlier = Seq::new((failures - 1) as nat, |i: int| ClientEvent::ConnectFailed);
        assert(events.drop_last() =~= earlier);
        assert(events.last() == ClientEvent::ConnectFailed);
        lemma_limit_bounds_retries(state, (failures - 1) as nat);
    }
}

/// The state after some events and then some more is the state that the
/// later events lead to from where the earlier ones led.
pub proof fn lemma_run_in_two_parts(
    state: ClientModel,
    earlier: Seq<ClientEvent>,
    later: Seq<ClientEvent>,
)
    ensures
        state.run(earlier + later) == state.run(earlier).run(later),
    decreases later.len(),
{
    if later.len() == 0 {
        assert(earlier + later =~= earlier);
    } else {
        lemma_run_in_two_parts(state, earlier, later.drop_last());
        assert((earlier + later).drop_last() =~= earlier + later.drop_last());
        assert((earlier + later).last() == later.last());
    }
}

/// Without a limit, failed attempts leave a retrying client as it is: it
/// tries again, however often it has failed.
pub proof fn lemma_unbounded_retries(state: ClientModel, failures: nat)
    requires
        state.phase == ClientPhase::Retrying,
        state.remaining is None,
    ensures
        state.run(Seq::new(failures, |i: int| ClientEvent::ConnectFailed)) == state,
    decreases failures,
{
    if failures > 0 {
        let events = Seq::new(failures, |i: int| ClientEvent::ConnectFailed);
        let earlier = Seq::new((failures - 1) as nat, |i: int| ClientEvent::ConnectFailed);
        assert(events.drop_last() =~= earlier);
        assert(events.last() == ClientEvent::ConnectFailed);
        lemma_unbounded_retries(state, (failures - 1) as nat);
    }
}

/// A client that finds no relay has one spawned, once, and is connected as
/// soon as an attempt gets through: after the first failed attempt, the
/// spawn, and any number of failed attempts that the limit allows, the
/// attempt that succeeds ends the way, and nothing is left to do.
pub proof fn lemma_join_after_retries(limit: Option<nat>, failures: nat)
    requires
        limit matches Some(allowed) ==> failures < allowed,
    ensures
        ClientModel::init(limit).run(
            seq![ClientEvent::ConnectFailed, ClientEvent::Spawned] + Seq::new(
                failures,
                |i: int| ClientEvent::ConnectFailed,
            ) + seq![ClientEvent::Connected],
        ).phase == ClientPhase::Connected,
        ClientModel::init(limit).run(
            seq![ClientEvent::ConnectFailed, ClientEvent::Spawned] + Seq::new(
                failures,
                |i: int| ClientEvent::ConnectFailed,
            ) + seq![ClientEvent::Connected],
        ).pending() == ClientAction::Done,
{
    let start = ClientModel::init(limit);
    let spawn = seq![ClientEvent::ConnectFailed, ClientEvent::Spawned];
    let retries = Seq::new(failures, |i: int| ClientEvent::ConnectFailed);
    let success = seq![ClientEvent::Connected];
    let spawned = start.run(spawn);
    assert(spawned == (ClientModel { phase: ClientPhase::Retrying, remaining: limit })) by {
        assert(spawn.drop_last() =~= seq![ClientEvent::ConnectFailed]);
        assert(spawn.drop_last().drop_last() =~= Seq::<ClientEvent>::empty());
        assert(spawn.last() == ClientEvent::Spawned);
        assert(spawn.drop_last().last() == ClientEvent::ConnectFailed);
        reveal_with_fuel(ClientModel::run, 3);
    }
    match limit {
        Some(allowed) => {
            lemma_limit_bounds_retries(spawned, failures);
        },
        None => {
            lemma_unbounded_retries(spawned, failures);
        },
    }
    let retried = spawned.run(retries);
    assert(retried.phase == ClientPhase::Retrying);
    lemma_run_in_two_parts(start, spawn, retries);
    lemma_run_in_two_parts(start, spawn + retries, success);
    assert(retried.run(success) == retried.step(ClientEvent::Connected)) by {
        assert(success.drop_last() =~= Seq::<ClientEvent>::empty());
        assert(success.last() == ClientEvent::Connected);
        reveal_with_fuel(ClientModel::run, 2);
    }
}

} // verus!
