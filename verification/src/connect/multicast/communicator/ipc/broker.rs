//! The bookkeeping of the relay process: which local connections are
//! registered, how many are live, and when an idle relay shuts itself down.
//!
//! Accepting, reading and sleeping are done around this module. Each thing
//! that happens is handed to [`Broker::handle`] as a [`BrokerEvent`], and the
//! returned [`BrokerAction`] says what to do about it.

use vstd::prelude::*;

use vstd::string::to_string_from_display_ensures;

use crate::address::GroupAddress;
use crate::connect::multicast::communicator::error::CommunicatorProcessError;
use crate::connect::multicast::communicator::ipc::{
    channel_name, channel_text, lemma_one_channel_per_group,
};
use crate::connect::multicast::join::{connect_to_multicast, plan_for, JoinPlan};

verus! {

/// Identifies one accepted connection, both of its halves.
pub type ConnectionId = u64;

/// The idle watchdog is checked once per grace interval.
pub const GRACE_INTERVAL_SECS: u64 = 10;

/// What a read on the receiving half of a connection reported.
#[derive(Clone, Copy, Debug, PartialEq, Eq, Structural)]
pub enum ReadOutcome {
    /// Zero bytes: the peer has closed the connection.
    Closed,
    /// That many bytes of payload arrived, at least one.
    Data(usize),
    /// The read failed.
    Failed,
}

/// Something that happened to the relay process.
#[derive(Clone, Copy, Debug, PartialEq, Eq, Structural)]
pub enum BrokerEvent {
    /// A local client connected.
    Accepted,
    /// Accepting a connection failed.
    AcceptFailed,
    /// A read on the given connection returned.
    Read(ConnectionId, ReadOutcome),
    /// A grace interval has elapsed.
    Tick,
}

/// What the relay process does in answer to an event.
#[derive(Clone, Copy, Debug, PartialEq, Eq, Structural)]
pub enum BrokerAction {
    /// Split the accepted connection and keep both halves under this identifier.
    Register(ConnectionId),
    /// Every identifier there is is in use: drop the accepted connection. No
    /// relay comes to this, for it cannot hold that many connections.
    Refuse,
    /// The peer closed: drop both halves of this connection.
    Deregister(ConnectionId),
    /// That many bytes arrived on this connection: hand them to the forwarding path.
    Record(ConnectionId, usize),
    /// Report the failure; the connection and every other one stay as they are.
    ReportError(ConnectionId),
    /// Nothing to do.
    Ignore,
    /// At least one connection is live: keep running.
    KeepRunning,
    /// No connection is live: wait one more grace interval and check again.
    AwaitGrace,
    /// No connection was live for a whole grace interval: shut down.
    Terminate,
}

/// The relay process as a mathematical value.
pub struct BrokerModel {
    /// The live-connection counter.
    pub connections: nat,
    /// The registered connections, oldest first.
    pub registered: Seq<ConnectionId>,
    /// Whether the last check of the watchdog found no live connection and no
    /// connection has been registered since.
    pub armed: bool,
}

impl BrokerModel {
    /// The counter is exactly the number of registered connections, and no
    /// connection is registered twice.
    pub open spec fn wf(self) -> bool {
        &&& self.connections == self.registered.len()
        &&& self.registered.no_duplicates()
    }

    /// A relay that has just started: nothing registered, watchdog not armed.
    pub open spec fn init() -> BrokerModel {
        BrokerModel { connections: 0, registered: Seq::empty(), armed: false }
    }

    /// Whether an identifier is free for one more connection. There are more
    /// identifiers than a relay can hold connections, so this is true of
    /// every relay that runs.
    pub open spec fn can_accept(self) -> bool {
        self.registered.len() <= u64::MAX
    }

    /// The identifier that the next accepted connection gets: the lowest one
    /// that no registered connection has.
    pub open spec fn fresh(self) -> ConnectionId {
        first_free(self.registered, 0) as ConnectionId
    }

    pub open spec fn accept(self) -> BrokerModel {
        if self.can_accept() {
            BrokerModel {
                connections: self.connections + 1,
                registered: self.registered.push(self.fresh()),
                armed: false,
            }
        } else {
            self
        }
    }

    pub open spec fn is_registered(self, id: ConnectionId) -> bool {
        self.registered.contains(id)
    }

    pub open spec fn close(self, id: ConnectionId) -> BrokerModel {
        if self.is_registered(id) {
            BrokerModel {
                connections: (self.connections - 1) as nat,
                registered: self.registered.remove(self.registered.index_of(id)),
                ..self
            }
        } else {
            self
        }
    }

    pub open spec fn tick(self) -> BrokerModel {
        BrokerModel { armed: self.connections == 0, ..self }
    }

    /// The state after one event.
    pub open spec fn step(self, event: BrokerEvent) -> BrokerModel {
        match event {
            BrokerEvent::Accepted => self.accept(),
            BrokerEvent::AcceptFailed => self,
            BrokerEvent::Read(id, ReadOutcome::Closed) => self.close(id),
            BrokerEvent::Read(_, _) => self,
            BrokerEvent::Tick => self.tick(),
        }
    }

    /// The answer to one event, given in the state before it.
    pub open spec fn action(self, event: BrokerEvent) -> BrokerAction {
        match event {
            BrokerEvent::Accepted => if self.can_accept() {
                BrokerAction::Register(self.fresh())
            } else {
                BrokerAction::Refuse
            },
            BrokerEvent::AcceptFailed => BrokerAction::Ignore,
            BrokerEvent::Read(id, outcome) => if self.is_registered(id) {
                match outcome {
                    ReadOutcome::Closed => BrokerAction::Deregister(id),
                    ReadOutcome::Data(n) => BrokerAction::Record(id, n),
                    ReadOutcome::Failed => BrokerAction::ReportError(id),
                }
            } else {
                BrokerAction::Ignore
            },
            BrokerEvent::Tick => if self.connections != 0 {
                BrokerAction::KeepRunning
            } else if self.armed {
                BrokerAction::Terminate
            } else {
                BrokerAction::AwaitGrace
            },
        }
    }

    /// The state after a sequence of events, first to last.
    pub open spec fn run(self, events: Seq<BrokerEvent>) -> BrokerModel
        decreases events.len(),
    {
        if events.len() == 0 {
            self
        } else {
            self.run(events.drop_last()).step(events.last())
        }
    }
}

/// The lowest identifier from `from` on that no registered connection has.
/// Among the identifiers up to the number of connections one is always free.
pub open spec fn first_free(registered: Seq<ConnectionId>, from: nat) -> nat
    decreases registered.len() - from,
{
    if from >= registered.len() || !registered.contains(from as ConnectionId) {
        from
    } else {
        first_free(registered, from + 1)
    }
}

/// The connections that stay registered after one pass over all of them, in
/// which `outcomes[i]` is what the read on `registered[i]` reported. A
/// connection without an outcome was not read and stays.
pub open spec fn still_open(registered: Seq<ConnectionId>, outcomes: Seq<ReadOutcome>) -> Seq<
    ConnectionId,
>
    decreases registered.len(),
{
    if registered.len() == 0 {
        Seq::empty()
    } else {
        let rest = still_open(registered.drop_last(), outcomes);
        let i = registered.len() - 1;
        if i < outcomes.len() && outcomes[i] == ReadOutcome::Closed {
            rest
        } else {
            rest.push(registered.last())
        }
    }
}

/// Tells apart the three things a read can report: zero bytes mean that the
/// peer closed the connection.
pub fn classify_read<E>(result: &Result<usize, E>) -> (outcome: ReadOutcome)
    ensures
        outcome == match *result {
            Ok(n) => if n == 0 {
                ReadOutcome::Closed
            } else {
                ReadOutcome::Data(n)
            },
            Err(_) => ReadOutcome::Failed,
        },
{
    match result {
        Ok(n) => {
            if *n == 0 {
                ReadOutcome::Closed
            } else {
                ReadOutcome::Data(*n)
            }
        },
        Err(_) => ReadOutcome::Failed,
    }
}

/// The state of one relay process.
pub struct Broker {
    address: GroupAddress,
    connections: usize,
    registered: Vec<ConnectionId>,
    armed: bool,
}

impl View for Broker {
    type V = BrokerModel;

    closed spec fn view(&self) -> BrokerModel {
        BrokerModel {
            connections: self.connections as nat,
            registered: self.registered@,
            armed: self.armed,
        }
    }
}

impl Broker {
    /// The invariant of a relay: that of its model, and no more connections
    /// than a list can hold. So a relay always has an identifier free.
    pub open spec fn wf(&self) -> bool {
        &&& self@.wf()
        &&& self@.registered.len() <= usize::MAX
    }

    /// The group that this relay serves.
    pub closed spec fn spec_address(&self) -> GroupAddress {
        self.address
    }

    /// A relay for `address` with no connection yet.
    pub fn new(address: GroupAddress) -> (broker: Broker)
        ensures
            broker.wf(),
            broker@ == BrokerModel::init(),
            broker.spec_address() == address,
    {
        Broker { address, connections: 0, registered: Vec::new(), armed: false }
    }

    #[verifier::when_used_as_spec(spec_address)]
    pub fn address(&self) -> (address: GroupAddress)
        ensures
            address == self.spec_address(),
    {
        self.address
    }

    /// The live-connection counter.
    pub fn connections(&self) -> (n: usize)
        ensures
            n == self@.connections,
    {
        self.connections
    }

    /// The registered connections, oldest first: the receiving halves that the
    /// relay loop reads, and the sending halves of the forwarding path.
    pub fn registered(&self) -> (ids: &Vec<ConnectionId>)
        ensures
            ids@ == self@.registered,
    {
        &self.registered
    }

    /// Whether the watchdog found no live connection at its last check and
    /// no connection has been registered since.
    pub fn is_armed(&self) -> (armed: bool)
        ensures
            armed == self@.armed,
    {
        self.armed
    }

    /// Whether no connection is live.
    pub fn is_idle(&self) -> (idle: bool)
        ensures
            idle == (self@.connections == 0),
    {
        self.connections == 0
    }

    /// Where `id` is registered, if it is.
    pub fn position(&self, id: ConnectionId) -> (at: Option<usize>)
        requires
            self.wf(),
        ensures
            at is Some == self@.is_registered(id),
            at matches Some(i) ==> i < self@.registered.len() && self@.registered[i as int] == id
                && i == self@.registered.index_of(id),
    {
        let mut i: usize = 0;
        while i < self.registered.len()
            invariant
                self.wf(),
                i <= self.registered.len(),
                forall|j: int| 0 <= j < i ==> self.registered@[j] != id,
            decreases self.registered.len() - i,
        {
            if self.registered[i] == id {
                proof {
                    let s = self.registered@;
                    assert(s.contains(id));
                    let k = s.index_of(id);
                    assert(0 <= k < s.len() && s[k] == id);
                    assert(s.no_duplicates());
                    assert(k == i);
                }
                return Some(i);
            }
            i += 1;
        }
        None
    }

    /// A client connected. The connection is registered under the lowest
    /// identifier that is free, which is returned, and counted as live; a
    /// shutdown that was pending is called off. However many connections are
    /// open, the counter goes up by one.
    pub fn accept(&mut self) -> (id: ConnectionId)
        requires
            old(self).wf(),
        ensures
            final(self).wf(),
            old(self)@.can_accept(),
            final(self)@ == old(self)@.accept(),
            final(self).spec_address() == old(self).spec_address(),
            id == old(self)@.fresh(),
            !old(self)@.is_registered(id),
            final(self)@.connections == old(self)@.connections + 1,
    {
        let len = self.registered.len();
        let mut id: ConnectionId = 0;
        loop
            invariant
                self.wf(),
                *self == *old(self),
                len == self.registered@.len(),
                id <= len,
                first_free(self.registered@, 0) == first_free(self.registered@, id as nat),
            ensures
                id as nat == first_free(self.registered@, 0),
            decreases len - id,
        {
            if id >= len as u64 {
                break;
            }
            if self.position(id).is_none() {
                break;
            }
            id += 1;
        }
        proof {
            lemma_accept_registers(old(self)@, id);
        }
        self.registered.push(id);
        self.connections = self.registered.len();
        self.armed = false;
        proof {
            assert(self@.registered =~= old(self)@.accept().registered);
        }
        id
    }

    /// The peer of `id` closed its connection. If `id` is registered it is
    /// deregistered and the counter goes down by one; the other connections
    /// keep their order. Otherwise nothing changes.
    pub fn close(&mut self, id: ConnectionId) -> (was_registered: bool)
        requires
            old(self).wf(),
        ensures
            final(self).wf(),
            final(self)@ == old(self)@.close(id),
            final(self).spec_address() == old(self).spec_address(),
            was_registered == old(self)@.is_registered(id),
            !final(self)@.is_registered(id),
    {
        match self.position(id) {
            Some(i) => {
                self.registered.remove(i);
                self.connections = self.registered.len();
                proof {
                    lemma_close_deregisters(old(self)@, id, id);
                    assert(self@.registered =~= old(self)@.close(id).registered);
                }
                true
            },
            None => false,
        }
    }

    /// A grace interval has elapsed. With a live connection the watchdog is
    /// disarmed. Without one it is armed, and if it was armed already, so
    /// that no connection was registered since the check before, it asks
    /// for shutdown.
    pub fn tick(&mut self) -> (action: BrokerAction)
        requires
            old(self).wf(),
        ensures
            final(self).wf(),
            final(self)@ == old(self)@.tick(),
            final(self).spec_address() == old(self).spec_address(),
            action == old(self)@.action(BrokerEvent::Tick),
    {
        if self.connections != 0 {
            self.armed = false;
            BrokerAction::KeepRunning
        } else if self.armed {
            BrokerAction::Terminate
        } else {
            self.armed = true;
            BrokerAction::AwaitGrace
        }
    }

    /// Takes one event to the next state and says what to do about it. A
    /// connection that was accepted is always registered.
    pub fn handle(&mut self, event: BrokerEvent) -> (action: BrokerAction)
        requires
            old(self).wf(),
        ensures
            final(self).wf(),
            final(self)@ == old(self)@.step(event),
            final(self).spec_address() == old(self).spec_address(),
            action == old(self)@.action(event),
            action != BrokerAction::Refuse,
    {
        match event {
            BrokerEvent::Accepted => BrokerAction::Register(self.accept()),
            BrokerEvent::AcceptFailed => BrokerAction::Ignore,
            BrokerEvent::Read(id, outcome) => match outcome {
                ReadOutcome::Closed => {
                    if self.close(id) {
                        BrokerAction::Deregister(id)
                    } else {
                        BrokerAction::Ignore
                    }
                },
                ReadOutcome::Data(n) => {
                    if self.position(id).is_some() {
                        BrokerAction::Record(id, n)
                    } else {
                        BrokerAction::Ignore
                    }
                },
                ReadOutcome::Failed => {
                    if self.position(id).is_some() {
                        BrokerAction::ReportError(id)
                    } else {
                        BrokerAction::Ignore
                    }
                },
            },
            BrokerEvent::Tick => self.tick(),
        }
    }

    /// One pass of the relay loop: `outcomes[i]` is what the read on the
    /// `i`-th registered connection reported. Every connection whose peer
    /// closed is deregistered, the others stay in their order, and the counter
    /// goes down by the number of closed connections, which is returned.
    pub fn relay_pass(&mut self, outcomes: &[ReadOutcome]) -> (closed: usize)
        requires
            old(self).wf(),
        ensures
            final(self).wf(),
            final(self)@.registered == still_open(old(self)@.registered, outcomes@),
            final(self)@.connections == old(self)@.connections - closed,
            final(self)@.armed == old(self)@.armed,
            final(self).spec_address() == old(self).spec_address(),
    {
        let mut kept: Vec<ConnectionId> = Vec::new();
        let mut i: usize = 0;
        let n = self.registered.len();
        while i < n
            invariant
                n == self.registered.len(),
                i <= n,
                self.registered@ == old(self)@.registered,
                kept@ == still_open(self.registered@.take(i as int), outcomes@),
                kept.len() <= i,
            decreases n - i,
        {
            let closed_here = i < outcomes.len() && outcomes[i] == ReadOutcome::Closed;
            proof {
                let next = self.registered@.take(i + 1);
                assert(next.drop_last() =~= self.registered@.take(i as int));
                assert(next.last() == self.registered@[i as int]);
            }
            if !closed_here {
                kept.push(self.registered[i]);
            }
            i += 1;
        }
        proof {
            assert(self.registered@.take(n as int) =~= self.registered@);
            lemma_still_open_is_subsequence(old(self)@.registered, outcomes@);
        }
        let closed = n - kept.len();
        self.registered = kept;
        self.connections = self.registered.len();
        closed
    }
}

/// A relay process that has not opened its channel yet.
pub struct Startup {
    address: GroupAddress,
}

/// A relay process that listens on its channel and has yet to join its group.
pub struct Listening {
    address: GroupAddress,
}

impl Startup {
    pub closed spec fn spec_address(&self) -> GroupAddress {
        self.address
    }

    /// The first step of a relay for `address`: open the channel.
    pub fn new(address: GroupAddress) -> (startup: Startup)
        ensures
            startup.spec_address() == address,
    {
        Startup { address }
    }

    /// The name under which the relay has to listen.
    pub fn channel(&self) -> (name: String)
        ensures
            name@ == channel_name(self.spec_address()),
    {
        channel_text(self.address)
    }

    /// The attempt to listen on the channel has returned. A failure ends the
    /// relay with the text of the error: it is what happens when another
    /// relay already listens under the name. So does an address outside the
    /// multicast range. Otherwise the group is to be joined as the plan says.
    pub fn channel_opened(self, opened: Result<(), std::io::Error>) -> (next: Result<
        (Listening, JoinPlan),
        CommunicatorProcessError,
    >)
        ensures
            opened is Ok && self.spec_address().spec_is_multicast() ==> next is Ok
                && next->Ok_0.0.spec_address() == self.spec_address() && next->Ok_0.1 == plan_for(
                self.spec_address(),
            ),
            opened is Ok && !self.spec_address().spec_is_multicast() ==> next is Err
                && next->Err_0@ == "Address must be multicast"@,
            opened matches Err(error) ==> next is Err && to_string_from_display_ensures::<
                std::io::Error,
            >(&error, next->Err_0.0),
    {
        match opened {
            Err(error) => Err(CommunicatorProcessError::from(error)),
            Ok(()) => match connect_to_multicast(self.address) {
                Ok(plan) => Ok((Listening { address: self.address }, plan)),
                Err(_) => Err(
                    CommunicatorProcessError::new("Address must be multicast".to_owned()),
                ),
            },
        }
    }
}

impl Listening {
    pub closed spec fn spec_address(&self) -> GroupAddress {
        self.address
    }

    /// The attempt to bind the socket and join the group has returned. A
    /// failure ends the relay with the text of the error. Otherwise the relay
    /// runs, with no connection yet.
    pub fn group_joined(self, joined: Result<(), std::io::Error>) -> (started: Result<
        Broker,
        CommunicatorProcessError,
    >)
        ensures
            joined is Ok ==> started is Ok && started->Ok_0.wf() && started->Ok_0@
                == BrokerModel::init() && started->Ok_0.spec_address() == self.spec_address(),
            joined matches Err(error) ==> started is Err && to_string_from_display_ensures::<
                std::io::Error,
            >(&error, started->Err_0.0),
    {
        match joined {
            Ok(()) => Ok(Broker::new(self.address)),
            Err(error) => Err(CommunicatorProcessError::from(error)),
        }
    }
}

/// Removing one entry keeps the others distinct and in their order.
pub proof fn lemma_remove_keeps_order(s: Seq<ConnectionId>, i: int)
    requires
        0 <= i < s.len(),
        s.no_duplicates(),
    ensures
        s.remove(i).len() == s.len() - 1,
        s.remove(i).no_duplicates(),
        !s.remove(i).contains(s[i]),
        forall|k: int| 0 <= k < i ==> s.remove(i)[k] == s[k],
        forall|k: int| i <= k < s.len() - 1 ==> s.remove(i)[k] == s[k + 1],
{
    let r = s.remove(i);
    assert forall|k: int| 0 <= k < r.len() implies r[k] == (if k < i {
        s[k]
    } else {
        s[k + 1]
    }) by {}
    assert forall|a: int, b: int| 0 <= a < r.len() && 0 <= b < r.len() && a != b implies r[a]
        != r[b] by {
        let a2 = if a < i { a } else { a + 1 };
        let b2 = if b < i { b } else { b + 1 };
        assert(r[a] == s[a2] && r[b] == s[b2]);
    }
    if r.contains(s[i]) {
        let k = choose|k: int| 0 <= k < r.len() && r[k] == s[i];
        let k2 = if k < i { k } else { k + 1 };
        assert(r[k] == s[k2]);
        assert(false);
    }
}

/// What a pass leaves registered is taken from what was registered before
/// it, without repetition and in the same order.
pub proof fn lemma_still_open_is_subsequence(
    registered: Seq<ConnectionId>,
    outcomes: Seq<ReadOutcome>,
)
    requires
        registered.no_duplicates(),
    ensures
        still_open(registered, outcomes).len() <= registered.len(),
        still_open(registered, outcomes).no_duplicates(),
        forall|k: int| 0 <= k < still_open(registered, outcomes).len() ==> registered.contains(
            #[trigger] still_open(registered, outcomes)[k],
        ),
        forall|i: int| 0 <= i < registered.len() ==> (still_open(registered, outcomes).contains(
            #[trigger] registered[i],
        ) <==> !(i < outcomes.len() && outcomes[i] == ReadOutcome::Closed)),
    decreases registered.len(),
{
    if registered.len() > 0 {
        let front = registered.drop_last();
        let last = registered.last();
        let n = registered.len() - 1;
        assert forall|a: int, b: int|
            0 <= a < front.len() && 0 <= b < front.len() && a != b implies front[a] != front[b] by {
            assert(front[a] == registered[a] && front[b] == registered[b]);
        }
        lemma_still_open_is_subsequence(front, outcomes);
        let rest = still_open(front, outcomes);
        let all = still_open(registered, outcomes);
        let closed_last = n < outcomes.len() && outcomes[n] == ReadOutcome::Closed;
        assert(!front.contains(last)) by {
            if front.contains(last) {
                let k = choose|k: int| 0 <= k < front.len() && front[k] == last;
                assert(registered[k] == registered[n]);
            }
        }
        assert(!rest.contains(last)) by {
            if rest.contains(last) {
                let k = choose|k: int| 0 <= k < rest.len() && rest[k] == last;
                assert(front.contains(rest[k]));
            }
        }
        assert forall|k: int| 0 <= k < all.len() implies registered.contains(#[trigger] all[k]) by {
            if k < rest.len() {
                assert(all[k] == rest[k]);
                assert(front.contains(rest[k]));
                let j = choose|j: int| 0 <= j < front.len() && front[j] == rest[k];
                assert(registered[j] == rest[k]);
            } else {
                assert(all[k] == registered[n]);
            }
        }
        assert forall|a: int, b: int|
            0 <= a < all.len() && 0 <= b < all.len() && a != b implies all[a] != all[b] by {
            if a < rest.len() && b < rest.len() {
                assert(all[a] == rest[a] && all[b] == rest[b]);
            } else if a < rest.len() {
                assert(all[a] == rest[a]);
                assert(rest.contains(rest[a]));
            } else if b < rest.len() {
                assert(all[b] == rest[b]);
                assert(rest.contains(rest[b]));
            }
        }
        assert forall|i: int| 0 <= i < registered.len() implies (all.contains(
            #[trigger] registered[i],
        ) <==> !(i < outcomes.len() && outcomes[i] == ReadOutcome::Closed)) by {
            if i < n {
                assert(registered[i] == front[i]);
                assert(front.contains(front[i]));
                if rest.contains(front[i]) {
                    let k = choose|k: int| 0 <= k < rest.len() && rest[k] == front[i];
                    assert(all[k] == front[i]);
                }
                if all.contains(front[i]) {
                    let k = choose|k: int| 0 <= k < all.len() && all[k] == front[i];
                    if k < rest.len() {
                        assert(rest[k] == front[i]);
                    } else {
                        assert(all[k] == last);
                        assert(front.contains(last));
                    }
                }
            } else {
                if closed_last {
                    assert(all == rest);
                } else {
                    assert(all[rest.len() as int] == last);
                }
            }
        }
    }
}

/// Whatever events arrive and in whatever order, the live-connection counter
/// is never negative and equals the number of registered connections.
pub proof fn lemma_counter_matches_registered(start: BrokerModel, events: Seq<BrokerEvent>)
    requires
        start.wf(),
    ensures
        start.run(events).wf(),
        start.run(events).connections >= 0,
        start.run(events).connections == start.run(events).registered.len(),
        (start.run(events).connections == 0) <==> (start.run(events).registered.len() == 0),
    decreases events.len(),
{
    if events.len() > 0 {
        lemma_counter_matches_registered(start, events.drop_last());
        lemma_step_keeps_wf(start.run(events.drop_last()), events.last());
    }
}

/// One event takes a well-formed relay to a well-formed relay.
pub proof fn lemma_step_keeps_wf(state: BrokerModel, event: BrokerEvent)
    requires
        state.wf(),
    ensures
        state.step(event).wf(),
{
    match event {
        BrokerEvent::Accepted => {
            lemma_accept_registers(state, 0);
        },
        BrokerEvent::Read(id, ReadOutcome::Closed) => {
            lemma_close_deregisters(state, id, 0);
        },
        _ => {},
    }
}

/// An accepted connection is registered under the lowest free identifier,
/// which no connection had before, the counter goes up by one, and no other
/// registration changes.
pub proof fn lemma_accept_registers(state: BrokerModel, id: ConnectionId)
    requires
        state.wf(),
    ensures
        state.accept().wf(),
        state.accept().is_registered(id) <==> (state.is_registered(id) || (state.can_accept() && id
            == state.fresh())),
        state.can_accept() ==> first_free(state.registered, 0) <= state.registered.len(),
        state.can_accept() ==> !state.is_registered(state.fresh()),
        state.can_accept() ==> state.accept().connections == state.connections + 1,
        !state.can_accept() ==> state.accept() == state,
{
    if state.can_accept() {
        let before = state.registered;
        let after = state.accept().registered;
        let fresh = state.fresh();
        lemma_first_free(before, 0);
        assert(after[before.len() as int] == fresh);
        assert forall|i: int, j: int|
            0 <= i < after.len() && 0 <= j < after.len() && i != j implies after[i] != after[j] by {
            if i < before.len() {
                assert(after[i] == before[i]);
                assert(before.contains(before[i]));
            }
            if j < before.len() {
                assert(after[j] == before[j]);
                assert(before.contains(before[j]));
            }
        }
        if before.contains(id) {
            let k = choose|k: int| 0 <= k < before.len() && before[k] == id;
            assert(after[k] == id);
        }
        if after.contains(id) {
            let k = choose|k: int| 0 <= k < after.len() && after[k] == id;
            if k < before.len() {
                assert(before[k] == id);
            }
        }
    }
}

/// The search for a free identifier ends at one: it is free, every lower
/// one from where the search began is taken, and it is not greater than the
/// number of connections.
pub proof fn lemma_first_free(registered: Seq<ConnectionId>, from: nat)
    requires
        registered.no_duplicates(),
        registered.len() <= u64::MAX,
        from <= registered.len(),
        forall|taken: ConnectionId| taken < from ==> registered.contains(taken),
    ensures
        from <= first_free(registered, from) <= registered.len(),
        !registered.contains(first_free(registered, from) as ConnectionId),
        forall|taken: ConnectionId|
            taken < first_free(registered, from) ==> registered.contains(taken),
    decreases registered.len() - from,
{
    if from >= registered.len() {
        if registered.contains(from as ConnectionId) {
            lemma_taken_identifiers_are_counted(registered, from + 1);
        }
    } else if registered.contains(from as ConnectionId) {
        lemma_first_free(registered, from + 1);
    }
}

/// Connections that hold all of the first `count` identifiers are `count`
/// connections at least.
pub proof fn lemma_taken_identifiers_are_counted(registered: Seq<ConnectionId>, count: nat)
    requires
        registered.no_duplicates(),
        count <= u64::MAX + 1,
        forall|taken: ConnectionId| taken < count ==> registered.contains(taken),
    ensures
        count <= registered.len(),
    decreases count,
{
    if count > 0 {
        let highest = (count - 1) as ConnectionId;
        assert(registered.contains(highest));
        let at = registered.index_of(highest);
        assert(0 <= at < registered.len() && registered[at] == highest);
        let others = registered.remove(at);
        lemma_remove_keeps_order(registered, at);
        assert forall|taken: ConnectionId| taken < count - 1 implies others.contains(taken) by {
            assert(registered.contains(taken));
            let k = choose|k: int| 0 <= k < registered.len() && registered[k] == taken;
            if k < at {
                assert(others[k] == taken);
            } else {
                assert(k != at);
                assert(others[k - 1] == taken);
            }
        }
        lemma_taken_identifiers_are_counted(others, (count - 1) as nat);
    }
}

/// A closed connection is deregistered, the counter goes down by one for it,
/// and no other registration changes. Closing what is not registered changes
/// nothing, so the counter cannot fall below zero.
pub proof fn lemma_close_deregisters(state: BrokerModel, closed: ConnectionId, id: ConnectionId)
    requires
        state.wf(),
    ensures
        state.close(closed).wf(),
        state.close(closed).is_registered(id) <==> (state.is_registered(id) && id != closed),
        state.is_registered(closed) ==> state.connections >= 1 && state.close(closed).connections
            == state.connections - 1,
        !state.is_registered(closed) ==> state.close(closed) == state,
{
    if state.is_registered(closed) {
        let before = state.registered;
        let at = before.index_of(closed);
        assert(0 <= at < before.len() && before[at] == closed);
        let after = before.remove(at);
        lemma_remove_keeps_order(before, at);
        if before.contains(id) && id != closed {
            let k = choose|k: int| 0 <= k < before.len() && before[k] == id;
            if k < at {
                assert(after[k] == id);
            } else {
                assert(after[k - 1] == id);
            }
        }
        if after.contains(id) {
            let k = choose|k: int| 0 <= k < after.len() && after[k] == id;
            if k < at {
                assert(before[k] == id);
            } else {
                assert(before[k + 1] == id);
            }
        }
    }
}

/// A relay without a live connection for a whole grace interval shuts down:
/// if the counter is zero at one check and no client connects before the next
/// check, that next check asks for termination.
pub proof fn lemma_idle_for_grace_terminates(state: BrokerModel, between: Seq<BrokerEvent>)
    requires
        state.wf(),
        state.connections == 0,
        forall|i: int|
            0 <= i < between.len() ==> between[i] != BrokerEvent::Accepted && between[i]
                != BrokerEvent::Tick,
    ensures
        state.action(BrokerEvent::Tick) == BrokerAction::AwaitGrace || state.action(
            BrokerEvent::Tick,
        ) == BrokerAction::Terminate,
        state.tick().run(between).connections == 0,
        state.tick().run(between).action(BrokerEvent::Tick) == BrokerAction::Terminate,
    decreases between.len(),
{
    if between.len() > 0 {
        let earlier = between.drop_last();
        assert forall|i: int| 0 <= i < earlier.len() implies earlier[i] != BrokerEvent::Accepted
            && earlier[i] != BrokerEvent::Tick by {
            assert(earlier[i] == between[i]);
        }
        lemma_idle_for_grace_terminates(state, earlier);
        lemma_counter_matches_registered(state.tick(), earlier);
        let reached = state.tick().run(earlier);
        assert(between.last() == between[between.len() - 1]);
        match between.last() {
            BrokerEvent::Read(id, ReadOutcome::Closed) => {
                assert(reached.registered.len() == 0);
                assert(!reached.is_registered(id));
            },
            _ => {},
        }
    }
}

/// A check that finds a live connection never asks for termination, and it
/// disarms the watchdog: after it, shutdown again takes two idle checks.
pub proof fn lemma_live_connection_prevents_shutdown(state: BrokerModel)
    requires
        state.wf(),
        state.connections > 0,
    ensures
        state.action(BrokerEvent::Tick) == BrokerAction::KeepRunning,
        !state.tick().armed,
{
}

/// Whether none of these events is a check of the watchdog.
pub open spec fn no_tick(events: Seq<BrokerEvent>) -> bool {
    forall|i: int| 0 <= i < events.len() ==> events[i] != BrokerEvent::Tick
}

/// Whether the `at`-th of the events that follow a check in `state` is a
/// connection that gets registered.
pub open spec fn registers_at(state: BrokerModel, between: Seq<BrokerEvent>, at: int) -> bool {
    &&& 0 <= at < between.len()
    &&& between[at] == BrokerEvent::Accepted
    &&& state.tick().run(between.take(at)).can_accept()
}

/// A relay shuts down only after a whole grace interval without a
/// connection. If the check that follows the events `between` asks for
/// termination, then the check before them found no live connection, none
/// was registered between the two checks, and the counter was zero after
/// every one of the events.
pub proof fn lemma_terminate_means_idle_interval(state: BrokerModel, between: Seq<BrokerEvent>)
    requires
        state.wf(),
        no_tick(between),
        state.tick().run(between).action(BrokerEvent::Tick) == BrokerAction::Terminate,
    ensures
        state.connections == 0,
        forall|at: int| !registers_at(state, between, at),
        forall|upto: int|
            0 <= upto <= between.len() ==> (#[trigger] state.tick().run(
                between.take(upto),
            )).connections == 0,
{
    lemma_armed_means_idle_since_check(state, between);
}

/// As long as the watchdog is armed, the relay has been idle since the
/// check that armed it.
proof fn lemma_armed_means_idle_since_check(state: BrokerModel, between: Seq<BrokerEvent>)
    requires
        state.wf(),
        no_tick(between),
    ensures
        state.tick().run(between).wf(),
        state.tick().run(between).armed ==> {
            &&& state.connections == 0
            &&& forall|at: int| !registers_at(state, between, at)
            &&& forall|upto: int|
                0 <= upto <= between.len() ==> (#[trigger] state.tick().run(
                    between.take(upto),
                )).connections == 0
        },
    decreases between.len(),
{
    let start = state.tick();
    lemma_counter_matches_registered(start, between);
    if between.len() == 0 {
        assert forall|upto: int| 0 <= upto <= between.len() implies (#[trigger] start.run(
            between.take(upto),
        )).connections == start.connections by {
            assert(between.take(upto) =~= between);
        }
    } else {
        let earlier = between.drop_last();
        let last = between.last();
        assert(last == between[between.len() - 1]);
        assert(no_tick(earlier)) by {
            assert forall|i: int| 0 <= i < earlier.len() implies earlier[i]
                != BrokerEvent::Tick by {
                assert(earlier[i] == between[i]);
            }
        }
        lemma_armed_means_idle_since_check(state, earlier);
        let before = start.run(earlier);
        let after = start.run(between);
        assert(after == before.step(last));
        assert(between.take(earlier.len() as int) =~= earlier);
        if after.armed {
            // Only a check arms the watchdog, so it was armed before the last
            // event, and that event registered nothing.
            assert(before.armed);
            assert(!(last == BrokerEvent::Accepted && before.can_accept()));
            assert(earlier.take(earlier.len() as int) =~= earlier);
            assert(before.connections == 0);
            assert(before.registered.len() == 0);
            assert(after.connections == 0) by {
                match last {
                    BrokerEvent::Read(id, ReadOutcome::Closed) => {
                        assert(!before.is_registered(id));
                    },
                    _ => {},
                }
            }
            assert forall|at: int| !registers_at(state, between, at) by {
                if registers_at(state, between, at) {
                    if at < earlier.len() {
                        assert(between.take(at) =~= earlier.take(at));
                        assert(earlier[at] == between[at]);
                        assert(registers_at(state, earlier, at));
                    }
                }
            }
            assert forall|upto: int| 0 <= upto <= between.len() implies (#[trigger] start.run(
                between.take(upto),
            )).connections == 0 by {
                if upto < between.len() {
                    assert(between.take(upto) =~= earlier.take(upto));
                } else {
                    assert(between.take(upto) =~= between);
                }
            }
        }
    }
}

/// A client that connects within the grace interval cancels the pending
/// shutdown, whether or not it is still connected at the end of the
/// interval: the check that follows does not ask for termination.
pub proof fn lemma_arrival_cancels_shutdown(
    state: BrokerModel,
    between: Seq<BrokerEvent>,
    at: int,
)
    requires
        state.wf(),
        no_tick(between),
        registers_at(state, between, at),
    ensures
        state.tick().run(between).action(BrokerEvent::Tick) != BrokerAction::Terminate,
{
    if state.tick().run(between).action(BrokerEvent::Tick) == BrokerAction::Terminate {
        lemma_terminate_means_idle_interval(state, between);
    }
}

/// A connection that comes and goes between two checks calls the shutdown
/// off as well: the relay waits for another whole interval.
pub proof fn lemma_short_visit_cancels_shutdown(state: BrokerModel)
    requires
        state.wf(),
        state.can_accept(),
    ensures
        state.tick().accept().action(BrokerEvent::Tick) == BrokerAction::KeepRunning,
        state.tick().accept().close(state.fresh()).action(BrokerEvent::Tick)
            != BrokerAction::Terminate,
{
    lemma_accept_registers(state.tick(), state.fresh());
    lemma_close_deregisters(state.tick().accept(), state.fresh(), state.fresh());
}

/// The relay processes that run on one host, in the order in which they
/// started. One thing is taken from the operating system: it lets nobody
/// listen under a name under which somebody listens already.
pub struct HostModel {
    pub running: Seq<GroupAddress>,
}

impl HostModel {
    /// Whether a relay listens under `name`.
    pub open spec fn listens(self, name: Seq<char>) -> bool {
        exists|i: int| 0 <= i < self.running.len() && channel_name(#[trigger] self.running[i]) == name
    }

    /// A relay for `address` is spawned. It runs if it gets its channel, and
    /// gives up at once if the name is taken.
    pub open spec fn spawn(self, address: GroupAddress) -> HostModel {
        if self.listens(channel_name(address)) {
            self
        } else {
            HostModel { running: self.running.push(address) }
        }
    }

    /// The host after relays were spawned for these addresses, one after the
    /// other.
    pub open spec fn spawn_all(self, addresses: Seq<GroupAddress>) -> HostModel
        decreases addresses.len(),
    {
        if addresses.len() == 0 {
            self
        } else {
            self.spawn_all(addresses.drop_last()).spawn(addresses.last())
        }
    }

    /// No group has two relays.
    pub open spec fn wf(self) -> bool {
        self.running.no_duplicates()
    }
}

/// However many clients have a relay spawned for the same group, and in
/// whatever order with the clients of other groups, each group for which a
/// relay was spawned has exactly one relay afterwards, and the relays that
/// ran before still run.
pub proof fn lemma_one_relay_per_group(host: HostModel, spawned: Seq<GroupAddress>)
    requires
        host.wf(),
    ensures
        host.spawn_all(spawned).wf(),
        forall|i: int|
            0 <= i < spawned.len() ==> host.spawn_all(spawned).running.contains(
                #[trigger] spawned[i],
            ),
        forall|i: int|
            0 <= i < host.running.len() ==> host.spawn_all(spawned).running.contains(
                #[trigger] host.running[i],
            ),
    decreases spawned.len(),
{
    if spawned.len() > 0 {
        let earlier = spawned.drop_last();
        let address = spawned.last();
        lemma_one_relay_per_group(host, earlier);
        let before = host.spawn_all(earlier);
        let after = before.spawn(address);
        lemma_spawn_keeps_one_relay(before, address);
        assert forall|i: int| 0 <= i < spawned.len() implies after.running.contains(
            #[trigger] spawned[i],
        ) by {
            if i < earlier.len() {
                assert(spawned[i] == earlier[i]);
                assert(before.running.contains(earlier[i]));
            }
        }
        assert forall|i: int| 0 <= i < host.running.len() implies after.running.contains(
            #[trigger] host.running[i],
        ) by {
            assert(before.running.contains(host.running[i]));
        }
    }
}

/// Spawning a relay for a group leaves the group with exactly one relay, and
/// every other group with the relay it had.
pub proof fn lemma_spawn_keeps_one_relay(host: HostModel, address: GroupAddress)
    requires
        host.wf(),
    ensures
        host.spawn(address).wf(),
        host.spawn(address).running.contains(address),
        host.running.contains(address) ==> host.spawn(address) == host,
        forall|other: GroupAddress|
            host.running.contains(other) ==> #[trigger] host.spawn(address).running.contains(
                other,
            ),
{
    let name = channel_name(address);
    let after = host.spawn(address);
    if host.listens(name) {
        let i = choose|i: int|
            0 <= i < host.running.len() && channel_name(#[trigger] host.running[i]) == name;
        lemma_one_channel_per_group(host.running[i], address);
        assert(host.running[i] == address);
    } else {
        if host.running.contains(address) {
            let k = choose|k: int| 0 <= k < host.running.len() && host.running[k] == address;
            assert(channel_name(host.running[k]) == name);
            assert(false);
        }
        assert(after.running[host.running.len() as int] == address);
        assert forall|i: int, j: int|
            0 <= i < after.running.len() && 0 <= j < after.running.len() && i != j implies after.running[i]
            != after.running[j] by {
            if i < host.running.len() {
                assert(after.running[i] == host.running[i]);
            }
            if j < host.running.len() {
                assert(after.running[j] == host.running[j]);
            }
        }
        assert forall|other: GroupAddress| host.running.contains(other) implies after.running.contains(
            other,
        ) by {
            let k = choose|k: int| 0 <= k < host.running.len() && host.running[k] == other;
            assert(after.running[k] == other);
        }
    }
}

} // verus!
