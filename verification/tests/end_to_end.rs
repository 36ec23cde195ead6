use chat_async::address::{GroupAddress, Ipv4};
use chat_async::connect::multicast::communicator::ipc::broker::{
    classify_read, Broker, BrokerAction, BrokerEvent, Startup,
};
use chat_async::connect::multicast::communicator::ipc::{
    ClientAction, ClientEvent, ClientPhase, RelayClient,
};
use chat_async::connect::multicast::message::{Message, MulticastMessage};
use std::collections::HashMap;

/// A host in miniature: the relays that listen, by the name of their channel.
/// A relay needs a few attempts of its clients before it accepts.
struct Host {
    relays: HashMap<String, Broker>,
    spawned: usize,
    not_ready_for: usize,
}

impl Host {
    fn new(not_ready_for: usize) -> Host {
        Host { relays: HashMap::new(), spawned: 0, not_ready_for }
    }

    /// Spawns a relay: it runs only if it gets the name of its channel.
    fn spawn(&mut self, address: GroupAddress) {
        self.spawned += 1;
        let startup = Startup::new(address);
        let name = startup.channel();
        let opened = if self.relays.contains_key(&name) {
            Err(std::io::Error::new(std::io::ErrorKind::AddrInUse, "name is taken"))
        } else {
            Ok(())
        };
        if let Ok((listening, _plan)) = startup.channel_opened(opened) {
            self.relays.insert(name, listening.group_joined(Ok(())).unwrap());
        }
    }

    /// One attempt to connect: the identifier of the connection if a relay
    /// listens under the name and is ready.
    fn connect(&mut self, name: &str) -> Option<u64> {
        let relay = self.relays.get_mut(name)?;
        if self.not_ready_for > 0 {
            self.not_ready_for -= 1;
            return None;
        }
        match relay.handle(BrokerEvent::Accepted) {
            BrokerAction::Register(id) => Some(id),
            _ => None,
        }
    }

    /// Drives a client until it has come to rest; returns the connection
    /// and the number of attempts it took.
    fn connect_client(&mut self, address: GroupAddress) -> (Option<u64>, usize) {
        let mut client = RelayClient::new(address);
        let mut connection = None;
        let mut attempts = 0;
        loop {
            match client.pending() {
                ClientAction::Connect => {
                    attempts += 1;
                    connection = self.connect(&client.channel());
                    let event = if connection.is_some() {
                        ClientEvent::Connected
                    } else {
                        ClientEvent::ConnectFailed
                    };
                    client.handle(event);
                }
                ClientAction::SpawnBroker => {
                    self.spawn(address);
                    client.handle(ClientEvent::Spawned);
                }
                ClientAction::Done => {
                    assert_eq!(client.phase(), ClientPhase::Connected);
                    return (connection, attempts);
                }
                ClientAction::Fail(_) => return (None, attempts),
            }
        }
    }
}

fn fresh_group() -> GroupAddress {
    GroupAddress::new(Ipv4::new(224, 0, 0, 123), 4983)
}

#[test]
fn join_with_no_broker_running_spawns_one_and_is_accepted() {
    let mut host = Host::new(3);
    let (connection, attempts) = host.connect_client(fresh_group());
    let connection = connection.unwrap();
    assert_eq!(host.spawned, 1);
    // The first attempt, three while the relay was not ready, and the one that got through.
    assert_eq!(attempts, 5);

    // The session announces itself, and the relay takes the announcement.
    let mut buf = [0u8; 4096];
    let written = <MulticastMessage as Message>::join().encode_into(&mut buf).unwrap();
    let relay = host.relays.get_mut("multicast_communicator:224.0.0.123:4983.sock").unwrap();
    let read: Result<usize, std::io::Error> = Ok(written);
    assert_eq!(
        relay.handle(BrokerEvent::Read(connection, classify_read(&read))),
        BrokerAction::Record(connection, 1)
    );
    assert_eq!(MulticastMessage::decode(&buf[..written]), Ok(MulticastMessage::Join));
    assert_eq!(relay.connections(), 1);
}

#[test]
fn two_clients_of_one_group_end_up_with_one_broker() {
    let mut host = Host::new(0);
    // Both clients find no relay and both have one spawned: only the first gets the name.
    host.spawn(fresh_group());
    host.spawn(fresh_group());
    assert_eq!(host.spawned, 2);
    assert_eq!(host.relays.len(), 1);
    let (first, _) = host.connect_client(fresh_group());
    let (second, _) = host.connect_client(fresh_group());
    assert_eq!(first, Some(0));
    assert_eq!(second, Some(1));
    assert_eq!(host.spawned, 2);
    let relay = host.relays.get("multicast_communicator:224.0.0.123:4983.sock").unwrap();
    assert_eq!(relay.connections(), 2);
}

#[test]
fn groups_that_differ_in_the_port_get_relays_of_their_own() {
    let mut host = Host::new(0);
    let other = GroupAddress::new(Ipv4::new(224, 0, 0, 123), 4984);
    assert_eq!(host.connect_client(fresh_group()).0, Some(0));
    assert_eq!(host.connect_client(other).0, Some(0));
    assert_eq!(host.spawned, 2);
    assert_eq!(host.relays.len(), 2);
}

#[test]
fn an_idle_broker_shuts_down_and_the_next_client_spawns_a_new_one() {
    let mut host = Host::new(0);
    let (connection, _) = host.connect_client(fresh_group());
    let name = "multicast_communicator:224.0.0.123:4983.sock";
    {
        let relay = host.relays.get_mut(name).unwrap();
        assert_eq!(relay.handle(BrokerEvent::Tick), BrokerAction::KeepRunning);
        let closed: Result<usize, std::io::Error> = Ok(0);
        assert_eq!(
            relay.handle(BrokerEvent::Read(connection.unwrap(), classify_read(&closed))),
            BrokerAction::Deregister(0)
        );
        assert_eq!(relay.handle(BrokerEvent::Tick), BrokerAction::AwaitGrace);
        assert_eq!(relay.handle(BrokerEvent::Tick), BrokerAction::Terminate);
    }
    host.relays.remove(name);
    assert_eq!(host.connect_client(fresh_group()).0, Some(0));
    assert_eq!(host.spawned, 2);
}
