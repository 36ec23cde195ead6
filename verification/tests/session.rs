use chat_async::address::{GroupAddress, Ipv4};
use chat_async::connect::multicast::communicator::error::CommunicatorProcessError;
use chat_async::connect::multicast::communicator::ipc::ConnectError;
use chat_async::connect::multicast::communicator::{
    acknowledge, AsyncTryFromSocketAddr, Communicator,
};
use chat_async::connect::multicast::join::{connect_to_multicast, JoinError, JoinPlan};
use chat_async::connect::multicast::message::{EncodingOverflow, Message, MulticastMessage};
use chat_async::connect::multicast::server::{MulticastServer, SendError, BUFFER_LEN};

/// Records what it is asked to send. One made for port 1 fails every send.
struct Recorder {
    sent: Vec<Vec<u8>>,
    fail: bool,
}

const FAILING_PORT: u16 = 1;

impl AsyncTryFromSocketAddr for Recorder {
    fn try_from_socket_addr(addr: GroupAddress) -> Result<Self, JoinError> {
        connect_to_multicast(addr)?;
        Ok(Recorder { sent: Vec::new(), fail: addr.port() == FAILING_PORT })
    }
}

impl Communicator for Recorder {
    fn communicate(&mut self, bytes: &[u8]) -> Result<usize, std::io::Error> {
        if self.fail {
            return Err(std::io::Error::new(std::io::ErrorKind::BrokenPipe, "pipe is broken"));
        }
        self.sent.push(bytes.to_vec());
        Ok(bytes.len())
    }
}

/// Refuses every address, as a client does that cannot reach its relay.
struct Unreachable;

impl AsyncTryFromSocketAddr for Unreachable {
    fn try_from_socket_addr(_addr: GroupAddress) -> Result<Self, JoinError> {
        Err(JoinError::Connect(ConnectError::Timeout))
    }
}

impl Communicator for Unreachable {
    fn communicate(&mut self, bytes: &[u8]) -> Result<usize, std::io::Error> {
        acknowledge(bytes)
    }
}

fn group() -> GroupAddress {
    GroupAddress::new(Ipv4::new(224, 0, 0, 123), 4983)
}

#[test]
fn connect_to_multicast_test() {
    assert!(connect_to_multicast(chat_async::multicast_address()).is_ok())
}

#[test]
fn plan_binds_the_wildcard_and_joins_on_the_wildcard_interface() {
    assert_eq!(
        connect_to_multicast(group()).unwrap(),
        JoinPlan {
            bind_ip: Ipv4::new(0, 0, 0, 0),
            bind_port: 4983,
            group: Ipv4::new(224, 0, 0, 123),
            interface: Ipv4::new(0, 0, 0, 0),
        }
    );
}

#[test]
fn every_multicast_address_gets_a_plan_and_no_other() {
    for first in 0..=255u8 {
        let address = GroupAddress::new(Ipv4::new(first, 1, 2, 3), 4000);
        let plan = connect_to_multicast(address);
        if (224..=239).contains(&first) {
            let plan = plan.unwrap();
            assert_eq!(plan.group, address.ip());
            assert_eq!(plan.bind_port, 4000);
        } else {
            assert!(matches!(plan, Err(JoinError::NotMulticast)));
        }
    }
}

#[test]
fn an_os_error_becomes_a_join_error() {
    let error = JoinError::from(std::io::Error::new(std::io::ErrorKind::AddrInUse, "in use"));
    assert!(matches!(error, JoinError::Os(inner) if inner.kind() == std::io::ErrorKind::AddrInUse));
}

#[test]
fn join_sends_the_announcement_first() {
    let (sender, _receiver) = tokio::sync::mpsc::channel::<MulticastMessage>(8);
    let server = MulticastServer::<MulticastMessage, Recorder>::join(group(), sender).unwrap();
    assert_eq!(server.communicator().sent, vec![vec![0x01u8]]);
    assert_eq!(server.sink().max_capacity(), 8);
}

#[test]
fn send_hands_the_encoding_to_the_communicator() {
    let (sender, _receiver) = tokio::sync::mpsc::channel::<MulticastMessage>(8);
    let mut server = MulticastServer::<MulticastMessage, Recorder>::join(group(), sender).unwrap();
    server.send(MulticastMessage::NewServer { port: 8080 }).unwrap();
    server.send(MulticastMessage::CloseServer { port: 8080 }).unwrap();
    server.send(MulticastMessage::Join).unwrap();
    assert_eq!(
        server.communicator().sent,
        vec![vec![0x01u8], vec![0x02, 0x1F, 0x90], vec![0x03, 0x1F, 0x90], vec![0x01]]
    );
}

#[test]
fn join_fails_for_an_address_that_is_not_multicast() {
    let (sender, _receiver) = tokio::sync::mpsc::channel::<MulticastMessage>(8);
    let unicast = GroupAddress::new(Ipv4::new(10, 0, 0, 1), 4983);
    let joined = MulticastServer::<MulticastMessage, Recorder>::join(unicast, sender);
    assert!(matches!(joined, Err(JoinError::NotMulticast)));
}

#[test]
fn join_fails_as_a_whole_when_the_announcement_cannot_be_sent() {
    let (sender, _receiver) = tokio::sync::mpsc::channel::<MulticastMessage>(8);
    let failing = GroupAddress::new(Ipv4::new(224, 0, 0, 123), FAILING_PORT);
    let joined = MulticastServer::<MulticastMessage, Recorder>::join(failing, sender);
    assert!(matches!(joined, Err(JoinError::Announce(SendError::Transport(_)))));
}

#[test]
fn a_construction_error_is_handed_on_and_nothing_is_sent() {
    type Server = MulticastServer<MulticastMessage, Recorder>;
    let (sender, mut receiver) = tokio::sync::mpsc::channel::<MulticastMessage>(8);
    let refused = std::io::Error::new(std::io::ErrorKind::AddrInUse, "port is taken");
    match Server::join_with(Err(JoinError::Os(refused)), sender) {
        Err(JoinError::Os(error)) => assert_eq!(error.kind(), std::io::ErrorKind::AddrInUse),
        _ => panic!("the error of the construction comes back as it was"),
    }
    assert!(receiver.try_recv().is_err());
    let (sender, _receiver) = tokio::sync::mpsc::channel::<MulticastMessage>(8);
    assert!(matches!(
        Server::join_with(Err(JoinError::NotMulticast), sender),
        Err(JoinError::NotMulticast)
    ));
    let (sender, _receiver) = tokio::sync::mpsc::channel::<MulticastMessage>(8);
    assert!(matches!(
        Server::join_with(Err(JoinError::Connect(ConnectError::SpawnFailed)), sender),
        Err(JoinError::Connect(ConnectError::SpawnFailed))
    ));
}

#[test]
fn a_communicator_that_stands_gets_the_announcement() {
    type Server = MulticastServer<MulticastMessage, Recorder>;
    let (sender, _receiver) = tokio::sync::mpsc::channel::<MulticastMessage>(4);
    let server = Server::join_with(Ok(Recorder { sent: Vec::new(), fail: false }), sender).unwrap();
    assert_eq!(server.communicator().sent, vec![vec![0x01u8]]);
    assert_eq!(server.sink().max_capacity(), 4);
    let (sender, _receiver) = tokio::sync::mpsc::channel::<MulticastMessage>(4);
    assert!(matches!(
        Server::join_with(Ok(Recorder { sent: Vec::new(), fail: true }), sender),
        Err(JoinError::Announce(SendError::Transport(_)))
    ));
}

#[test]
fn join_passes_on_that_the_relay_was_not_reached() {
    let (sender, _receiver) = tokio::sync::mpsc::channel::<MulticastMessage>(8);
    let joined = MulticastServer::<MulticastMessage, Unreachable>::join(group(), sender);
    assert!(matches!(joined, Err(JoinError::Connect(ConnectError::Timeout))));
}

#[test]
fn the_buffer_holds_every_message() {
    assert_eq!(BUFFER_LEN, 4096);
    let mut buf = [0u8; 4096];
    for message in [
        MulticastMessage::Join,
        MulticastMessage::NewServer { port: 65535 },
        MulticastMessage::CloseServer { port: 65535 },
    ] {
        assert!(message.encode_into(&mut buf).is_ok());
    }
}

#[test]
fn a_failed_send_leaves_the_session_usable() {
    let (sender, _receiver) = tokio::sync::mpsc::channel::<MulticastMessage>(8);
    let mut server = MulticastServer::<MulticastMessage, Recorder>::join(group(), sender).unwrap();
    assert!(server.send(MulticastMessage::NewServer { port: 1 }).is_ok());
    assert_eq!(server.communicator().sent.len(), 2);
    assert_eq!(server.communicator().sent[1], vec![0x02, 0x00, 0x01]);
}

#[test]
fn transport_results_are_told_apart_from_encoding() {
    type Server = MulticastServer<MulticastMessage, Recorder>;
    assert!(Server::finish_send(Ok(0)).is_ok());
    assert!(Server::finish_send(Ok(3)).is_ok());
    let broken = std::io::Error::new(std::io::ErrorKind::BrokenPipe, "pipe is broken");
    match Server::finish_send(Err(broken)) {
        Err(SendError::Transport(error)) => {
            assert_eq!(error.kind(), std::io::ErrorKind::BrokenPipe)
        }
        _ => panic!("a transport failure is passed on"),
    }
}

#[test]
fn the_session_encodes_into_a_given_buffer() {
    type Server = MulticastServer<MulticastMessage, Recorder>;
    let mut buf = [0u8; 4];
    assert_eq!(Server::encode(&mut buf, &MulticastMessage::NewServer { port: 8080 }), Ok(3));
    assert_eq!(buf, [0x02, 0x1F, 0x90, 0x00]);
    let mut short = [1u8; 2];
    assert_eq!(
        Server::encode(&mut short, &MulticastMessage::NewServer { port: 8080 }),
        Err(EncodingOverflow { required: 3, available: 2 })
    );
    assert_eq!(short, [1, 1]);
}

#[test]
fn a_relay_client_acknowledges_without_sending() {
    assert_eq!(acknowledge(&[1, 2, 3]).unwrap(), 0);
    assert_eq!(acknowledge(&[]).unwrap(), 0);
}

#[test]
fn process_errors_keep_the_text_of_their_cause() {
    let error = CommunicatorProcessError::new("address in use".to_string());
    assert_eq!(error.message(), "address in use");
    assert_eq!(error.to_string(), "CommunicatorProcessError: address in use");
    let from_os = CommunicatorProcessError::from(std::io::Error::new(
        std::io::ErrorKind::AddrInUse,
        "listener exists",
    ));
    assert_eq!(from_os.message(), "listener exists");
    let from_channel =
        CommunicatorProcessError::from(tokio::sync::mpsc::error::TryRecvError::Empty);
    assert_eq!(from_channel.message(), "receiving on an empty channel");
    let closed =
        CommunicatorProcessError::from(tokio::sync::mpsc::error::TryRecvError::Disconnected);
    assert_eq!(closed.message(), "receiving on a closed channel");
    assert_eq!(CommunicatorProcessError::new(String::new()).to_string(), "CommunicatorProcessError: ");
}
