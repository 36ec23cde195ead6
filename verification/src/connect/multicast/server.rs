//! A session with a multicast group.

use vstd::prelude::*;

use crate::address::GroupAddress;
use crate::connect::multicast::communicator::Communicator;
use crate::connect::multicast::join::JoinError;
use crate::connect::multicast::message::{EncodingOverflow, Message, MulticastMessage};

verus! {

/// `tokio::sync::mpsc::Sender`, the sending end of a bounded channel. A
/// session keeps one to hand on the messages it receives; nothing is known
/// or asked of what is inside.
#[verifier::external_type_specification]
#[verifier::external_body]
#[verifier::reject_recursive_types(T)]
pub struct ExSender<T>(tokio::sync::mpsc::Sender<T>);

/// The length of the buffer in which a session encodes its messages.
pub const BUFFER_LEN: usize = 4096;

/// Why a message was not sent.
#[derive(Debug)]
pub enum SendError {
    /// The message does not fit the session's buffer. Nothing was handed to
    /// the communicator.
    Encoding(EncodingOverflow),
    /// The communicator reported a failure.
    Transport(std::io::Error),
}

/// What `send` returns, given what the communicator returned for the
/// encoded message: its failure is passed on, and any number of bytes sent
/// counts as success.
pub open spec fn transport_outcome(transport: Result<usize, std::io::Error>) -> Result<
    (),
    SendError,
> {
    match transport {
        Ok(_) => Ok(()),
        Err(error) => Err(SendError::Transport(error)),
    }
}

/// Handles communication with the multicast group of one session.
#[verifier::reject_recursive_types(M)]
pub struct MulticastServer<M: Message, C: Communicator> {
    communicator: C,
    buf: [u8; 4096],
    sender: tokio::sync::mpsc::Sender<M>,
}

impl<M: Message, C: Communicator> MulticastServer<M, C> {
    /// The session's buffer.
    pub closed spec fn buffer(&self) -> Seq<u8> {
        self.buf@
    }

    /// The communicator through which the session sends.
    pub closed spec fn spec_communicator(&self) -> C {
        self.communicator
    }

    /// The channel on which the session hands on what it receives.
    pub closed spec fn spec_sink(&self) -> tokio::sync::mpsc::Sender<M> {
        self.sender
    }

    /// What became of a send, once the communicator has returned.
    pub fn finish_send(transport: Result<usize, std::io::Error>) -> (sent: Result<(), SendError>)
        ensures
            sent == transport_outcome(transport),
    {
        match transport {
            Ok(_) => Ok(()),
            Err(error) => Err(SendError::Transport(error)),
        }
    }

    /// Encodes `msg` into the session's buffer and hands the encoding to the
    /// communicator.
    ///
    /// A message that does not fit the buffer gives `SendError::Encoding`; the
    /// buffer and the communicator are then as they were. Otherwise the front
    /// of the buffer holds the encoding, and the result is whatever the
    /// communicator made of it: success, or `SendError::Transport`.
    pub fn send(&mut self, msg: M) -> (sent: Result<(), SendError>)
        ensures
            final(self).spec_sink() == old(self).spec_sink(),
            msg.wire().len() > BUFFER_LEN ==> sent == Err::<(), SendError>(
                SendError::Encoding(
                    EncodingOverflow { required: msg.wire().len() as usize, available: BUFFER_LEN },
                ),
            ) && final(self).buffer() == old(self).buffer() && final(self).spec_communicator()
                == old(self).spec_communicator(),
            msg.wire().len() <= BUFFER_LEN ==> final(self).buffer() == msg.wire() + old(
                self,
            ).buffer().skip(msg.wire().len() as int) && (sent is Ok || (sent is Err
                && sent->Err_0 is Transport)),
    {
        match Self::encode(&mut self.buf, &msg) {
            Err(overflow) => Err(SendError::Encoding(overflow)),
            Ok(len) => {
                let (encoded, _) = self.buf.as_slice().split_at(len);
                let transport = self.communicator.communicate(encoded);
                Self::finish_send(transport)
            },
        }
    }

    /// Writes the encoding of `msg` to the front of `buf` and returns its
    /// length. A buffer that is too short is left untouched.
    pub fn encode(buf: &mut [u8], msg: &M) -> (written: Result<usize, EncodingOverflow>)
        ensures
            msg.wire().len() <= old(buf)@.len() ==> written == Ok::<usize, EncodingOverflow>(
                msg.wire().len() as usize,
            ) && final(buf)@ == msg.wire() + old(buf)@.skip(msg.wire().len() as int),
            msg.wire().len() > old(buf)@.len() ==> written == Err::<usize, EncodingOverflow>(
                EncodingOverflow {
                    required: msg.wire().len() as usize,
                    available: old(buf)@.len() as usize,
                },
            ) && final(buf)@ == old(buf)@,
    {
        msg.encode_into(buf)
    }

    /// Joins the group at `address`: obtains a communicator for it and sends
    /// the announcement through it, before anything else.
    ///
    /// If no communicator can be had, its error is returned. If the
    /// announcement cannot be sent, the session is given up and the error is
    /// `JoinError::Announce`. Otherwise the session holds `msg_sender`, and
    /// its buffer starts with the encoded announcement.
    pub fn join(address: GroupAddress, msg_sender: tokio::sync::mpsc::Sender<M>) -> (joined: Result<
        Self,
        JoinError,
    >)
        ensures
            M::spec_join().wire().len() > BUFFER_LEN ==> joined is Err,
            joined matches Ok(server) ==> M::spec_join().wire().len() <= BUFFER_LEN
                && server.spec_sink() == msg_sender && server.buffer() == M::spec_join().wire()
                + Seq::new((BUFFER_LEN - M::spec_join().wire().len()) as nat, |i: int| 0u8),
    {
        Self::join_with(C::try_from_socket_addr(address), msg_sender)
    }

    /// Goes on with a join once the attempt to obtain a communicator has
    /// returned.
    ///
    /// If none could be had, the error is handed on as it came: nothing is
    /// sent and no session comes to be. Otherwise the announcement is sent
    /// through the communicator, before anything else. An announcement that
    /// does not fit the buffer gives `JoinError::Announce` with the encoding
    /// error; one that the communicator refuses gives it with the transport
    /// error. A session that is returned holds `msg_sender`, and its buffer
    /// starts with the encoded announcement.
    pub fn join_with(
        constructed: Result<C, JoinError>,
        msg_sender: tokio::sync::mpsc::Sender<M>,
    ) -> (joined: Result<Self, JoinError>)
        ensures
            constructed matches Err(error) ==> joined == Err::<Self, JoinError>(error),
            constructed is Ok && M::spec_join().wire().len() > BUFFER_LEN ==> joined == Err::<
                Self,
                JoinError,
            >(
                JoinError::Announce(
                    SendError::Encoding(
                        EncodingOverflow {
                            required: M::spec_join().wire().len() as usize,
                            available: BUFFER_LEN,
                        },
                    ),
                ),
            ),
            constructed is Ok && M::spec_join().wire().len() <= BUFFER_LEN ==> joined is Ok || (
            joined is Err && joined->Err_0 is Announce && joined->Err_0->Announce_0 is Transport),
            joined matches Ok(server) ==> constructed is Ok && M::spec_join().wire().len()
                <= BUFFER_LEN && server.spec_sink() == msg_sender && server.buffer()
                == M::spec_join().wire() + Seq::new(
                (BUFFER_LEN - M::spec_join().wire().len()) as nat,
                |i: int| 0u8,
            ),
    {
        let communicator = match constructed {
            Ok(communicator) => communicator,
            Err(error) => {
                return Err(error);
            },
        };
        let mut server = MulticastServer { communicator, buf: [0u8; 4096], sender: msg_sender };
        let announcement = M::join();
        let announced = server.send(announcement);
        proof {
            if announced is Ok {
                assert(server.buffer() =~= M::spec_join().wire() + Seq::new(
                    (BUFFER_LEN - M::spec_join().wire().len()) as nat,
                    |i: int| 0u8,
                ));
            }
        }
        Self::finish_join(server, announced)
    }

    /// What became of a join, once the announcement has been sent or not:
    /// the session if it was, and `JoinError::Announce` with the reason if
    /// it was not.
    pub fn finish_join(server: Self, announced: Result<(), SendError>) -> (joined: Result<
        Self,
        JoinError,
    >)
        ensures
            joined == match announced {
                Ok(_) => Ok::<Self, JoinError>(server),
                Err(error) => Err::<Self, JoinError>(JoinError::Announce(error)),
            },
    {
        match announced {
            Ok(()) => Ok(server),
            Err(error) => Err(JoinError::Announce(error)),
        }
    }

    /// The communicator through which the session sends.
    pub fn communicator(&self) -> (communicator: &C)
        ensures
            *communicator == self.spec_communicator(),
    {
        &self.communicator
    }

    /// The channel on which the session hands on what it receives.
    pub fn sink(&self) -> (sink: &tokio::sync::mpsc::Sender<M>)
        ensures
            *sink == self.spec_sink(),
    {
        &self.sender
    }
}

/// Every control message fits the buffer of a session, so sending one never
/// fails for want of room.
pub proof fn lemma_control_message_fits(message: MulticastMessage)
    ensures
        message.wire().len() <= BUFFER_LEN,
{
}

} // verus!
