//! The control messages and their wire format.
//!
//! A record is one tag byte, followed for the two server messages by the
//! port, most significant byte first:
//!
//! | message       | bytes                  |
//! |---------------|------------------------|
//! | `Join`        | `01`                   |
//! | `NewServer`   | `02`, port high, low   |
//! | `CloseServer` | `03`, port high, low   |

use vstd::prelude::*;

verus! {

pub const TAG_JOIN: u8 = 1;

pub const TAG_NEW_SERVER: u8 = 2;

pub const TAG_CLOSE_SERVER: u8 = 3;

/// What the processes of a group tell each other.
#[derive(Clone, Copy, Debug, PartialEq, Eq, Structural)]
pub enum MulticastMessage {
    /// A process announces itself.
    Join,
    /// A chat server has opened on this port.
    NewServer { port: u16 },
    /// The chat server on this port has closed.
    CloseServer { port: u16 },
}

/// The message needs more room than the buffer has. Nothing was written.
#[derive(Clone, Copy, Debug, PartialEq, Eq, Structural)]
pub struct EncodingOverflow {
    /// The length of the encoded message.
    pub required: usize,
    /// The length of the buffer.
    pub available: usize,
}

/// Why bytes are not the encoding of a message.
#[derive(Clone, Copy, Debug, PartialEq, Eq, Structural)]
pub enum DecodingError {
    /// The input ends before the record does.
    Truncated,
    /// The first byte is not the tag of any message.
    UnknownTag(u8),
    /// The input goes on after the end of the record.
    TrailingBytes,
}

/// The two bytes of a port, most significant first.
pub open spec fn port_bytes(port: u16) -> Seq<u8> {
    seq![(port / 256) as u8, (port % 256) as u8]
}

/// The port whose bytes are `high` and `low`.
pub open spec fn port_from_bytes(high: u8, low: u8) -> u16 {
    (high * 256 + low) as u16
}

/// The number of bytes that follow a tag; `None` for a byte that is no tag.
pub open spec fn payload_len(tag: u8) -> Option<nat> {
    if tag == TAG_JOIN {
        Some(0)
    } else if tag == TAG_NEW_SERVER || tag == TAG_CLOSE_SERVER {
        Some(2)
    } else {
        None
    }
}

impl MulticastMessage {
    pub open spec fn tag(self) -> u8 {
        match self {
            MulticastMessage::Join => TAG_JOIN,
            MulticastMessage::NewServer { .. } => TAG_NEW_SERVER,
            MulticastMessage::CloseServer { .. } => TAG_CLOSE_SERVER,
        }
    }

    /// The encoding of a message: its tag, then its port if it has one.
    pub open spec fn encoding(self) -> Seq<u8> {
        match self {
            MulticastMessage::Join => seq![TAG_JOIN],
            MulticastMessage::NewServer { port } => seq![TAG_NEW_SERVER] + port_bytes(port),
            MulticastMessage::CloseServer { port } => seq![TAG_CLOSE_SERVER] + port_bytes(port),
        }
    }

    /// The message that `bytes` encode, or why they encode none. The tag is
    /// looked at first, then the length.
    pub open spec fn decoding(bytes: Seq<u8>) -> Result<MulticastMessage, DecodingError> {
        if bytes.len() == 0 {
            Err(DecodingError::Truncated)
        } else {
            match payload_len(bytes[0]) {
                None => Err(DecodingError::UnknownTag(bytes[0])),
                Some(n) => if bytes.len() < 1 + n {
                    Err(DecodingError::Truncated)
                } else if bytes.len() > 1 + n {
                    Err(DecodingError::TrailingBytes)
                } else if bytes[0] == TAG_JOIN {
                    Ok(MulticastMessage::Join)
                } else if bytes[0] == TAG_NEW_SERVER {
                    Ok(MulticastMessage::NewServer { port: port_from_bytes(bytes[1], bytes[2]) })
                } else {
                    Ok(MulticastMessage::CloseServer { port: port_from_bytes(bytes[1], bytes[2]) })
                },
            }
        }
    }
}

/// A value that can be sent to a multicast group.
pub trait Message: Sized {
    /// The bytes that stand for the message on the wire. They depend on the
    /// message alone.
    spec fn wire(&self) -> Seq<u8>;

    /// What `bytes` decode to.
    spec fn parse(bytes: Seq<u8>) -> Result<Self, DecodingError>;

    /// Decoding undoes encoding.
    proof fn lemma_parse_wire(&self)
        ensures
            Self::parse(self.wire()) == Ok::<Self, DecodingError>(*self),
    ;

    /// The message by which a process announces itself to a group.
    spec fn spec_join() -> Self;

    /// The message by which a process announces itself to a group.
    fn join() -> (message: Self)
        ensures
            message == Self::spec_join(),
    ;

    /// Writes the encoding of the message to the front of `buf` and returns
    /// its length. The bytes behind it stay as they were. A buffer that is too
    /// short is left untouched.
    fn encode_into(&self, buf: &mut [u8]) -> (written: Result<usize, EncodingOverflow>)
        ensures
            self.wire().len() <= old(buf)@.len() ==> written == Ok::<usize, EncodingOverflow>(
                self.wire().len() as usize,
            ) && final(buf)@ == self.wire() + old(buf)@.skip(self.wire().len() as int),
            self.wire().len() > old(buf)@.len() ==> written is Err && written->Err_0.available
                == old(buf)@.len() && written->Err_0.required == self.wire().len() && final(buf)@
                == old(buf)@,
    ;

    /// Reads one message from `bytes`, which must hold it and nothing else.
    fn decode(bytes: &[u8]) -> (message: Result<Self, DecodingError>)
        ensures
            message == Self::parse(bytes@),
    ;
}

impl Message for MulticastMessage {
    open spec fn wire(&self) -> Seq<u8> {
        self.encoding()
    }

    open spec fn parse(bytes: Seq<u8>) -> Result<Self, DecodingError> {
        MulticastMessage::decoding(bytes)
    }

    proof fn lemma_parse_wire(&self) {
        lemma_round_trip(*self);
    }

    open spec fn spec_join() -> Self {
        MulticastMessage::Join
    }

    fn join() -> (message: Self) {
        MulticastMessage::Join
    }

    fn encode_into(&self, buf: &mut [u8]) -> (written: Result<usize, EncodingOverflow>) {
        let available = buf.len();
        match *self {
            MulticastMessage::Join => {
                if available < 1 {
                    return Err(EncodingOverflow { required: 1, available });
                }
                buf[0] = TAG_JOIN;
                assert(buf@ =~= self.wire() + old(buf)@.skip(1));
                Ok(1)
            },
            MulticastMessage::NewServer { port } => {
                if available < 3 {
                    return Err(EncodingOverflow { required: 3, available });
                }
                buf[0] = TAG_NEW_SERVER;
                buf[1] = (port / 256) as u8;
                buf[2] = (port % 256) as u8;
                assert(buf@ =~= self.wire() + old(buf)@.skip(3));
                Ok(3)
            },
            MulticastMessage::CloseServer { port } => {
                if available < 3 {
                    return Err(EncodingOverflow { required: 3, available });
                }
                buf[0] = TAG_CLOSE_SERVER;
                buf[1] = (port / 256) as u8;
                buf[2] = (port % 256) as u8;
                assert(buf@ =~= self.wire() + old(buf)@.skip(3));
                Ok(3)
            },
        }
    }

    fn decode(bytes: &[u8]) -> (message: Result<Self, DecodingError>) {
        if bytes.len() == 0 {
            return Err(DecodingError::Truncated);
        }
        let tag = bytes[0];
        if tag == TAG_JOIN {
            if bytes.len() > 1 {
                Err(DecodingError::TrailingBytes)
            } else {
                Ok(MulticastMessage::Join)
            }
        } else if tag == TAG_NEW_SERVER || tag == TAG_CLOSE_SERVER {
            if bytes.len() < 3 {
                Err(DecodingError::Truncated)
            } else if bytes.len() > 3 {
                Err(DecodingError::TrailingBytes)
            } else {
                let port: u16 = (bytes[1] as u16) * 256 + (bytes[2] as u16);
                if tag == TAG_NEW_SERVER {
                    Ok(MulticastMessage::NewServer { port })
                } else {
                    Ok(MulticastMessage::CloseServer { port })
                }
            }
        } else {
            Err(DecodingError::UnknownTag(tag))
        }
    }
}

/// The empty message: no bytes on the wire.
impl Message for () {
    open spec fn wire(&self) -> Seq<u8> {
        Seq::empty()
    }

    open spec fn parse(bytes: Seq<u8>) -> Result<Self, DecodingError> {
        if bytes.len() == 0 {
            Ok(())
        } else {
            Err(DecodingError::TrailingBytes)
        }
    }

    proof fn lemma_parse_wire(&self) {
    }

    open spec fn spec_join() -> Self {
        ()
    }

    fn join() -> (message: Self) {
        ()
    }

    fn encode_into(&self, buf: &mut [u8]) -> (written: Result<usize, EncodingOverflow>) {
        assert(buf@ =~= self.wire() + buf@.skip(0));
        Ok(0)
    }

    fn decode(bytes: &[u8]) -> (message: Result<Self, DecodingError>) {
        if bytes.len() == 0 {
            Ok(())
        } else {
            Err(DecodingError::TrailingBytes)
        }
    }
}

/// Writes the encoding of `msg` to the front of `buf` and returns the part of
/// `buf` that was written. A buffer that is too short is left untouched.
pub fn encode<'a, M: Message>(buf: &'a mut [u8], msg: &M) -> (encoded: Result<
    &'a [u8],
    EncodingOverflow,
>)
    ensures
        msg.wire().len() <= old(buf)@.len() ==> encoded is Ok && encoded->Ok_0@ == msg.wire()
            && final(buf)@ == msg.wire() + old(buf)@.skip(msg.wire().len() as int),
        msg.wire().len() > old(buf)@.len() ==> encoded is Err && encoded->Err_0.available == old(
            buf,
        )@.len() && encoded->Err_0.required == msg.wire().len() && final(buf)@ == old(buf)@,
{
    match msg.encode_into(buf) {
        Ok(len) => {
            let written: &'a [u8] = buf;
            let (front, _) = written.split_at(len);
            assert(front@ =~= msg.wire());
            Ok(front)
        },
        Err(overflow) => Err(overflow),
    }
}

/// Reads one message from `bytes`, which must hold it and nothing else.
pub fn decode<M: Message>(bytes: &[u8]) -> (message: Result<M, DecodingError>)
    ensures
        message == M::parse(bytes@),
{
    M::decode(bytes)
}

/// How received bytes begin.
#[derive(Clone, Copy, Debug, PartialEq, Eq, Structural)]
pub enum Frame {
    /// With the record of this message, which is that many bytes long.
    Message(MulticastMessage, usize),
    /// With the beginning of a record, or with nothing: more bytes are needed.
    Incomplete,
    /// With a byte that is the tag of no message.
    Malformed(u8),
}

/// How `bytes` begin. On a stream records come without gaps, so what follows
/// a record is the beginning of the next one.
pub open spec fn first_frame(bytes: Seq<u8>) -> Frame {
    if bytes.len() == 0 {
        Frame::Incomplete
    } else {
        match payload_len(bytes[0]) {
            None => Frame::Malformed(bytes[0]),
            Some(n) => if bytes.len() < 1 + n {
                Frame::Incomplete
            } else {
                Frame::Message(
                    MulticastMessage::decoding(bytes.take(1 + n as int))->Ok_0,
                    (1 + n) as usize,
                )
            },
        }
    }
}

/// The messages whose records stand at the front of `bytes`, one after the
/// other, and the number of bytes that these records take.
pub open spec fn frames(bytes: Seq<u8>) -> (Seq<MulticastMessage>, nat)
    decreases bytes.len(),
{
    match first_frame(bytes) {
        Frame::Message(message, len) => {
            let (more, taken) = frames(bytes.skip(len as int));
            (seq![message] + more, (len + taken) as nat)
        },
        _ => (Seq::empty(), 0),
    }
}

/// The records of these messages, one after the other.
pub open spec fn encoding_of_all(messages: Seq<MulticastMessage>) -> Seq<u8>
    decreases messages.len(),
{
    if messages.len() == 0 {
        Seq::empty()
    } else {
        messages[0].encoding() + encoding_of_all(messages.drop_first())
    }
}

/// Says how the bytes from `at` on begin.
fn frame_at(bytes: &[u8], at: usize) -> (frame: Frame)
    requires
        at <= bytes@.len(),
    ensures
        frame == first_frame(bytes@.skip(at as int)),
        frame matches Frame::Message(_, len) ==> 1 <= len && at + len <= bytes@.len(),
{
    let ghost rest = bytes@.skip(at as int);
    if at == bytes.len() {
        return Frame::Incomplete;
    }
    let tag = bytes[at];
    assert(rest[0] == tag);
    if tag == TAG_JOIN {
        assert(rest.take(1) =~= seq![TAG_JOIN]);
        Frame::Message(MulticastMessage::Join, 1)
    } else if tag == TAG_NEW_SERVER || tag == TAG_CLOSE_SERVER {
        if bytes.len() - at < 3 {
            return Frame::Incomplete;
        }
        let port: u16 = (bytes[at + 1] as u16) * 256 + (bytes[at + 2] as u16);
        proof {
            let record = rest.take(3);
            assert(record[0] == tag && record[1] == bytes@[at + 1] && record[2] == bytes@[at + 2]);
        }
        if tag == TAG_NEW_SERVER {
            Frame::Message(MulticastMessage::NewServer { port }, 3)
        } else {
            Frame::Message(MulticastMessage::CloseServer { port }, 3)
        }
    } else {
        Frame::Malformed(tag)
    }
}

/// Says how received bytes begin: with a whole record, with part of one, or
/// with a byte that begins none.
pub fn next_frame(bytes: &[u8]) -> (frame: Frame)
    ensures
        frame == first_frame(bytes@),
{
    assert(bytes@.skip(0) =~= bytes@);
    frame_at(bytes, 0)
}

/// Takes the whole records off the front of received bytes. Returns their
/// messages in order, the number of bytes they took, and what stands behind
/// them: the beginning of a record that is not whole yet, or a byte that
/// begins none. The bytes behind the records are for the caller to keep.
pub fn split_frames(bytes: &[u8]) -> (split: (Vec<MulticastMessage>, usize, Frame))
    ensures
        (split.0@, split.1 as nat) == frames(bytes@),
        split.1 <= bytes@.len(),
        split.2 == first_frame(bytes@.skip(split.1 as int)),
        !(split.2 is Message),
{
    let mut messages: Vec<MulticastMessage> = Vec::new();
    let mut at: usize = 0;
    let end = bytes.len();
    proof {
        assert(bytes@.skip(0) =~= bytes@);
    }
    loop
        invariant
            end == bytes@.len(),
            at <= end,
            frames(bytes@) == (
                messages@ + frames(bytes@.skip(at as int)).0,
                (at + frames(bytes@.skip(at as int)).1) as nat,
            ),
        decreases bytes@.len() - at,
    {
        match frame_at(bytes, at) {
            Frame::Message(message, len) => {
                proof {
                    let rest = bytes@.skip(at as int);
                    assert(rest.skip(len as int) =~= bytes@.skip(at + len));
                    assert(messages@.push(message) + frames(rest.skip(len as int)).0
                        =~= messages@ + (seq![message] + frames(rest.skip(len as int)).0));
                }
                messages.push(message);
                at = at + len;
            },
            other => {
                proof {
                    assert(messages@ + Seq::<MulticastMessage>::empty() =~= messages@);
                }
                return (messages, at, other);
            },
        }
    }
}

/// A record is read back from the front of whatever follows it.
pub proof fn lemma_first_frame_of_encoding(message: MulticastMessage, tail: Seq<u8>)
    ensures
        first_frame(message.encoding() + tail) == Frame::Message(
            message,
            message.encoding().len() as usize,
        ),
        (message.encoding() + tail).skip(message.encoding().len() as int) == tail,
{
    let bytes = message.encoding() + tail;
    let len = message.encoding().len();
    lemma_round_trip(message);
    assert(bytes[0] == message.encoding()[0]);
    assert(bytes.take(len as int) =~= message.encoding());
    assert(bytes.skip(len as int) =~= tail);
}

/// Records that were written one after the other are read back as the same
/// messages in the same order, whatever follows them.
pub proof fn lemma_frames_of_encodings(messages: Seq<MulticastMessage>, tail: Seq<u8>)
    ensures
        frames(encoding_of_all(messages) + tail) == (
            messages + frames(tail).0,
            (encoding_of_all(messages).len() + frames(tail).1) as nat,
        ),
    decreases messages.len(),
{
    if messages.len() == 0 {
        assert(encoding_of_all(messages) + tail =~= tail);
        assert(messages + frames(tail).0 =~= frames(tail).0);
    } else {
        let first = messages[0];
        let others = messages.drop_first();
        let behind = encoding_of_all(others) + tail;
        assert(encoding_of_all(messages) + tail =~= first.encoding() + behind);
        lemma_first_frame_of_encoding(first, behind);
        lemma_frames_of_encodings(others, tail);
        assert(seq![first] + (others + frames(tail).0) =~= messages + frames(tail).0);
    }
}

/// It does not matter where a stream is cut into reads: taking the whole
/// records off what has arrived, and going on with what was left over once
/// more bytes have arrived, gives the same messages as splitting all the
/// bytes at once.
pub proof fn lemma_frames_resume(arrived: Seq<u8>, more: Seq<u8>)
    ensures
        frames(arrived).1 <= arrived.len(),
        frames(arrived + more) == (
            frames(arrived).0 + frames(arrived.skip(frames(arrived).1 as int) + more).0,
            (frames(arrived).1 + frames(arrived.skip(frames(arrived).1 as int) + more).1) as nat,
        ),
    decreases arrived.len(),
{
    let all = arrived + more;
    match first_frame(arrived) {
        Frame::Message(message, len) => {
            let left = arrived.skip(len as int);
            assert(all[0] == arrived[0]);
            assert(all.take(len as int) =~= arrived.take(len as int));
            assert(first_frame(all) == Frame::Message(message, len));
            assert(all.skip(len as int) =~= left + more);
            lemma_frames_resume(left, more);
            let taken = frames(left).1;
            assert(arrived.skip(len + taken) =~= left.skip(taken as int));
            assert(seq![message] + (frames(left).0 + frames(left.skip(taken as int) + more).0)
                =~= (seq![message] + frames(left).0) + frames(left.skip(taken as int) + more).0);
        },
        _ => {
            assert(arrived.skip(0) =~= arrived);
            assert(Seq::<MulticastMessage>::empty() + frames(all).0 =~= frames(all).0);
        },
    }
}

/// Bytes are the encoding of a message exactly when they begin with its
/// record and end with it.
pub proof fn lemma_decoding_is_whole_frame(bytes: Seq<u8>, message: MulticastMessage)
    requires
        bytes.len() <= usize::MAX,
    ensures
        MulticastMessage::decoding(bytes) == Ok::<MulticastMessage, DecodingError>(message)
            <==> first_frame(bytes) == Frame::Message(message, bytes.len() as usize),
{
    if bytes.len() > 0 && payload_len(bytes[0]) is Some {
        let n = payload_len(bytes[0])->Some_0;
        if bytes.len() == 1 + n {
            assert(bytes.take(1 + n as int) =~= bytes);
        }
    }
}

/// Encoding a message and decoding the bytes gives the message back.
pub proof fn lemma_round_trip(message: MulticastMessage)
    ensures
        MulticastMessage::decoding(message.encoding()) == Ok::<MulticastMessage, DecodingError>(
            message,
        ),
{
    match message {
        MulticastMessage::Join => {},
        MulticastMessage::NewServer { port } => {
            lemma_port_round_trip(port);
        },
        MulticastMessage::CloseServer { port } => {
            lemma_port_round_trip(port);
        },
    }
}

/// The two bytes of a port give the port back.
pub proof fn lemma_port_round_trip(port: u16)
    ensures
        port_bytes(port).len() == 2,
        port_from_bytes(port_bytes(port)[0], port_bytes(port)[1]) == port,
{
}

/// Only the encoding of a message decodes to it: bytes that decode are
/// canonical, and two messages with the same encoding are the same message.
pub proof fn lemma_decoding_is_canonical(bytes: Seq<u8>, message: MulticastMessage)
    requires
        MulticastMessage::decoding(bytes) == Ok::<MulticastMessage, DecodingError>(message),
    ensures
        bytes == message.encoding(),
{
    assert(bytes =~= message.encoding());
}

/// An encoding is one to three bytes long, so it fits every buffer of three
/// bytes or more.
pub proof fn lemma_encoding_len(message: MulticastMessage)
    ensures
        message.encoding().len() == 1 + payload_len(message.tag()).unwrap(),
        1 <= message.encoding().len() <= 3,
        message.encoding()[0] == message.tag(),
{
}

} // verus!
