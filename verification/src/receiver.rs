//! The receiving side of a stop-and-wait transfer.
//!
//! The receiver keeps the number of the chunk it expects next. A data frame
//! with that number is appended to the sink; any other data frame is
//! discarded. Every well-formed data frame is acknowledged, accepted or not:
//! the sender cannot tell a lost acknowledgment from a lost chunk and sends
//! the chunk again, so a duplicate must be acknowledged for the transfer to
//! go on. The terminal marker ends the session and is not acknowledged.

use crate::chunk::{decode_chunk, frame_of, sequence_of, HEADER_LEN, MAX_PAYLOAD};
use vstd::prelude::*;

verus! {

/// The acknowledgment datagram, ASCII `ACK`.
pub open spec fn ack_bytes() -> Seq<u8> {
    seq![0x41u8, 0x43u8, 0x4Bu8]
}

/// The terminal marker, ASCII `END`.
pub open spec fn end_bytes() -> Seq<u8> {
    seq![0x45u8, 0x4Eu8, 0x44u8]
}

/// What the caller does after handing a datagram to the session.
#[derive(Debug, Clone, Copy, PartialEq, Eq, Structural)]
pub enum ReceiverAction {
    /// Send an acknowledgment; the chunk was appended to the sink.
    AckAccepted,
    /// Send an acknowledgment; the chunk was out of turn and discarded.
    AckDiscarded,
    /// The datagram is no data frame: do nothing.
    Ignore,
    /// The terminal marker arrived: the transfer is complete.
    Finish,
}

/// The receiver's state: how many chunks it has accepted, which is the
/// sequence number it expects next, and the bytes accepted so far.
#[derive(Debug)]
pub struct TransferSession {
    expected: u64,
    sink: Vec<u8>,
    finished: bool,
}

/// A session as plain values.
pub struct SessionModel {
    pub expected: nat,
    pub sink: Seq<u8>,
    pub finished: bool,
}

/// Whether `datagram` is a data frame that decodes.
pub open spec fn is_data_frame(datagram: Seq<u8>) -> bool {
    datagram != end_bytes() && HEADER_LEN <= datagram.len() <= HEADER_LEN + MAX_PAYLOAD
}

/// The session after `datagram`, and what the caller is told to do.
pub open spec fn receive_step(s: SessionModel, datagram: Seq<u8>) -> (SessionModel, ReceiverAction) {
    if s.finished {
        (s, ReceiverAction::Ignore)
    } else if datagram == end_bytes() {
        (SessionModel { finished: true, ..s }, ReceiverAction::Finish)
    } else if !is_data_frame(datagram) {
        (s, ReceiverAction::Ignore)
    } else if sequence_of(datagram.subrange(0, 4)) == s.expected {
        (
            SessionModel {
                expected: s.expected + 1,
                sink: s.sink + datagram.subrange(4, datagram.len() as int),
                finished: false,
            },
            ReceiverAction::AckAccepted,
        )
    } else {
        (s, ReceiverAction::AckDiscarded)
    }
}

/// The session after each of `datagrams` in turn.
pub open spec fn receive_all(s: SessionModel, datagrams: Seq<Seq<u8>>) -> SessionModel
    decreases datagrams.len(),
{
    if datagrams.len() == 0 {
        s
    } else {
        receive_step(receive_all(s, datagrams.drop_last()), datagrams.last()).0
    }
}

impl View for TransferSession {
    type V = SessionModel;

    closed spec fn view(&self) -> SessionModel {
        SessionModel { expected: self.expected as nat, sink: self.sink@, finished: self.finished }
    }
}

impl TransferSession {
    /// A new session: it expects chunk 0 and its sink is empty.
    pub fn new() -> (s: TransferSession)
        ensures
            s@ == (SessionModel { expected: 0, sink: Seq::empty(), finished: false }),
    {
        TransferSession { expected: 0, sink: Vec::new(), finished: false }
    }

    /// The sequence number the session expects next; `2^32` once every
    /// sequence number has been used.
    pub fn expected_sequence(&self) -> (n: u64)
        ensures
            n == self@.expected,
    {
        self.expected
    }

    /// Whether the terminal marker has arrived.
    pub fn is_finished(&self) -> (b: bool)
        ensures
            b == self@.finished,
    {
        self.finished
    }

    /// The bytes accepted so far, in order.
    pub fn sink(&self) -> (bytes: &Vec<u8>)
        ensures
            bytes@ == self@.sink,
    {
        &self.sink
    }

    /// Ends the session and hands over the sink.
    pub fn into_sink(self) -> (bytes: Vec<u8>)
        ensures
            bytes@ == self@.sink,
    {
        self.sink
    }

    /// Handles one inbound datagram.
    pub fn on_datagram(&mut self, datagram: &[u8]) -> (action: ReceiverAction)
        ensures
            (final(self)@, action) == receive_step(old(self)@, datagram@),
    {
        if self.finished {
            return ReceiverAction::Ignore;
        }
        if is_end_marker(datagram) {
            self.finished = true;
            return ReceiverAction::Finish;
        }
        match decode_chunk(datagram) {
            Err(_) => ReceiverAction::Ignore,
            Ok(chunk) => {
                if chunk.sequence as u64 == self.expected {
                    let mut data = chunk.data;
                    let ghost before = self.sink@;
                    self.sink.append(&mut data);
                    self.expected = self.expected + 1;
                    assert(self.sink@ =~= before + datagram@.subrange(4, datagram@.len() as int));
                    ReceiverAction::AckAccepted
                } else {
                    ReceiverAction::AckDiscarded
                }
            },
        }
    }
}

/// Whether `datagram` is the terminal marker.
pub fn is_end_marker(datagram: &[u8]) -> (b: bool)
    ensures
        b == (datagram@ == end_bytes()),
{
    let b = datagram.len() == 3 && datagram[0] == 0x45 && datagram[1] == 0x4E && datagram[2]
        == 0x44;
    proof {
        if b {
            assert(datagram@ =~= end_bytes());
        }
    }
    b
}

/// Whether `datagram` is an acknowledgment.
pub fn is_ack(datagram: &[u8]) -> (b: bool)
    ensures
        b == (datagram@ == ack_bytes()),
{
    let b = datagram.len() == 3 && datagram[0] == 0x41 && datagram[1] == 0x43 && datagram[2]
        == 0x4B;
    proof {
        if b {
            assert(datagram@ =~= ack_bytes());
        }
    }
    b
}

/// The acknowledgment datagram.
pub fn ack_datagram() -> (out: Vec<u8>)
    ensures
        out@ == ack_bytes(),
{
    let mut out: Vec<u8> = Vec::new();
    out.push(0x41);
    out.push(0x43);
    out.push(0x4B);
    assert(out@ =~= ack_bytes());
    out
}

/// The terminal marker datagram.
pub fn end_datagram() -> (out: Vec<u8>)
    ensures
        out@ == end_bytes(),
{
    let mut out: Vec<u8> = Vec::new();
    out.push(0x45);
    out.push(0x4E);
    out.push(0x44);
    assert(out@ =~= end_bytes());
    out
}

/// Delivering the same data frame twice to a session that expects it leaves
/// the sink after the second delivery as it was after the first, and both
/// deliveries are acknowledged.
pub proof fn lemma_duplicate_delivery(s: SessionModel, sequence: u32, data: Seq<u8>)
    requires
        !s.finished,
        s.expected == sequence,
        data.len() <= MAX_PAYLOAD,
    ensures
        ({
            let frame = frame_of(sequence, data);
            let first = receive_step(s, frame);
            let second = receive_step(first.0, frame);
            &&& first.1 == ReceiverAction::AckAccepted
            &&& first.0.sink == s.sink + data
            &&& second.1 == ReceiverAction::AckDiscarded
            &&& second.0 == first.0
        }),
{
    let frame = frame_of(sequence, data);
    crate::chunk::lemma_frame_round_trip(sequence, data);
    assert(frame.len() == 4 + data.len());
    assert(frame.subrange(4, frame.len() as int) == data);
    assert(frame != end_bytes());
}

} // verus!
