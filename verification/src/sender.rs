//! The sending side of a stop-and-wait transfer.
//!
//! The payload is cut into chunks of at most `MAX_PAYLOAD` bytes, numbered
//! from 0. The sender sends one chunk and waits: an acknowledgment moves it
//! to the next chunk, a timeout makes it send the same chunk again. After
//! the last chunk is acknowledged it sends the terminal marker. With a limit
//! on attempts, a chunk that was sent that often without acknowledgment
//! fails the whole transfer.

use crate::chunk::{encode_sequence, frame_of, MAX_PAYLOAD};
use vstd::prelude::*;

verus! {

/// How many chunks a payload of `len` bytes is cut into.
pub open spec fn chunk_count(len: nat) -> nat {
    (len + MAX_PAYLOAD - 1) as nat / (MAX_PAYLOAD as nat)
}

/// Where chunk `k` of a payload starts.
pub open spec fn chunk_start(k: nat) -> nat {
    (k * MAX_PAYLOAD) as nat
}

/// Where chunk `k` of a payload of `len` bytes ends.
pub open spec fn chunk_end(len: nat, k: nat) -> nat {
    if (k + 1) * MAX_PAYLOAD <= len {
        ((k + 1) * MAX_PAYLOAD) as nat
    } else {
        len
    }
}

/// The bytes of chunk `k` of `payload`.
pub open spec fn chunk_data(payload: Seq<u8>, k: nat) -> Seq<u8> {
    payload.subrange(chunk_start(k) as int, chunk_end(payload.len(), k) as int)
}

/// The data frame that carries chunk `k` of `payload`.
pub open spec fn chunk_frame(payload: Seq<u8>, k: nat) -> Seq<u8> {
    frame_of(k as u32, chunk_data(payload, k))
}

/// The first `n` chunks of `payload`, one after the other.
pub open spec fn chunks_joined(payload: Seq<u8>, n: nat) -> Seq<u8>
    decreases n,
{
    if n == 0 {
        Seq::empty()
    } else {
        chunks_joined(payload, (n - 1) as nat) + chunk_data(payload, (n - 1) as nat)
    }
}

/// Where the sender stands.
#[derive(Debug, Clone, Copy, PartialEq, Eq, Structural)]
pub enum SenderPhase {
    /// Nothing was sent yet.
    Ready,
    /// A chunk is in flight and its acknowledgment is awaited.
    AwaitingAck,
    /// The terminal marker was sent: the transfer is complete.
    Done,
    /// A chunk ran out of attempts: the transfer failed.
    Failed,
}

/// What the caller sends next.
#[derive(Debug)]
pub enum SenderAction {
    /// Send this data frame and wait for its acknowledgment.
    SendChunk(Vec<u8>),
    /// Send the terminal marker; nothing is awaited after it.
    SendEnd,
    /// Give up: a chunk was not acknowledged within the allowed attempts.
    Abort,
    /// Nothing to do: the event does not belong to this phase.
    Nothing,
}

/// A sender action as plain values.
pub enum ActionModel {
    SendChunk(Seq<u8>),
    SendEnd,
    Abort,
    Nothing,
}

impl View for SenderAction {
    type V = ActionModel;

    open spec fn view(&self) -> ActionModel {
        match self {
            SenderAction::SendChunk(frame) => ActionModel::SendChunk(frame@),
            SenderAction::SendEnd => ActionModel::SendEnd,
            SenderAction::Abort => ActionModel::Abort,
            SenderAction::Nothing => ActionModel::Nothing,
        }
    }
}

/// The sender's state.
#[derive(Debug)]
pub struct StopAndWaitSender {
    payload: Vec<u8>,
    /// The chunk in flight, or the next to send.
    next: u64,
    /// How often the chunk in flight was sent.
    attempts: u64,
    /// The most attempts one chunk may take; 0 stands for no limit.
    limit: u64,
    phase: SenderPhase,
}

/// A sender as plain values.
pub struct SenderModel {
    pub payload: Seq<u8>,
    pub next: nat,
    pub attempts: nat,
    pub limit: nat,
    pub phase: SenderPhase,
}

/// What is sent when the sender turns to chunk `m.next`: that chunk, or the
/// terminal marker when no chunk is left.
pub open spec fn turn_to_next(m: SenderModel) -> (SenderModel, ActionModel) {
    if m.next < chunk_count(m.payload.len()) {
        (
            SenderModel { attempts: 1, phase: SenderPhase::AwaitingAck, ..m },
            ActionModel::SendChunk(chunk_frame(m.payload, m.next)),
        )
    } else {
        (SenderModel { attempts: 0, phase: SenderPhase::Done, ..m }, ActionModel::SendEnd)
    }
}

/// The sender after the transfer is started.
pub open spec fn sender_start(m: SenderModel) -> (SenderModel, ActionModel) {
    if m.phase == SenderPhase::Ready {
        turn_to_next(m)
    } else {
        (m, ActionModel::Nothing)
    }
}

/// The sender after an acknowledgment.
pub open spec fn sender_ack(m: SenderModel) -> (SenderModel, ActionModel) {
    if m.phase == SenderPhase::AwaitingAck {
        turn_to_next(SenderModel { next: m.next + 1, ..m })
    } else {
        (m, ActionModel::Nothing)
    }
}

/// One more attempt; the count stops at the largest number it can hold.
pub open spec fn count_attempt(attempts: nat) -> nat {
    if attempts < u64::MAX {
        attempts + 1
    } else {
        attempts
    }
}

/// The sender after a wait for an acknowledgment ran out.
pub open spec fn sender_timeout(m: SenderModel) -> (SenderModel, ActionModel) {
    if m.phase != SenderPhase::AwaitingAck {
        (m, ActionModel::Nothing)
    } else if m.limit != 0 && m.attempts >= m.limit {
        (SenderModel { phase: SenderPhase::Failed, ..m }, ActionModel::Abort)
    } else {
        (
            SenderModel { attempts: count_attempt(m.attempts), ..m },
            ActionModel::SendChunk(chunk_frame(m.payload, m.next)),
        )
    }
}

/// The most bytes a payload may have: every chunk needs a sequence number.
pub open spec fn max_payload_len() -> nat {
    0x1_0000_0000 * (MAX_PAYLOAD as nat)
}

impl View for StopAndWaitSender {
    type V = SenderModel;

    closed spec fn view(&self) -> SenderModel {
        SenderModel {
            payload: self.payload@,
            next: self.next as nat,
            attempts: self.attempts as nat,
            limit: self.limit as nat,
            phase: self.phase,
        }
    }
}

impl StopAndWaitSender {
    #[verifier::type_invariant]
    spec fn inv(self) -> bool {
        &&& self.payload@.len() <= max_payload_len()
        &&& self.next <= chunk_count(self.payload@.len())
        &&& self.phase == SenderPhase::AwaitingAck ==> self.next < chunk_count(
            self.payload@.len(),
        )
        &&& self.limit <= u32::MAX
        &&& self.limit != 0 ==> self.attempts <= self.limit
    }

    /// A sender for `payload`. `max_attempts` bounds how often one chunk is
    /// sent; `None` lets it be sent without bound. A limit of zero attempts
    /// is taken as one. A payload with more chunks than sequence numbers is
    /// refused.
    pub fn new(payload: Vec<u8>, max_attempts: Option<u32>) -> (r: Option<StopAndWaitSender>)
        ensures
            r is Some <==> payload@.len() <= max_payload_len(),
            r matches Some(s) ==> s@ == (SenderModel {
                payload: payload@,
                next: 0,
                attempts: 0,
                limit: match max_attempts {
                    None => 0,
                    Some(n) => if n == 0 {
                        1
                    } else {
                        n as nat
                    },
                },
                phase: SenderPhase::Ready,
            }),
    {
        if payload.len() as u128 > 0x1_0000_0000u128 * (MAX_PAYLOAD as u128) {
            return None;
        }
        let limit: u64 = match max_attempts {
            None => 0,
            Some(n) => if n == 0 {
                1
            } else {
                n as u64
            },
        };
        Some(StopAndWaitSender { payload, next: 0, attempts: 0, limit, phase: SenderPhase::Ready })
    }

    /// Where the sender stands.
    pub fn phase(&self) -> (p: SenderPhase)
        ensures
            p == self@.phase,
    {
        self.phase
    }

    /// The number of the chunk in flight, or of the next to send.
    pub fn next_sequence(&self) -> (n: u64)
        ensures
            n == self@.next,
    {
        self.next
    }

    /// How often the chunk in flight was sent so far.
    pub fn attempts(&self) -> (n: u64)
        ensures
            n == self@.attempts,
    {
        self.attempts
    }

    /// How many chunks the payload has.
    pub fn total_chunks(&self) -> (n: u64)
        ensures
            n == chunk_count(self@.payload.len()),
    {
        proof {
            use_type_invariant(self);
        }
        count_chunks(self.payload.len())
    }

    /// The data frame of chunk `k`.
    fn frame(&self, k: u64) -> (frame: Vec<u8>)
        requires
            k < chunk_count(self@.payload.len()),
        ensures
            frame@ == chunk_frame(self@.payload, k as nat),
    {
        proof {
            use_type_invariant(self);
        }
        frame_chunk(self.payload.as_slice(), k)
    }

    /// Sends chunk `self.next`, or the terminal marker when none is left.
    fn turn(&mut self) -> (action: SenderAction)
        ensures
            (final(self)@, action@) == turn_to_next(old(self)@),
    {
        proof {
            use_type_invariant(&*self);
        }
        if self.next < count_chunks(self.payload.len()) {
            let frame = self.frame(self.next);
            self.attempts = 1;
            self.phase = SenderPhase::AwaitingAck;
            SenderAction::SendChunk(frame)
        } else {
            self.attempts = 0;
            self.phase = SenderPhase::Done;
            SenderAction::SendEnd
        }
    }

    /// Starts the transfer.
    pub fn start(&mut self) -> (action: SenderAction)
        ensures
            (final(self)@, action@) == sender_start(old(self)@),
    {
        match self.phase {
            SenderPhase::Ready => self.turn(),
            _ => SenderAction::Nothing,
        }
    }

    /// Handles an acknowledgment.
    pub fn on_ack(&mut self) -> (action: SenderAction)
        ensures
            (final(self)@, action@) == sender_ack(old(self)@),
    {
        proof {
            use_type_invariant(&*self);
        }
        match self.phase {
            SenderPhase::AwaitingAck => {
                self.phase = SenderPhase::Ready;
                self.next = self.next + 1;
                self.turn()
            },
            _ => SenderAction::Nothing,
        }
    }

    /// Handles the end of a wait in which no acknowledgment came.
    pub fn on_timeout(&mut self) -> (action: SenderAction)
        ensures
            (final(self)@, action@) == sender_timeout(old(self)@),
    {
        proof {
            use_type_invariant(&*self);
        }
        match self.phase {
            SenderPhase::AwaitingAck => {
                if self.limit != 0 && self.attempts >= self.limit {
                    self.phase = SenderPhase::Failed;
                    SenderAction::Abort
                } else {
                    let frame = self.frame(self.next);
                    if self.attempts < u64::MAX {
                        self.attempts = self.attempts + 1;
                    }
                    SenderAction::SendChunk(frame)
                }
            },
            _ => SenderAction::Nothing,
        }
    }
}

/// How many chunks a payload of `len` bytes is cut into.
pub fn count_chunks(len: usize) -> (n: u64)
    ensures
        n == chunk_count(len as nat),
{
    let whole: usize = len / MAX_PAYLOAD;
    if len % MAX_PAYLOAD == 0 {
        whole as u64
    } else {
        whole as u64 + 1
    }
}

/// Every chunk lies inside the payload, is at most `MAX_PAYLOAD` bytes long,
/// and only the last may be shorter.
pub proof fn lemma_chunk_bounds(len: nat, k: nat)
    requires
        k < chunk_count(len),
    ensures
        chunk_start(k) < len,
        chunk_start(k) < chunk_end(len, k) <= len,
        chunk_end(len, k) - chunk_start(k) <= MAX_PAYLOAD,
        k + 1 < chunk_count(len) ==> chunk_end(len, k) == chunk_start(k + 1),
        k + 1 == chunk_count(len) ==> chunk_end(len, k) == len,
{
    let m = MAX_PAYLOAD as int;
    assert(k * m + m == (k + 1) * m) by (nonlinear_arith);
    assert((k + 1) * m + m == (k + 2) * m) by (nonlinear_arith);
}

/// The chunks of a payload, joined in order, are the payload.
pub proof fn lemma_chunks_cover_payload(payload: Seq<u8>, n: nat)
    requires
        n <= chunk_count(payload.len()),
    ensures
        n < chunk_count(payload.len()) ==> chunks_joined(payload, n) == payload.subrange(
            0,
            chunk_start(n) as int,
        ),
        n == chunk_count(payload.len()) ==> chunks_joined(payload, n) == payload,
    decreases n,
{
    if n == 0 {
        assert(payload.subrange(0, 0) =~= Seq::<u8>::empty());
        if chunk_count(payload.len()) == 0 {
            assert(payload =~= Seq::<u8>::empty());
        }
    } else {
        let k = (n - 1) as nat;
        lemma_chunks_cover_payload(payload, k);
        lemma_chunk_bounds(payload.len(), k);
        let joined = payload.subrange(0, chunk_start(k) as int) + chunk_data(payload, k);
        assert(joined =~= payload.subrange(0, chunk_end(payload.len(), k) as int));
        if n == chunk_count(payload.len()) {
            assert(payload.subrange(0, payload.len() as int) =~= payload);
        }
    }
}

/// The data frame that carries chunk `k` of `payload`.
pub fn frame_chunk(payload: &[u8], k: u64) -> (frame: Vec<u8>)
    requires
        payload@.len() <= max_payload_len(),
        k < chunk_count(payload@.len()),
    ensures
        frame@ == chunk_frame(payload@, k as nat),
{
    proof {
        lemma_chunk_bounds(payload@.len(), k as nat);
    }
    let len = payload.len();
    let start: usize = (k as usize) * MAX_PAYLOAD;
    let end: usize = if len - start >= MAX_PAYLOAD {
        start + MAX_PAYLOAD
    } else {
        len
    };
    let mut frame = encode_sequence(k as u32);
    let mut i: usize = start;
    while i < end
        invariant
            start <= i <= end <= payload@.len(),
            frame@ == crate::chunk::sequence_bytes(k as u32) + payload@.subrange(
                start as int,
                i as int,
            ),
        decreases end - i,
    {
        frame.push(payload[i]);
        i = i + 1;
        assert(frame@ =~= crate::chunk::sequence_bytes(k as u32) + payload@.subrange(
            start as int,
            i as int,
        ));
    }
    frame
}

/// The frame that answers `datagram`: the chunk whose number the four bytes
/// of the datagram write, if the payload has that chunk. `None` for any
/// other datagram.
pub open spec fn requested_frame(payload: Seq<u8>, datagram: Seq<u8>) -> Option<Seq<u8>> {
    if datagram.len() == 4 && crate::chunk::sequence_of(datagram) < chunk_count(payload.len()) {
        Some(chunk_frame(payload, crate::chunk::sequence_of(datagram) as nat))
    } else {
        None
    }
}

/// The sending side of a best-effort transfer: every chunk is sent once
/// without waiting, then the terminal marker, and after it the chunks that
/// the receiver asks for.
#[derive(Debug)]
pub struct BulkSender {
    payload: Vec<u8>,
}

impl View for BulkSender {
    type V = Seq<u8>;

    closed spec fn view(&self) -> Seq<u8> {
        self.payload@
    }
}

impl BulkSender {
    #[verifier::type_invariant]
    spec fn inv(self) -> bool {
        self.payload@.len() <= max_payload_len()
    }

    /// A sender for `payload`. A payload with more chunks than sequence
    /// numbers is refused.
    pub fn new(payload: Vec<u8>) -> (r: Option<BulkSender>)
        ensures
            r is Some <==> payload@.len() <= max_payload_len(),
            r matches Some(s) ==> s@ == payload@,
    {
        if payload.len() as u128 > 0x1_0000_0000u128 * (MAX_PAYLOAD as u128) {
            return None;
        }
        Some(BulkSender { payload })
    }

    /// How many chunks the payload has.
    pub fn total_chunks(&self) -> (n: u64)
        ensures
            n == chunk_count(self@.len()),
    {
        count_chunks(self.payload.len())
    }

    /// The data frame of chunk `k`, if the payload has that chunk.
    pub fn frame(&self, k: u64) -> (frame: Option<Vec<u8>>)
        ensures
            frame is Some <==> k < chunk_count(self@.len()),
            frame matches Some(f) ==> f@ == chunk_frame(self@, k as nat),
    {
        proof {
            use_type_invariant(self);
        }
        if k < count_chunks(self.payload.len()) {
            Some(frame_chunk(self.payload.as_slice(), k))
        } else {
            None
        }
    }

    /// Answers a request of the receiver for a missing chunk.
    pub fn on_request(&self, datagram: &[u8]) -> (frame: Option<Vec<u8>>)
        ensures
            requested_frame(self@, datagram@) == match frame {
                Some(f) => Some(f@),
                None => None,
            },
    {
        if datagram.len() != 4 {
            return None;
        }
        assert(datagram@.subrange(0, 4) =~= datagram@);
        let sequence = crate::chunk::decode_sequence(datagram);
        self.frame(sequence as u64)
    }
}

} // verus!
