//! What a leader does with one transfer: receive the client's payload, have
//! it transformed, and send the result back.
//!
//! The payload comes in by stop-and-wait and goes out the same way. The
//! transform itself is not done here: the coordinator hands the payload out
//! and takes the result in.

use crate::receiver::{
    ack_bytes, is_ack, receive_step, ReceiverAction, SessionModel, TransferSession,
};
use crate::sender::{
    max_payload_len, sender_ack, sender_start, sender_timeout, ActionModel, SenderAction,
    SenderModel, SenderPhase, StopAndWaitSender,
};
use vstd::prelude::*;

verus! {

/// What the caller does after an event of the transfer.
#[derive(Debug)]
pub enum CoordinatorAction {
    /// Send an acknowledgment to the client.
    SendAck,
    /// The payload is complete: transform it and hand the result back.
    Transform(Vec<u8>),
    /// Send this data frame to the client and wait for its acknowledgment.
    SendChunk(Vec<u8>),
    /// Send the terminal marker to the client: the transfer is complete.
    SendEnd,
    /// Give up the transfer.
    Abort,
    /// Nothing to do.
    Nothing,
}

/// A coordinator action as plain values.
pub enum CoordinatorActionModel {
    SendAck,
    Transform(Seq<u8>),
    SendChunk(Seq<u8>),
    SendEnd,
    Abort,
    Nothing,
}

impl View for CoordinatorAction {
    type V = CoordinatorActionModel;

    open spec fn view(&self) -> CoordinatorActionModel {
        match self {
            CoordinatorAction::SendAck => CoordinatorActionModel::SendAck,
            CoordinatorAction::Transform(p) => CoordinatorActionModel::Transform(p@),
            CoordinatorAction::SendChunk(f) => CoordinatorActionModel::SendChunk(f@),
            CoordinatorAction::SendEnd => CoordinatorActionModel::SendEnd,
            CoordinatorAction::Abort => CoordinatorActionModel::Abort,
            CoordinatorAction::Nothing => CoordinatorActionModel::Nothing,
        }
    }
}

/// Where a transfer stands, as plain values.
pub enum CoordinatorModel {
    /// The payload is coming in.
    Receiving(SessionModel),
    /// The payload is out for the transform.
    Transforming,
    /// The result is going out.
    Sending(SenderModel),
    /// The transfer is complete.
    Done,
    /// The transfer was given up.
    Failed,
}

/// The action that passes on what the sender wants sent.
pub open spec fn passed_on(action: ActionModel) -> CoordinatorActionModel {
    match action {
        ActionModel::SendChunk(frame) => CoordinatorActionModel::SendChunk(frame),
        ActionModel::SendEnd => CoordinatorActionModel::SendEnd,
        ActionModel::Abort => CoordinatorActionModel::Abort,
        ActionModel::Nothing => CoordinatorActionModel::Nothing,
    }
}

/// Where the transfer stands after the sender moved.
pub open spec fn after_sender(sender: SenderModel) -> CoordinatorModel {
    match sender.phase {
        SenderPhase::Done => CoordinatorModel::Done,
        SenderPhase::Failed => CoordinatorModel::Failed,
        _ => CoordinatorModel::Sending(sender),
    }
}

/// The transfer after a datagram from the client.
pub open spec fn coordinator_datagram(m: CoordinatorModel, datagram: Seq<u8>) -> (
    CoordinatorModel,
    CoordinatorActionModel,
) {
    match m {
        CoordinatorModel::Receiving(session) => {
            let (next, action) = receive_step(session, datagram);
            match action {
                ReceiverAction::AckAccepted => (
                    CoordinatorModel::Receiving(next),
                    CoordinatorActionModel::SendAck,
                ),
                ReceiverAction::AckDiscarded => (
                    CoordinatorModel::Receiving(next),
                    CoordinatorActionModel::SendAck,
                ),
                ReceiverAction::Ignore => (
                    CoordinatorModel::Receiving(next),
                    CoordinatorActionModel::Nothing,
                ),
                ReceiverAction::Finish => (
                    CoordinatorModel::Transforming,
                    CoordinatorActionModel::Transform(next.sink),
                ),
            }
        },
        CoordinatorModel::Sending(sender) => if datagram == ack_bytes() {
            let (next, action) = sender_ack(sender);
            (after_sender(next), passed_on(action))
        } else {
            (m, CoordinatorActionModel::Nothing)
        },
        _ => (m, CoordinatorActionModel::Nothing),
    }
}

/// The transfer after the transform handed back `result`. A result with
/// more chunks than there are sequence numbers fails the transfer.
pub open spec fn coordinator_transformed(
    m: CoordinatorModel,
    result: Seq<u8>,
    limit: nat,
) -> (CoordinatorModel, CoordinatorActionModel) {
    match m {
        CoordinatorModel::Transforming => if result.len() <= max_payload_len() {
            let (next, action) = sender_start(
                SenderModel {
                    payload: result,
                    next: 0,
                    attempts: 0,
                    limit,
                    phase: SenderPhase::Ready,
                },
            );
            (after_sender(next), passed_on(action))
        } else {
            (CoordinatorModel::Failed, CoordinatorActionModel::Abort)
        },
        _ => (m, CoordinatorActionModel::Nothing),
    }
}

/// The transfer after a wait for the client's acknowledgment ran out.
pub open spec fn coordinator_timeout(m: CoordinatorModel) -> (
    CoordinatorModel,
    CoordinatorActionModel,
) {
    match m {
        CoordinatorModel::Sending(sender) => {
            let (next, action) = sender_timeout(sender);
            (after_sender(next), passed_on(action))
        },
        _ => (m, CoordinatorActionModel::Nothing),
    }
}

/// Where a transfer stands.
#[derive(Debug)]
enum Stage {
    Receiving(TransferSession),
    Transforming,
    Sending(StopAndWaitSender),
    Done,
    Failed,
}

/// One transfer at the leader.
#[derive(Debug)]
pub struct TransferCoordinator {
    stage: Stage,
    /// The most attempts one chunk of the result may take; `None` for no
    /// limit.
    max_attempts: Option<u32>,
}

/// The attempts limit as the sender holds it: 0 for none, and at least 1.
pub open spec fn limit_of(max_attempts: Option<u32>) -> nat {
    match max_attempts {
        None => 0,
        Some(n) => if n == 0 {
            1
        } else {
            n as nat
        },
    }
}

impl View for TransferCoordinator {
    type V = CoordinatorModel;

    closed spec fn view(&self) -> CoordinatorModel {
        match self.stage {
            Stage::Receiving(session) => CoordinatorModel::Receiving(session@),
            Stage::Transforming => CoordinatorModel::Transforming,
            Stage::Sending(sender) => CoordinatorModel::Sending(sender@),
            Stage::Done => CoordinatorModel::Done,
            Stage::Failed => CoordinatorModel::Failed,
        }
    }
}

/// Passes on what the sender wants sent.
fn pass_on(action: SenderAction) -> (out: CoordinatorAction)
    ensures
        out@ == passed_on(action@),
{
    match action {
        SenderAction::SendChunk(frame) => CoordinatorAction::SendChunk(frame),
        SenderAction::SendEnd => CoordinatorAction::SendEnd,
        SenderAction::Abort => CoordinatorAction::Abort,
        SenderAction::Nothing => CoordinatorAction::Nothing,
    }
}

/// The stage after the sender moved.
fn stage_after(sender: StopAndWaitSender) -> (stage: Stage)
    ensures
        match stage {
            Stage::Sending(s) => after_sender(sender@) == CoordinatorModel::Sending(s@),
            Stage::Done => after_sender(sender@) == CoordinatorModel::Done,
            Stage::Failed => after_sender(sender@) == CoordinatorModel::Failed,
            _ => false,
        },
{
    match sender.phase() {
        SenderPhase::Done => Stage::Done,
        SenderPhase::Failed => Stage::Failed,
        _ => Stage::Sending(sender),
    }
}

impl TransferCoordinator {
    /// The attempts limit this coordinator gives its sender.
    pub closed spec fn limit(&self) -> nat {
        limit_of(self.max_attempts)
    }

    /// A transfer that waits for the first chunk of the payload.
    /// `max_attempts` bounds how often one chunk of the result is sent.
    pub fn new(max_attempts: Option<u32>) -> (c: TransferCoordinator)
        ensures
            c.limit() == limit_of(max_attempts),
            c@ == CoordinatorModel::Receiving(
                SessionModel { expected: 0, sink: Seq::empty(), finished: false },
            ),
    {
        TransferCoordinator { stage: Stage::Receiving(TransferSession::new()), max_attempts }
    }

    /// Whether the transfer is complete.
    pub fn is_done(&self) -> (b: bool)
        ensures
            b == (self@ is Done),
    {
        match &self.stage {
            Stage::Done => true,
            _ => false,
        }
    }

    /// Whether the transfer was given up.
    pub fn has_failed(&self) -> (b: bool)
        ensures
            b == (self@ is Failed),
    {
        match &self.stage {
            Stage::Failed => true,
            _ => false,
        }
    }

    /// Handles a datagram from the client.
    pub fn on_datagram(&mut self, datagram: &[u8]) -> (action: CoordinatorAction)
        ensures
            final(self).limit() == old(self).limit(),
            (final(self)@, action@) == coordinator_datagram(old(self)@, datagram@),
    {
        let mut stage = Stage::Transforming;
        core::mem::swap(&mut self.stage, &mut stage);
        match stage {
            Stage::Receiving(session) => {
                let mut session = session;
                match session.on_datagram(datagram) {
                    ReceiverAction::AckAccepted => {
                        self.stage = Stage::Receiving(session);
                        CoordinatorAction::SendAck
                    },
                    ReceiverAction::AckDiscarded => {
                        self.stage = Stage::Receiving(session);
                        CoordinatorAction::SendAck
                    },
                    ReceiverAction::Ignore => {
                        self.stage = Stage::Receiving(session);
                        CoordinatorAction::Nothing
                    },
                    ReceiverAction::Finish => {
                        self.stage = Stage::Transforming;
                        CoordinatorAction::Transform(session.into_sink())
                    },
                }
            },
            Stage::Sending(sender) => {
                if is_ack(datagram) {
                    let mut sender = sender;
                    let action = sender.on_ack();
                    self.stage = stage_after(sender);
                    pass_on(action)
                } else {
                    self.stage = Stage::Sending(sender);
                    CoordinatorAction::Nothing
                }
            },
            other => {
                self.stage = other;
                CoordinatorAction::Nothing
            },
        }
    }

    /// Takes the result of the transform and begins to send it back.
    pub fn on_transformed(&mut self, result: Vec<u8>) -> (action: CoordinatorAction)
        ensures
            final(self).limit() == old(self).limit(),
            (final(self)@, action@) == coordinator_transformed(
                old(self)@,
                result@,
                old(self).limit(),
            ),
    {
        match &self.stage {
            Stage::Transforming => {
                match StopAndWaitSender::new(result, self.max_attempts) {
                    None => {
                        self.stage = Stage::Failed;
                        CoordinatorAction::Abort
                    },
                    Some(sender) => {
                        let mut sender = sender;
                        let action = sender.start();
                        self.stage = stage_after(sender);
                        pass_on(action)
                    },
                }
            },
            _ => CoordinatorAction::Nothing,
        }
    }

    /// Handles the end of a wait in which no acknowledgment came.
    pub fn on_timeout(&mut self) -> (action: CoordinatorAction)
        ensures
            final(self).limit() == old(self).limit(),
            (final(self)@, action@) == coordinator_timeout(old(self)@),
    {
        let mut stage = Stage::Transforming;
        core::mem::swap(&mut self.stage, &mut stage);
        match stage {
            Stage::Sending(sender) => {
                let mut sender = sender;
                let action = sender.on_timeout();
                self.stage = stage_after(sender);
                pass_on(action)
            },
            other => {
                self.stage = other;
                CoordinatorAction::Nothing
            },
        }
    }
}

} // verus!
