//! What the two sides of a stop-and-wait transfer achieve together.

use crate::chunk::lemma_frame_round_trip;
use crate::receiver::{end_bytes, receive_all, SessionModel};
use crate::sender::{
    chunk_count, chunk_data, chunk_frame, chunks_joined, lemma_chunk_bounds,
    lemma_chunks_cover_payload,
};
use vstd::prelude::*;

verus! {

/// The chunk numbers of a stop-and-wait transfer in the order their frames
/// reach the receiver: the first is chunk 0, and every later one is the
/// chunk before it again, sent once more after a lost acknowledgment, or
/// the chunk that follows it.
pub open spec fn is_stop_and_wait_trace(trace: Seq<nat>, chunks: nat) -> bool {
    &&& forall|i: int| 0 <= i < trace.len() ==> (#[trigger] trace[i]) < chunks
    &&& trace.len() > 0 ==> trace[0] == 0
    &&& forall|i: int|
        0 < i < trace.len() ==> (#[trigger] trace[i]) == trace[i - 1] || trace[i] == trace[i - 1]
            + 1
}

/// The frames of the chunks of `payload` that `trace` names.
pub open spec fn frames_of(payload: Seq<u8>, trace: Seq<nat>) -> Seq<Seq<u8>> {
    Seq::new(trace.len(), |i: int| chunk_frame(payload, trace[i]))
}

/// A new session.
pub open spec fn fresh_session() -> SessionModel {
    SessionModel { expected: 0, sink: Seq::empty(), finished: false }
}

/// Delivery is in order and without repetition. After the frames of a
/// stop-and-wait trace the sink holds the chunks up to the last one named,
/// each once and in order, however often a chunk was sent again.
pub proof fn lemma_ordered_delivery(payload: Seq<u8>, trace: Seq<nat>)
    requires
        chunk_count(payload.len()) <= 0x1_0000_0000,
        is_stop_and_wait_trace(trace, chunk_count(payload.len())),
        trace.len() > 0,
    ensures
        ({
            let s = receive_all(fresh_session(), frames_of(payload, trace));
            &&& !s.finished
            &&& s.expected == trace.last() + 1
            &&& s.sink == chunks_joined(payload, trace.last() + 1)
        }),
    decreases trace.len(),
{
    let frames = frames_of(payload, trace);
    let k = trace.last();
    let frame = chunk_frame(payload, k);
    lemma_chunk_bounds(payload.len(), k);
    lemma_frame_round_trip(k as u32, chunk_data(payload, k));
    assert(frames.last() == frame);
    assert(frame.len() == 4 + chunk_data(payload, k).len());
    assert(frame.subrange(4, frame.len() as int) == chunk_data(payload, k));
    assert(frame != end_bytes());
    if trace.len() == 1 {
        assert(frames.drop_last() =~= Seq::<Seq<u8>>::empty());
        assert(receive_all(fresh_session(), frames.drop_last()) == fresh_session());
        assert(chunks_joined(payload, 0) == Seq::<u8>::empty());
        assert(chunks_joined(payload, 1) == chunks_joined(payload, 0) + chunk_data(payload, 0));
    } else {
        let rest = trace.drop_last();
        assert(is_stop_and_wait_trace(rest, chunk_count(payload.len()))) by {
            assert forall|i: int| 0 <= i < rest.len() implies (#[trigger] rest[i]) < chunk_count(
                payload.len(),
            ) by {
                assert(rest[i] == trace[i]);
            }
            assert(rest[0] == trace[0]);
            assert forall|i: int| 0 < i < rest.len() implies (#[trigger] rest[i]) == rest[i - 1]
                || rest[i] == rest[i - 1] + 1 by {
                assert(rest[i] == trace[i]);
                assert(rest[i - 1] == trace[i - 1]);
            }
        }
        lemma_ordered_delivery(payload, rest);
        assert(frames.drop_last() =~= frames_of(payload, rest));
        let before = receive_all(fresh_session(), frames_of(payload, rest));
        assert(trace[trace.len() - 1] == trace[trace.len() - 2] || trace[trace.len() - 1]
            == trace[trace.len() - 2] + 1);
        assert(rest.last() == trace[trace.len() - 2]);
    }
}

/// A transfer that reaches the last chunk delivers the payload, byte for
/// byte.
pub proof fn lemma_complete_delivery(payload: Seq<u8>, trace: Seq<nat>)
    requires
        chunk_count(payload.len()) <= 0x1_0000_0000,
        is_stop_and_wait_trace(trace, chunk_count(payload.len())),
        trace.len() > 0,
        trace.last() + 1 == chunk_count(payload.len()),
    ensures
        receive_all(fresh_session(), frames_of(payload, trace)).sink == payload,
{
    lemma_ordered_delivery(payload, trace);
    lemma_chunks_cover_payload(payload, chunk_count(payload.len()));
}

} // verus!
