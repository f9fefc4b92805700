//! The chunk wire frame: a four-byte big-endian sequence number followed by
//! the payload bytes.

use vstd::prelude::*;

verus! {

/// Largest payload, in bytes, that one data frame may carry.
pub const MAX_PAYLOAD: usize = 1024;

/// Length of the sequence-number header of a data frame.
pub const HEADER_LEN: usize = 4;

/// A sequence-numbered slice of a byte stream.
#[derive(Debug)]
pub struct Chunk {
    pub sequence: u32,
    pub data: Vec<u8>,
}

/// Why a datagram is not a data frame.
#[derive(Debug, Clone, Copy, PartialEq, Eq, Structural)]
pub enum FrameError {
    /// Fewer bytes than the header needs.
    TooShort,
    /// More payload bytes than `MAX_PAYLOAD`.
    TooLong,
}

/// The four header bytes of `sequence`, most significant first.
pub open spec fn sequence_bytes(sequence: u32) -> Seq<u8> {
    seq![
        (sequence / 0x100_0000) as u8,
        (sequence / 0x1_0000 % 0x100) as u8,
        (sequence / 0x100 % 0x100) as u8,
        (sequence % 0x100) as u8,
    ]
}

/// The number that four header bytes stand for.
pub open spec fn sequence_of(header: Seq<u8>) -> int
    recommends
        header.len() == 4,
{
    header[0] as int * 0x100_0000 + header[1] as int * 0x1_0000 + header[2] as int * 0x100
        + header[3] as int
}

/// The frame of `(sequence, data)`.
pub open spec fn frame_of(sequence: u32, data: Seq<u8>) -> Seq<u8> {
    sequence_bytes(sequence) + data
}

impl Chunk {
    /// A chunk is well formed when its payload fits one datagram.
    pub open spec fn wf(&self) -> bool {
        self.data@.len() <= MAX_PAYLOAD
    }
}

/// Reading the header of a frame gives back the sequence number it was
/// written from, and the rest of the frame is the payload.
pub proof fn lemma_frame_round_trip(sequence: u32, data: Seq<u8>)
    ensures
        frame_of(sequence, data).len() == 4 + data.len(),
        sequence_of(frame_of(sequence, data).subrange(0, 4)) == sequence,
        frame_of(sequence, data).subrange(4, 4 + data.len() as int) == data,
{
    let f = frame_of(sequence, data);
    let h = sequence_bytes(sequence);
    assert(f.subrange(0, 4) =~= h);
    assert(f.subrange(4, 4 + data.len() as int) =~= data);
    let s = sequence as int;
    assert(s == (s / 0x100_0000) * 0x100_0000 + (s / 0x1_0000 % 0x100) * 0x1_0000 + (s / 0x100
        % 0x100) * 0x100 + s % 0x100);
}

/// Writes the header of `sequence`.
pub fn encode_sequence(sequence: u32) -> (out: Vec<u8>)
    ensures
        out@ == sequence_bytes(sequence),
{
    let mut out: Vec<u8> = Vec::with_capacity(4);
    out.push((sequence / 0x100_0000) as u8);
    out.push((sequence / 0x1_0000 % 0x100) as u8);
    out.push((sequence / 0x100 % 0x100) as u8);
    out.push((sequence % 0x100) as u8);
    assert(out@ =~= sequence_bytes(sequence));
    out
}

/// Reads the sequence number at the start of `frame`.
pub fn decode_sequence(frame: &[u8]) -> (sequence: u32)
    requires
        frame@.len() >= 4,
    ensures
        sequence == sequence_of(frame@.subrange(0, 4)),
{
    let b0: u32 = frame[0] as u32;
    let b1: u32 = frame[1] as u32;
    let b2: u32 = frame[2] as u32;
    let b3: u32 = frame[3] as u32;
    b0 * 0x100_0000 + b1 * 0x1_0000 + b2 * 0x100 + b3
}

/// Encodes a chunk as a data frame.
pub fn encode_chunk(chunk: &Chunk) -> (frame: Vec<u8>)
    requires
        chunk.wf(),
    ensures
        frame@ == frame_of(chunk.sequence, chunk.data@),
{
    let mut frame = encode_sequence(chunk.sequence);
    let mut i: usize = 0;
    while i < chunk.data.len()
        invariant
            i <= chunk.data@.len(),
            frame@ == sequence_bytes(chunk.sequence) + chunk.data@.subrange(0, i as int),
        decreases chunk.data@.len() - i,
    {
        frame.push(chunk.data[i]);
        i = i + 1;
        assert(frame@ =~= sequence_bytes(chunk.sequence) + chunk.data@.subrange(0, i as int));
    }
    assert(chunk.data@.subrange(0, i as int) =~= chunk.data@);
    frame
}

/// What a frame decodes to: its sequence number and payload, or the reason
/// it is no data frame.
pub open spec fn decoded_frame(frame: Seq<u8>) -> Result<(u32, Seq<u8>), FrameError> {
    if frame.len() < HEADER_LEN {
        Err(FrameError::TooShort)
    } else if frame.len() > HEADER_LEN + MAX_PAYLOAD {
        Err(FrameError::TooLong)
    } else {
        Ok((sequence_of(frame.subrange(0, 4)) as u32, frame.subrange(4, frame.len() as int)))
    }
}

/// Encoding a chunk and decoding the frame gives the chunk back, whatever
/// its sequence number and for every payload up to `MAX_PAYLOAD` bytes.
pub proof fn lemma_chunk_round_trip(sequence: u32, data: Seq<u8>)
    requires
        data.len() <= MAX_PAYLOAD,
    ensures
        decoded_frame(frame_of(sequence, data)) == Ok::<(u32, Seq<u8>), FrameError>(
            (sequence, data),
        ),
{
    lemma_frame_round_trip(sequence, data);
}

/// A frame with fewer bytes than the header is refused, whatever it holds.
pub proof fn lemma_short_frame_refused(frame: Seq<u8>)
    requires
        frame.len() < HEADER_LEN,
    ensures
        decoded_frame(frame) == Err::<(u32, Seq<u8>), FrameError>(FrameError::TooShort),
{
}

/// Decodes a data frame. A frame shorter than its header, or with a payload
/// over `MAX_PAYLOAD`, is refused; every other frame decodes.
pub fn decode_chunk(frame: &[u8]) -> (result: Result<Chunk, FrameError>)
    ensures
        decoded_frame(frame@) == match result {
            Ok(chunk) => Ok((chunk.sequence, chunk.data@)),
            Err(e) => Err(e),
        },
        frame@.len() < HEADER_LEN <==> result == Err::<Chunk, FrameError>(FrameError::TooShort),
        frame@.len() > HEADER_LEN + MAX_PAYLOAD <==> result == Err::<Chunk, FrameError>(
            FrameError::TooLong,
        ),
        HEADER_LEN <= frame@.len() <= HEADER_LEN + MAX_PAYLOAD <==> result is Ok,
        result matches Ok(chunk) ==> {
            &&& chunk.wf()
            &&& chunk.sequence == sequence_of(frame@.subrange(0, 4))
            &&& chunk.data@ == frame@.subrange(4, frame@.len() as int)
            &&& frame_of(chunk.sequence, chunk.data@) == frame@
        },
{
    if frame.len() < HEADER_LEN {
        return Err(FrameError::TooShort);
    }
    if frame.len() > HEADER_LEN + MAX_PAYLOAD {
        return Err(FrameError::TooLong);
    }
    let sequence = decode_sequence(frame);
    let mut data: Vec<u8> = Vec::new();
    let mut i: usize = HEADER_LEN;
    while i < frame.len()
        invariant
            HEADER_LEN <= i <= frame@.len(),
            data@ == frame@.subrange(4, i as int),
        decreases frame@.len() - i,
    {
        data.push(frame[i]);
        i = i + 1;
        assert(data@ =~= frame@.subrange(4, i as int));
    }
    proof {
        let s = sequence as int;
        assert(s / 0x100_0000 == frame@[0] as int);
        assert(s / 0x1_0000 % 0x100 == frame@[1] as int);
        assert(s / 0x100 % 0x100 == frame@[2] as int);
        assert(s % 0x100 == frame@[3] as int);
        assert(frame_of(sequence, data@) =~= frame@);
    }
    Ok(Chunk { sequence, data })
}

} // verus!
