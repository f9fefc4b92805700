//! The ASCII messages that nodes and clients exchange.
//!
//! - the election trigger, `REQUEST_LEADER`;
//! - the transfer-start signal, `IMAGE_TRANSFER`;
//! - the leader announcement, `LEADER,<address>`;
//! - the load sample, `<address>,<utilization>,<leadership count>`, with the
//!   utilization as the shortest decimal number of percent: `10`, `12.5`.

use crate::bytes::{append_bytes, bytes_eq, copy_range, starts_with};
use crate::decimal::{
    decimal_digits, first_index_of, format_fixed, is_digit, lemma_decimal_digits,
    lemma_first_index_is, lemma_fixed_round_trip, lemma_format_fixed_bytes,
    lemma_number_round_trip, parse_fixed, parse_number, read_fixed, read_number, write_fixed,
    write_number,
};
use crate::ranking::{LoadSample, SampleModel, MAX_UTILIZATION};
use vstd::prelude::*;
use vstd::string::StringSliceAdditionalSpecFns;

verus! {

/// The election trigger, ASCII `REQUEST_LEADER`.
pub open spec fn election_trigger() -> Seq<u8> {
    "REQUEST_LEADER".spec_bytes()
}

/// The transfer-start signal, ASCII `IMAGE_TRANSFER`.
pub open spec fn transfer_start() -> Seq<u8> {
    "IMAGE_TRANSFER".spec_bytes()
}

/// What every leader announcement begins with, ASCII `LEADER,`.
pub open spec fn leader_prefix() -> Seq<u8> {
    "LEADER,".spec_bytes()
}

/// What a client asks of a node.
#[derive(Debug, Clone, Copy, PartialEq, Eq, Structural)]
pub enum Request {
    /// To take part in the election of a leader.
    ElectionTrigger,
    /// To receive a payload.
    TransferStart,
    /// Nothing this node knows.
    Other,
}

/// What `message` asks for.
pub open spec fn request_of(message: Seq<u8>) -> Request {
    if message == election_trigger() {
        Request::ElectionTrigger
    } else if message == transfer_start() {
        Request::TransferStart
    } else {
        Request::Other
    }
}

/// Tells what a datagram from a client asks for.
pub fn classify_request(message: &[u8]) -> (r: Request)
    ensures
        r == request_of(message@),
{
    if bytes_eq(message, "REQUEST_LEADER".as_bytes()) {
        Request::ElectionTrigger
    } else if bytes_eq(message, "IMAGE_TRANSFER".as_bytes()) {
        Request::TransferStart
    } else {
        Request::Other
    }
}

/// The election trigger datagram.
pub fn election_trigger_datagram() -> (out: Vec<u8>)
    ensures
        out@ == election_trigger(),
{
    crate::bytes::copy_bytes("REQUEST_LEADER".as_bytes())
}

/// The transfer-start datagram.
pub fn transfer_start_datagram() -> (out: Vec<u8>)
    ensures
        out@ == transfer_start(),
{
    crate::bytes::copy_bytes("IMAGE_TRANSFER".as_bytes())
}

/// The announcement that the node at `address` leads.
pub open spec fn leader_announcement(address: Seq<u8>) -> Seq<u8> {
    leader_prefix() + address
}

/// The address that `message` announces as leader, if it is an announcement.
pub open spec fn announced_leader(message: Seq<u8>) -> Option<Seq<u8>> {
    if leader_prefix().len() <= message.len() && message.subrange(0, leader_prefix().len() as int)
        == leader_prefix() {
        Some(message.skip(leader_prefix().len() as int))
    } else {
        None
    }
}

/// Writes the announcement that the node at `address` leads.
pub fn format_leader_announcement(address: &[u8]) -> (out: Vec<u8>)
    ensures
        out@ == leader_announcement(address@),
{
    let mut out = crate::bytes::copy_bytes("LEADER,".as_bytes());
    append_bytes(&mut out, address);
    out
}

/// Reads a leader announcement: the address after `LEADER,`, or `None` if
/// the message does not begin so.
pub fn parse_leader_announcement(message: &[u8]) -> (r: Option<Vec<u8>>)
    ensures
        match r {
            Some(address) => announced_leader(message@) == Some(address@),
            None => announced_leader(message@) is None,
        },
{
    let prefix = "LEADER,".as_bytes();
    if starts_with(message, prefix) {
        let address = copy_range(message, prefix.len(), message.len());
        assert(address@ =~= message@.skip(prefix@.len() as int));
        Some(address)
    } else {
        None
    }
}

/// An announcement reads back as the address it was written for.
pub proof fn lemma_announcement_round_trip(address: Seq<u8>)
    ensures
        announced_leader(leader_announcement(address)) == Some(address),
{
    let m = leader_announcement(address);
    let n = leader_prefix().len() as int;
    assert(m.subrange(0, n) =~= leader_prefix());
    assert(m.skip(n) =~= address);
}

/// The message that carries `sample`.
pub open spec fn sample_message(sample: SampleModel) -> Seq<u8> {
    sample.peer + seq![0x2Cu8] + format_fixed(sample.utilization as nat) + seq![0x2Cu8]
        + decimal_digits(sample.leadership_count as nat)
}

/// The sample that `message` carries: three fields between two commas, the
/// second a decimal of at most one hundred percent, the third a count.
/// `None` for any other message.
pub open spec fn parsed_sample(message: Seq<u8>) -> Option<SampleModel> {
    let first = first_index_of(message, 0x2C);
    let rest = message.skip(first + 1);
    let second = first_index_of(rest, 0x2C);
    let tail = rest.skip(second + 1);
    let utilization = parse_fixed(rest.subrange(0, second), MAX_UTILIZATION as nat);
    let count = parse_number(tail, u32::MAX as nat);
    if first < message.len() && second < rest.len() && first_index_of(tail, 0x2C) == tail.len()
        && utilization is Some && count is Some {
        Some(
            SampleModel {
                peer: message.subrange(0, first),
                utilization: utilization.unwrap() as u32,
                leadership_count: count.unwrap() as u32,
            },
        )
    } else {
        None
    }
}

/// Where the first `b` at or after `from` stands in `s`; the length of `s`
/// if there is none.
pub fn find_byte(s: &[u8], from: usize, b: u8) -> (at: usize)
    requires
        from <= s@.len(),
    ensures
        from <= at <= s@.len(),
        at - from == first_index_of(s@.skip(from as int), b),
{
    let mut at: usize = from;
    while at < s.len() && s[at] != b
        invariant
            from <= at <= s@.len(),
            forall|i: int| from <= i < at ==> s@[i] != b,
        decreases s@.len() - at,
    {
        at = at + 1;
    }
    proof {
        let tail = s@.skip(from as int);
        assert forall|i: int| 0 <= i < at - from implies tail[i] != b by {
            assert(tail[i] == s@[from + i]);
        }
        lemma_first_index_is(tail, b, at - from);
    }
    at
}

/// Writes the message that carries `sample`.
pub fn format_sample(sample: &LoadSample) -> (out: Vec<u8>)
    ensures
        out@ == sample_message(sample@),
{
    let mut out = crate::bytes::copy_bytes(sample.peer.as_slice());
    out.push(0x2C);
    let utilization = write_fixed(sample.utilization as u64);
    append_bytes(&mut out, utilization.as_slice());
    out.push(0x2C);
    let count = write_number(sample.leadership_count as u64);
    append_bytes(&mut out, count.as_slice());
    assert(out@ =~= sample_message(sample@));
    out
}

/// Reads a load sample. A message that is not a sample gives `None`.
pub fn parse_sample(message: &[u8]) -> (r: Option<LoadSample>)
    ensures
        match r {
            Some(sample) => parsed_sample(message@) == Some(sample@) && sample.wf(),
            None => parsed_sample(message@) is None,
        },
{
    let len = message.len();
    let first = find_byte(message, 0, 0x2C);
    assert(message@.skip(0) =~= message@);
    if first >= len {
        return None;
    }
    let second = find_byte(message, first + 1, 0x2C);
    let ghost rest = message@.skip(first + 1);
    if second >= len {
        return None;
    }
    let third = find_byte(message, second + 1, 0x2C);
    let ghost tail = rest.skip(second - first);
    proof {
        assert(tail =~= message@.skip(second + 1));
    }
    if third < len {
        return None;
    }
    let utilization_text = copy_range(message, first + 1, second);
    let count_text = copy_range(message, second + 1, len);
    proof {
        assert(utilization_text@ =~= rest.subrange(0, second - first - 1));
        assert(count_text@ =~= tail);
        assert(count_text@.subrange(0, count_text@.len() as int) =~= count_text@);
    }
    let utilization = match read_fixed(utilization_text.as_slice(), MAX_UTILIZATION as u64) {
        None => {
            return None;
        },
        Some(u) => u,
    };
    let count = match read_number(count_text.as_slice(), 0, count_text.len(), u32::MAX as u64) {
        None => {
            return None;
        },
        Some(c) => c,
    };
    let peer = copy_range(message, 0, first);
    Some(LoadSample { peer, utilization: utilization as u32, leadership_count: count as u32 })
}

/// A sample whose address holds no comma and whose utilization is at most
/// one hundred percent reads back from its message as itself.
pub proof fn lemma_sample_round_trip(sample: SampleModel)
    requires
        sample.utilization <= MAX_UTILIZATION,
        forall|i: int| 0 <= i < sample.peer.len() ==> sample.peer[i] != 0x2C,
    ensures
        parsed_sample(sample_message(sample)) == Some(sample),
{
    let m = sample_message(sample);
    let u = format_fixed(sample.utilization as nat);
    let c = decimal_digits(sample.leadership_count as nat);
    let p = sample.peer.len() as int;
    lemma_fixed_round_trip(sample.utilization as nat, MAX_UTILIZATION as nat);
    lemma_number_round_trip(sample.leadership_count as nat, u32::MAX as nat);
    lemma_decimal_digits(sample.leadership_count as nat);
    lemma_format_fixed_bytes(sample.utilization as nat);
    assert forall|i: int| 0 <= i < u.len() implies u[i] != 0x2C by {
        assert(is_digit(u[i]) || u[i] == 0x2E);
    }
    assert forall|i: int| 0 <= i < c.len() implies c[i] != 0x2C by {
        assert(is_digit(c[i]));
    }
    assert forall|i: int| 0 <= i < p implies m[i] != 0x2C by {
        assert(m[i] == sample.peer[i]);
    }
    assert(m[p] == 0x2C);
    lemma_first_index_is(m, 0x2C, p);
    let rest = m.skip(p + 1);
    assert(rest =~= u + seq![0x2Cu8] + c);
    assert forall|i: int| 0 <= i < u.len() implies rest[i] != 0x2C by {
        assert(rest[i] == u[i]);
    }
    assert(rest[u.len() as int] == 0x2C);
    lemma_first_index_is(rest, 0x2C, u.len() as int);
    let tail = rest.skip(u.len() as int + 1);
    assert(tail =~= c);
    lemma_first_index_is(tail, 0x2C, tail.len() as int);
    assert(rest.subrange(0, u.len() as int) =~= u);
    assert(m.subrange(0, p) =~= sample.peer);
}

} // verus!
