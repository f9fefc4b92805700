//! The election of a leader, one round per client request.
//!
//! A round begins when a client's trigger arrives: the node adds its own
//! load sample, has it broadcast, and then waits once for each peer. Every
//! wait ends with a datagram or with a timeout; a datagram that carries a
//! sample adds it, a later sample of the same peer replacing an earlier one.
//! After the last wait the node ranks what it has. If it ranks first itself
//! it counts one more leadership, raises its leader flag and has the client
//! told; otherwise it lowers the flag and does nothing more, since the peer
//! that ranks first comes to the same result from the same samples.

use crate::bytes::{bytes_eq, copy_bytes};
use crate::ranking::{
    distinct_peers, elect, sample_models, winner, LoadSample, SampleModel, MAX_UTILIZATION,
};
use crate::wire::{
    format_leader_announcement, format_sample, leader_announcement, parse_sample, parsed_sample,
    sample_message,
};
use vstd::prelude::*;

verus! {

/// What the caller does after an event of the election.
#[derive(Debug)]
pub enum ElectionAction {
    /// Send this sample message to every peer, then wait for the first peer.
    Broadcast(Vec<u8>),
    /// The round goes on: wait for the next peer.
    Wait,
    /// This node leads: send `message` to the client at `to`.
    Announce { to: Vec<u8>, message: Vec<u8> },
    /// Another node leads, or none: the round is over and nothing is sent.
    StandDown,
    /// The event does not belong to this phase and changed nothing.
    Nothing,
}

/// An election action as plain values.
pub enum ElectionActionModel {
    Broadcast(Seq<u8>),
    Wait,
    Announce { to: Seq<u8>, message: Seq<u8> },
    StandDown,
    Nothing,
}

impl View for ElectionAction {
    type V = ElectionActionModel;

    open spec fn view(&self) -> ElectionActionModel {
        match self {
            ElectionAction::Broadcast(m) => ElectionActionModel::Broadcast(m@),
            ElectionAction::Wait => ElectionActionModel::Wait,
            ElectionAction::Announce { to, message } => ElectionActionModel::Announce {
                to: to@,
                message: message@,
            },
            ElectionAction::StandDown => ElectionActionModel::StandDown,
            ElectionAction::Nothing => ElectionActionModel::Nothing,
        }
    }
}

/// A round in progress as plain values.
pub struct RoundModel {
    /// The client that asked.
    pub requester: Seq<u8>,
    /// The samples collected so far, one for each peer heard of.
    pub samples: Seq<SampleModel>,
    /// How many waits are still to come.
    pub remaining: nat,
}

/// An elector as plain values.
pub struct ElectorModel {
    pub own_address: Seq<u8>,
    pub peer_count: nat,
    pub leadership_count: u32,
    pub is_leader: bool,
    pub round: Option<RoundModel>,
}

/// Where the sample of `peer` stands in `samples`, or their number if there
/// is none.
pub open spec fn position_of(samples: Seq<SampleModel>, peer: Seq<u8>) -> int
    decreases samples.len(),
{
    if samples.len() == 0 {
        0
    } else if samples[0].peer == peer {
        0
    } else {
        1 + position_of(samples.skip(1), peer)
    }
}

/// The samples after `sample` is added: it takes the place of the sample of
/// the same peer, or comes last if there is none.
pub open spec fn with_sample(samples: Seq<SampleModel>, sample: SampleModel) -> Seq<SampleModel> {
    let at = position_of(samples, sample.peer);
    if at < samples.len() {
        samples.update(at, sample)
    } else {
        samples.push(sample)
    }
}

/// One more leadership; the count stops at the largest number it can hold.
pub open spec fn count_leadership(count: u32) -> u32 {
    if count < u32::MAX {
        (count + 1) as u32
    } else {
        count
    }
}

/// The utilization a node reports of itself: at most one hundred percent.
pub open spec fn capped(utilization: u32) -> u32 {
    if utilization <= MAX_UTILIZATION {
        utilization
    } else {
        MAX_UTILIZATION
    }
}

/// The end of a round: the elector ranks `samples` and acts on the result.
pub open spec fn decide(
    m: ElectorModel,
    requester: Seq<u8>,
    samples: Seq<SampleModel>,
) -> (ElectorModel, ElectionActionModel) {
    match winner(samples) {
        Some(w) => if w.peer == m.own_address {
            (
                ElectorModel {
                    leadership_count: count_leadership(m.leadership_count),
                    is_leader: true,
                    round: None,
                    ..m
                },
                ElectionActionModel::Announce {
                    to: requester,
                    message: leader_announcement(m.own_address),
                },
            )
        } else {
            (ElectorModel { is_leader: false, round: None, ..m }, ElectionActionModel::StandDown)
        },
        None => (
            ElectorModel { is_leader: false, round: None, ..m },
            ElectionActionModel::StandDown,
        ),
    }
}

/// The elector after a client's trigger. A trigger that arrives during a
/// round changes nothing.
pub open spec fn begin_step(m: ElectorModel, requester: Seq<u8>, utilization: u32) -> (
    ElectorModel,
    ElectionActionModel,
) {
    let own = SampleModel {
        peer: m.own_address,
        utilization: capped(utilization),
        leadership_count: m.leadership_count,
    };
    if m.round is Some {
        (m, ElectionActionModel::Nothing)
    } else if m.peer_count == 0 {
        decide(m, requester, seq![own])
    } else {
        (
            ElectorModel {
                round: Some(
                    RoundModel { requester, samples: seq![own], remaining: m.peer_count },
                ),
                ..m
            },
            ElectionActionModel::Broadcast(sample_message(own)),
        )
    }
}

/// The elector after one wait of a round ended with `samples` in hand.
pub open spec fn wait_over(m: ElectorModel, round: RoundModel, samples: Seq<SampleModel>) -> (
    ElectorModel,
    ElectionActionModel,
) {
    if round.remaining <= 1 {
        decide(m, round.requester, samples)
    } else {
        (
            ElectorModel {
                round: Some(
                    RoundModel {
                        requester: round.requester,
                        samples,
                        remaining: (round.remaining - 1) as nat,
                    },
                ),
                ..m
            },
            ElectionActionModel::Wait,
        )
    }
}

/// The elector after a datagram arrived during a wait.
pub open spec fn datagram_step(m: ElectorModel, datagram: Seq<u8>) -> (
    ElectorModel,
    ElectionActionModel,
) {
    match m.round {
        None => (m, ElectionActionModel::Nothing),
        Some(round) => match parsed_sample(datagram) {
            Some(sample) => wait_over(m, round, with_sample(round.samples, sample)),
            None => wait_over(m, round, round.samples),
        },
    }
}

/// The elector after a wait ran out.
pub open spec fn timeout_step(m: ElectorModel) -> (ElectorModel, ElectionActionModel) {
    match m.round {
        None => (m, ElectionActionModel::Nothing),
        Some(round) => wait_over(m, round, round.samples),
    }
}

/// A round in progress.
#[derive(Debug)]
struct Round {
    requester: Vec<u8>,
    samples: Vec<LoadSample>,
    remaining: usize,
}

/// The election state of one node.
#[derive(Debug)]
pub struct Elector {
    own_address: Vec<u8>,
    peer_count: usize,
    leadership_count: u32,
    is_leader: bool,
    round: Option<Round>,
}

impl View for Elector {
    type V = ElectorModel;

    closed spec fn view(&self) -> ElectorModel {
        ElectorModel {
            own_address: self.own_address@,
            peer_count: self.peer_count as nat,
            leadership_count: self.leadership_count,
            is_leader: self.is_leader,
            round: match self.round {
                None => None,
                Some(r) => Some(
                    RoundModel {
                        requester: r.requester@,
                        samples: sample_models(r.samples@),
                        remaining: r.remaining as nat,
                    },
                ),
            },
        }
    }
}

/// Adds `sample` to `samples`, in place of the sample of the same peer if
/// there is one.
pub fn add_sample(samples: &mut Vec<LoadSample>, sample: LoadSample)
    ensures
        sample_models(final(samples)@) == with_sample(sample_models(old(samples)@), sample@),
{
    let ghost before = sample_models(samples@);
    let mut i: usize = 0;
    assert(before.skip(0) =~= before);
    while i < samples.len()
        invariant
            i <= samples@.len(),
            samples@ == old(samples)@,
            before == sample_models(samples@),
            position_of(before, sample@.peer) == i + position_of(
                before.skip(i as int),
                sample@.peer,
            ),
        decreases samples@.len() - i,
    {
        proof {
            let tail = before.skip(i as int);
            assert(tail[0] == samples@[i as int]@);
            assert(tail.skip(1) =~= before.skip(i + 1));
        }
        if bytes_eq(samples[i].peer.as_slice(), sample.peer.as_slice()) {
            let ghost model = sample@;
            assert(position_of(before.skip(i as int), model.peer) == 0);
            samples.set(i, sample);
            assert(sample_models(samples@) =~= before.update(i as int, model));
            return ;
        }
        i = i + 1;
    }
    proof {
        assert(before.skip(i as int).len() == 0);
    }
    let ghost model = sample@;
    samples.push(sample);
    assert(sample_models(samples@) =~= before.push(model));
}

impl Elector {
    /// The elector of the node at `own_address`, which has `peer_count`
    /// peers. It has led no round and is in none.
    pub fn new(own_address: Vec<u8>, peer_count: usize) -> (e: Elector)
        ensures
            e@ == (ElectorModel {
                own_address: own_address@,
                peer_count: peer_count as nat,
                leadership_count: 0,
                is_leader: false,
                round: None,
            }),
    {
        Elector { own_address, peer_count, leadership_count: 0, is_leader: false, round: None }
    }

    /// Whether this node won the last round it decided.
    pub fn is_leader(&self) -> (b: bool)
        ensures
            b == self@.is_leader,
    {
        self.is_leader
    }

    /// How many rounds this node has won.
    pub fn leadership_count(&self) -> (n: u32)
        ensures
            n == self@.leadership_count,
    {
        self.leadership_count
    }

    /// Whether a round is in progress.
    pub fn in_round(&self) -> (b: bool)
        ensures
            b == self@.round is Some,
    {
        self.round.is_some()
    }

    /// Ranks `samples` and acts on the result.
    fn conclude(&mut self, requester: Vec<u8>, samples: Vec<LoadSample>) -> (action:
        ElectionAction)
        ensures
            (final(self)@, action@) == decide(
                ElectorModel { round: None, ..old(self)@ },
                requester@,
                sample_models(samples@),
            ),
    {
        self.round = None;
        match elect(&samples) {
            Some(i) => {
                if bytes_eq(samples[i].peer.as_slice(), self.own_address.as_slice()) {
                    if self.leadership_count < u32::MAX {
                        self.leadership_count = self.leadership_count + 1;
                    }
                    self.is_leader = true;
                    let message = format_leader_announcement(self.own_address.as_slice());
                    ElectionAction::Announce { to: requester, message }
                } else {
                    self.is_leader = false;
                    ElectionAction::StandDown
                }
            },
            None => {
                self.is_leader = false;
                ElectionAction::StandDown
            },
        }
    }

    /// Begins a round for the client at `requester`; `utilization` is this
    /// node's own load in millionths of a percent.
    pub fn begin_round(&mut self, requester: Vec<u8>, utilization: u32) -> (action:
        ElectionAction)
        ensures
            (final(self)@, action@) == begin_step(old(self)@, requester@, utilization),
    {
        if self.round.is_some() {
            return ElectionAction::Nothing;
        }
        let own = LoadSample {
            peer: copy_bytes(self.own_address.as_slice()),
            utilization: if utilization <= MAX_UTILIZATION {
                utilization
            } else {
                MAX_UTILIZATION
            },
            leadership_count: self.leadership_count,
        };
        let message = format_sample(&own);
        let mut samples: Vec<LoadSample> = Vec::new();
        let ghost model = own@;
        samples.push(own);
        assert(sample_models(samples@) =~= seq![model]);
        if self.peer_count == 0 {
            self.conclude(requester, samples)
        } else {
            self.round = Some(Round { requester, samples, remaining: self.peer_count });
            ElectionAction::Broadcast(message)
        }
    }

    /// Ends one wait of the round with `samples` in hand.
    fn end_wait(&mut self, requester: Vec<u8>, samples: Vec<LoadSample>, remaining: usize) -> (
        action: ElectionAction)
        ensures
            (final(self)@, action@) == wait_over(
                ElectorModel { round: None, ..old(self)@ },
                RoundModel {
                    requester: requester@,
                    samples: sample_models(samples@),
                    remaining: remaining as nat,
                },
                sample_models(samples@),
            ),
    {
        if remaining <= 1 {
            self.conclude(requester, samples)
        } else {
            self.round = Some(Round { requester, samples, remaining: remaining - 1 });
            ElectionAction::Wait
        }
    }

    /// Handles a datagram that arrived during a wait of the round.
    pub fn on_datagram(&mut self, datagram: &[u8]) -> (action: ElectionAction)
        ensures
            (final(self)@, action@) == datagram_step(old(self)@, datagram@),
    {
        match self.round.take() {
            None => ElectionAction::Nothing,
            Some(round) => {
                let Round { requester, samples, remaining } = round;
                let mut samples = samples;
                match parse_sample(datagram) {
                    Some(sample) => {
                        add_sample(&mut samples, sample);
                    },
                    None => {},
                }
                self.end_wait(requester, samples, remaining)
            },
        }
    }

    /// Handles the end of a wait in which no datagram came.
    pub fn on_timeout(&mut self) -> (action: ElectionAction)
        ensures
            (final(self)@, action@) == timeout_step(old(self)@),
    {
        match self.round.take() {
            None => ElectionAction::Nothing,
            Some(round) => {
                let Round { requester, samples, remaining } = round;
                self.end_wait(requester, samples, remaining)
            },
        }
    }
}

/// The sample of `peer` stands at its position, and where the position is
/// the number of samples no sample is of `peer`.
pub proof fn lemma_position_of(samples: Seq<SampleModel>, peer: Seq<u8>)
    ensures
        0 <= position_of(samples, peer) <= samples.len(),
        position_of(samples, peer) < samples.len() ==> samples[position_of(samples, peer)].peer
            == peer,
        forall|i: int| 0 <= i < position_of(samples, peer) ==> (#[trigger] samples[i]).peer != peer,
    decreases samples.len(),
{
    if samples.len() > 0 && samples[0].peer != peer {
        let rest = samples.skip(1);
        lemma_position_of(rest, peer);
        let at = position_of(rest, peer);
        if at < rest.len() {
            assert(rest[at] == samples[at + 1]);
        }
        assert forall|i: int| 0 <= i < 1 + at implies (#[trigger] samples[i]).peer != peer by {
            if i > 0 {
                assert(rest[i - 1] == samples[i]);
            }
        }
    }
}

/// The samples of a round hold one sample for each peer: adding a sample to
/// samples of distinct peers leaves them of distinct peers, with the new
/// sample among them.
pub proof fn lemma_one_sample_per_peer(samples: Seq<SampleModel>, sample: SampleModel)
    requires
        distinct_peers(samples),
    ensures
        distinct_peers(with_sample(samples, sample)),
        with_sample(samples, sample).contains(sample),
{
    lemma_position_of(samples, sample.peer);
    let at = position_of(samples, sample.peer);
    let next = with_sample(samples, sample);
    if at < samples.len() {
        assert(next[at] == sample);
        assert forall|i: int, j: int| 0 <= i < j < next.len() implies (#[trigger] next[i]).peer != (
        #[trigger] next[j]).peer by {
            assert(samples[i].peer != samples[j].peer);
        }
    } else {
        assert(next[samples.len() as int] == sample);
        assert forall|i: int, j: int| 0 <= i < j < next.len() implies (#[trigger] next[i]).peer != (
        #[trigger] next[j]).peer by {
            if j < samples.len() {
                assert(samples[i].peer != samples[j].peer);
            } else {
                assert(samples[i].peer != sample.peer);
            }
        }
    }
}

/// Every wait brings the round nearer its end: after a datagram or a
/// timeout the round is over or has one wait fewer to come. A round of `n`
/// waits is therefore over after `n` of them, whether peers answer or not.
pub proof fn lemma_round_is_bounded(m: ElectorModel, datagram: Option<Seq<u8>>)
    requires
        m.round is Some,
    ensures
        ({
            let next = match datagram {
                Some(d) => datagram_step(m, d).0,
                None => timeout_step(m).0,
            };
            next.round matches Some(round) ==> round.remaining + 1 == m.round.unwrap().remaining
        }),
{
}

/// A node counts a leadership exactly when it announces itself: the count
/// grows by one with the announcement and stays in every other case.
pub proof fn lemma_count_follows_announcement(
    m: ElectorModel,
    requester: Seq<u8>,
    samples: Seq<SampleModel>,
)
    ensures
        ({
            let (next, action) = decide(m, requester, samples);
            &&& next.round is None
            &&& action is Announce <==> next.is_leader
            &&& action is Announce ==> next.leadership_count == count_leadership(
                m.leadership_count,
            )
            &&& !(action is Announce) ==> next.leadership_count == m.leadership_count
            &&& action is Announce || action is StandDown
        }),
{
}

} // verus!
