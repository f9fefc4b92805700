//! Load samples and the ranking that picks a leader among them.
//!
//! A sample is ranked by the triple (utilization, leadership count, peer
//! address): the lowest utilization wins, then the lowest leadership count,
//! then the address that comes first byte by byte.

use crate::bytes::{
    bytes_before, bytes_lt, copy_bytes, lemma_bytes_before_irreflexive, lemma_bytes_before_total,
    lemma_bytes_before_transitive,
};
use vstd::prelude::*;

verus! {

/// Utilization is held in millionths of a percent.
pub const UTILIZATION_SCALE: u32 = 1_000_000;

/// One hundred percent, the highest utilization a sample may report.
pub const MAX_UTILIZATION: u32 = 100_000_000;

/// What one peer reports of itself for one election round.
#[derive(Debug)]
pub struct LoadSample {
    /// The peer's address, `host:port`, as ASCII bytes.
    pub peer: Vec<u8>,
    /// Processor load in millionths of a percent.
    pub utilization: u32,
    /// How often the peer has led so far.
    pub leadership_count: u32,
}

/// A load sample as plain values.
pub struct SampleModel {
    pub peer: Seq<u8>,
    pub utilization: u32,
    pub leadership_count: u32,
}

impl View for LoadSample {
    type V = SampleModel;

    open spec fn view(&self) -> SampleModel {
        SampleModel {
            peer: self.peer@,
            utilization: self.utilization,
            leadership_count: self.leadership_count,
        }
    }
}

impl LoadSample {
    /// A sample is well formed when its utilization is at most one hundred
    /// percent.
    pub open spec fn wf(&self) -> bool {
        self.utilization <= MAX_UTILIZATION
    }
}

/// `a` ranks strictly before `b`.
pub open spec fn ranks_before(a: SampleModel, b: SampleModel) -> bool {
    if a.utilization != b.utilization {
        a.utilization < b.utilization
    } else if a.leadership_count != b.leadership_count {
        a.leadership_count < b.leadership_count
    } else {
        bytes_before(a.peer, b.peer)
    }
}

/// `w` is in `samples` and no sample of another peer ranks before it.
pub open spec fn is_winner(samples: Seq<SampleModel>, w: SampleModel) -> bool {
    &&& samples.contains(w)
    &&& forall|i: int| 0 <= i < samples.len() ==> !ranks_before(#[trigger] samples[i], w)
}

/// The position of the winning sample among the first `n` of `samples`:
/// the first one that no other ranks before.
pub open spec fn winner_index(samples: Seq<SampleModel>, n: nat) -> int
    recommends
        0 < n <= samples.len(),
    decreases n,
{
    if n <= 1 {
        0
    } else {
        let best = winner_index(samples, (n - 1) as nat);
        if ranks_before(samples[n - 1], samples[best]) {
            n - 1
        } else {
            best
        }
    }
}

/// The sample that wins the election over `samples`, if there is any
/// sample at all.
pub open spec fn winner(samples: Seq<SampleModel>) -> Option<SampleModel> {
    if samples.len() == 0 {
        None
    } else {
        Some(samples[winner_index(samples, samples.len())])
    }
}

/// No two peers in `samples` share an address.
pub open spec fn distinct_peers(samples: Seq<SampleModel>) -> bool {
    forall|i: int, j: int|
        0 <= i < j < samples.len() ==> (#[trigger] samples[i]).peer != (#[trigger] samples[j]).peer
}

/// The ranking is a strict total order on samples: no sample ranks before
/// itself, the ranking is transitive, and of two different samples exactly
/// one ranks before the other.
pub proof fn lemma_ranking_strict_total(a: SampleModel, b: SampleModel, c: SampleModel)
    ensures
        !ranks_before(a, a),
        ranks_before(a, b) && ranks_before(b, c) ==> ranks_before(a, c),
        a == b || ranks_before(a, b) || ranks_before(b, a),
        !(ranks_before(a, b) && ranks_before(b, a)),
{
    lemma_bytes_before_irreflexive(a.peer);
    lemma_bytes_before_total(a.peer, b.peer);
    if ranks_before(a, b) && ranks_before(b, c) {
        if a.utilization == b.utilization && b.utilization == c.utilization
            && a.leadership_count == b.leadership_count && b.leadership_count
            == c.leadership_count {
            lemma_bytes_before_transitive(a.peer, b.peer, c.peer);
        }
    }
}

/// A lower utilization always ranks first; with equal utilization the lower
/// leadership count ranks first; with both equal the address decides.
pub proof fn lemma_ranking_by_fields(a: SampleModel, b: SampleModel)
    ensures
        a.utilization < b.utilization ==> ranks_before(a, b),
        a.utilization == b.utilization && a.leadership_count < b.leadership_count ==> ranks_before(
            a,
            b,
        ),
        a.utilization == b.utilization && a.leadership_count == b.leadership_count ==> (
        ranks_before(a, b) <==> bytes_before(a.peer, b.peer)),
{
}

/// The sample at `winner_index` is among the first `n` and none of them
/// ranks before it.
pub proof fn lemma_winner_index_minimal(samples: Seq<SampleModel>, n: nat)
    requires
        0 < n <= samples.len(),
    ensures
        0 <= winner_index(samples, n) < n,
        forall|i: int|
            0 <= i < n ==> !ranks_before(#[trigger] samples[i], samples[winner_index(samples, n)]),
    decreases n,
{
    if n > 1 {
        let prev = (n - 1) as nat;
        lemma_winner_index_minimal(samples, prev);
        let best = winner_index(samples, prev);
        let now = winner_index(samples, n);
        assert forall|i: int| 0 <= i < n implies !ranks_before(
            #[trigger] samples[i],
            samples[now],
        ) by {
            lemma_ranking_strict_total(samples[i], samples[n - 1], samples[best]);
            lemma_ranking_strict_total(samples[n - 1], samples[best], samples[n - 1]);
        }
    } else {
        lemma_ranking_strict_total(samples[0], samples[0], samples[0]);
    }
}

/// The election has a winner exactly when there is a sample, and the winner
/// is a sample that none ranks before.
pub proof fn lemma_winner_is_winner(samples: Seq<SampleModel>)
    ensures
        winner(samples) is None <==> samples.len() == 0,
        winner(samples) matches Some(w) ==> is_winner(samples, w),
{
    if samples.len() > 0 {
        lemma_winner_index_minimal(samples, samples.len());
    }
}

/// The winner is unique: a sample that none ranks before is the one the
/// election returns, whatever the order in which the samples were collected.
pub proof fn lemma_winner_unique(samples: Seq<SampleModel>, w: SampleModel)
    requires
        is_winner(samples, w),
    ensures
        winner(samples) == Some(w),
{
    lemma_winner_is_winner(samples);
    let v = winner(samples).unwrap();
    let i = choose|i: int| 0 <= i < samples.len() && samples[i] == w;
    let j = choose|j: int| 0 <= j < samples.len() && samples[j] == v;
    assert(!ranks_before(samples[i], v));
    assert(!ranks_before(samples[j], w));
    lemma_ranking_strict_total(v, w, v);
}

/// Two nodes that collected the same samples, in whatever order, elect the
/// same leader.
pub proof fn lemma_election_deterministic(first: Seq<SampleModel>, second: Seq<SampleModel>)
    requires
        forall|s: SampleModel| first.contains(s) <==> second.contains(s),
    ensures
        winner(first) == winner(second),
{
    lemma_winner_is_winner(first);
    lemma_winner_is_winner(second);
    if first.len() == 0 {
        if second.len() > 0 {
            assert(second.contains(second[0]));
            assert(first.contains(second[0]));
        }
    } else {
        let w = winner(first).unwrap();
        assert(second.contains(w));
        assert forall|i: int| 0 <= i < second.len() implies !ranks_before(
            #[trigger] second[i],
            w,
        ) by {
            assert(second.contains(second[i]));
            let k = choose|k: int| 0 <= k < first.len() && first[k] == second[i];
            assert(!ranks_before(first[k], w));
        }
        lemma_winner_unique(second, w);
    }
}

impl LoadSample {
    /// Whether this sample ranks strictly before `other`.
    pub fn ranks_before(&self, other: &LoadSample) -> (r: bool)
        ensures
            r == ranks_before(self@, other@),
    {
        if self.utilization != other.utilization {
            self.utilization < other.utilization
        } else if self.leadership_count != other.leadership_count {
            self.leadership_count < other.leadership_count
        } else {
            bytes_lt(self.peer.as_slice(), other.peer.as_slice())
        }
    }

    /// A copy of this sample.
    pub fn duplicate(&self) -> (r: LoadSample)
        ensures
            r@ == self@,
    {
        LoadSample {
            peer: copy_bytes(self.peer.as_slice()),
            utilization: self.utilization,
            leadership_count: self.leadership_count,
        }
    }
}

/// The samples of `v` as plain values.
pub open spec fn sample_models(v: Seq<LoadSample>) -> Seq<SampleModel> {
    v.map_values(|s: LoadSample| s@)
}

/// The position of the sample that wins over `samples`: the one that no
/// other ranks before. There is none exactly when there is no sample.
pub fn elect(samples: &Vec<LoadSample>) -> (r: Option<usize>)
    ensures
        r is None <==> samples@.len() == 0,
        r matches Some(i) ==> {
            &&& i < samples@.len()
            &&& winner(sample_models(samples@)) == Some(samples@[i as int]@)
            &&& is_winner(sample_models(samples@), samples@[i as int]@)
        },
{
    if samples.len() == 0 {
        return None;
    }
    let ghost models = sample_models(samples@);
    let mut best: usize = 0;
    let mut n: usize = 1;
    while n < samples.len()
        invariant
            1 <= n <= samples@.len(),
            models == sample_models(samples@),
            best == winner_index(models, n as nat),
            best < n,
        decreases samples@.len() - n,
    {
        if samples[n].ranks_before(&samples[best]) {
            best = n;
        }
        n = n + 1;
    }
    proof {
        lemma_winner_is_winner(models);
    }
    Some(best)
}

} // verus!
