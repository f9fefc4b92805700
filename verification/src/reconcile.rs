//! The receiving side of a best-effort transfer with reconciliation.
//!
//! Chunks arrive without acknowledgment, in any order and with losses. The
//! receiver files each under its sequence number in a map, so that a stray
//! high number costs no more room than the chunk it brings; a number that is
//! filled already stays as it is. When the terminal marker arrives the
//! receiver lists the numbers below the highest seen that are still empty,
//! asks for exactly those, and files the second wave as it did the first.

use crate::chunk::{decode_chunk, sequence_of};
use crate::receiver::{end_bytes, is_data_frame, is_end_marker};
use crate::sender::{chunk_count, chunk_data, chunks_joined, lemma_chunks_cover_payload};
use std::collections::HashMap;
use vstd::prelude::*;

verus! {

broadcast use vstd::std_specs::hash::group_hash_axioms;

/// What is filed under each sequence number from 0 to the highest seen.
pub type Slots = Seq<Option<Seq<u8>>>;

/// The slots after `data` is filed under `k`: a filled slot stays as it is.
pub open spec fn store_insert(m: Slots, k: nat, data: Seq<u8>) -> Slots {
    if k < m.len() {
        if m[k as int] is Some {
            m
        } else {
            m.update(k as int, Some(data))
        }
    } else {
        (m + Seq::new((k - m.len()) as nat, |i: int| None::<Seq<u8>>)).push(Some(data))
    }
}

/// The empty sequence numbers below `n`, ascending.
pub open spec fn missing_below(m: Slots, n: nat) -> Seq<u32>
    decreases n,
{
    if n == 0 {
        Seq::empty()
    } else {
        let rest = missing_below(m, (n - 1) as nat);
        if m[n - 1] is None {
            rest.push((n - 1) as u32)
        } else {
            rest
        }
    }
}

/// The empty sequence numbers up to the highest seen, ascending.
pub open spec fn missing_of(m: Slots) -> Seq<u32> {
    missing_below(m, m.len())
}

/// What the first `n` slots hold, joined in order; an empty slot adds
/// nothing.
pub open spec fn joined_below(m: Slots, n: nat) -> Seq<u8>
    decreases n,
{
    if n == 0 {
        Seq::empty()
    } else {
        let rest = joined_below(m, (n - 1) as nat);
        match m[n - 1] {
            Some(data) => rest + data,
            None => rest,
        }
    }
}

/// No slot is empty.
pub open spec fn is_complete(m: Slots) -> bool {
    forall|i: int| 0 <= i < m.len() ==> (#[trigger] m[i]) is Some
}

/// The whole stream, once no slot is empty.
pub open spec fn assembled(m: Slots) -> Option<Seq<u8>> {
    if is_complete(m) {
        Some(joined_below(m, m.len()))
    } else {
        None
    }
}

/// The slots after each chunk of `payload` named in `keys` was filed, in the
/// order of `keys`.
pub open spec fn store_chunks(m: Slots, payload: Seq<u8>, keys: Seq<u32>) -> Slots
    decreases keys.len(),
{
    if keys.len() == 0 {
        m
    } else {
        store_insert(
            store_chunks(m, payload, keys.drop_last()),
            keys.last() as nat,
            chunk_data(payload, keys.last() as nat),
        )
    }
}

/// Every filled slot of `m` holds the chunk of `payload` with its number.
pub open spec fn holds_chunks_of(m: Slots, payload: Seq<u8>) -> bool {
    forall|i: int|
        0 <= i < m.len() ==> ((#[trigger] m[i]) matches Some(data) ==> data == chunk_data(
            payload,
            i as nat,
        ))
}

/// The chunks received so far, held under their sequence numbers. Only the
/// numbers that were filed take room.
#[derive(Debug)]
pub struct GapSet {
    chunks: HashMap<u32, Vec<u8>>,
    /// One more than the highest number filed; 0 when none was.
    span: u64,
}

impl View for GapSet {
    type V = Slots;

    closed spec fn view(&self) -> Slots {
        Seq::new(
            self.span as nat,
            |i: int|
                if self.chunks@.contains_key(i as u32) {
                    Some(self.chunks@[i as u32]@)
                } else {
                    None
                },
        )
    }
}

impl GapSet {
    /// Every number filed lies below the span, and the span reaches no
    /// further than the sequence numbers there are.
    pub closed spec fn wf(&self) -> bool {
        &&& self.span <= 0x1_0000_0000
        &&& forall|k: u32| self.chunks@.contains_key(k) ==> k < self.span
    }

    /// A store in which nothing is filed.
    pub fn new() -> (s: GapSet)
        ensures
            s.wf(),
            s@ == Seq::<Option<Seq<u8>>>::empty(),
    {
        let s = GapSet { chunks: HashMap::new(), span: 0 };
        assert(s@ =~= Seq::<Option<Seq<u8>>>::empty());
        s
    }

    /// Files `data` under `sequence` unless that number is filled already.
    /// Returns whether the data was filed.
    pub fn insert(&mut self, sequence: u32, data: Vec<u8>) -> (filed: bool)
        requires
            old(self).wf(),
        ensures
            final(self).wf(),
            final(self)@ == store_insert(old(self)@, sequence as nat, data@),
            filed == !(sequence < old(self)@.len() && old(self)@[sequence as int] is Some),
    {
        let ghost before = self@;
        if self.chunks.contains_key(&sequence) {
            return false;
        }
        let ghost bytes = data@;
        self.chunks.insert(sequence, data);
        if sequence as u64 >= self.span {
            self.span = sequence as u64 + 1;
        }
        assert(self@ =~= store_insert(before, sequence as nat, bytes));
        true
    }

    /// One more than the highest sequence number seen; 0 when none was.
    pub fn span(&self) -> (n: u64)
        ensures
            n == self@.len(),
    {
        self.span
    }

    /// Whether `sequence` is filled.
    pub fn contains(&self, sequence: u32) -> (b: bool)
        requires
            self.wf(),
        ensures
            b == (sequence < self@.len() && self@[sequence as int] is Some),
    {
        self.chunks.contains_key(&sequence)
    }

    /// The empty sequence numbers up to the highest seen, ascending.
    pub fn missing(&self) -> (gaps: Vec<u32>)
        requires
            self.wf(),
        ensures
            gaps@ == missing_of(self@),
    {
        let mut gaps: Vec<u32> = Vec::new();
        let mut i: u64 = 0;
        while i < self.span
            invariant
                i <= self.span <= 0x1_0000_0000,
                self.span == self@.len(),
                gaps@ == missing_below(self@, i as nat),
            decreases self.span - i,
        {
            let k = i as u32;
            if !self.chunks.contains_key(&k) {
                assert(self@[i as int] is None);
                gaps.push(k);
            } else {
                assert(self@[i as int] is Some);
            }
            i = i + 1;
        }
        gaps
    }

    /// The whole stream in order, once no sequence number up to the highest
    /// seen is empty; `None` while one is.
    pub fn assemble(&self) -> (out: Option<Vec<u8>>)
        requires
            self.wf(),
        ensures
            out is Some <==> is_complete(self@),
            out matches Some(bytes) ==> Some(bytes@) == assembled(self@),
    {
        let mut bytes: Vec<u8> = Vec::new();
        let mut i: u64 = 0;
        while i < self.span
            invariant
                i <= self.span <= 0x1_0000_0000,
                self.span == self@.len(),
                bytes@ == joined_below(self@, i as nat),
                forall|j: int| 0 <= j < i ==> (#[trigger] self@[j]) is Some,
            decreases self.span - i,
        {
            let k = i as u32;
            match self.chunks.get(&k) {
                None => {
                    assert(self@[i as int] is None);
                    return None;
                },
                Some(data) => {
                    let ghost before = bytes@;
                    let mut j: usize = 0;
                    while j < data.len()
                        invariant
                            j <= data@.len(),
                            bytes@ == before + data@.subrange(0, j as int),
                        decreases data@.len() - j,
                    {
                        bytes.push(data[j]);
                        j = j + 1;
                        assert(bytes@ =~= before + data@.subrange(0, j as int));
                    }
                    assert(data@.subrange(0, j as int) =~= data@);
                    assert(self@[i as int] == Some(data@));
                },
            }
            i = i + 1;
        }
        Some(bytes)
    }
}

/// Filing one list of chunks after another is filing the two lists joined.
pub proof fn lemma_store_chunks_split(m: Slots, payload: Seq<u8>, a: Seq<u32>, b: Seq<u32>)
    ensures
        store_chunks(m, payload, a + b) == store_chunks(store_chunks(m, payload, a), payload, b),
    decreases b.len(),
{
    if b.len() == 0 {
        assert(a + b =~= a);
    } else {
        lemma_store_chunks_split(m, payload, a, b.drop_last());
        assert((a + b).drop_last() =~= a + b.drop_last());
        assert((a + b).last() == b.last());
    }
}

/// After the chunks named in `keys` were filed in an empty store, the store
/// spans up to the highest of them, a slot is filled exactly when its number
/// is among `keys`, and a filled slot holds the chunk with its number.
pub proof fn lemma_store_chunks_slots(payload: Seq<u8>, keys: Seq<u32>)
    ensures
        ({
            let m = store_chunks(Seq::empty(), payload, keys);
            &&& forall|j: int| 0 <= j < keys.len() ==> (#[trigger] keys[j]) < m.len()
            &&& forall|i: int|
                0 <= i < m.len() ==> (#[trigger] m[i]) == (if keys.contains(i as u32) {
                    Some(chunk_data(payload, i as nat))
                } else {
                    None
                })
            &&& m.len() <= 0x1_0000_0000
            &&& m.len() > 0 ==> keys.contains((m.len() - 1) as u32)
        }),
    decreases keys.len(),
{
    if keys.len() > 0 {
        let rest = keys.drop_last();
        let k = keys.last();
        lemma_store_chunks_slots(payload, rest);
        let r = store_chunks(Seq::empty(), payload, rest);
        let m = store_chunks(Seq::empty(), payload, keys);
        assert(m == store_insert(r, k as nat, chunk_data(payload, k as nat)));
        assert(keys =~= rest.push(k));
        assert forall|j: int| 0 <= j < keys.len() implies (#[trigger] keys[j]) < m.len() by {
            if j < rest.len() {
                assert(rest[j] == keys[j]);
            }
        }
        assert forall|i: int| 0 <= i < m.len() implies (#[trigger] m[i]) == (if keys.contains(
            i as u32,
        ) {
            Some(chunk_data(payload, i as nat))
        } else {
            None
        }) by {
            if i == k {
                assert(keys[keys.len() - 1] == k);
                if k < r.len() && r[k as int] is Some {
                    assert(rest.contains(k));
                }
            } else {
                if keys.contains(i as u32) {
                    let j = choose|j: int| 0 <= j < keys.len() && keys[j] == i as u32;
                    assert(rest[j] == i as u32);
                    assert(rest[j] < r.len());
                }
                if i < r.len() {
                    assert(m[i] == r[i]);
                    if rest.contains(i as u32) {
                        let j = choose|j: int| 0 <= j < rest.len() && rest[j] == i as u32;
                        assert(keys[j] == i as u32);
                    }
                }
            }
        }
        if m.len() > 0 {
            if k < r.len() {
                let j = choose|j: int| 0 <= j < rest.len() && rest[j] == (r.len() - 1) as u32;
                assert(keys[j] == (m.len() - 1) as u32);
            } else {
                assert(keys[keys.len() - 1] == (m.len() - 1) as u32);
            }
        }
    }
}

/// The list of gaps names exactly the empty slots, each once, ascending.
pub proof fn lemma_missing_below(m: Slots, n: nat)
    requires
        n <= m.len() <= 0x1_0000_0000,
    ensures
        forall|k: u32| #[trigger]
            missing_below(m, n).contains(k) <==> (k < n && m[k as int] is None),
        forall|i: int, j: int|
            0 <= i < j < missing_below(m, n).len() ==> (#[trigger] missing_below(m, n)[i]) < (
            #[trigger] missing_below(m, n)[j]),
        forall|i: int|
            0 <= i < missing_below(m, n).len() ==> (#[trigger] missing_below(m, n)[i]) < n,
    decreases n,
{
    if n > 0 {
        let p = (n - 1) as nat;
        lemma_missing_below(m, p);
        let rest = missing_below(m, p);
        let now = missing_below(m, n);
        if m[n - 1] is None {
            assert(now == rest.push(p as u32));
            assert forall|k: u32| #[trigger] now.contains(k) <==> (k < n && m[k as int] is None) by {
                if now.contains(k) {
                    let i = choose|i: int| 0 <= i < now.len() && now[i] == k;
                    if i < rest.len() {
                        assert(rest[i] == k);
                        assert(rest.contains(k));
                    }
                }
                if k < n && m[k as int] is None {
                    if k == p {
                        assert(now[now.len() - 1] == k);
                    } else {
                        assert(rest.contains(k));
                        let i = choose|i: int| 0 <= i < rest.len() && rest[i] == k;
                        assert(now[i] == k);
                    }
                }
            }
        } else {
            assert(now == rest);
        }
    }
}

/// Where every slot below `n` holds the chunk of `payload` with its number,
/// the slots joined are the chunks joined.
pub proof fn lemma_joined_chunks(m: Slots, payload: Seq<u8>, n: nat)
    requires
        n <= m.len(),
        forall|i: int| 0 <= i < n ==> (#[trigger] m[i]) == Some(chunk_data(payload, i as nat)),
    ensures
        joined_below(m, n) == chunks_joined(payload, n),
    decreases n,
{
    if n > 0 {
        lemma_joined_chunks(m, payload, (n - 1) as nat);
        assert(m[n - 1] == Some(chunk_data(payload, (n - 1) as nat)));
    }
}

/// Reconciliation is complete. Let the chunks of a payload named in `first`
/// arrive, in any order and however often, the last chunk among them. Then
/// the gaps listed at the terminal marker are exactly the chunks that did
/// not arrive, each once and ascending, and once those are filed too the
/// assembled stream is the payload, byte for byte.
pub proof fn lemma_reconciliation_complete(payload: Seq<u8>, first: Seq<u32>)
    requires
        0 < chunk_count(payload.len()) <= 0x1_0000_0000,
        forall|j: int| 0 <= j < first.len() ==> (#[trigger] first[j]) < chunk_count(payload.len()),
        first.contains((chunk_count(payload.len()) - 1) as u32),
    ensures
        ({
            let arrived = store_chunks(Seq::empty(), payload, first);
            let gaps = missing_of(arrived);
            let filled = store_chunks(arrived, payload, gaps);
            &&& forall|k: u32| #[trigger]
                gaps.contains(k) <==> (k < chunk_count(payload.len()) && !first.contains(k))
            &&& forall|i: int, j: int|
                0 <= i < j < gaps.len() ==> (#[trigger] gaps[i]) < (#[trigger] gaps[j])
            &&& assembled(filled) == Some(payload)
        }),
{
    let n = chunk_count(payload.len());
    let arrived = store_chunks(Seq::empty(), payload, first);
    let gaps = missing_of(arrived);
    let filled = store_chunks(arrived, payload, gaps);
    let last = (n - 1) as u32;
    lemma_store_chunks_slots(payload, first);
    let w = choose|j: int| 0 <= j < first.len() && first[j] == last;
    assert(first[w] < arrived.len());
    assert(arrived.len() == n) by {
        let top = (arrived.len() - 1) as u32;
        assert(first.contains(top));
        let t = choose|t: int| 0 <= t < first.len() && first[t] == top;
        assert(first[t] < n);
    }
    lemma_missing_below(arrived, arrived.len());
    assert forall|k: u32| #[trigger]
        gaps.contains(k) <==> (k < n && !first.contains(k)) by {
        if k < n {
            assert(arrived[k as int] == (if first.contains(k) {
                Some(chunk_data(payload, k as nat))
            } else {
                None
            }));
        }
    }
    let all = first + gaps;
    lemma_store_chunks_split(Seq::empty(), payload, first, gaps);
    lemma_store_chunks_slots(payload, all);
    assert(filled == store_chunks(Seq::empty(), payload, all));
    assert(all[w] == last);
    assert(all[w] < filled.len());
    assert(filled.len() == n) by {
        let top = (filled.len() - 1) as u32;
        assert(all.contains(top));
        let t = choose|t: int| 0 <= t < all.len() && all[t] == top;
        if t < first.len() {
            assert(first[t] < n);
        } else {
            assert(gaps[t - first.len()] < n);
        }
    }
    assert forall|i: int| 0 <= i < n implies (#[trigger] filled[i]) == Some(
        chunk_data(payload, i as nat),
    ) by {
        let k = i as u32;
        if first.contains(k) {
            let t = choose|t: int| 0 <= t < first.len() && first[t] == k;
            assert(all[t] == k);
        } else {
            assert(gaps.contains(k));
            let t = choose|t: int| 0 <= t < gaps.len() && gaps[t] == k;
            assert(all[first.len() + t] == k);
        }
        assert(all.contains(k));
    }
    lemma_joined_chunks(filled, payload, n);
    lemma_chunks_cover_payload(payload, n);
}

/// What the caller does after handing a datagram to the receiver.
#[derive(Debug)]
pub enum ReconcileAction {
    /// A chunk was filed, or was there already: nothing is sent.
    Filed,
    /// The datagram is no data frame: nothing is sent.
    Ignore,
    /// The terminal marker arrived and chunks are missing: ask for each of
    /// these sequence numbers with one datagram.
    Request(Vec<u32>),
    /// Nothing is missing: acknowledge once; this is the whole stream.
    Deliver(Vec<u8>),
}

/// A reconcile action as plain values.
pub enum ReconcileActionModel {
    Filed,
    Ignore,
    Request(Seq<u32>),
    Deliver(Seq<u8>),
}

impl View for ReconcileAction {
    type V = ReconcileActionModel;

    open spec fn view(&self) -> ReconcileActionModel {
        match self {
            ReconcileAction::Filed => ReconcileActionModel::Filed,
            ReconcileAction::Ignore => ReconcileActionModel::Ignore,
            ReconcileAction::Request(gaps) => ReconcileActionModel::Request(gaps@),
            ReconcileAction::Deliver(bytes) => ReconcileActionModel::Deliver(bytes@),
        }
    }
}

/// The receiver's state as plain values.
pub struct ReconcileModel {
    pub slots: Slots,
    /// The terminal marker has arrived.
    pub ended: bool,
    /// The stream was handed over.
    pub delivered: bool,
}

/// What is handed over or asked for once the terminal marker has arrived.
pub open spec fn settle(m: ReconcileModel) -> (ReconcileModel, ReconcileActionModel) {
    match assembled(m.slots) {
        Some(bytes) => (
            ReconcileModel { delivered: true, ..m },
            ReconcileActionModel::Deliver(bytes),
        ),
        None => (m, ReconcileActionModel::Request(missing_of(m.slots))),
    }
}

/// The receiver after `datagram`, and what the caller is told to do. Before
/// the terminal marker a data frame is filed in silence. The marker, the
/// first time and again whenever it is repeated, is answered with the list
/// of gaps, or with the stream when there is none. After the marker a data
/// frame is filed, and the stream is handed over as soon as it is whole.
pub open spec fn reconcile_step(m: ReconcileModel, datagram: Seq<u8>) -> (
    ReconcileModel,
    ReconcileActionModel,
) {
    if m.delivered {
        (m, ReconcileActionModel::Ignore)
    } else if datagram == end_bytes() {
        settle(ReconcileModel { ended: true, ..m })
    } else if !is_data_frame(datagram) {
        (m, ReconcileActionModel::Ignore)
    } else {
        let filed = ReconcileModel {
            slots: store_insert(
                m.slots,
                sequence_of(datagram.subrange(0, 4)) as nat,
                datagram.subrange(4, datagram.len() as int),
            ),
            ..m
        };
        if m.ended && is_complete(filed.slots) {
            settle(filed)
        } else {
            (filed, ReconcileActionModel::Filed)
        }
    }
}

/// The receiving side of a best-effort transfer.
#[derive(Debug)]
pub struct ReconcileReceiver {
    store: GapSet,
    ended: bool,
    delivered: bool,
}

impl View for ReconcileReceiver {
    type V = ReconcileModel;

    closed spec fn view(&self) -> ReconcileModel {
        ReconcileModel { slots: self.store@, ended: self.ended, delivered: self.delivered }
    }
}

impl ReconcileReceiver {
    /// The store spans no more slots than there are sequence numbers.
    pub closed spec fn wf(&self) -> bool {
        self.store.wf()
    }

    /// A receiver that has seen nothing.
    pub fn new() -> (r: ReconcileReceiver)
        ensures
            r.wf(),
            r@ == (ReconcileModel { slots: Seq::empty(), ended: false, delivered: false }),
    {
        ReconcileReceiver { store: GapSet::new(), ended: false, delivered: false }
    }

    /// Hands over the stream or lists the gaps.
    fn settle(&mut self) -> (action: ReconcileAction)
        requires
            old(self).wf(),
        ensures
            final(self).wf(),
            (final(self)@, action@) == settle(old(self)@),
    {
        match self.store.assemble() {
            Some(bytes) => {
                self.delivered = true;
                ReconcileAction::Deliver(bytes)
            },
            None => ReconcileAction::Request(self.store.missing()),
        }
    }

    /// Handles one inbound datagram.
    pub fn on_datagram(&mut self, datagram: &[u8]) -> (action: ReconcileAction)
        requires
            old(self).wf(),
        ensures
            final(self).wf(),
            (final(self)@, action@) == reconcile_step(old(self)@, datagram@),
    {
        if self.delivered {
            return ReconcileAction::Ignore;
        }
        if is_end_marker(datagram) {
            self.ended = true;
            return self.settle();
        }
        match decode_chunk(datagram) {
            Err(_) => ReconcileAction::Ignore,
            Ok(chunk) => {
                let crate::chunk::Chunk { sequence, data } = chunk;
                self.store.insert(sequence, data);
                if self.ended && self.store.assemble().is_some() {
                    self.settle()
                } else {
                    ReconcileAction::Filed
                }
            },
        }
    }
}

/// The datagram that asks for the chunk numbered `sequence`: the four bytes
/// of the number, most significant first.
pub fn request_datagram(sequence: u32) -> (out: Vec<u8>)
    ensures
        out@ == crate::chunk::sequence_bytes(sequence),
{
    crate::chunk::encode_sequence(sequence)
}

} // verus!
