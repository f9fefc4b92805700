//! Replication of named JSON documents between peers.
//!
//! A peer sends a document as one message, or cut into chunks with one
//! message for each. A message is a JSON object with the members `file_name`
//! and `data`, and for a chunk also `chunk_index` and `total_chunks`. The
//! receiver merges a document that arrived whole into what it holds under
//! that name.

use crate::decimal::{parse_number, read_number};
use crate::json::{
    find_key, key_position, lemma_model_parts, member_models, merge_values, merged, Json,
    JsonModel, Member, MemberModel,
};
use crate::jsontext::{parse_json, parsed, render_json, rendered, MAX_DEPTH};
use vstd::prelude::*;
use vstd::string::StrSliceExecFns;
use vstd::string::StringExecFns;
use vstd::string::StringSliceAdditionalSpecFns;

verus! {

/// Why a replication message or document was not taken.
#[derive(Debug, Clone, Copy, PartialEq, Eq, Structural)]
pub enum SyncError {
    /// The text is not JSON.
    InvalidJson,
    /// The message names no document.
    MissingFileName,
    /// The message carries no data.
    MissingData,
    /// The message numbers its chunk in a way that cannot be read.
    InvalidChunk,
    /// The merged document cannot be written as JSON.
    Unwritable,
}

/// Where a chunk stands in its document.
#[derive(Debug, Clone, Copy, PartialEq, Eq, Structural)]
pub struct ChunkPlace {
    pub index: u64,
    pub total: u64,
}

/// A replication message.
#[derive(Debug)]
pub struct ReplicationMessage {
    /// The name of the document.
    pub file_name: String,
    /// The text of the document, or of one chunk of it.
    pub data: String,
    /// Where the chunk stands, if the message carries a chunk.
    pub place: Option<ChunkPlace>,
}

/// A replication message as plain values.
pub struct MessageModel {
    pub file_name: Seq<char>,
    pub data: Seq<char>,
    pub place: Option<ChunkPlace>,
}

impl View for ReplicationMessage {
    type V = MessageModel;

    open spec fn view(&self) -> MessageModel {
        MessageModel { file_name: self.file_name@, data: self.data@, place: self.place }
    }
}

/// The members of `value` if it is an object; none otherwise.
pub open spec fn members_of(value: JsonModel) -> Seq<MemberModel> {
    match value {
        JsonModel::Object(members) => members,
        _ => Seq::empty(),
    }
}

/// The text under `key`, if `members` has that key with a text.
pub open spec fn text_member(members: Seq<MemberModel>, key: Seq<char>) -> Option<Seq<char>> {
    let at = key_position(members, key);
    if at < members.len() {
        match members[at].value {
            JsonModel::Text(t) => Some(t),
            _ => None,
        }
    } else {
        None
    }
}

/// What stands under `key`: nothing, a count, or something that is no count.
pub enum CountMember {
    Absent,
    Count(u64),
    Unreadable,
}

/// The count under `key`.
pub open spec fn count_member(members: Seq<MemberModel>, key: Seq<char>) -> CountMember {
    let at = key_position(members, key);
    if at < members.len() {
        match members[at].value {
            JsonModel::Number(n) => match parse_number(vstd::utf8::encode_utf8(n), u64::MAX as nat) {
                Some(v) => CountMember::Count(v as u64),
                None => CountMember::Unreadable,
            },
            _ => CountMember::Unreadable,
        }
    } else {
        CountMember::Absent
    }
}

/// The message that the JSON value `value` stands for.
pub open spec fn message_of(value: JsonModel) -> Result<MessageModel, SyncError> {
    let members = members_of(value);
    match text_member(members, "file_name"@) {
        None => Err(SyncError::MissingFileName),
        Some(file_name) => match text_member(members, "data"@) {
            None => Err(SyncError::MissingData),
            Some(data) => match (
                count_member(members, "chunk_index"@),
                count_member(members, "total_chunks"@),
            ) {
                (CountMember::Absent, CountMember::Absent) => Ok(
                    MessageModel { file_name, data, place: None },
                ),
                (CountMember::Count(index), CountMember::Count(total)) => Ok(
                    MessageModel { file_name, data, place: Some(ChunkPlace { index, total }) },
                ),
                _ => Err(SyncError::InvalidChunk),
            },
        },
    }
}

/// The message that the line `line` carries.
pub open spec fn decoded(line: Seq<char>) -> Result<MessageModel, SyncError> {
    match parsed(line, MAX_DEPTH as nat) {
        None => Err(SyncError::InvalidJson),
        Some(value) => message_of(value),
    }
}

/// The JSON value that stands for `message`.
pub open spec fn value_of(message: MessageModel) -> JsonModel {
    let head = seq![
        MemberModel { key: "file_name"@, value: JsonModel::Text(message.file_name) },
        MemberModel { key: "data"@, value: JsonModel::Text(message.data) },
    ];
    match message.place {
        None => JsonModel::Object(head),
        Some(place) => JsonModel::Object(
            head.push(
                MemberModel {
                    key: "chunk_index"@,
                    value: JsonModel::Number(number_text(place.index)),
                },
            ).push(
                MemberModel {
                    key: "total_chunks"@,
                    value: JsonModel::Number(number_text(place.total)),
                },
            ),
        ),
    }
}

/// The character that writes the digit `d`.
pub open spec fn digit_char(d: nat) -> char {
    if d == 0 {
        '0'
    } else if d == 1 {
        '1'
    } else if d == 2 {
        '2'
    } else if d == 3 {
        '3'
    } else if d == 4 {
        '4'
    } else if d == 5 {
        '5'
    } else if d == 6 {
        '6'
    } else if d == 7 {
        '7'
    } else if d == 8 {
        '8'
    } else {
        '9'
    }
}

/// The digits of `n` as text, without leading zeros.
pub open spec fn digit_chars(n: nat) -> Seq<char>
    decreases n,
{
    if n < 10 {
        seq![digit_char(n)]
    } else {
        digit_chars(n / 10).push(digit_char(n % 10))
    }
}

/// The digits of `n` as text.
pub open spec fn number_text(n: u64) -> Seq<char> {
    digit_chars(n as nat)
}

/// The line that carries `message`; `None` if the message cannot be
/// written as JSON.
pub open spec fn encoded(message: MessageModel) -> Option<Seq<char>> {
    rendered(value_of(message))
}

/// The text of the member `key` of `members`.
fn read_text_member(members: &Vec<Member>, key: &str) -> (r: Option<String>)
    ensures
        text_member(member_models(members@), key@) == match r {
            Some(t) => Some(t@),
            None => None,
        },
{
    let owned = key.to_string();
    let at = find_key(members, &owned);
    if at < members.len() {
        match &members[at].value {
            Json::Text(t) => Some(t.clone()),
            _ => None,
        }
    } else {
        None
    }
}

/// The count of the member `key` of `members`.
fn read_count_member(members: &Vec<Member>, key: &str) -> (r: CountMember)
    ensures
        r == count_member(member_models(members@), key@),
{
    let owned = key.to_string();
    let at = find_key(members, &owned);
    if at < members.len() {
        match &members[at].value {
            Json::Number(n) => {
                let bytes = n.as_str().as_bytes();
                assert(bytes@.subrange(0, bytes@.len() as int) =~= bytes@);
                match read_number(bytes, 0, bytes.len(), u64::MAX) {
                    Some(v) => CountMember::Count(v),
                    None => CountMember::Unreadable,
                }
            },
            _ => CountMember::Unreadable,
        }
    } else {
        CountMember::Absent
    }
}

/// Reads the replication message that a JSON value stands for.
pub fn read_message(value: &Json) -> (r: Result<ReplicationMessage, SyncError>)
    ensures
        message_of(value.model()) == match r {
            Ok(message) => Ok(message@),
            Err(e) => Err(e),
        },
{
    proof {
        lemma_model_parts(value);
    }
    let empty: Vec<Member> = Vec::new();
    let members: &Vec<Member> = match value {
        Json::Object(members) => members,
        _ => {
            assert(member_models(empty@) =~= Seq::<MemberModel>::empty());
            &empty
        },
    };
    let file_name = match read_text_member(members, "file_name") {
        None => {
            return Err(SyncError::MissingFileName);
        },
        Some(t) => t,
    };
    let data = match read_text_member(members, "data") {
        None => {
            return Err(SyncError::MissingData);
        },
        Some(t) => t,
    };
    let index = read_count_member(members, "chunk_index");
    let total = read_count_member(members, "total_chunks");
    match (index, total) {
        (CountMember::Absent, CountMember::Absent) => Ok(
            ReplicationMessage { file_name, data, place: None },
        ),
        (CountMember::Count(index), CountMember::Count(total)) => Ok(
            ReplicationMessage { file_name, data, place: Some(ChunkPlace { index, total }) },
        ),
        _ => Err(SyncError::InvalidChunk),
    }
}

/// Reads a replication message from one line of text.
pub fn decode_replication_message(line: &str) -> (r: Result<ReplicationMessage, SyncError>)
    ensures
        decoded(line@) == match r {
            Ok(message) => Ok(message@),
            Err(e) => Err(e),
        },
{
    match parse_json(line) {
        None => Err(SyncError::InvalidJson),
        Some(value) => read_message(&value),
    }
}

/// What a node holds under a name after `incoming` arrived whole: the
/// incoming document merged into the one held, an empty object standing for
/// a held text that is not JSON. An incoming text that is not JSON is an
/// error, and so is a merged document that cannot be written.
pub open spec fn merged_document(held: Seq<char>, incoming: Seq<char>) -> Result<
    Seq<char>,
    SyncError,
> {
    match parsed(incoming, MAX_DEPTH as nat) {
        None => Err(SyncError::InvalidJson),
        Some(new) => {
            let existing = match parsed(held, MAX_DEPTH as nat) {
                Some(value) => value,
                None => JsonModel::Object(Seq::empty()),
            };
            match rendered(merged(existing, new)) {
                Some(text) => Ok(text),
                None => Err(SyncError::Unwritable),
            }
        },
    }
}

/// Merges the document `incoming` into the text `held` and gives the text
/// to hold from now on. An incoming text that is not JSON is refused and
/// what is held stays.
pub fn merge_document_text(held: &str, incoming: &str) -> (r: Result<String, SyncError>)
    ensures
        merged_document(held@, incoming@) == match r {
            Ok(text) => Ok(text@),
            Err(e) => Err(e),
        },
{
    let new = match parse_json(incoming) {
        None => {
            return Err(SyncError::InvalidJson);
        },
        Some(v) => v,
    };
    let existing = match parse_json(held) {
        Some(v) => v,
        None => {
            let empty = Json::Object(Vec::new());
            proof {
                lemma_model_parts(&empty);
                assert(empty.model()->Object_0 =~= Seq::<MemberModel>::empty());
            }
            empty
        },
    };
    let merged = merge_values(existing, &new);
    match render_json(&merged) {
        Some(text) => Ok(text),
        None => Err(SyncError::Unwritable),
    }
}

/// The text that writes the digit `d`.
fn digit_text(d: u64) -> (text: &'static str)
    requires
        d < 10,
    ensures
        text@ == seq![digit_char(d as nat)],
{
    proof {
        reveal_strlit("0");
        reveal_strlit("1");
        reveal_strlit("2");
        reveal_strlit("3");
        reveal_strlit("4");
        reveal_strlit("5");
        reveal_strlit("6");
        reveal_strlit("7");
        reveal_strlit("8");
        reveal_strlit("9");
    }
    let text = if d == 0 {
        "0"
    } else if d == 1 {
        "1"
    } else if d == 2 {
        "2"
    } else if d == 3 {
        "3"
    } else if d == 4 {
        "4"
    } else if d == 5 {
        "5"
    } else if d == 6 {
        "6"
    } else if d == 7 {
        "7"
    } else if d == 8 {
        "8"
    } else {
        "9"
    };
    assert(text@ =~= seq![digit_char(d as nat)]);
    text
}

/// Writes `n` in decimal.
pub fn number_string(n: u64) -> (text: String)
    ensures
        text@ == number_text(n),
    decreases n,
{
    if n < 10 {
        let mut text = String::new();
        text.append(digit_text(n));
        assert(text@ =~= number_text(n));
        text
    } else {
        let mut text = number_string(n / 10);
        text.append(digit_text(n % 10));
        assert(text@ =~= number_text(n));
        text
    }
}

/// Writes the line that carries `message`; `None` if the message cannot be
/// written as JSON.
pub fn encode_replication_message(message: &ReplicationMessage) -> (line: Option<String>)
    ensures
        encoded(message@) == match line {
            Some(l) => Some(l@),
            None => None,
        },
{
    let mut members: Vec<Member> = Vec::new();
    members.push(Member { key: "file_name".to_string(), value: Json::Text(message.file_name.clone()) });
    members.push(Member { key: "data".to_string(), value: Json::Text(message.data.clone()) });
    match message.place {
        None => {},
        Some(place) => {
            members.push(
                Member { key: "chunk_index".to_string(), value: Json::Number(number_string(place.index)) },
            );
            members.push(
                Member {
                    key: "total_chunks".to_string(),
                    value: Json::Number(number_string(place.total)),
                },
            );
        },
    }
    let value = Json::Object(members);
    proof {
        lemma_model_parts(&value);
        assert(value.model()->Object_0 =~= value_of(message@)->Object_0);
    }
    render_json(&value)
}

/// One chunk of a document as plain values.
pub struct PartModel {
    pub index: u64,
    pub text: Seq<char>,
}

/// The chunks received of one document as plain values.
pub struct PendingModel {
    pub name: Seq<char>,
    /// How many chunks the document has, as the last chunk received says.
    pub total: u64,
    pub parts: Seq<PartModel>,
}

/// Where the chunk numbered `index` stands in `parts`, or their number if
/// there is none.
pub open spec fn part_position(parts: Seq<PartModel>, index: u64) -> int
    decreases parts.len(),
{
    if parts.len() == 0 {
        0
    } else if parts[0].index == index {
        0
    } else {
        1 + part_position(parts.skip(1), index)
    }
}

/// The chunks after `part` arrived: it takes the place of the chunk with its
/// number, or comes last if there is none.
pub open spec fn with_part(parts: Seq<PartModel>, part: PartModel) -> Seq<PartModel> {
    let at = part_position(parts, part.index);
    if at < parts.len() {
        parts.update(at, part)
    } else {
        parts.push(part)
    }
}

/// Every chunk numbered below `n` is among `parts`.
pub open spec fn has_all_below(parts: Seq<PartModel>, n: nat) -> bool {
    forall|i: u64| i < n ==> #[trigger] part_position(parts, i) < parts.len()
}

/// The document is whole: there are as many chunks as it has, and every
/// number from 0 is among them.
pub open spec fn is_whole(parts: Seq<PartModel>, total: u64) -> bool {
    parts.len() == total && has_all_below(parts, total as nat)
}

/// The texts of the chunks numbered below `n`, joined in the order of their
/// numbers.
pub open spec fn joined_parts(parts: Seq<PartModel>, n: nat) -> Seq<char>
    decreases n,
{
    if n == 0 {
        Seq::empty()
    } else {
        joined_parts(parts, (n - 1) as nat) + parts[part_position(parts, (n - 1) as u64)].text
    }
}

/// Where the chunks of the document `name` stand in `pending`, or the
/// number of documents if there are none.
pub open spec fn pending_position(pending: Seq<PendingModel>, name: Seq<char>) -> int
    decreases pending.len(),
{
    if pending.len() == 0 {
        0
    } else if pending[0].name == name {
        0
    } else {
        1 + pending_position(pending.skip(1), name)
    }
}

/// The buffer after a chunk arrived, and the text of the document if the
/// chunk made it whole. A whole document leaves the buffer.
pub open spec fn buffer_step(
    pending: Seq<PendingModel>,
    name: Seq<char>,
    place: ChunkPlace,
    text: Seq<char>,
) -> (Seq<PendingModel>, Option<Seq<char>>) {
    let at = pending_position(pending, name);
    let held = if at < pending.len() {
        pending[at].parts
    } else {
        Seq::empty()
    };
    let others = if at < pending.len() {
        pending.remove(at)
    } else {
        pending
    };
    let parts = with_part(held, PartModel { index: place.index, text });
    if is_whole(parts, place.total) {
        (others, Some(joined_parts(parts, place.total as nat)))
    } else {
        (others.push(PendingModel { name, total: place.total, parts }), None)
    }
}

/// One chunk of a document.
#[derive(Debug)]
struct Part {
    index: u64,
    text: String,
}

/// The chunks received of one document.
#[derive(Debug)]
struct Pending {
    name: String,
    total: u64,
    parts: Vec<Part>,
}

/// The chunks of the documents that are on their way, by document name.
#[derive(Debug)]
pub struct SyncChunkBuffer {
    pending: Vec<Pending>,
}

/// The chunks `parts` as plain values.
spec fn part_models(parts: Seq<Part>) -> Seq<PartModel> {
    Seq::new(parts.len(), |i: int| PartModel { index: parts[i].index, text: parts[i].text@ })
}

/// The documents `pending` as plain values.
spec fn pending_models(pending: Seq<Pending>) -> Seq<PendingModel> {
    Seq::new(
        pending.len(),
        |i: int|
            PendingModel {
                name: pending[i].name@,
                total: pending[i].total,
                parts: part_models(pending[i].parts@),
            },
    )
}

impl View for SyncChunkBuffer {
    type V = Seq<PendingModel>;

    closed spec fn view(&self) -> Seq<PendingModel> {
        pending_models(self.pending@)
    }
}

/// Where the chunk numbered `index` stands in `parts`.
fn find_part(parts: &Vec<Part>, index: u64) -> (at: usize)
    ensures
        at == part_position(part_models(parts@), index),
        at <= parts@.len(),
{
    let ghost models = part_models(parts@);
    let mut i: usize = 0;
    assert(models.skip(0) =~= models);
    while i < parts.len()
        invariant
            i <= parts@.len(),
            models == part_models(parts@),
            part_position(models, index) == i + part_position(models.skip(i as int), index),
        decreases parts@.len() - i,
    {
        proof {
            let tail = models.skip(i as int);
            assert(tail[0] == models[i as int]);
            assert(tail.skip(1) =~= models.skip(i + 1));
        }
        if parts[i].index == index {
            return i;
        }
        i = i + 1;
    }
    i
}

/// Where the chunks of the document `name` stand in `pending`.
fn find_pending(pending: &Vec<Pending>, name: &String) -> (at: usize)
    ensures
        at == pending_position(pending_models(pending@), name@),
        at <= pending@.len(),
{
    let ghost models = pending_models(pending@);
    let mut i: usize = 0;
    assert(models.skip(0) =~= models);
    while i < pending.len()
        invariant
            i <= pending@.len(),
            models == pending_models(pending@),
            pending_position(models, name@) == i + pending_position(models.skip(i as int), name@),
        decreases pending@.len() - i,
    {
        proof {
            let tail = models.skip(i as int);
            assert(tail[0] == models[i as int]);
            assert(tail.skip(1) =~= models.skip(i + 1));
        }
        if pending[i].name == *name {
            return i;
        }
        i = i + 1;
    }
    i
}

/// Whether the document is whole.
fn whole(parts: &Vec<Part>, total: u64) -> (b: bool)
    ensures
        b == is_whole(part_models(parts@), total),
{
    if parts.len() as u64 != total {
        return false;
    }
    let mut i: u64 = 0;
    while i < total
        invariant
            i <= total,
            total == parts@.len(),
            has_all_below(part_models(parts@), i as nat),
        decreases total - i,
    {
        if find_part(parts, i) >= parts.len() {
            return false;
        }
        i = i + 1;
    }
    true
}

/// The texts of the chunks of a whole document, joined in the order of
/// their numbers.
fn join(parts: &Vec<Part>, total: u64) -> (text: String)
    requires
        is_whole(part_models(parts@), total),
    ensures
        text@ == joined_parts(part_models(parts@), total as nat),
{
    let mut text = String::new();
    let mut i: u64 = 0;
    while i < total
        invariant
            i <= total,
            is_whole(part_models(parts@), total),
            text@ == joined_parts(part_models(parts@), i as nat),
        decreases total - i,
    {
        let at = find_part(parts, i);
        assert(part_position(part_models(parts@), i) < parts@.len());
        text.append(parts[at].text.as_str());
        i = i + 1;
    }
    text
}

impl SyncChunkBuffer {
    /// A buffer with no document on its way.
    pub fn new() -> (buffer: SyncChunkBuffer)
        ensures
            buffer@ == Seq::<PendingModel>::empty(),
    {
        let buffer = SyncChunkBuffer { pending: Vec::new() };
        assert(buffer@ =~= Seq::<PendingModel>::empty());
        buffer
    }

    /// How many documents are on their way.
    pub fn len(&self) -> (n: usize)
        ensures
            n == self@.len(),
    {
        self.pending.len()
    }

    /// Files the chunk `text` of the document `name` at `place`. Returns the
    /// text of the document if the chunk made it whole; the document then
    /// leaves the buffer.
    pub fn insert(&mut self, name: String, place: ChunkPlace, text: String) -> (document: Option<
        String,
    >)
        ensures
            buffer_step(old(self)@, name@, place, text@) == (
                final(self)@,
                match document {
                    Some(d) => Some(d@),
                    None => None,
                },
            ),
    {
        let ghost before = self@;
        let at = find_pending(&self.pending, &name);
        let mut parts: Vec<Part> = if at < self.pending.len() {
            let held = self.pending.remove(at);
            assert(self@ =~= before.remove(at as int));
            held.parts
        } else {
            Vec::new()
        };
        let ghost held_models = part_models(parts@);
        assert(at >= before.len() ==> held_models =~= Seq::<PartModel>::empty());
        let ghost others = self@;
        let ghost part = PartModel { index: place.index, text: text@ };
        let slot = find_part(&parts, place.index);
        if slot < parts.len() {
            parts.set(slot, Part { index: place.index, text });
            assert(part_models(parts@) =~= held_models.update(slot as int, part));
        } else {
            parts.push(Part { index: place.index, text });
            assert(part_models(parts@) =~= held_models.push(part));
        }
        if whole(&parts, place.total) {
            Some(join(&parts, place.total))
        } else {
            let ghost entry = PendingModel {
                name: name@,
                total: place.total,
                parts: part_models(parts@),
            };
            self.pending.push(Pending { name, total: place.total, parts });
            assert(self@ =~= others.push(entry));
            None
        }
    }
}

/// How many messages carry a document of `len` characters with at most
/// `size` characters each: one where the document fits or no bound is set.
pub open spec fn message_count(len: nat, size: nat) -> nat {
    if size == 0 || len <= size {
        1
    } else {
        ((len - 1) / (size as int) + 1) as nat
    }
}

/// Message `k` of the messages that carry the document `text` under the
/// name `file_name` with at most `size` characters each. A document that
/// fits, or one sent with no bound, goes whole; a longer one is cut every
/// `size` characters and each piece says where it stands.
pub open spec fn split_message(file_name: Seq<char>, text: Seq<char>, size: nat, k: nat)
    -> MessageModel {
    if size == 0 || text.len() <= size {
        MessageModel { file_name, data: text, place: None }
    } else {
        let end: int = if (k + 1) * size <= text.len() {
            (k + 1) * size as int
        } else {
            text.len() as int
        };
        MessageModel {
            file_name,
            data: text.subrange(k * size as int, end),
            place: Some(
                ChunkPlace { index: k as u64, total: message_count(text.len(), size) as u64 },
            ),
        }
    }
}

/// Every piece begins inside the document.
pub proof fn lemma_piece_bounds(len: nat, size: nat, k: nat)
    requires
        0 < size < len,
        k < message_count(len, size),
    ensures
        k * size < len,
        k * size + size == (k + 1) * size,
{
    let q = (len - 1) / (size as int);
    assert(q * size <= len - 1) by (nonlinear_arith)
        requires
            q == (len - 1) / (size as int),
            size > 0,
            len >= 1,
    ;
    assert(k * size <= q * size) by (nonlinear_arith)
        requires
            k <= q,
            size > 0,
    ;
    assert(k * size + size == (k + 1) * size) by (nonlinear_arith);
}

/// Cuts the document `text` into the messages that carry it, each with at
/// most `size` characters of it; a `size` of 0 sets no bound.
pub fn split_document(file_name: &str, text: &str, size: usize) -> (out: Vec<ReplicationMessage>)
    ensures
        out@.len() == message_count(text@.len(), size as nat),
        forall|k: int|
            0 <= k < out@.len() ==> (#[trigger] out@[k])@ == split_message(
                file_name@,
                text@,
                size as nat,
                k as nat,
            ),
{
    let len = text.unicode_len();
    let mut out: Vec<ReplicationMessage> = Vec::new();
    if size == 0 || len <= size {
        out.push(
            ReplicationMessage { file_name: file_name.to_string(), data: text.to_string(), place: None },
        );
        return out;
    }
    let total: usize = (len - 1) / size + 1;
    let mut k: usize = 0;
    let mut from: usize = 0;
    while k < total
        invariant
            0 < size < len,
            len == text@.len(),
            total == message_count(len as nat, size as nat),
            k <= total,
            k < total ==> from == k * size,
            k < total ==> from < len,
            out@.len() == k,
            forall|j: int|
                0 <= j < k ==> (#[trigger] out@[j])@ == split_message(
                    file_name@,
                    text@,
                    size as nat,
                    j as nat,
                ),
        decreases total - k,
    {
        proof {
            lemma_piece_bounds(len as nat, size as nat, k as nat);
        }
        let to: usize = if len - from >= size {
            from + size
        } else {
            len
        };
        let data = text.substring_char(from, to).to_string();
        out.push(
            ReplicationMessage {
                file_name: file_name.to_string(),
                data,
                place: Some(ChunkPlace { index: k as u64, total: total as u64 }),
            },
        );
        k = k + 1;
        proof {
            if k < total {
                lemma_piece_bounds(len as nat, size as nat, k as nat);
            }
        }
        from = to;
    }
    out
}

/// Where the pieces of a cut document are all at hand, each under its
/// number, joining them in the order of their numbers gives the document
/// back, in whatever order they arrived.
pub proof fn lemma_pieces_join(text: Seq<char>, size: nat, parts: Seq<PartModel>, n: nat)
    requires
        0 < size < text.len(),
        message_count(text.len(), size) <= u64::MAX,
        n <= message_count(text.len(), size),
        forall|i: u64|
            i < message_count(text.len(), size) ==> #[trigger] part_position(parts, i)
                < parts.len() && parts[part_position(parts, i)].text == split_message(
                Seq::empty(),
                text,
                size,
                i as nat,
            ).data,
    ensures
        n < message_count(text.len(), size) ==> joined_parts(parts, n) == text.subrange(
            0,
            n * size as int,
        ),
        n == message_count(text.len(), size) ==> joined_parts(parts, n) == text,
    decreases n,
{
    let len = text.len();
    let total = message_count(len, size);
    if n == 0 {
        assert(text.subrange(0, 0) =~= Seq::<char>::empty());
        assert(0 * size as int == 0);
    } else {
        let k = (n - 1) as nat;
        lemma_pieces_join(text, size, parts, k);
        lemma_piece_bounds(len, size, k);
        let at = part_position(parts, k as u64);
        assert(parts[at].text == split_message(Seq::empty(), text, size, k).data);
        let end: int = if (k + 1) * size <= len {
            (k + 1) * size as int
        } else {
            len as int
        };
        assert(text.subrange(0, k * size as int) + text.subrange(k * size as int, end)
            =~= text.subrange(0, end));
        if n == total {
            let q = (len - 1) / (size as int);
            assert(q * size + size > len - 1) by (nonlinear_arith)
                requires
                    q == (len - 1) / (size as int),
                    size > 0,
                    len >= 1,
            ;
            assert(end == len);
            assert(text.subrange(0, len as int) =~= text);
        } else {
            lemma_piece_bounds(len, size, n);
            assert(end == n * size);
        }
    }
}

} // verus!
