//! JSON text: reading a document from text and writing it back.
//!
//! The grammar is serde_json's. This module asks it for one level of a
//! document at a time: what kind of value a text holds, with the parts of an
//! array or object handed over as texts of their own. The descent through
//! the levels is done here, and so is every decision: a document of which
//! one part cannot be read is not read, and a value of which one part cannot
//! be written is not written.
//!
//! serde_json is built to read floating-point numbers exactly, so that the
//! text it writes for a part reads back as that part at the next level.

use crate::json::{
    item_models, keys_distinct, lemma_model_parts, member_models, well_formed, Json, JsonModel,
    Member, MemberModel,
};
use serde_json::Value;
use vstd::prelude::*;

verus! {

/// How many arrays and objects may stand inside one another. serde_json
/// reads 127 and refuses a text with more, so this bound refuses no text
/// that serde_json reads.
pub const MAX_DEPTH: u32 = 127;

/// One level of a JSON document: a scalar, or an array or object whose parts
/// are still texts.
#[derive(Debug)]
pub enum JsonHead {
    Null,
    Bool(bool),
    Number(String),
    Text(String),
    Array(Vec<String>),
    Object(Vec<HeadMember>),
}

/// A member of an object whose value is still text.
#[derive(Debug)]
pub struct HeadMember {
    pub key: String,
    pub value: String,
}

/// One level of a JSON document as plain values.
pub enum HeadModel {
    Null,
    Bool(bool),
    Number(Seq<char>),
    Text(Seq<char>),
    Array(Seq<Seq<char>>),
    Object(Seq<(Seq<char>, Seq<char>)>),
}

impl View for JsonHead {
    type V = HeadModel;

    open spec fn view(&self) -> HeadModel {
        match self {
            JsonHead::Null => HeadModel::Null,
            JsonHead::Bool(b) => HeadModel::Bool(*b),
            JsonHead::Number(n) => HeadModel::Number(n@),
            JsonHead::Text(t) => HeadModel::Text(t@),
            JsonHead::Array(parts) => HeadModel::Array(Seq::new(parts@.len(), |i: int| parts@[i]@)),
            JsonHead::Object(members) => HeadModel::Object(
                Seq::new(members@.len(), |i: int| (members@[i].key@, members@[i].value@)),
            ),
        }
    }
}

/// What `serde_json::from_str` reads at the top of `text`: the kind of
/// value, a number as the text that `to_string` writes for it, and each part
/// of an array or object as the text that `to_string` writes for that part,
/// the members of an object in the order serde_json keeps them. `None` where
/// serde_json refuses `text`.
pub uninterp spec fn json_head(text: Seq<char>) -> Option<HeadModel>;

/// The text that `to_string` writes for the value with this top level, each
/// part read from its text and a number from its text with
/// `serde_json::from_str`. `None` where serde_json refuses the text of a
/// part, or the text of a number as a number.
pub uninterp spec fn head_text(head: HeadModel) -> Option<Seq<char>>;

/// Reads the top level of `text` with `serde_json::from_str`, and writes
/// each part of an array or object with `to_string`. The result is
/// `json_head` of the text. serde_json keeps the members of an object in a
/// map from key to value, so no key comes twice.
#[verifier::external_body]
fn read_head(text: &str) -> (head: Option<JsonHead>)
    ensures
        json_head(text@) == match head {
            Some(h) => Some(h@),
            None => None,
        },
        head matches Some(JsonHead::Object(members)) ==> forall|i: int, j: int|
            0 <= i < j < members@.len() ==> (#[trigger] members@[i]).key@ != (
            #[trigger] members@[j]).key@,
{
    Some(match serde_json::from_str::<Value>(text).ok()? {
        Value::Null => JsonHead::Null,
        Value::Bool(b) => JsonHead::Bool(b),
        Value::Number(n) => JsonHead::Number(n.to_string()),
        Value::String(s) => JsonHead::Text(s),
        Value::Array(a) => JsonHead::Array(a.iter().map(|x| x.to_string()).collect()),
        Value::Object(m) => JsonHead::Object(
            m.iter().map(|(k, x)| HeadMember { key: k.clone(), value: x.to_string() }).collect(),
        ),
    })
}

/// Builds the `serde_json::Value` of one level, each part read from its text
/// and a number from its text with `serde_json::from_str`, and writes it
/// with `to_string`. Where serde_json refuses one of the texts nothing is
/// written. The result is `head_text` of the level.
#[verifier::external_body]
fn write_head(head: &JsonHead) -> (text: Option<String>)
    ensures
        head_text(head@) == match text {
            Some(t) => Some(t@),
            None => None,
        },
{
    let read = |t: &String| serde_json::from_str::<Value>(t).ok();
    Some(match head {
        JsonHead::Null => Value::Null,
        JsonHead::Bool(b) => Value::Bool(*b),
        JsonHead::Number(n) => Value::Number(serde_json::from_str(n).ok()?),
        JsonHead::Text(s) => Value::String(s.clone()),
        JsonHead::Array(a) => Value::Array(a.iter().map(read).collect::<Option<_>>()?),
        JsonHead::Object(m) => Value::Object(
            m.iter().map(|e| Some((e.key.clone(), read(&e.value)?))).collect::<Option<_>>()?,
        ),
    }.to_string())
}

/// The values that the first `n` of `parts` hold, read no deeper than
/// `depth` levels; `None` if one of them cannot be read.
pub open spec fn parsed_items(parts: Seq<Seq<char>>, n: nat, depth: nat) -> Option<Seq<JsonModel>>
    decreases depth, 1nat, n,
{
    if n == 0 || n > parts.len() {
        Some(Seq::empty())
    } else {
        match (parsed_items(parts, (n - 1) as nat, depth), parsed(parts[n - 1], depth)) {
            (Some(items), Some(item)) => Some(items.push(item)),
            _ => None,
        }
    }
}

/// The members that the first `n` of `parts` hold, read no deeper than
/// `depth` levels; `None` if one of them cannot be read.
pub open spec fn parsed_members(parts: Seq<(Seq<char>, Seq<char>)>, n: nat, depth: nat) -> Option<
    Seq<MemberModel>,
>
    decreases depth, 1nat, n,
{
    if n == 0 || n > parts.len() {
        Some(Seq::empty())
    } else {
        match (parsed_members(parts, (n - 1) as nat, depth), parsed(parts[n - 1].1, depth)) {
            (Some(members), Some(value)) => Some(
                members.push(MemberModel { key: parts[n - 1].0, value }),
            ),
            _ => None,
        }
    }
}

/// The value that `text` holds, read no deeper than `depth` levels below
/// the top; `None` if serde_json refuses the text or a part of it, or the
/// value nests deeper.
pub open spec fn parsed(text: Seq<char>, depth: nat) -> Option<JsonModel>
    decreases depth, 0nat, 0nat,
{
    match json_head(text) {
        None => None,
        Some(HeadModel::Null) => Some(JsonModel::Null),
        Some(HeadModel::Bool(b)) => Some(JsonModel::Bool(b)),
        Some(HeadModel::Number(n)) => Some(JsonModel::Number(n)),
        Some(HeadModel::Text(t)) => Some(JsonModel::Text(t)),
        Some(HeadModel::Array(parts)) => if depth == 0 {
            None
        } else {
            match parsed_items(parts, parts.len(), (depth - 1) as nat) {
                Some(items) => Some(JsonModel::Array(items)),
                None => None,
            }
        },
        Some(HeadModel::Object(parts)) => if depth == 0 {
            None
        } else {
            match parsed_members(parts, parts.len(), (depth - 1) as nat) {
                Some(members) => Some(JsonModel::Object(members)),
                None => None,
            }
        },
    }
}

/// The texts of the first `n` of `items`; `None` if one of them cannot be
/// written.
pub open spec fn rendered_items(items: Seq<JsonModel>, n: nat) -> Option<Seq<Seq<char>>>
    decreases items, n,
{
    if n == 0 || n > items.len() {
        Some(Seq::empty())
    } else {
        match (rendered_items(items, (n - 1) as nat), rendered(items[n - 1])) {
            (Some(parts), Some(part)) => Some(parts.push(part)),
            _ => None,
        }
    }
}

/// The keys of the first `n` of `members`, each with the text of its value;
/// `None` if one of the values cannot be written.
pub open spec fn rendered_members(members: Seq<MemberModel>, n: nat) -> Option<
    Seq<(Seq<char>, Seq<char>)>,
>
    decreases members, n,
{
    if n == 0 || n > members.len() {
        Some(Seq::empty())
    } else {
        match (rendered_members(members, (n - 1) as nat), rendered(members[n - 1].value)) {
            (Some(parts), Some(part)) => Some(parts.push((members[n - 1].key, part))),
            _ => None,
        }
    }
}

/// The text of `value`; `None` if serde_json refuses the text of a number
/// in it, or what it wrote for a part of it.
pub open spec fn rendered(value: JsonModel) -> Option<Seq<char>>
    decreases value, 0nat,
{
    match value {
        JsonModel::Null => head_text(HeadModel::Null),
        JsonModel::Bool(b) => head_text(HeadModel::Bool(b)),
        JsonModel::Number(n) => head_text(HeadModel::Number(n)),
        JsonModel::Text(t) => head_text(HeadModel::Text(t)),
        JsonModel::Array(items) => match rendered_items(items, items.len()) {
            Some(parts) => head_text(HeadModel::Array(parts)),
            None => None,
        },
        JsonModel::Object(members) => match rendered_members(members, members.len()) {
            Some(parts) => head_text(HeadModel::Object(parts)),
            None => None,
        },
    }
}

/// Reads the value that `text` holds, no deeper than `depth` levels below
/// the top.
#[verifier::loop_isolation(false)]
pub fn parse_json_within(text: &str, depth: u32) -> (value: Option<Json>)
    ensures
        parsed(text@, depth as nat) == match value {
            Some(v) => Some(v.model()),
            None => None,
        },
        value matches Some(v) ==> well_formed(v.model()),
    decreases depth,
{
    let head = match read_head(text) {
        None => {
            return None;
        },
        Some(h) => h,
    };
    match head {
        JsonHead::Null => Some(Json::Null),
        JsonHead::Bool(b) => Some(Json::Bool(b)),
        JsonHead::Number(n) => Some(Json::Number(n)),
        JsonHead::Text(t) => Some(Json::Text(t)),
        JsonHead::Array(parts) => {
            if depth == 0 {
                return None;
            }
            let ghost texts = Seq::new(parts@.len(), |i: int| parts@[i]@);
            let mut items: Vec<Json> = Vec::new();
            let mut n: usize = 0;
            while n < parts.len()
                invariant
                    n <= parts@.len(),
                    parsed_items(texts, n as nat, (depth - 1) as nat) == Some(item_models(items@)),
                    forall|i: int|
                        0 <= i < items@.len() ==> well_formed(#[trigger] item_models(items@)[i]),
                decreases parts@.len() - n,
            {
                let ghost sofar = item_models(items@);
                match parse_json_within(parts[n].as_str(), depth - 1) {
                    None => {
                        assert(parsed_items(texts, (n + 1) as nat, (depth - 1) as nat) is None);
                        proof {
                            lemma_items_stay_unread(texts, (n + 1) as nat, (depth - 1) as nat);
                        }
                        return None;
                    },
                    Some(item) => {
                        let ghost model = item.model();
                        items.push(item);
                        assert(item_models(items@) =~= sofar.push(model));
                    },
                }
                n = n + 1;
            }
            let value = Json::Array(items);
            proof {
                lemma_model_parts(&value);
                assert(well_formed(value.model())) by {
                    let array = value.model();
                    assert forall|i: int| 0 <= i < array->Array_0.len() implies well_formed(
                        #[trigger] array->Array_0[i],
                    ) by {}
                }
            }
            Some(value)
        },
        JsonHead::Object(parts) => {
            if depth == 0 {
                return None;
            }
            let ghost texts = Seq::new(parts@.len(), |i: int| (parts@[i].key@, parts@[i].value@));
            let mut members: Vec<Member> = Vec::new();
            let mut n: usize = 0;
            while n < parts.len()
                invariant
                    n <= parts@.len(),
                    parsed_members(texts, n as nat, (depth - 1) as nat) == Some(
                        member_models(members@),
                    ),
                    members@.len() == n,
                    forall|i: int|
                        0 <= i < n ==> (#[trigger] member_models(members@)[i]).key == texts[i].0
                            && well_formed(member_models(members@)[i].value),
                decreases parts@.len() - n,
            {
                let ghost sofar = member_models(members@);
                match parse_json_within(parts[n].value.as_str(), depth - 1) {
                    None => {
                        assert(parsed_members(texts, (n + 1) as nat, (depth - 1) as nat) is None);
                        proof {
                            lemma_members_stay_unread(texts, (n + 1) as nat, (depth - 1) as nat);
                        }
                        return None;
                    },
                    Some(value) => {
                        let ghost model = MemberModel { key: parts@[n as int].key@, value: value.model() };
                        members.push(Member { key: parts[n].key.clone(), value });
                        assert(member_models(members@) =~= sofar.push(model));
                    },
                }
                n = n + 1;
            }
            let value = Json::Object(members);
            proof {
                lemma_model_parts(&value);
                let models = member_models(members@);
                assert(keys_distinct(models)) by {
                    assert forall|i: int, j: int| 0 <= i < j < models.len() implies (
                    #[trigger] models[i]).key != (#[trigger] models[j]).key by {
                        assert(parts@[i].key@ != parts@[j].key@);
                    }
                }
                assert(well_formed(value.model())) by {
                    let object = value.model();
                    assert forall|i: int| 0 <= i < object->Object_0.len() implies well_formed(
                        (#[trigger] object->Object_0[i]).value,
                    ) by {
                        assert(well_formed(models[i].value));
                    }
                }
            }
            Some(value)
        },
    }
}

/// Once one part cannot be read, reading further parts does not help.
pub proof fn lemma_items_stay_unread(parts: Seq<Seq<char>>, n: nat, depth: nat)
    requires
        n <= parts.len(),
        parsed_items(parts, n, depth) is None,
    ensures
        parsed_items(parts, parts.len(), depth) is None,
    decreases parts.len() - n,
{
    if n < parts.len() {
        lemma_items_stay_unread(parts, n + 1, depth);
    }
}

/// Once one member cannot be read, reading further members does not help.
pub proof fn lemma_members_stay_unread(parts: Seq<(Seq<char>, Seq<char>)>, n: nat, depth: nat)
    requires
        n <= parts.len(),
        parsed_members(parts, n, depth) is None,
    ensures
        parsed_members(parts, parts.len(), depth) is None,
    decreases parts.len() - n,
{
    if n < parts.len() {
        lemma_members_stay_unread(parts, n + 1, depth);
    }
}

/// Reads the JSON document that `text` holds; `None` if serde_json refuses
/// the text. What is read is well formed: no object in it has a key twice.
pub fn parse_json(text: &str) -> (value: Option<Json>)
    ensures
        parsed(text@, MAX_DEPTH as nat) == match value {
            Some(v) => Some(v.model()),
            None => None,
        },
        value matches Some(v) ==> well_formed(v.model()),
{
    parse_json_within(text, MAX_DEPTH)
}

/// Once one item cannot be written, the items cannot.
pub proof fn lemma_items_stay_unwritten(items: Seq<JsonModel>, n: nat)
    requires
        n <= items.len(),
        rendered_items(items, n) is None,
    ensures
        rendered_items(items, items.len()) is None,
    decreases items.len() - n,
{
    if n < items.len() {
        lemma_items_stay_unwritten(items, n + 1);
    }
}

/// Once the value of one member cannot be written, the members cannot.
pub proof fn lemma_members_stay_unwritten(members: Seq<MemberModel>, n: nat)
    requires
        n <= members.len(),
        rendered_members(members, n) is None,
    ensures
        rendered_members(members, members.len()) is None,
    decreases members.len() - n,
{
    if n < members.len() {
        lemma_members_stay_unwritten(members, n + 1);
    }
}

/// Writes `value` as JSON text. A value is not written, and `None`
/// returned, where serde_json refuses the text of a number in it or what it
/// wrote for one of its parts.
#[verifier::loop_isolation(false)]
pub fn render_json(value: &Json) -> (text: Option<String>)
    ensures
        rendered(value.model()) == match text {
            Some(t) => Some(t@),
            None => None,
        },
    decreases value,
{
    proof {
        lemma_model_parts(value);
    }
    match value {
        Json::Null => write_head(&JsonHead::Null),
        Json::Bool(b) => write_head(&JsonHead::Bool(*b)),
        Json::Number(n) => write_head(&JsonHead::Number(n.clone())),
        Json::Text(t) => write_head(&JsonHead::Text(t.clone())),
        Json::Array(items) => {
            let ghost models = item_models(items@);
            let mut parts: Vec<String> = Vec::new();
            let mut n: usize = 0;
            while n < items.len()
                invariant
                    n <= items@.len(),
                    rendered_items(models, n as nat) == Some(
                        Seq::new(parts@.len(), |i: int| parts@[i]@),
                    ),
                decreases items@.len() - n,
            {
                let ghost sofar = Seq::new(parts@.len(), |i: int| parts@[i]@);
                match render_json(&items[n]) {
                    None => {
                        assert(rendered_items(models, (n + 1) as nat) is None);
                        proof {
                            lemma_items_stay_unwritten(models, (n + 1) as nat);
                        }
                        return None;
                    },
                    Some(part) => {
                        let ghost text = part@;
                        parts.push(part);
                        assert(Seq::new(parts@.len(), |i: int| parts@[i]@) =~= sofar.push(text));
                    },
                }
                n = n + 1;
            }
            let head = JsonHead::Array(parts);
            write_head(&head)
        },
        Json::Object(members) => {
            let ghost models = member_models(members@);
            let mut parts: Vec<HeadMember> = Vec::new();
            let mut n: usize = 0;
            while n < members.len()
                invariant
                    n <= members@.len(),
                    rendered_members(models, n as nat) == Some(
                        Seq::new(parts@.len(), |i: int| (parts@[i].key@, parts@[i].value@)),
                    ),
                decreases members@.len() - n,
            {
                let ghost sofar = Seq::new(
                    parts@.len(),
                    |i: int| (parts@[i].key@, parts@[i].value@),
                );
                match render_json(&members[n].value) {
                    None => {
                        assert(rendered_members(models, (n + 1) as nat) is None);
                        proof {
                            lemma_members_stay_unwritten(models, (n + 1) as nat);
                        }
                        return None;
                    },
                    Some(part) => {
                        let ghost entry = (members@[n as int].key@, part@);
                        parts.push(HeadMember { key: members[n].key.clone(), value: part });
                        assert(Seq::new(
                            parts@.len(),
                            |i: int| (parts@[i].key@, parts@[i].value@),
                        ) =~= sofar.push(entry));
                    },
                }
                n = n + 1;
            }
            let head = JsonHead::Object(parts);
            write_head(&head)
        },
    }
}

} // verus!
