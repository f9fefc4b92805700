//! JSON values and the merge of one document into another.

use vstd::prelude::*;

verus! {

/// A JSON value.
#[derive(Debug)]
pub enum Json {
    Null,
    Bool(bool),
    /// A number, held as the text that writes it.
    Number(String),
    Text(String),
    Array(Vec<Json>),
    Object(Vec<Member>),
}

/// One member of a JSON object.
#[derive(Debug)]
pub struct Member {
    pub key: String,
    pub value: Json,
}

/// A JSON value as plain values.
pub enum JsonModel {
    Null,
    Bool(bool),
    Number(Seq<char>),
    Text(Seq<char>),
    Array(Seq<JsonModel>),
    Object(Seq<MemberModel>),
}

/// A member of a JSON object as plain values.
pub struct MemberModel {
    pub key: Seq<char>,
    pub value: JsonModel,
}

impl Json {
    /// The value as plain values.
    pub open spec fn model(&self) -> JsonModel
        decreases self,
    {
        match self {
            Json::Null => JsonModel::Null,
            Json::Bool(b) => JsonModel::Bool(*b),
            Json::Number(n) => JsonModel::Number(n@),
            Json::Text(t) => JsonModel::Text(t@),
            Json::Array(items) => JsonModel::Array(
                Seq::new(
                    items@.len(),
                    |i: int|
                        if 0 <= i < items@.len() {
                            items@[i].model()
                        } else {
                            JsonModel::Null
                        },
                ),
            ),
            Json::Object(members) => JsonModel::Object(
                Seq::new(
                    members@.len(),
                    |i: int|
                        if 0 <= i < members@.len() {
                            MemberModel { key: members@[i].key@, value: members@[i].value.model() }
                        } else {
                            MemberModel { key: Seq::empty(), value: JsonModel::Null }
                        },
                ),
            ),
        }
    }
}

/// Where the member with `key` stands in `members`, or their number if there
/// is none.
pub open spec fn key_position(members: Seq<MemberModel>, key: Seq<char>) -> int
    decreases members.len(),
{
    if members.len() == 0 {
        0
    } else if members[0].key == key {
        0
    } else {
        1 + key_position(members.skip(1), key)
    }
}

/// Two values are the same: of the same kind and with the same parts. The
/// items of an array are compared in order; the members of an object are
/// compared key by key, in whatever order they stand.
pub open spec fn same_value(a: JsonModel, b: JsonModel) -> bool
    decreases a,
{
    match (a, b) {
        (JsonModel::Null, JsonModel::Null) => true,
        (JsonModel::Bool(x), JsonModel::Bool(y)) => x == y,
        (JsonModel::Number(x), JsonModel::Number(y)) => x == y,
        (JsonModel::Text(x), JsonModel::Text(y)) => x == y,
        (JsonModel::Array(x), JsonModel::Array(y)) => x.len() == y.len() && forall|i: int|
            0 <= i < x.len() ==> same_value(#[trigger] x[i], y[i]),
        (JsonModel::Object(x), JsonModel::Object(y)) => x.len() == y.len() && forall|i: int|
            0 <= i < x.len() ==> same_member(#[trigger] x[i], y),
        _ => false,
    }
}

/// `members` has the key of `member`, with a value that is the same.
pub open spec fn same_member(member: MemberModel, members: Seq<MemberModel>) -> bool
    decreases member,
{
    let at = key_position(members, member.key);
    at < members.len() && same_value(member.value, members[at].value)
}

/// `items` holds an item that is the same as `item`.
pub open spec fn holds(items: Seq<JsonModel>, item: JsonModel) -> bool {
    exists|i: int| 0 <= i < items.len() && same_value(#[trigger] items[i], item)
}

/// The array `existing` after the items of `new` were added in order, each
/// unless the array holds an item that is the same already.
pub open spec fn merged_items(existing: Seq<JsonModel>, new: Seq<JsonModel>) -> Seq<JsonModel>
    decreases new.len(),
{
    if new.len() == 0 {
        existing
    } else {
        let sofar = merged_items(existing, new.drop_last());
        if holds(sofar, new.last()) {
            sofar
        } else {
            sofar.push(new.last())
        }
    }
}

/// `existing` after `new` is merged into it: two objects merge member by
/// member, two arrays join without repeating an item, and in every other
/// case the new value takes the place of the existing one.
pub open spec fn merged(existing: JsonModel, new: JsonModel) -> JsonModel
    decreases new, 0nat,
{
    match (existing, new) {
        (JsonModel::Object(a), JsonModel::Object(b)) => JsonModel::Object(
            merged_members(a, b, b.len()),
        ),
        (JsonModel::Array(a), JsonModel::Array(b)) => JsonModel::Array(merged_items(a, b)),
        _ => new,
    }
}

/// The members `existing` after the first `n` members of `new` were merged
/// in, in order: a member whose key exists merges into the value there, and
/// a member whose key is new comes last.
pub open spec fn merged_members(existing: Seq<MemberModel>, new: Seq<MemberModel>, n: nat) -> Seq<
    MemberModel,
>
    decreases new, n,
{
    if n == 0 || n > new.len() {
        existing
    } else {
        let sofar = merged_members(existing, new, (n - 1) as nat);
        let member = new[n - 1];
        let at = key_position(sofar, member.key);
        if at < sofar.len() {
            sofar.update(
                at,
                MemberModel { key: member.key, value: merged(sofar[at].value, member.value) },
            )
        } else {
            sofar.push(member)
        }
    }
}

/// The items of an array as plain values.
pub open spec fn item_models(items: Seq<Json>) -> Seq<JsonModel> {
    Seq::new(items.len(), |i: int| items[i].model())
}

/// The members of an object as plain values.
pub open spec fn member_models(members: Seq<Member>) -> Seq<MemberModel> {
    Seq::new(
        members.len(),
        |i: int| MemberModel { key: members[i].key@, value: members[i].value.model() },
    )
}

/// The model of an array is made of the models of its items, and the model
/// of an object of the models of its members.
pub proof fn lemma_model_parts(value: &Json)
    ensures
        value matches Json::Array(items) ==> value.model() == JsonModel::Array(
            item_models(items@),
        ),
        value matches Json::Object(members) ==> value.model() == JsonModel::Object(
            member_models(members@),
        ),
{
    match value {
        Json::Array(items) => {
            assert(value.model()->Array_0 =~= item_models(items@));
        },
        Json::Object(members) => {
            assert(value.model()->Object_0 =~= member_models(members@));
        },
        _ => {},
    }
}

impl Member {
    /// A copy of this member.
    pub fn duplicate(&self) -> (out: Member)
        ensures
            out.key@ == self.key@,
            out.value.model() == self.value.model(),
        decreases self,
    {
        Member { key: self.key.clone(), value: self.value.duplicate() }
    }
}

impl Json {
    /// A copy of this value.
    #[verifier::loop_isolation(false)]
    pub fn duplicate(&self) -> (out: Json)
        ensures
            out.model() == self.model(),
        decreases self,
    {
        match self {
            Json::Null => Json::Null,
            Json::Bool(b) => Json::Bool(*b),
            Json::Number(n) => Json::Number(n.clone()),
            Json::Text(t) => Json::Text(t.clone()),
            Json::Array(items) => {
                let mut out: Vec<Json> = Vec::new();
                let mut i: usize = 0;
                while i < items.len()
                    invariant
                        i <= items@.len(),
                        out@.len() == i,
                        forall|j: int| 0 <= j < i ==> (#[trigger] out@[j]).model() == items@[j].model(),
                    decreases items@.len() - i,
                {
                    let copy = items[i].duplicate();
                    out.push(copy);
                    i = i + 1;
                }
                let copy = Json::Array(out);
                proof {
                    lemma_model_parts(&copy);
                    lemma_model_parts(self);
                    assert(item_models(out@) =~= item_models(items@));
                }
                copy
            },
            Json::Object(members) => {
                let mut out: Vec<Member> = Vec::new();
                let mut i: usize = 0;
                while i < members.len()
                    invariant
                        i <= members@.len(),
                        out@.len() == i,
                        forall|j: int|
                            0 <= j < i ==> (#[trigger] out@[j]).key@ == members@[j].key@
                                && out@[j].value.model() == members@[j].value.model(),
                    decreases members@.len() - i,
                {
                    let copy = members[i].duplicate();
                    out.push(copy);
                    i = i + 1;
                }
                let copy = Json::Object(out);
                proof {
                    lemma_model_parts(&copy);
                    lemma_model_parts(self);
                    assert(member_models(out@) =~= member_models(members@));
                }
                copy
            },
        }
    }

    /// Whether two values are the same: of the same kind and with the same
    /// parts, the members of an object compared key by key.
    #[verifier::loop_isolation(false)]
    pub fn same_as(&self, other: &Json) -> (same: bool)
        ensures
            same == same_value(self.model(), other.model()),
        decreases self,
    {
        proof {
            lemma_model_parts(self);
            lemma_model_parts(other);
        }
        match (self, other) {
            (Json::Null, Json::Null) => true,
            (Json::Bool(a), Json::Bool(b)) => *a == *b,
            (Json::Number(a), Json::Number(b)) => *a == *b,
            (Json::Text(a), Json::Text(b)) => *a == *b,
            (Json::Array(a), Json::Array(b)) => {
                let ghost x = item_models(a@);
                let ghost y = item_models(b@);
                if a.len() != b.len() {
                    return false;
                }
                let mut i: usize = 0;
                while i < a.len()
                    invariant
                        i <= a@.len(),
                        a@.len() == b@.len(),
                        forall|j: int| 0 <= j < i ==> same_value(#[trigger] x[j], y[j]),
                    decreases a@.len() - i,
                {
                    if !a[i].same_as(&b[i]) {
                        assert(!same_value(x[i as int], y[i as int]));
                        return false;
                    }
                    i = i + 1;
                }
                true
            },
            (Json::Object(a), Json::Object(b)) => {
                let ghost x = member_models(a@);
                let ghost y = member_models(b@);
                if a.len() != b.len() {
                    return false;
                }
                let mut i: usize = 0;
                while i < a.len()
                    invariant
                        i <= a@.len(),
                        a@.len() == b@.len(),
                        forall|j: int| 0 <= j < i ==> same_member(#[trigger] x[j], y),
                    decreases a@.len() - i,
                {
                    let at = find_key(b, &a[i].key);
                    if at >= b.len() {
                        assert(!same_member(x[i as int], y));
                        return false;
                    }
                    if !a[i].value.same_as(&b[at].value) {
                        assert(!same_member(x[i as int], y));
                        return false;
                    }
                    i = i + 1;
                }
                true
            },
            _ => false,
        }
    }
}

/// Where the member with `key` stands in `members`, or their number if there
/// is none.
pub fn find_key(members: &Vec<Member>, key: &String) -> (at: usize)
    ensures
        at == key_position(member_models(members@), key@),
        at <= members@.len(),
{
    let ghost models = member_models(members@);
    let mut i: usize = 0;
    assert(models.skip(0) =~= models);
    while i < members.len()
        invariant
            i <= members@.len(),
            models == member_models(members@),
            key_position(models, key@) == i + key_position(models.skip(i as int), key@),
        decreases members@.len() - i,
    {
        proof {
            let tail = models.skip(i as int);
            assert(tail[0] == models[i as int]);
            assert(tail.skip(1) =~= models.skip(i + 1));
        }
        if members[i].key == *key {
            return i;
        }
        i = i + 1;
    }
    i
}

/// Whether `items` holds an item that is the same as `item`.
pub fn holds_item(items: &Vec<Json>, item: &Json) -> (held: bool)
    ensures
        held == holds(item_models(items@), item.model()),
{
    let ghost models = item_models(items@);
    let mut i: usize = 0;
    while i < items.len()
        invariant
            i <= items@.len(),
            models == item_models(items@),
            forall|j: int| 0 <= j < i ==> !same_value(#[trigger] models[j], item.model()),
        decreases items@.len() - i,
    {
        if items[i].same_as(item) {
            assert(same_value(models[i as int], item.model()));
            return true;
        }
        i = i + 1;
    }
    false
}

/// `existing` with `new` merged into it.
#[verifier::loop_isolation(false)]
pub fn merge_values(existing: Json, new: &Json) -> (out: Json)
    ensures
        out.model() == merged(existing.model(), new.model()),
        well_formed(existing.model()) && well_formed(new.model()) ==> well_formed(out.model()),
    decreases new,
{
    proof {
        lemma_model_parts(&existing);
        lemma_model_parts(new);
        if well_formed(existing.model()) && well_formed(new.model()) {
            lemma_merge_well_formed(existing.model(), new.model());
        }
    }
    match new {
        Json::Object(new_members) => match existing {
            Json::Object(members) => {
                let ghost start = member_models(members@);
                let ghost added = member_models(new_members@);
                let mut members = members;
                let mut n: usize = 0;
                while n < new_members.len()
                    invariant
                        n <= new_members@.len(),
                        member_models(members@) == merged_members(start, added, n as nat),
                    decreases new_members@.len() - n,
                {
                    let member = &new_members[n];
                    let ghost sofar = member_models(members@);
                    let at = find_key(&members, &member.key);
                    assert(added[n as int] == (MemberModel {
                        key: member.key@,
                        value: member.value.model(),
                    }));
                    if at < members.len() {
                        let held = members.remove(at);
                        let value = merge_values(held.value, &member.value);
                        members.insert(at, Member { key: member.key.clone(), value });
                        assert(member_models(members@) =~= sofar.update(
                            at as int,
                            MemberModel {
                                key: member.key@,
                                value: merged(sofar[at as int].value, member.value.model()),
                            },
                        ));
                    } else {
                        let copy = member.duplicate();
                        members.push(copy);
                        assert(member_models(members@) =~= sofar.push(added[n as int]));
                    }
                    n = n + 1;
                }
                let out = Json::Object(members);
                proof {
                    lemma_model_parts(&out);
                }
                out
            },
            _ => new.duplicate(),
        },
        Json::Array(new_items) => match existing {
            Json::Array(items) => {
                let ghost start = item_models(items@);
                let ghost added = item_models(new_items@);
                let mut items = items;
                let mut n: usize = 0;
                assert(added.subrange(0, 0) =~= Seq::<JsonModel>::empty());
                while n < new_items.len()
                    invariant
                        n <= new_items@.len(),
                        item_models(items@) == merged_items(start, added.subrange(0, n as int)),
                    decreases new_items@.len() - n,
                {
                    let item = &new_items[n];
                    let ghost sofar = item_models(items@);
                    proof {
                        let longer = added.subrange(0, n + 1);
                        assert(longer.drop_last() =~= added.subrange(0, n as int));
                        assert(longer.last() == item.model());
                    }
                    if !holds_item(&items, item) {
                        let copy = item.duplicate();
                        items.push(copy);
                        assert(item_models(items@) =~= sofar.push(item.model()));
                    }
                    n = n + 1;
                }
                assert(added.subrange(0, n as int) =~= added);
                let out = Json::Array(items);
                proof {
                    lemma_model_parts(&out);
                }
                out
            },
            _ => new.duplicate(),
        },
        _ => new.duplicate(),
    }
}

/// Merges `new` into `existing`: two objects merge member by member, two
/// arrays join without repeating an item, and in every other case the new
/// value takes the place of the existing one.
///
/// Where no object of either document has a key twice, no object of the
/// merged document has.
pub fn merge_json(existing: &mut Json, new: &Json)
    ensures
        final(existing).model() == merged(old(existing).model(), new.model()),
        well_formed(old(existing).model()) && well_formed(new.model()) ==> well_formed(
            final(existing).model(),
        ),
{
    let mut taken = Json::Null;
    core::mem::swap(existing, &mut taken);
    *existing = merge_values(taken, new);
}

/// No two of `members` share a key.
pub open spec fn keys_distinct(members: Seq<MemberModel>) -> bool {
    forall|i: int, j: int|
        0 <= i < j < members.len() ==> (#[trigger] members[i]).key != (#[trigger] members[j]).key
}

/// A value is well formed when no object in it has two members with one
/// key.
pub open spec fn well_formed(value: JsonModel) -> bool
    decreases value,
{
    match value {
        JsonModel::Object(members) => keys_distinct(members) && forall|i: int|
            0 <= i < members.len() ==> well_formed((#[trigger] members[i]).value),
        JsonModel::Array(items) => forall|i: int|
            0 <= i < items.len() ==> well_formed(#[trigger] items[i]),
        _ => true,
    }
}

/// Among members with distinct keys, a member's key is found where the
/// member stands.
pub proof fn lemma_key_position(members: Seq<MemberModel>, i: int)
    requires
        keys_distinct(members),
        0 <= i < members.len(),
    ensures
        key_position(members, members[i].key) == i,
    decreases i,
{
    if i > 0 {
        let rest = members.skip(1);
        assert(members[0].key != members[i].key);
        assert(rest[i - 1] == members[i]);
        assert(keys_distinct(rest)) by {
            assert forall|a: int, b: int| 0 <= a < b < rest.len() implies (#[trigger] rest[a]).key
                != (#[trigger] rest[b]).key by {
                assert(rest[a] == members[a + 1]);
                assert(rest[b] == members[b + 1]);
            }
        }
        lemma_key_position(rest, i - 1);
    }
}

/// The items of a well-formed array are well formed.
pub proof fn lemma_items_well_formed(items: Seq<JsonModel>)
    requires
        well_formed(JsonModel::Array(items)),
    ensures
        forall|i: int| 0 <= i < items.len() ==> well_formed(#[trigger] items[i]),
{
    let array = JsonModel::Array(items);
    assert forall|i: int| 0 <= i < items.len() implies well_formed(#[trigger] items[i]) by {
        assert(well_formed(array->Array_0[i]));
    }
}

/// A well-formed value is the same as itself.
pub proof fn lemma_same_as_itself(value: JsonModel)
    requires
        well_formed(value),
    ensures
        same_value(value, value),
    decreases value,
{
    match value {
        JsonModel::Array(items) => {
            assert forall|i: int| 0 <= i < items.len() implies same_value(
                #[trigger] items[i],
                items[i],
            ) by {
                lemma_same_as_itself(items[i]);
            }
        },
        JsonModel::Object(members) => {
            assert forall|i: int| 0 <= i < members.len() implies same_member(
                #[trigger] members[i],
                members,
            ) by {
                lemma_key_position(members, i);
                lemma_same_as_itself(members[i].value);
            }
        },
        _ => {},
    }
}

/// Adding items that the array holds already leaves it as it is.
pub proof fn lemma_items_held(existing: Seq<JsonModel>, new: Seq<JsonModel>)
    requires
        forall|j: int| 0 <= j < new.len() ==> holds(existing, #[trigger] new[j]),
    ensures
        merged_items(existing, new) == existing,
    decreases new.len(),
{
    if new.len() > 0 {
        let rest = new.drop_last();
        assert forall|j: int| 0 <= j < rest.len() implies holds(existing, #[trigger] rest[j]) by {
            assert(rest[j] == new[j]);
        }
        lemma_items_held(existing, rest);
        assert(holds(existing, new[new.len() - 1]));
    }
}

/// Merging a well-formed document into itself leaves it as it is.
pub proof fn lemma_merge_self(value: JsonModel)
    requires
        well_formed(value),
    ensures
        merged(value, value) == value,
    decreases value, 0nat,
{
    match value {
        JsonModel::Object(members) => {
            lemma_merge_members_self(members, members.len());
        },
        JsonModel::Array(items) => {
            lemma_items_well_formed(items);
            assert forall|j: int| 0 <= j < items.len() implies holds(items, #[trigger] items[j]) by {
                lemma_same_as_itself(items[j]);
            }
            lemma_items_held(items, items);
        },
        _ => {},
    }
}

/// Merging the first `n` members of a well-formed object into the object
/// leaves it as it is.
pub proof fn lemma_merge_members_self(members: Seq<MemberModel>, n: nat)
    requires
        well_formed(JsonModel::Object(members)),
        n <= members.len(),
    ensures
        merged_members(members, members, n) == members,
    decreases members, n,
{
    if n > 0 {
        lemma_merge_members_self(members, (n - 1) as nat);
        let member = members[n - 1];
        lemma_key_position(members, n - 1);
        assert(well_formed(member.value));
        lemma_merge_self(member.value);
        assert(members.update(
            n - 1,
            MemberModel { key: member.key, value: merged(member.value, member.value) },
        ) =~= members);
    }
}

/// Where the two values are not both objects or both arrays, the new value
/// takes the place of the existing one.
pub proof fn lemma_last_write_wins(existing: JsonModel, new: JsonModel)
    requires
        !(existing is Object && new is Object),
        !(existing is Array && new is Array),
    ensures
        merged(existing, new) == new,
{
}

/// The member with `key` stands at its position, and where the position is
/// the number of members no member has `key`.
pub proof fn lemma_key_position_found(members: Seq<MemberModel>, key: Seq<char>)
    ensures
        0 <= key_position(members, key) <= members.len(),
        key_position(members, key) < members.len() ==> members[key_position(members, key)].key
            == key,
        forall|i: int|
            0 <= i < key_position(members, key) ==> (#[trigger] members[i]).key != key,
    decreases members.len(),
{
    if members.len() > 0 && members[0].key != key {
        let rest = members.skip(1);
        lemma_key_position_found(rest, key);
        let at = key_position(rest, key);
        if at < rest.len() {
            assert(rest[at] == members[at + 1]);
        }
        assert forall|i: int| 0 <= i < 1 + at implies (#[trigger] members[i]).key != key by {
            if i > 0 {
                assert(rest[i - 1] == members[i]);
            }
        }
    }
}

/// After the merge the array holds every item it held before and every
/// item of `new`.
pub proof fn lemma_items_all_held(existing: Seq<JsonModel>, new: Seq<JsonModel>)
    requires
        well_formed(JsonModel::Array(existing)),
        well_formed(JsonModel::Array(new)),
    ensures
        forall|j: int| 0 <= j < new.len() ==> holds(merged_items(existing, new), #[trigger] new[j]),
        forall|j: int|
            0 <= j < existing.len() ==> holds(merged_items(existing, new), #[trigger] existing[j]),
        existing.len() <= merged_items(existing, new).len(),
        forall|i: int|
            0 <= i < existing.len() ==> (#[trigger] merged_items(existing, new)[i]) == existing[i],
    decreases new.len(),
{
    let all = merged_items(existing, new);
    lemma_items_well_formed(existing);
    lemma_items_well_formed(new);
    if new.len() == 0 {
        assert forall|j: int| 0 <= j < existing.len() implies holds(all, #[trigger] existing[j]) by {
            lemma_same_as_itself(existing[j]);
        }
    } else {
        let rest = new.drop_last();
        let sofar = merged_items(existing, rest);
        assert(well_formed(JsonModel::Array(rest))) by {
            assert forall|i: int| 0 <= i < rest.len() implies well_formed(
                #[trigger] (JsonModel::Array(rest))->Array_0[i],
            ) by {
                assert(rest[i] == new[i]);
            }
        }
        lemma_items_all_held(existing, rest);
        assert forall|x: JsonModel| holds(sofar, x) implies holds(all, x) by {
            let i = choose|i: int| 0 <= i < sofar.len() && same_value(sofar[i], x);
            assert(all[i] == sofar[i]);
        }
        assert forall|j: int| 0 <= j < new.len() implies holds(all, #[trigger] new[j]) by {
            if j < rest.len() {
                assert(rest[j] == new[j]);
                assert(holds(sofar, rest[j]));
            } else if !holds(sofar, new.last()) {
                assert(well_formed(new[new.len() - 1]));
                lemma_same_as_itself(new.last());
                assert(all[sofar.len() as int] == new.last());
            }
        }
        assert forall|j: int| 0 <= j < existing.len() implies holds(all, #[trigger] existing[j]) by {
            assert(holds(sofar, existing[j]));
        }
    }
}

/// What stands under the key of `member` after `member` was merged into
/// `existing`: its value merged into the value held under the key, or its
/// value alone where the key is new.
pub open spec fn merged_value(existing: Seq<MemberModel>, member: MemberModel) -> JsonModel {
    let at = key_position(existing, member.key);
    if at < existing.len() {
        merged(existing[at].value, member.value)
    } else {
        member.value
    }
}

/// What the members hold after the first `n` members of `new` were merged
/// into `existing`, both with distinct keys.
pub open spec fn members_merged(
    existing: Seq<MemberModel>,
    new: Seq<MemberModel>,
    n: nat,
    result: Seq<MemberModel>,
) -> bool {
    &&& result.len() >= existing.len()
    &&& forall|i: int| 0 <= i < existing.len() ==> (#[trigger] result[i]).key == existing[i].key
    &&& keys_distinct(result)
    &&& forall|i: int|
        existing.len() <= i < result.len() ==> exists|j: int|
            0 <= j < n && (#[trigger] result[i]).key == (#[trigger] new[j]).key
    &&& forall|i: int|
        0 <= i < existing.len() && (forall|j: int| 0 <= j < n ==> (#[trigger] new[j]).key
            != existing[i].key) ==> (#[trigger] result[i]).value == existing[i].value
    &&& forall|j: int|
        0 <= j < n ==> exists|p: int|
            0 <= p < result.len() && (#[trigger] result[p]).key == new[j].key && result[p].value
                == merged_value(existing, #[trigger] new[j])
}

/// Merging members with distinct keys into members with distinct keys puts
/// under every merged key the merged value, leaves the other members as
/// they were, and keeps the keys distinct.
pub proof fn lemma_members_merged(existing: Seq<MemberModel>, new: Seq<MemberModel>, n: nat)
    requires
        keys_distinct(existing),
        keys_distinct(new),
        n <= new.len(),
    ensures
        members_merged(existing, new, n, merged_members(existing, new, n)),
    decreases n,
{
    if n == 0 {
    } else {
        let m = (n - 1) as nat;
        lemma_members_merged(existing, new, m);
        let r = merged_members(existing, new, m);
        let member = new[n - 1];
        let k = member.key;
        let at = key_position(r, k);
        let next = merged_members(existing, new, n);
        lemma_key_position_found(r, k);
        lemma_key_position_found(existing, k);
        let q = key_position(existing, k);
        if at < r.len() {
            assert(next == r.update(
                at,
                MemberModel { key: k, value: merged(r[at].value, member.value) },
            ));
            assert forall|i: int| 0 <= i < next.len() implies (#[trigger] next[i]).key
                == r[i].key by {}
            assert(keys_distinct(next)) by {
                assert forall|i: int, j: int| 0 <= i < j < next.len() implies (
                #[trigger] next[i]).key != (#[trigger] next[j]).key by {
                    assert(r[i].key != r[j].key);
                }
            }
            assert forall|i: int| existing.len() <= i < next.len() implies exists|j: int|
                0 <= j < n && (#[trigger] next[i]).key == (#[trigger] new[j]).key by {
                let j = choose|j: int| 0 <= j < m && r[i].key == new[j].key;
                assert(next[i].key == new[j].key);
            }
            if at >= existing.len() {
                let j = choose|j: int| 0 <= j < m && r[at].key == new[j].key;
                assert(new[j].key != new[n - 1].key);
                assert(false);
            }
            assert(r[at].key == existing[at].key);
            if q < at {
                assert(r[q].key == existing[q].key);
                assert(r[q].key != r[at].key);
            }
            assert(q == at);
            assert(r[at].value == existing[at].value) by {
                assert forall|j: int| 0 <= j < m implies (#[trigger] new[j]).key
                    != existing[at].key by {
                    assert(new[j].key != new[n - 1].key);
                }
            }
            assert forall|i: int|
                0 <= i < existing.len() && (forall|j: int|
                    0 <= j < n ==> (#[trigger] new[j]).key != existing[i].key) implies (
            #[trigger] next[i]).value == existing[i].value by {
                assert(new[n - 1].key != existing[i].key);
                assert(i != at);
                assert(r[i].value == existing[i].value);
            }
            assert forall|j: int| 0 <= j < n implies exists|p: int|
                0 <= p < next.len() && (#[trigger] next[p]).key == new[j].key && next[p].value
                    == merged_value(existing, #[trigger] new[j]) by {
                if j < m {
                    let p = choose|p: int|
                        0 <= p < r.len() && r[p].key == new[j].key && r[p].value == merged_value(
                            existing,
                            new[j],
                        );
                    assert(new[j].key != new[n - 1].key);
                    assert(p != at);
                    assert(next[p] == r[p]);
                } else {
                    assert(next[at].key == new[j].key);
                    assert(next[at].value == merged_value(existing, new[j]));
                }
            }
        } else {
            assert(next == r.push(member));
            assert(keys_distinct(next)) by {
                assert forall|i: int, j: int| 0 <= i < j < next.len() implies (
                #[trigger] next[i]).key != (#[trigger] next[j]).key by {
                    if j < r.len() {
                        assert(r[i].key != r[j].key);
                    } else {
                        assert(r[i].key != k);
                    }
                }
            }
            assert forall|i: int| existing.len() <= i < next.len() implies exists|j: int|
                0 <= j < n && (#[trigger] next[i]).key == (#[trigger] new[j]).key by {
                if i < r.len() {
                    let j = choose|j: int| 0 <= j < m && r[i].key == new[j].key;
                    assert(next[i].key == new[j].key);
                } else {
                    assert(next[i].key == new[n - 1].key);
                }
            }
            if q < existing.len() {
                assert(r[q].key == existing[q].key);
                assert(r[q].key != k);
                assert(false);
            }
            assert forall|i: int|
                0 <= i < existing.len() && (forall|j: int|
                    0 <= j < n ==> (#[trigger] new[j]).key != existing[i].key) implies (
            #[trigger] next[i]).value == existing[i].value by {
                assert forall|j: int| 0 <= j < m implies (#[trigger] new[j]).key
                    != existing[i].key by {}
                assert(r[i].value == existing[i].value);
            }
            assert forall|j: int| 0 <= j < n implies exists|p: int|
                0 <= p < next.len() && (#[trigger] next[p]).key == new[j].key && next[p].value
                    == merged_value(existing, #[trigger] new[j]) by {
                if j < m {
                    let p = choose|p: int|
                        0 <= p < r.len() && r[p].key == new[j].key && r[p].value == merged_value(
                            existing,
                            new[j],
                        );
                    assert(next[p] == r[p]);
                } else {
                    assert(next[r.len() as int] == member);
                }
            }
        }
    }
}

/// A message delivered twice does no more than the message delivered once:
/// merging a well-formed document into a well-formed document a second time
/// leaves the result of the first merge as it is.
pub proof fn lemma_merge_again(existing: JsonModel, new: JsonModel)
    requires
        well_formed(existing),
        well_formed(new),
    ensures
        merged(merged(existing, new), new) == merged(existing, new),
    decreases new, 0nat,
{
    match (existing, new) {
        (JsonModel::Object(a), JsonModel::Object(b)) => {
            lemma_members_merged(a, b, b.len());
            lemma_merge_members_again(a, b, b.len());
        },
        (JsonModel::Array(a), JsonModel::Array(b)) => {
            lemma_items_all_held(a, b);
            lemma_items_held(merged_items(a, b), b);
        },
        _ => {
            lemma_merge_self(new);
        },
    }
}

/// Merging the first `n` members of `new` a second time leaves the result
/// of the whole first merge as it is.
pub proof fn lemma_merge_members_again(existing: Seq<MemberModel>, new: Seq<MemberModel>, n: nat)
    requires
        well_formed(JsonModel::Object(existing)),
        well_formed(JsonModel::Object(new)),
        n <= new.len(),
        members_merged(existing, new, new.len(), merged_members(existing, new, new.len())),
    ensures
        merged_members(merged_members(existing, new, new.len()), new, n) == merged_members(
            existing,
            new,
            new.len(),
        ),
    decreases new, n,
{
    if n > 0 {
        let r = merged_members(existing, new, new.len());
        lemma_merge_members_again(existing, new, (n - 1) as nat);
        let member = new[n - 1];
        let p = choose|p: int|
            0 <= p < r.len() && r[p].key == member.key && r[p].value == merged_value(
                existing,
                member,
            );
        lemma_key_position(r, p);
        let q = key_position(existing, member.key);
        lemma_key_position_found(existing, member.key);
        assert(well_formed(member.value));
        if q < existing.len() {
            assert(well_formed(existing[q].value));
            lemma_merge_again(existing[q].value, member.value);
        } else {
            lemma_merge_self(member.value);
        }
        assert(merged(r[p].value, member.value) == r[p].value);
        assert(r.update(
            p,
            MemberModel { key: member.key, value: merged(r[p].value, member.value) },
        ) =~= r);
    }
}

/// The members of a well-formed object have distinct keys and well-formed
/// values.
pub proof fn lemma_members_well_formed(members: Seq<MemberModel>)
    requires
        well_formed(JsonModel::Object(members)),
    ensures
        keys_distinct(members),
        forall|i: int| 0 <= i < members.len() ==> well_formed((#[trigger] members[i]).value),
{
    let object = JsonModel::Object(members);
    assert(keys_distinct(object->Object_0));
    assert forall|i: int| 0 <= i < members.len() implies well_formed(
        (#[trigger] members[i]).value,
    ) by {
        assert(well_formed(object->Object_0[i].value));
    }
}

/// Merging keeps documents well formed: where no object of either document
/// has a key twice, no object of the merged document has.
pub proof fn lemma_merge_well_formed(existing: JsonModel, new: JsonModel)
    requires
        well_formed(existing),
        well_formed(new),
    ensures
        well_formed(merged(existing, new)),
    decreases new, 0nat,
{
    match (existing, new) {
        (JsonModel::Object(a), JsonModel::Object(b)) => {
            lemma_merge_members_well_formed(a, b, b.len());
            let result = merged(existing, new);
            let members = merged_members(a, b, b.len());
            assert(result->Object_0 == members);
            assert forall|i: int| 0 <= i < result->Object_0.len() implies well_formed(
                (#[trigger] result->Object_0[i]).value,
            ) by {
                assert(well_formed(members[i].value));
            }
        },
        (JsonModel::Array(a), JsonModel::Array(b)) => {
            lemma_items_well_formed(a);
            lemma_items_well_formed(b);
            lemma_merge_items_well_formed(a, b);
            let result = merged(existing, new);
            let items = merged_items(a, b);
            assert(result->Array_0 == items);
            assert forall|i: int| 0 <= i < result->Array_0.len() implies well_formed(
                #[trigger] result->Array_0[i],
            ) by {
                assert(well_formed(items[i]));
            }
        },
        _ => {},
    }
}

/// Joining arrays of well-formed items gives well-formed items.
pub proof fn lemma_merge_items_well_formed(existing: Seq<JsonModel>, new: Seq<JsonModel>)
    requires
        forall|i: int| 0 <= i < existing.len() ==> well_formed(#[trigger] existing[i]),
        forall|i: int| 0 <= i < new.len() ==> well_formed(#[trigger] new[i]),
    ensures
        forall|i: int|
            0 <= i < merged_items(existing, new).len() ==> well_formed(
                #[trigger] merged_items(existing, new)[i],
            ),
    decreases new.len(),
{
    if new.len() > 0 {
        let rest = new.drop_last();
        assert forall|i: int| 0 <= i < rest.len() implies well_formed(#[trigger] rest[i]) by {
            assert(rest[i] == new[i]);
        }
        lemma_merge_items_well_formed(existing, rest);
        let sofar = merged_items(existing, rest);
        let all = merged_items(existing, new);
        assert forall|i: int| 0 <= i < all.len() implies well_formed(#[trigger] all[i]) by {
            if i < sofar.len() {
                assert(all[i] == sofar[i]);
            } else {
                assert(all[i] == new[new.len() - 1]);
            }
        }
    }
}

/// Merging the first `n` members of a well-formed object into a well-formed
/// object gives members with distinct keys and well-formed values.
pub proof fn lemma_merge_members_well_formed(
    existing: Seq<MemberModel>,
    new: Seq<MemberModel>,
    n: nat,
)
    requires
        well_formed(JsonModel::Object(existing)),
        well_formed(JsonModel::Object(new)),
        n <= new.len(),
    ensures
        keys_distinct(merged_members(existing, new, n)),
        forall|i: int|
            0 <= i < merged_members(existing, new, n).len() ==> well_formed(
                (#[trigger] merged_members(existing, new, n)[i]).value,
            ),
    decreases new, n,
{
    lemma_members_well_formed(existing);
    lemma_members_well_formed(new);
    lemma_members_merged(existing, new, n);
    if n > 0 {
        let m = (n - 1) as nat;
        lemma_merge_members_well_formed(existing, new, m);
        let sofar = merged_members(existing, new, m);
        let member = new[n - 1];
        let at = key_position(sofar, member.key);
        let next = merged_members(existing, new, n);
        lemma_key_position_found(sofar, member.key);
        assert(well_formed(member.value));
        if at < sofar.len() {
            assert(well_formed(sofar[at].value));
            lemma_merge_well_formed(sofar[at].value, member.value);
            assert forall|i: int| 0 <= i < next.len() implies well_formed(
                (#[trigger] next[i]).value,
            ) by {
                if i != at {
                    assert(next[i] == sofar[i]);
                }
            }
        } else {
            assert forall|i: int| 0 <= i < next.len() implies well_formed(
                (#[trigger] next[i]).value,
            ) by {
                if i < sofar.len() {
                    assert(next[i] == sofar[i]);
                }
            }
        }
    }
}

} // verus!
