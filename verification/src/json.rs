//! JSON documents as plain values.

use crate::text::same_text;
use vstd::prelude::*;

verus! {

/// A `serde_json::Value`, which only this module looks into.
#[verifier::external_type_specification]
#[verifier::external_body]
pub struct ExJsonValue(serde_json::Value);

/// What a JSON document holds. What a number is does not matter here.
pub enum Json {
    Null,
    Bool(bool),
    Number,
    Text(Seq<char>),
    Array(Seq<Json>),
    /// The members of an object, in the order in which the document's reader lists them.
    Object(Seq<(Seq<char>, Json)>),
}

/// A JSON document.
#[derive(Debug, PartialEq, Eq)]
pub enum JsonValue {
    Null,
    Bool(bool),
    Number,
    Text(String),
    Array(Vec<JsonValue>),
    Object(Vec<(String, JsonValue)>),
}

/// What a [`JsonValue`] holds.
pub open spec fn json_of(value: JsonValue) -> Json
    decreases value,
{
    match value {
        JsonValue::Null => Json::Null,
        JsonValue::Bool(flag) => Json::Bool(flag),
        JsonValue::Number => Json::Number,
        JsonValue::Text(text) => Json::Text(text@),
        JsonValue::Array(items) => Json::Array(
            Seq::new(
                items@.len(),
                |i: int|
                    if 0 <= i < items@.len() {
                        json_of(items@[i])
                    } else {
                        Json::Null
                    },
            ),
        ),
        JsonValue::Object(members) => Json::Object(
            Seq::new(
                members@.len(),
                |i: int|
                    if 0 <= i < members@.len() {
                        (members@[i].0@, json_of(members@[i].1))
                    } else {
                        (Seq::empty(), Json::Null)
                    },
            ),
        ),
    }
}

impl View for JsonValue {
    type V = Json;

    open spec fn view(&self) -> Json {
        json_of(*self)
    }
}

/// What a `serde_json::Value` holds.
pub uninterp spec fn json_contents(value: serde_json::Value) -> Json;

/// What `serde_json::from_slice` makes of bytes: a document, or what its error says.
pub uninterp spec fn json_document(bytes: Seq<u8>) -> Result<Json, Seq<char>>;

/// A `serde_json::Value` opened by one level.
enum JsonNode {
    Null,
    Bool(bool),
    Number,
    Text(String),
    Array(Vec<serde_json::Value>),
    Object(Vec<(String, serde_json::Value)>),
}

spec fn node_contents(node: JsonNode) -> Json {
    match node {
        JsonNode::Null => Json::Null,
        JsonNode::Bool(flag) => Json::Bool(flag),
        JsonNode::Number => Json::Number,
        JsonNode::Text(text) => Json::Text(text@),
        JsonNode::Array(items) => Json::Array(
            items@.map_values(|item: serde_json::Value| json_contents(item)),
        ),
        JsonNode::Object(members) => Json::Object(
            members@.map_values(
                |member: (String, serde_json::Value)| (member.0@, json_contents(member.1)),
            ),
        ),
    }
}

/// `serde_json::from_slice` reads a document; its result depends on the bytes alone.
#[verifier::external_body]
fn read_json(bytes: &[u8]) -> (document: Result<serde_json::Value, String>)
    ensures
        match document {
            Ok(value) => json_document(bytes@) == Ok::<Json, Seq<char>>(json_contents(value)),
            Err(message) => json_document(bytes@) == Err::<Json, Seq<char>>(message@),
        },
{
    serde_json::from_slice(bytes).map_err(|error: serde_json::Error| error.to_string())
}

/// The variants of `serde_json::Value`, told apart. A `serde_json::Map` is listed in its own order.
#[verifier::external_body]
fn open_json(value: serde_json::Value) -> (node: JsonNode)
    ensures
        node_contents(node) == json_contents(value),
{
    match value {
        serde_json::Value::Null => JsonNode::Null,
        serde_json::Value::Bool(flag) => JsonNode::Bool(flag),
        serde_json::Value::Number(_) => JsonNode::Number,
        serde_json::Value::String(text) => JsonNode::Text(text),
        serde_json::Value::Array(items) => JsonNode::Array(items),
        serde_json::Value::Object(members) => JsonNode::Object(members.into_iter().collect()),
    }
}

/// Turn a document into plain values.
fn plain_json(value: serde_json::Value) -> (plain: JsonValue)
    ensures
        plain@ == json_contents(value),
    decreases json_contents(value),
{
    let ghost contents = json_contents(value);
    match open_json(value) {
        JsonNode::Null => JsonValue::Null,
        JsonNode::Bool(flag) => JsonValue::Bool(flag),
        JsonNode::Number => JsonValue::Number,
        JsonNode::Text(text) => JsonValue::Text(text),
        JsonNode::Array(items) => {
            let ghost all = items@;
            let mut plain: Vec<JsonValue> = Vec::new();
            for item in iter: items
                invariant
                    iter.seq() == all,
                    contents == json_contents(value),
                    contents == Json::Array(
                        all.map_values(|item: serde_json::Value| json_contents(item)),
                    ),
                    plain@.len() == iter.index(),
                    forall|i: int|
                        0 <= i < plain@.len() ==> json_of(#[trigger] plain@[i]) == json_contents(
                            all[i],
                        ),
            {
                assert(contents->Array_0[iter.index() as int] == json_contents(item));
                plain.push(plain_json(item));
            }
            let plain = JsonValue::Array(plain);
            assert(json_of(plain)->Array_0 =~= contents->Array_0);
            plain
        },
        JsonNode::Object(members) => {
            let ghost all = members@;
            let mut plain: Vec<(String, JsonValue)> = Vec::new();
            for member in iter: members
                invariant
                    iter.seq() == all,
                    contents == json_contents(value),
                    contents == Json::Object(
                        all.map_values(
                            |member: (String, serde_json::Value)|
                                (member.0@, json_contents(member.1)),
                        ),
                    ),
                    plain@.len() == iter.index(),
                    forall|i: int|
                        0 <= i < plain@.len() ==> (#[trigger] plain@[i]).0@ == all[i].0@ && json_of(
                            plain@[i].1,
                        ) == json_contents(all[i].1),
            {
                assert(contents->Object_0[iter.index() as int].1 == json_contents(member.1));
                plain.push((member.0, plain_json(member.1)));
            }
            let plain = JsonValue::Object(plain);
            assert(json_of(plain)->Object_0 =~= contents->Object_0);
            plain
        },
    }
}

impl JsonValue {
    /// Read a document.
    pub fn from_bytes(bytes: &[u8]) -> (document: Result<JsonValue, String>)
        ensures
            match document {
                Ok(value) => json_document(bytes@) == Ok::<Json, Seq<char>>(value@),
                Err(message) => json_document(bytes@) == Err::<Json, Seq<char>>(message@),
            },
    {
        match read_json(bytes) {
            Ok(value) => Ok(plain_json(value)),
            Err(message) => Err(message),
        }
    }
}

/// The first member with a name.
pub open spec fn member_named(members: Seq<(Seq<char>, Json)>, name: Seq<char>) -> Option<Json>
    decreases members.len(),
{
    if members.len() == 0 {
        None
    } else if members[0].0 == name {
        Some(members[0].1)
    } else {
        member_named(members.skip(1), name)
    }
}

/// The member of an object with a name; nothing else has members.
pub open spec fn json_member(value: Json, name: Seq<char>) -> Option<Json> {
    match value {
        Json::Object(members) => member_named(members, name),
        _ => None,
    }
}

impl JsonValue {
    /// The member of an object with a name.
    pub fn member(&self, name: &str) -> (member: Option<&JsonValue>)
        ensures
            match member {
                Some(value) => json_member(self@, name@) == Some(value@),
                None => json_member(self@, name@) is None,
            },
    {
        match self {
            JsonValue::Object(members) => {
                let wanted = name.to_owned();
                let ghost all = self@->Object_0;
                let mut i: usize = 0;
                assert(all.skip(0) =~= all);
                while i < members.len()
                    invariant
                        i <= members@.len(),
                        wanted@ == name@,
                        all == json_of(*self)->Object_0,
                        *self == JsonValue::Object(*members),
                        member_named(all, name@) == member_named(all.skip(i as int), name@),
                    decreases members@.len() - i,
                {
                    proof {
                        assert(all.skip(i as int)[0] == all[i as int]);
                        assert(all.skip(i as int).skip(1) =~= all.skip(i + 1));
                        assert(all[i as int].0 == members@[i as int].0@);
                        assert(all[i as int].1 == json_of(members@[i as int].1));
                    }
                    if same_text(&members[i].0, &wanted) {
                        return Some(&members[i].1);
                    }
                    i += 1;
                }
                assert(all.skip(i as int) =~= Seq::<(Seq<char>, Json)>::empty());
                None
            },
            _ => None,
        }
    }
}

/// A value holds what it is made of: text its text, an array its items in order, and an object its
/// members in order, each under its own name.
pub proof fn values_hold_what_they_are_made_of(
    text: String,
    items: Vec<JsonValue>,
    members: Vec<(String, JsonValue)>,
    at: int,
)
    ensures
        JsonValue::Null@ == Json::Null,
        JsonValue::Number@ == Json::Number,
        JsonValue::Bool(true)@ == Json::Bool(true),
        JsonValue::Bool(false)@ == Json::Bool(false),
        JsonValue::Text(text)@ == Json::Text(text@),
        JsonValue::Array(items)@ matches Json::Array(list) && list.len() == items@.len() && (0
            <= at < list.len() ==> list[at] == items@[at]@),
        JsonValue::Object(members)@ matches Json::Object(list) && list.len() == members@.len() && (0
            <= at < list.len() ==> list[at] == (members@[at].0@, members@[at].1@)),
{
    reveal_with_fuel(json_of, 2);
}

} // verus!
