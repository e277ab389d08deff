//! JSON values: the tree that requests are inspected in, and the reader that
//! makes one from the bytes of a body.

use crate::keys::{before, is_ascending};
use vstd::prelude::*;

verus! {

/// What a JSON value is: the mathematical model of [`JsonValue`].
///
/// A number is the text that it prints as. An object is its members in the
/// order in which they are walked.
pub enum Json {
    Null,
    Bool(bool),
    Number(Seq<char>),
    String(Seq<char>),
    Array(Seq<Json>),
    Object(Seq<(Seq<char>, Json)>),
}

/// A JSON value.
#[derive(Debug, PartialEq, Eq)]
pub enum JsonValue {
    Null,
    Bool(bool),
    /// A number, as the text that it prints as.
    Number(String),
    String(String),
    Array(Vec<JsonValue>),
    /// The members of an object, in the order in which they are walked.
    Object(Vec<(String, JsonValue)>),
}

/// The model of a value.
pub open spec fn json_of(value: JsonValue) -> Json
    decreases value,
{
    match value {
        JsonValue::Null => Json::Null,
        JsonValue::Bool(b) => Json::Bool(b),
        JsonValue::Number(text) => Json::Number(text@),
        JsonValue::String(text) => Json::String(text@),
        JsonValue::Array(items) => Json::Array(
            Seq::new(
                items@.len(),
                |i: int|
                    if 0 <= i < items@.len() {
                        json_of(items@[i])
                    } else {
                        arbitrary()
                    },
            ),
        ),
        JsonValue::Object(members) => Json::Object(
            Seq::new(
                members@.len(),
                |i: int|
                    if 0 <= i < members@.len() {
                        (members@[i].0@, json_of(members@[i].1))
                    } else {
                        arbitrary()
                    },
            ),
        ),
    }
}

impl View for JsonValue {
    type V = Json;

    open spec fn view(&self) -> Json {
        json_of(*self)
    }
}

/// The value of the first member of that name, where there is one.
pub open spec fn first_member(members: Seq<(Seq<char>, Json)>, name: Seq<char>) -> Option<Json>
    decreases members.len(),
{
    if members.len() == 0 {
        None
    } else if members[0].0 == name {
        Some(members[0].1)
    } else {
        first_member(members.drop_first(), name)
    }
}

impl Json {
    /// The member of that name, where the value is an object that has one.
    pub open spec fn member(self, name: Seq<char>) -> Option<Json> {
        match self {
            Json::Object(members) => first_member(members, name),
            _ => None,
        }
    }

    /// Whether no object in the tree has two members of one name.
    pub open spec fn unique_names(self) -> bool
        decreases self,
    {
        match self {
            Json::Array(items) => forall|i: int|
                0 <= i < items.len() ==> (#[trigger] items[i]).unique_names(),
            Json::Object(members) => {
                &&& names(members).no_duplicates()
                &&& forall|i: int|
                    0 <= i < members.len() ==> (#[trigger] members[i]).1.unique_names()
            },
            _ => true,
        }
    }

    /// Whether the members of every object in the tree stand in the order of their names.
    pub open spec fn names_in_order(self) -> bool
        decreases self,
    {
        match self {
            Json::Array(items) => forall|i: int|
                0 <= i < items.len() ==> (#[trigger] items[i]).names_in_order(),
            Json::Object(members) => {
                &&& is_ascending(names(members))
                &&& forall|i: int|
                    0 <= i < members.len() ==> (#[trigger] members[i]).1.names_in_order()
            },
            _ => true,
        }
    }
}

/// Members in the order of their names have different names.
pub proof fn lemma_ordered_names_are_unique(value: Json)
    requires
        value.names_in_order(),
    ensures
        value.unique_names(),
    decreases value,
{
    match value {
        Json::Array(items) => {
            assert(decreases_to!(value => value->Array_0));
            assert forall|i: int| 0 <= i < items.len() implies (
            #[trigger] items[i]).unique_names() by {
                assert(decreases_to!(items => items[i]));
                lemma_ordered_names_are_unique(items[i]);
            }
        },
        Json::Object(members) => {
            assert(decreases_to!(value => value->Object_0));
            assert forall|i: int| 0 <= i < members.len() implies (
            #[trigger] members[i]).1.unique_names() by {
                assert(decreases_to!(members => members[i]));
                assert(decreases_to!(members[i] => members[i].1));
                lemma_ordered_names_are_unique(members[i].1);
            }
            assert forall|i: int, j: int|
                0 <= i < names(members).len() && 0 <= j < names(members).len() && i
                    != j implies names(members)[i] != names(members)[j] by {
                if i < j {
                    assert(before(names(members)[i], names(members)[j]));
                } else {
                    assert(before(names(members)[j], names(members)[i]));
                }
            }
        },
        _ => {},
    }
}

/// The names of the members, in order.
pub open spec fn names(members: Seq<(Seq<char>, Json)>) -> Seq<Seq<char>> {
    Seq::new(members.len(), |i: int| members[i].0)
}

/// The place of the first member of that name.
pub proof fn lemma_first_member_place(members: Seq<(Seq<char>, Json)>, name: Seq<char>) -> (at: int)
    requires
        first_member(members, name) is Some,
    ensures
        0 <= at < members.len(),
        members[at] == (name, first_member(members, name)->0),
    decreases members.len(),
{
    if members[0].0 == name {
        0
    } else {
        lemma_first_member_place(members.drop_first(), name) + 1
    }
}

/// Where no two members have one name, each is the first of its name.
pub proof fn lemma_unique_member_is_first(members: Seq<(Seq<char>, Json)>, at: int)
    requires
        0 <= at < members.len(),
        names(members).no_duplicates(),
    ensures
        first_member(members, members[at].0) == Some(members[at].1),
    decreases members.len(),
{
    if at > 0 {
        let rest = members.drop_first();
        assert(names(members)[0] != names(members)[at]);
        assert forall|i: int, j: int|
            0 <= i < names(rest).len() && 0 <= j < names(rest).len() && i != j implies names(
            rest,
        )[i] != names(rest)[j] by {
            assert(names(rest)[i] == names(members)[i + 1]);
            assert(names(rest)[j] == names(members)[j + 1]);
        }
        lemma_unique_member_is_first(rest, at - 1);
    }
}

impl JsonValue {
    /// The member of that name, where the value is an object that has one.
    pub fn get(&self, name: &str) -> (member: Option<&JsonValue>)
        ensures
            self@.member(name@) == (match member {
                Some(value) => Some(value@),
                None => None,
            }),
    {
        match self {
            JsonValue::Object(members) => {
                let wanted = name.to_string();
                let ghost all = self@->Object_0;
                assert(all.skip(0) =~= all);
                for i in 0..members.len()
                    invariant
                        self@ == Json::Object(all),
                        *self == JsonValue::Object(*members),
                        all.len() == members.len(),
                        wanted@ == name@,
                        first_member(all, name@) == first_member(all.skip(i as int), name@),
                {
                    assert(all.skip(i as int)[0] == all[i as int]);
                    assert(all.skip(i as int).drop_first() =~= all.skip(i + 1));
                    if members[i].0 == wanted {
                        return Some(&members[i].1);
                    }
                }
                None
            },
            _ => None,
        }
    }
}

/// `serde_json::Value`, the value that the reader makes.
#[verifier::external_type_specification]
#[verifier::external_body]
pub struct ExSerdeValue(serde_json::Value);

/// `serde_json::Error`, what the reader says of bytes that it refuses.
#[verifier::external_type_specification]
#[verifier::external_body]
pub struct ExSerdeError(serde_json::Error);

/// What a `serde_json::Value` holds.
pub uninterp spec fn serde_contents(value: serde_json::Value) -> Json;

/// What `serde_json::from_slice` reads in those bytes: `None` where it refuses them.
pub uninterp spec fn read_json(body: Seq<u8>) -> Option<Json>;

/// One level of a `serde_json::Value`.
enum JsonNode<'a> {
    Null,
    Bool(bool),
    Number(String),
    String(&'a String),
    Array(&'a Vec<serde_json::Value>),
    Object(Vec<(&'a String, &'a serde_json::Value)>),
}

/// Calls `serde_json::from_slice`, which reads the bytes as one JSON value, or
/// refuses them. What it reads in given bytes is named `read_json`.
#[verifier::external_body]
fn serde_from_slice(body: &[u8]) -> (value: Result<serde_json::Value, serde_json::Error>)
    ensures
        read_json(body@) == (match value {
            Ok(value) => Some(serde_contents(value)),
            Err(_) => None,
        }),
{
    serde_json::from_slice::<serde_json::Value>(body)
}

/// Tells the variants of a `serde_json::Value` apart and hands out what each
/// holds. A number is the text that `Number` prints; an object is its entries,
/// as `Map::iter` walks them: each once, in the order of their keys.
#[verifier::external_body]
fn serde_node(value: &serde_json::Value) -> (node: JsonNode<'_>)
    ensures
        serde_contents(*value) == (match node {
            JsonNode::Null => Json::Null,
            JsonNode::Bool(b) => Json::Bool(b),
            JsonNode::Number(text) => Json::Number(text@),
            JsonNode::String(text) => Json::String(text@),
            JsonNode::Array(items) => Json::Array(
                Seq::new(items@.len(), |i: int| serde_contents(items@[i])),
            ),
            JsonNode::Object(entries) => Json::Object(
                Seq::new(entries@.len(), |i: int| (entries@[i].0@, serde_contents(*entries@[i].1))),
            ),
        }),
        node matches JsonNode::Object(entries) ==> is_ascending(
            Seq::new(entries@.len(), |i: int| entries@[i].0@),
        ),
{
    match value {
        serde_json::Value::Null => JsonNode::Null,
        serde_json::Value::Bool(b) => JsonNode::Bool(*b),
        serde_json::Value::Number(n) => JsonNode::Number(n.to_string()),
        serde_json::Value::String(s) => JsonNode::String(s),
        serde_json::Value::Array(items) => JsonNode::Array(items),
        serde_json::Value::Object(map) => JsonNode::Object(map.iter().collect()),
    }
}

/// The tree that a `serde_json::Value` holds.
fn from_serde(value: &serde_json::Value) -> (tree: JsonValue)
    ensures
        tree@ == serde_contents(*value),
        tree@.names_in_order(),
    decreases serde_contents(*value),
{
    match serde_node(value) {
        JsonNode::Null => JsonValue::Null,
        JsonNode::Bool(b) => JsonValue::Bool(b),
        JsonNode::Number(text) => JsonValue::Number(text),
        JsonNode::String(text) => JsonValue::String(text.clone()),
        JsonNode::Array(nodes) => {
            let ghost all = serde_contents(*value)->Array_0;
            let mut items: Vec<JsonValue> = Vec::new();
            for i in 0..nodes.len()
                invariant
                    serde_contents(*value) == Json::Array(all),
                    all.len() == nodes.len(),
                    forall|j: int| 0 <= j < all.len() ==> all[j] == serde_contents(nodes@[j]),
                    items.len() == i,
                    forall|j: int| 0 <= j < i ==> (#[trigger] items@[j])@ == all[j],
                    forall|j: int| 0 <= j < i ==> (#[trigger] items@[j])@.names_in_order(),
            {
                assert(decreases_to!(serde_contents(*value) => serde_contents(*value)->Array_0));
                assert(decreases_to!(all => all[i as int]));
                items.push(from_serde(&nodes[i]));
            }
            let tree = JsonValue::Array(items);
            assert(tree@->Array_0 =~= all);
            tree
        },
        JsonNode::Object(entries) => {
            let ghost all = serde_contents(*value)->Object_0;
            let mut members: Vec<(String, JsonValue)> = Vec::new();
            for i in 0..entries.len()
                invariant
                    serde_contents(*value) == Json::Object(all),
                    all.len() == entries.len(),
                    forall|j: int|
                        0 <= j < all.len() ==> all[j] == (
                            entries@[j].0@,
                            serde_contents(*entries@[j].1),
                        ),
                    members.len() == i,
                    forall|j: int|
                        0 <= j < i ==> ((#[trigger] members@[j]).0@, members@[j].1@) == all[j],
                    forall|j: int| 0 <= j < i ==> (#[trigger] members@[j]).1@.names_in_order(),
            {
                assert(decreases_to!(serde_contents(*value) => serde_contents(*value)->Object_0));
                assert(decreases_to!(all => all[i as int]));
                assert(decreases_to!(all[i as int] => all[i as int].1));
                let (name, child) = entries[i];
                members.push((name.clone(), from_serde(child)));
            }
            let tree = JsonValue::Object(members);
            assert(tree@->Object_0 =~= all);
            assert(names(all) =~= Seq::new(entries@.len(), |i: int| entries@[i].0@));
            tree
        },
    }
}

/// Reads the bytes of a body as one JSON value; `None` where they are none.
pub fn parse_json(body: &[u8]) -> (value: Option<JsonValue>)
    ensures
        read_json(body@) == (match value {
            Some(value) => Some(value@),
            None => None,
        }),
        value matches Some(value) ==> value@.names_in_order() && value@.unique_names(),
{
    match serde_from_slice(body) {
        Ok(value) => {
            let tree = from_serde(&value);
            proof {
                lemma_ordered_names_are_unique(tree@);
            }
            Some(tree)
        },
        Err(_) => None,
    }
}

} // verus!
