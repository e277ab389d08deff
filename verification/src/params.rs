//! Flattening: the params of a call as a map from dotted path to text.

use crate::json::{Json, JsonValue};
use std::collections::HashMap;
use vstd::prelude::*;

verus! {

/// What the params of a call are once flattened: the text at each dotted path.
pub type ParamMap = Map<Seq<char>, Seq<char>>;

/// One stop of the walk over a value.
pub enum Visit {
    /// A string, number or bool: the path that leads to it, and its text.
    Leaf { path: Seq<char>, text: Seq<char> },
    /// A member whose name holds a dot.
    Dotted { name: Seq<char> },
}

/// The text of a string, a number or a bool.
pub open spec fn scalar_text(value: Json) -> Option<Seq<char>> {
    match value {
        Json::String(text) => Some(text),
        Json::Number(text) => Some(text),
        Json::Bool(b) => Some(
            if b {
                "true"@
            } else {
                "false"@
            },
        ),
        _ => None,
    }
}

/// The path of a member below the object at `prefix`.
pub open spec fn joined(prefix: Seq<char>, name: Seq<char>) -> Seq<char> {
    if prefix.len() == 0 {
        name
    } else {
        prefix + seq!['.'] + name
    }
}

/// The stops of the walk over a scalar at `prefix`.
pub open spec fn leaf_visits(prefix: Seq<char>, text: Seq<char>) -> Seq<Visit> {
    if prefix.len() == 0 {
        Seq::empty()
    } else {
        seq![Visit::Leaf { path: prefix, text }]
    }
}

/// The stops of the walk over the value at `prefix`: objects are entered, member
/// by member; arrays and nulls are passed over, and so is a scalar at the empty
/// path.
pub open spec fn visits(prefix: Seq<char>, value: Json) -> Seq<Visit>
    decreases value,
{
    match value {
        Json::Object(members) => members_visits(prefix, members),
        _ => match scalar_text(value) {
            Some(text) => leaf_visits(prefix, text),
            None => Seq::empty(),
        },
    }
}

/// The stops of the walk over one member of the object at `prefix`.
pub open spec fn member_visits(prefix: Seq<char>, member: (Seq<char>, Json)) -> Seq<Visit>
    decreases member,
{
    if member.0.contains('.') {
        seq![Visit::Dotted { name: member.0 }]
    } else {
        visits(joined(prefix, member.0), member.1)
    }
}

/// The stops of the walk over the members of the object at `prefix`.
pub open spec fn members_visits(prefix: Seq<char>, members: Seq<(Seq<char>, Json)>) -> Seq<Visit>
    decreases members,
{
    if members.len() == 0 {
        Seq::empty()
    } else {
        members_visits(prefix, members.drop_last()) + member_visits(prefix, members.last())
    }
}

/// What has been written down of a walk.
pub struct Record {
    pub params: ParamMap,
    /// Why the walk was given up, if it was.
    pub error: Option<Seq<char>>,
}

pub open spec fn dotted_error(name: Seq<char>) -> Seq<char> {
    "ambiguous dotted params key '"@ + name + "' is not allowed"@
}

pub open spec fn collision_error(path: Seq<char>) -> Seq<char> {
    "ambiguous params key collision at '"@ + path + "'"@
}

/// The record of a walk that starts with `held`: each leaf is written down, and
/// the walk is given up at a dotted name, and at a path that is already taken.
pub open spec fn recorded(held: ParamMap, stops: Seq<Visit>) -> Record
    decreases stops.len(),
{
    if stops.len() == 0 {
        Record { params: held, error: None }
    } else {
        let before = recorded(held, stops.drop_last());
        if before.error is Some {
            before
        } else {
            match stops.last() {
                Visit::Dotted { name } => Record {
                    params: before.params,
                    error: Some(dotted_error(name)),
                },
                Visit::Leaf { path, text } => Record {
                    params: before.params.insert(path, text),
                    error: if before.params.contains_key(path) {
                        Some(collision_error(path))
                    } else {
                        None
                    },
                },
            }
        }
    }
}

/// The flattened params, or why they are refused.
pub open spec fn flattened(value: Json) -> Result<ParamMap, Seq<char>> {
    let record = recorded(Map::empty(), visits(Seq::empty(), value));
    match record.error {
        None => Ok(record.params),
        Some(error) => Err(error),
    }
}

/// The record of a walk of one stop.
pub proof fn lemma_recorded_one(held: ParamMap, stop: Visit)
    ensures
        recorded(held, seq![stop]) == (match stop {
            Visit::Dotted { name } => Record { params: held, error: Some(dotted_error(name)) },
            Visit::Leaf { path, text } => Record {
                params: held.insert(path, text),
                error: if held.contains_key(path) {
                    Some(collision_error(path))
                } else {
                    None
                },
            },
        }),
{
    assert(seq![stop].drop_last() =~= Seq::<Visit>::empty());
    reveal_with_fuel(recorded, 2);
}

/// A record goes on where an earlier one ended, unless that was given up.
pub proof fn lemma_recorded_concat(held: ParamMap, first: Seq<Visit>, second: Seq<Visit>)
    ensures
        recorded(held, first + second) == (if recorded(held, first).error is Some {
            recorded(held, first)
        } else {
            recorded(recorded(held, first).params, second)
        }),
    decreases second.len(),
{
    if second.len() == 0 {
        assert(first + second =~= first);
    } else {
        lemma_recorded_concat(held, first, second.drop_last());
        assert((first + second).drop_last() =~= first + second.drop_last());
    }
}

/// The walk over an object is the walk over its first members, then over the rest.
pub proof fn lemma_members_visits_split(
    prefix: Seq<char>,
    members: Seq<(Seq<char>, Json)>,
    at: int,
)
    requires
        0 <= at <= members.len(),
    ensures
        members_visits(prefix, members) == members_visits(prefix, members.take(at))
            + members_visits(prefix, members.skip(at)),
    decreases members.len(),
{
    if at == members.len() {
        assert(members.take(at) =~= members);
        assert(members.skip(at).len() == 0);
    } else {
        lemma_members_visits_split(prefix, members.drop_last(), at);
        assert(members.drop_last().take(at) =~= members.take(at));
        assert(members.drop_last().skip(at) =~= members.skip(at).drop_last());
    }
}

/// Calls `HashMap::insert`: puts the value under the key, and returns what was
/// under it before, if anything was. Of a map with `String` keys, vstd's own
/// contract for it says nothing.
#[verifier::external_body]
fn hash_map_insert(map: &mut HashMap<String, String>, key: String, value: String) -> (previous:
    Option<String>)
    ensures
        final(map).deep_view() == old(map).deep_view().insert(key@, value@),
        previous is Some <==> old(map).deep_view().contains_key(key@),
        previous matches Some(text) ==> text@ == old(map).deep_view()[key@],
{
    map.insert(key, value)
}

/// A map without entries.
pub(crate) fn empty_params() -> (params: HashMap<String, String>)
    ensures
        params.deep_view() == ParamMap::empty(),
{
    let params = HashMap::new();
    proof {
        reveal(vstd::std_specs::hash::hash_map_deep_view_impl);
    }
    assert(params.deep_view() =~= ParamMap::empty());
    params
}

/// The text between two others.
pub(crate) fn enclosed(before: &str, text: &str, after: &str) -> (whole: String)
    ensures
        whole@ == before@ + text@ + after@,
{
    let mut whole = before.to_string();
    whole.append(text);
    whole.append(after);
    whole
}

/// Whether the name holds a dot.
fn has_dot(name: &str) -> (found: bool)
    ensures
        found == name@.contains('.'),
{
    for c in it: name.chars()
        invariant
            it.seq() == name@,
            forall|j: int| 0 <= j < it.index() ==> name@[j] != '.',
    {
        if c == '.' {
            assert(name@[it.index()] == '.');
            return true;
        }
    }
    false
}

/// The path of a member below the object at `prefix`.
fn joined_path(prefix: &str, name: &str) -> (path: String)
    ensures
        path@ == joined(prefix@, name@),
{
    if prefix.is_empty() {
        name.to_string()
    } else {
        proof {
            reveal_strlit(".");
        }
        assert("."@ =~= seq!['.']);
        enclosed(prefix, ".", name)
    }
}

/// Puts one flattened param into the map; an error where its path is already taken.
pub fn insert_flattened_param(
    out: &mut HashMap<String, String>,
    key: &str,
    value: String,
) -> (inserted: Result<(), String>)
    ensures
        final(out).deep_view() == old(out).deep_view().insert(key@, value@),
        inserted is Err <==> old(out).deep_view().contains_key(key@),
        inserted matches Err(error) ==> error@ == collision_error(key@),
{
    if hash_map_insert(out, key.to_string(), value).is_some() {
        return Err(enclosed("ambiguous params key collision at '", key, "'"));
    }
    Ok(())
}

/// Puts the text of the scalar at `prefix` into the map, unless that is the empty path.
fn insert_leaf(prefix: &str, text: String, out: &mut HashMap<String, String>) -> (outcome: Result<
    (),
    String,
>)
    ensures
        recorded(old(out).deep_view(), leaf_visits(prefix@, text@)) == (Record {
            params: final(out).deep_view(),
            error: error_of(outcome),
        }),
{
    if prefix.is_empty() {
        return Ok(());
    }
    proof {
        lemma_recorded_one(out.deep_view(), Visit::Leaf { path: prefix@, text: text@ });
    }
    insert_flattened_param(out, prefix, text)
}

/// Why a step failed, if it did.
pub open spec fn error_of(outcome: Result<(), String>) -> Option<Seq<char>> {
    match outcome {
        Ok(_) => None,
        Err(error) => Some(error@),
    }
}

/// Walks the value at `prefix` and puts its leaves into the map. A walk that is
/// given up leaves in the map what it had written down by then.
pub fn flatten_json_value(
    prefix: &str,
    value: &JsonValue,
    out: &mut HashMap<String, String>,
) -> (outcome: Result<(), String>)
    ensures
        recorded(old(out).deep_view(), visits(prefix@, value@)) == (Record {
            params: final(out).deep_view(),
            error: error_of(outcome),
        }),
    decreases value,
{
    let ghost held = out.deep_view();
    match value {
        JsonValue::Object(members) => {
            let ghost all = value@->Object_0;
            for i in 0..members.len()
                invariant
                    *value == JsonValue::Object(*members),
                    value@ == Json::Object(all),
                    all.len() == members.len(),
                    held == old(out).deep_view(),
                    recorded(held, members_visits(prefix@, all.take(i as int))) == (Record {
                        params: out.deep_view(),
                        error: None,
                    }),
            {
                let ghost done = members_visits(prefix@, all.take(i as int));
                let ghost next = member_visits(prefix@, all[i as int]);
                let ghost rest = members_visits(prefix@, all.skip(i + 1));
                proof {
                    assert(all.take(i + 1).drop_last() =~= all.take(i as int));
                    lemma_members_visits_split(prefix@, all, i + 1);
                    lemma_recorded_concat(held, done, next);
                    lemma_recorded_concat(held, done + next, rest);
                }
                let (name, child) = &members[i];
                assert(all[i as int] == (name@, child@));
                if has_dot(name.as_str()) {
                    proof {
                        lemma_recorded_one(out.deep_view(), Visit::Dotted { name: name@ });
                    }
                    return Err(
                        enclosed(
                            "ambiguous dotted params key '",
                            name.as_str(),
                            "' is not allowed",
                        ),
                    );
                }
                let path = joined_path(prefix, name.as_str());
                assert(decreases_to!(value => members));
                match flatten_json_value(path.as_str(), child, out) {
                    Ok(_) => {},
                    Err(error) => {
                        return Err(error);
                    },
                }
            }
            assert(all.take(members.len() as int) =~= all);
            Ok(())
        },
        JsonValue::String(text) => insert_leaf(prefix, text.clone(), out),
        JsonValue::Number(text) => insert_leaf(prefix, text.clone(), out),
        JsonValue::Bool(b) => {
            let text = if *b {
                "true".to_string()
            } else {
                "false".to_string()
            };
            insert_leaf(prefix, text, out)
        },
        _ => Ok(()),
    }
}

/// The outcome of flattening, as its model has it.
pub open spec fn params_outcome(outcome: Result<HashMap<String, String>, String>) -> Result<
    ParamMap,
    Seq<char>,
> {
    match outcome {
        Ok(params) => Ok(params.deep_view()),
        Err(error) => Err(error@),
    }
}

/// Flattens the params of a call.
pub fn flatten_jsonrpc_params(value: &JsonValue) -> (outcome: Result<
    HashMap<String, String>,
    String,
>)
    ensures
        params_outcome(outcome) == flattened(value@),
{
    let mut params = empty_params();
    proof {
        reveal_strlit("");
    }
    assert(""@ =~= Seq::<char>::empty());
    match flatten_json_value("", value, &mut params) {
        Ok(_) => Ok(params),
        Err(error) => Err(error),
    }
}

} // verus!
