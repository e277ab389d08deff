//! What each operation gives, said of what it is given.

use crate::digest::{
    canonical_text, char_text, chars_text, comma_separated, hex_digit, hex_text, member_text,
    object_text, params_digest, quoted_text, reads_as, sha256, CanonicalModel, CanonicalParams,
};
use crate::json::{first_member, Json, JsonValue};
use crate::keys::{
    before, keys_in_order, law_ascending_texts_are_one, law_keys_are_all_and_ascending,
};
use crate::laws::{law_batch_is_all_or_nothing, law_digested_text_tells_params_apart};
use crate::params::{error_of, flattened, params_outcome, ParamMap};
use crate::request::{
    call_of, call_outcome, request_of, CallModel, JsonRpcCallInfo, JsonRpcRequestInfo, RequestModel,
};
use std::collections::HashMap;
use vstd::prelude::*;

verus! {

/// The model of a value is the value: nothing of it is left out or changed.
pub proof fn law_json_model_is_faithful(value: JsonValue)
    ensures
        value is Null <==> value@ is Null,
        value matches JsonValue::Bool(b) ==> value@ == Json::Bool(b),
        value matches JsonValue::Number(text) ==> value@ == Json::Number(text@),
        value matches JsonValue::String(text) ==> value@ == Json::String(text@),
        value matches JsonValue::Array(items) ==> value@ is Array && value@->Array_0.len()
            == items@.len() && forall|i: int|
            0 <= i < items@.len() ==> value@->Array_0[i] == (#[trigger] items@[i])@,
        value matches JsonValue::Object(members) ==> value@ is Object && value@->Object_0.len()
            == members@.len() && forall|i: int|
            0 <= i < members@.len() ==> value@->Object_0[i].0 == (#[trigger] members@[i]).0@
                && value@->Object_0[i].1 == members@[i].1@,
{
}

/// The model of a call is the call.
pub proof fn law_call_model_is_faithful(call: JsonRpcCallInfo)
    ensures
        call@.method == call.method@,
        call@.params == call.params.deep_view(),
{
}

/// The model of a request is the request.
pub proof fn law_request_model_is_faithful(info: JsonRpcRequestInfo)
    ensures
        info@.calls.len() == info.calls@.len(),
        forall|i: int|
            0 <= i < info.calls@.len() ==> info@.calls[i] == (#[trigger] info.calls@[i])@,
        info@.is_batch == info.is_batch,
        info.error is None <==> info@.error is None,
        info.error matches Some(error) ==> info@.error == Some(error@),
{
}

/// The model of canonical params is the params.
pub proof fn law_canonical_model_is_faithful(params: CanonicalParams)
    ensures
        params matches CanonicalParams::Single(map) ==> params@ == CanonicalModel::Single(
            map.deep_view(),
        ),
        params matches CanonicalParams::Batch(maps) ==> params@ is Batch && params@->Batch_0.len()
            == maps@.len() && forall|i: int|
            0 <= i < maps@.len() ==> params@->Batch_0[i] == (#[trigger] maps@[i]).deep_view(),
{
}

/// The model of an outcome is the outcome.
pub proof fn law_outcome_models_are_faithful(
    step: Result<(), String>,
    params: Result<HashMap<String, String>, String>,
    call: Result<JsonRpcCallInfo, String>,
)
    ensures
        step is Ok <==> error_of(step) is None,
        step matches Err(error) ==> error_of(step) == Some(error@),
        params matches Ok(map) ==> params_outcome(params) == Ok::<ParamMap, Seq<char>>(
            map.deep_view(),
        ),
        params matches Err(error) ==> params_outcome(params) == Err::<ParamMap, Seq<char>>(error@),
        call matches Ok(info) ==> call_outcome(call) == Ok::<CallModel, Seq<char>>(info@),
        call matches Err(error) ==> call_outcome(call) == Err::<CallModel, Seq<char>>(error@),
{
}

proof fn lemma_first_member(members: Seq<(Seq<char>, Json)>, name: Seq<char>)
    ensures
        first_member(members, name) is None <==> forall|i: int|
            0 <= i < members.len() ==> (#[trigger] members[i]).0 != name,
        first_member(members, name) matches Some(value) ==> exists|i: int|
            0 <= i < members.len() && (#[trigger] members[i]) == (name, value) && forall|j: int|
                0 <= j < i ==> (#[trigger] members[j]).0 != name,
    decreases members.len(),
{
    if members.len() > 0 && members[0].0 != name {
        let rest = members.drop_first();
        lemma_first_member(rest, name);
        if let Some(value) = first_member(rest, name) {
            let i = choose|i: int|
                0 <= i < rest.len() && (#[trigger] rest[i]) == (name, value) && forall|j: int|
                    0 <= j < i ==> (#[trigger] rest[j]).0 != name;
            assert(members[i + 1] == (name, value));
            assert forall|j: int| 0 <= j < i + 1 implies (#[trigger] members[j]).0 != name by {
                if j > 0 {
                    assert(rest[j - 1] == members[j]);
                }
            }
        } else {
            assert forall|i: int| 0 <= i < members.len() implies (
            #[trigger] members[i]).0 != name by {
                if i > 0 {
                    assert(rest[i - 1] == members[i]);
                }
            }
        }
    } else if members.len() > 0 {
        assert(members[0] == (name, members[0].1));
    }
}

/// The member of a name is the first of an object that has that very name. A value that
/// is no object has no member.
pub proof fn law_member_is_the_first_of_its_name(value: Json, name: Seq<char>)
    ensures
        !(value is Object) ==> value.member(name) is None,
        value matches Json::Object(members) ==> {
            &&& value.member(name) is None <==> forall|i: int|
                0 <= i < members.len() ==> (#[trigger] members[i]).0 != name
            &&& value.member(name) matches Some(found) ==> exists|i: int|
                0 <= i < members.len() && (#[trigger] members[i]) == (name, found) && forall|j: int|
                    0 <= j < i ==> (#[trigger] members[j]).0 != name
        },
{
    if let Json::Object(members) = value {
        lemma_first_member(members, name);
    }
}

/// A call is read from the members of its value: the method is the `method` member to
/// the letter, and the params are the `params` member flattened, or none where there is
/// no such member.
pub proof fn law_call_is_what_was_sent(value: Json)
    ensures
        call_of(value) matches Ok(call) ==> {
            &&& value.member("jsonrpc"@) == Some(Json::String("2.0"@))
            &&& value.member("method"@) == Some(Json::String(call.method))
            &&& value.member("params"@) is None ==> call.params == ParamMap::empty()
            &&& value.member("params"@) matches Some(params) ==> (params is Object
                || params is Array) && flattened(params) == Ok::<ParamMap, Seq<char>>(call.params)
            &&& value.member("id"@) matches Some(id) ==> id is String || id is Number || id is Null
        },
{
}

/// A value that has what a call needs makes one.
pub proof fn law_valid_value_makes_a_call(value: Json)
    requires
        value.member("jsonrpc"@) == Some(Json::String("2.0"@)),
        value.member("method"@) matches Some(Json::String(_)),
        value.member("params"@) matches Some(params) ==> (params is Object || params is Array)
            && flattened(params) is Ok,
        value.member("id"@) matches Some(id) ==> id is String || id is Number || id is Null,
    ensures
        call_of(value) is Ok,
{
}

/// A value that makes no call is refused for the first thing that it lacks: the version,
/// the method, the params, then the id.
pub proof fn law_refusal_names_what_is_lacking(value: Json)
    ensures
        !(value.member("jsonrpc"@) matches Some(Json::String(_))) ==> call_of(value) == Err::<
            CallModel,
            Seq<char>,
        >("missing or non-string 'jsonrpc' field"@),
        value.member("jsonrpc"@) matches Some(Json::String(version)) ==> version != "2.0"@
            ==> call_of(value) == Err::<CallModel, Seq<char>>(
            "unsupported JSON-RPC version '"@ + version + "'"@,
        ),
        value.member("jsonrpc"@) == Some(Json::String("2.0"@)) ==> {
            &&& !(value.member("method"@) matches Some(Json::String(_))) ==> call_of(value)
                == Err::<CallModel, Seq<char>>("missing or non-string 'method' field"@)
            &&& value.member("method"@) matches Some(Json::String(_)) ==> {
                &&& value.member("params"@) matches Some(params) ==> {
                    &&& !(params is Object || params is Array) ==> call_of(value) == Err::<
                        CallModel,
                        Seq<char>,
                    >("'params' field is neither an object nor an array"@)
                    &&& params is Object || params is Array ==> (flattened(params) matches Err(
                        error,
                    ) ==> call_of(value) == Err::<CallModel, Seq<char>>(error))
                }
                &&& (value.member("params"@) matches Some(params) ==> (params is Object
                    || params is Array) && flattened(params) is Ok) && (value.member(
                    "id"@,
                ) matches Some(id) && !(id is String || id is Number || id is Null)) ==> call_of(
                    value,
                ) == Err::<CallModel, Seq<char>>(
                    "'id' field is neither a string, a number nor null"@,
                )
            }
        },
{
}

/// A body that is not JSON, and a batch of nothing, are refused.
pub proof fn law_bodies_without_a_value_are_refused()
    ensures
        request_of(None).calls.len() == 0,
        !request_of(None).is_batch,
        request_of(None).error == Some("invalid JSON"@),
        request_of(Some(Json::Array(Seq::empty()))).calls.len() == 0,
        request_of(Some(Json::Array(Seq::empty()))).is_batch,
        request_of(Some(Json::Array(Seq::empty()))).error == Some("empty batch"@),
{
}

/// A lone request is accepted exactly if its value makes a call, and then makes that
/// call and no other. Otherwise it is refused with the error of the value.
pub proof fn law_lone_request_is_its_call(value: Json)
    requires
        !(value is Array),
    ensures
        !request_of(Some(value)).is_batch,
        call_of(value) matches Ok(call) ==> {
            &&& request_of(Some(value)).error is None
            &&& request_of(Some(value)).calls.len() == 1
            &&& request_of(Some(value)).calls[0] == call
        },
        call_of(value) matches Err(error) ==> {
            &&& request_of(Some(value)).error == Some(error)
            &&& request_of(Some(value)).calls.len() == 0
        },
{
}

/// A call is the same in a batch and alone.
pub proof fn law_call_is_the_same_in_a_batch_and_alone(items: Seq<Json>, i: int)
    requires
        0 <= i < items.len(),
        request_of(Some(Json::Array(items))).error is None,
    ensures
        !(items[i] is Array),
        request_of(Some(items[i])).error is None,
        request_of(Some(items[i])).calls[0] == request_of(Some(Json::Array(items))).calls[i],
{
    law_batch_is_all_or_nothing(items);
    let calls = request_of(Some(Json::Array(items))).calls;
    assert(call_of(items[i]) == Ok::<CallModel, Seq<char>>(calls[i]));
    law_call_is_what_was_sent(items[i]);
    law_member_is_the_first_of_its_name(items[i], "jsonrpc"@);
}

/// The digest covers the params of every call: in a batch, as many maps as there are
/// calls, each that of its call; alone, those of the call. There is none exactly where no
/// call that is covered has params.
pub proof fn law_digest_covers_every_call(request: RequestModel)
    ensures
        request.is_batch && (exists|i: int|
            0 <= i < request.calls.len() && (#[trigger] request.calls[i]).params
                != ParamMap::empty()) ==> {
            &&& request.digested() matches Some(CanonicalModel::Batch(maps))
            &&& maps.len() == request.calls.len()
            &&& forall|i: int|
                0 <= i < request.calls.len() ==> #[trigger] maps[i] == request.calls[i].params
        },
        request.is_batch && (forall|i: int|
            0 <= i < request.calls.len() ==> (#[trigger] request.calls[i]).params
                == ParamMap::empty()) ==> request.digested() is None,
        !request.is_batch && request.calls.len() > 0 && request.calls[0].params
            != ParamMap::empty() ==> request.digested() == Some(
            CanonicalModel::Single(request.calls[0].params),
        ),
        !request.is_batch && (request.calls.len() == 0 || request.calls[0].params
            == ParamMap::empty()) ==> request.digested() is None,
{
    assert forall|i: int| 0 <= i < request.calls.len() implies ((
    #[trigger] request.calls[i]).params == ParamMap::empty()
        <==> request.calls[i].params.dom().is_empty()) by {
        lemma_empty_params(request.calls[i].params);
    }
    if request.is_batch && (exists|i: int|
        0 <= i < request.calls.len() && (#[trigger] request.calls[i]).params
            != ParamMap::empty()) {
        let i = choose|i: int|
            0 <= i < request.calls.len() && (#[trigger] request.calls[i]).params
                != ParamMap::empty();
        assert(!request.calls[i].params.dom().is_empty());
    }
}

proof fn lemma_empty_params(params: ParamMap)
    ensures
        params == ParamMap::empty() <==> params.dom().is_empty(),
{
    if params.dom().is_empty() {
        assert(params.dom() =~= Set::empty());
        assert(params =~= ParamMap::empty());
    }
}

/// The digest of a request is that of the params that it covers: the SHA-256 of their
/// text, each byte as two of the digits `0` to `9` and `a` to `f`, the high one first.
pub proof fn law_digest_is_the_sha256_of_the_text(request: RequestModel)
    ensures
        request.digest() is Some <==> request.digested() is Some,
        request.digested() matches Some(params) ==> {
            let bytes = sha256(canonical_text(params));
            &&& request.digest() == Some(params_digest(params))
            &&& params_digest(params).len() == 2 * bytes.len()
            &&& forall|i: int|
                0 <= i < bytes.len() ==> #[trigger] params_digest(params)[2 * i]
                    == "0123456789abcdef"@[bytes[i] as int / 16] && params_digest(params)[2 * i + 1]
                    == "0123456789abcdef"@[bytes[i] as int % 16]
        },
{
    if let Some(params) = request.digested() {
        law_hexadecimal_digits(sha256(canonical_text(params)));
    }
}

/// Bytes in hexadecimal digits: two for each, the high one first.
pub proof fn law_hexadecimal_digits(bytes: Seq<u8>)
    ensures
        hex_text(bytes).len() == 2 * bytes.len(),
        forall|i: int|
            0 <= i < bytes.len() ==> #[trigger] hex_text(bytes)[2 * i]
                == "0123456789abcdef"@[bytes[i] as int / 16] && hex_text(bytes)[2 * i + 1]
                == "0123456789abcdef"@[bytes[i] as int % 16],
{
    reveal_strlit("0123456789abcdef");
    assert forall|i: int| 0 <= i < bytes.len() implies #[trigger] hex_text(bytes)[2 * i]
        == "0123456789abcdef"@[bytes[i] as int / 16] && hex_text(bytes)[2 * i + 1]
        == "0123456789abcdef"@[bytes[i] as int % 16] by {
        lemma_hex_digit(bytes[i] as int / 16);
        lemma_hex_digit(bytes[i] as int % 16);
    }
}

proof fn lemma_hex_digit(value: int)
    requires
        0 <= value < 16,
    ensures
        hex_digit(value) == "0123456789abcdef"@[value],
{
    reveal_strlit("0123456789abcdef");
}

/// Two batches that differ in the params of any call, or in how many calls they make, are
/// digested from different texts.
pub proof fn law_batches_that_differ_have_different_texts(
    first: RequestModel,
    second: RequestModel,
    i: int,
)
    requires
        first.is_batch,
        second.is_batch,
        first.digested() matches Some(params) && reads_as(canonical_text(params), params),
        second.digested() matches Some(params) && reads_as(canonical_text(params), params),
        first.calls.len() != second.calls.len() || (0 <= i < first.calls.len()
            && first.calls[i].params != second.calls[i].params),
    ensures
        canonical_text(first.digested()->0) != canonical_text(second.digested()->0),
{
    law_digest_covers_every_call(first);
    law_digest_covers_every_call(second);
    let a = first.digested()->0->Batch_0;
    let b = second.digested()->0->Batch_0;
    if first.calls.len() == second.calls.len() {
        assert(a[i] != b[i]);
    }
    law_digested_text_tells_params_apart(first.digested()->0, second.digested()->0);
}

/// The text of a batch: its objects in brackets, each as it is written alone, with commas
/// between them.
pub proof fn law_batch_text_grows_by_one_object(calls: Seq<ParamMap>, params: ParamMap)
    ensures
        canonical_text(CanonicalModel::Batch(Seq::empty())) == seq!['[' as u8, ']' as u8],
        calls.len() == 0 ==> canonical_text(CanonicalModel::Batch(calls.push(params))) == seq![
            '[' as u8,
        ] + canonical_text(CanonicalModel::Single(params)) + seq![']' as u8],
        calls.len() > 0 ==> canonical_text(CanonicalModel::Batch(calls.push(params)))
            == canonical_text(CanonicalModel::Batch(calls)).drop_last() + seq![',' as u8]
            + canonical_text(CanonicalModel::Single(params)) + seq![']' as u8],
{
    let more = calls.push(params);
    let texts = Seq::new(calls.len(), |i: int| object_text(calls[i]));
    let all = Seq::new(more.len(), |i: int| object_text(more[i]));
    assert(all.drop_last() =~= texts);
    assert(canonical_text(CanonicalModel::Batch(Seq::empty())) =~= seq!['[' as u8, ']' as u8]);
    assert(canonical_text(CanonicalModel::Batch(calls)).drop_last() =~= seq!['[' as u8]
        + comma_separated(texts));
    if calls.len() > 0 {
        assert(canonical_text(CanonicalModel::Batch(more)) =~= canonical_text(
            CanonicalModel::Batch(calls),
        ).drop_last() + seq![',' as u8] + canonical_text(CanonicalModel::Single(params)) + seq![
            ']' as u8,
        ]);
    }
}

/// The text of params: the members in braces, in the order of their keys, each the quoted
/// key, a colon and the quoted value, with commas between them.
pub proof fn law_params_text_grows_by_one_member(
    params: ParamMap,
    key: Seq<char>,
    value: Seq<char>,
)
    requires
        params.dom().finite(),
        forall|other: Seq<char>| #[trigger] params.contains_key(other) ==> before(other, key),
    ensures
        canonical_text(CanonicalModel::Single(ParamMap::empty())) == seq!['{' as u8, '}' as u8],
        params == ParamMap::empty() ==> canonical_text(
            CanonicalModel::Single(params.insert(key, value)),
        ) == seq!['{' as u8] + quoted_text(key) + seq![':' as u8] + quoted_text(value) + seq![
            '}' as u8,
        ],
        params != ParamMap::empty() ==> canonical_text(
            CanonicalModel::Single(params.insert(key, value)),
        ) == canonical_text(CanonicalModel::Single(params)).drop_last() + seq![',' as u8]
            + quoted_text(key) + seq![':' as u8] + quoted_text(value) + seq!['}' as u8],
{
    let more = params.insert(key, value);
    let keys = keys_in_order(params);
    let all = keys_in_order(more);
    law_keys_are_all_and_ascending(params);
    law_keys_are_all_and_ascending(more);
    law_keys_are_all_and_ascending(ParamMap::empty());
    assert(!params.contains_key(key));
    lemma_no_keys(ParamMap::empty());
    lemma_no_keys(params);
    assert(all == keys.push(key)) by {
        assert forall|i: int, j: int| 0 <= i < j < keys.push(key).len() implies before(
            #[trigger] keys.push(key)[i],
            #[trigger] keys.push(key)[j],
        ) by {
            assert(keys.push(key)[i] == keys[i]);
            if j < keys.len() {
                assert(before(keys[i], keys[j]));
            } else {
                assert(keys.to_set().contains(keys[i]));
                assert(params.contains_key(keys[i]));
            }
        }
        assert forall|text: Seq<char>|
            keys.push(key).to_set().contains(text) <==> all.to_set().contains(text) by {
            assert(keys.to_set().contains(text) <==> params.contains_key(text));
            if keys.contains(text) {
                let i = choose|i: int| 0 <= i < keys.len() && keys[i] == text;
                assert(keys.push(key)[i] == text);
            }
            if text == key {
                assert(keys.push(key)[keys.len() as int] == text);
            }
            if keys.push(key).contains(text) && text != key {
                let i = choose|i: int| 0 <= i < keys.push(key).len() && keys.push(key)[i] == text;
                assert(keys[i] == text);
            }
        }
        assert(keys.push(key).to_set() =~= all.to_set());
        law_ascending_texts_are_one(keys.push(key), all);
    }
    let texts = lemma_member_texts(params);
    let more_texts = lemma_member_texts(more);
    assert forall|i: int| 0 <= i < keys.len() implies texts[i] == more_texts[i] by {
        assert(all[i] == keys[i]);
        assert(keys.to_set().contains(keys[i]));
        assert(params.contains_key(keys[i]));
    }
    assert(more_texts.drop_last() =~= texts);
    assert(more_texts.last() == quoted_text(key) + seq![':' as u8] + quoted_text(value));
    let none = lemma_member_texts(ParamMap::empty());
    assert(object_text(ParamMap::empty()) =~= seq!['{' as u8, '}' as u8]);
    if params == ParamMap::empty() {
        assert(more_texts.len() == 1);
        assert(object_text(more) =~= seq!['{' as u8] + quoted_text(key) + seq![
            ':' as u8,
        ] + quoted_text(value) + seq!['}' as u8]);
    } else {
        assert(object_text(params).drop_last() =~= seq!['{' as u8]
            + comma_separated(texts));
        assert(object_text(more) =~= object_text(params).drop_last()
            + seq![',' as u8] + quoted_text(key) + seq![':' as u8] + quoted_text(value) + seq![
            '}' as u8,
        ]);
    }
}

/// The text of a string: its characters in quotes, in UTF-8, each quote, backslash and
/// control character as an escape.
pub proof fn law_quoted_text_grows_by_one_char(text: Seq<char>, c: char)
    ensures
        quoted_text(Seq::empty()) == seq!['"' as u8, '"' as u8],
        c as int >= 0x20 && c != '"' && c != '\\' ==> quoted_text(text.push(c)) == quoted_text(
            text,
        ).drop_last() + vstd::utf8::encode_utf8(seq![c]) + seq!['"' as u8],
        c == '"' || c == '\\' ==> quoted_text(text.push(c)) == quoted_text(text).drop_last()
            + seq!['\\' as u8, c as u8] + seq!['"' as u8],
{
    assert(text.push(c).drop_last() =~= text);
    assert(quoted_text(Seq::empty()) =~= seq!['"' as u8, '"' as u8]);
    assert(quoted_text(text).drop_last() =~= seq!['"' as u8] + chars_text(text));
    assert(quoted_text(text.push(c)) =~= quoted_text(text).drop_last() + char_text(c) + seq![
        '"' as u8,
    ]);
}

/// The texts of the members of params, in the order of their keys.
proof fn lemma_member_texts(params: ParamMap) -> (texts: Seq<Seq<u8>>)
    ensures
        texts.len() == keys_in_order(params).len(),
        forall|i: int|
            0 <= i < texts.len() ==> #[trigger] texts[i] == quoted_text(keys_in_order(params)[i])
                + seq![':' as u8] + quoted_text(params[keys_in_order(params)[i]]),
        object_text(params) == seq!['{' as u8] + comma_separated(
            texts,
        ) + seq!['}' as u8],
{
    let keys = keys_in_order(params);
    Seq::new(
        keys.len(),
        |i: int|
            member_text(quoted_text(keys[i]), quoted_text(params[keys[i]])),
    )
}

/// Params have no keys exactly if there are none.
proof fn lemma_no_keys(params: ParamMap)
    requires
        params.dom().finite(),
    ensures
        keys_in_order(params).len() == 0 <==> params == ParamMap::empty(),
{
    let keys = keys_in_order(params);
    law_keys_are_all_and_ascending(params);
    if keys.len() == 0 {
        assert forall|key: Seq<char>| !params.dom().contains(key) by {
            assert(keys.to_set().contains(key) <==> keys.contains(key));
        }
        assert(params =~= ParamMap::empty());
    } else {
        assert(keys.contains(keys[0]));
        assert(keys.to_set().contains(keys[0]));
        assert(params.dom().contains(keys[0]));
    }
}

} // verus!
