//! What the library promises of every request and every digest.

use crate::digest::{
    canonical_text, hex_digit, hex_text, holds_params, is_hex_digit, params_digest, reads_as,
    sha256, CanonicalModel,
};
use crate::json::{
    lemma_first_member_place, lemma_unique_member_is_first, names, read_json, Json,
};
use crate::order::{
    has_its_like, law_flattening_ignores_member_order, law_ordered_values_are_one,
    lemma_reordered_names, reordered,
};
use crate::params::ParamMap;
use crate::request::{call_of, first_refusal, has_valid_id, request_of, CallModel};
use vstd::prelude::*;

verus! {

/// A request is either refused, with an error and without calls, or accepted,
/// without an error and with a call; one that is no batch makes one call.
pub proof fn law_requests_are_refused_or_make_calls(parsed: Option<Json>)
    ensures
        request_of(parsed).error is Some <==> request_of(parsed).calls.len() == 0,
        !request_of(parsed).is_batch && request_of(parsed).error is None ==> request_of(
            parsed,
        ).calls.len() == 1,
        request_of(parsed).is_batch <==> parsed matches Some(Json::Array(_)),
{
}

/// There is a first refusal exactly if an item is refused, and it is that of the
/// first such item.
proof fn lemma_first_refusal(items: Seq<Json>)
    ensures
        first_refusal(items) is None <==> forall|i: int|
            0 <= i < items.len() ==> call_of(#[trigger] items[i]) is Ok,
        first_refusal(items) matches Some(error) ==> exists|i: int|
            0 <= i < items.len() && call_of(#[trigger] items[i]) == Err::<CallModel, Seq<char>>(
                error,
            ) && forall|j: int| 0 <= j < i ==> call_of(#[trigger] items[j]) is Ok,
    decreases items.len(),
{
    if items.len() > 0 {
        let before = items.drop_last();
        let last = items.len() - 1;
        lemma_first_refusal(before);
        if let Some(error) = first_refusal(before) {
            let i = choose|i: int|
                0 <= i < before.len() && call_of(#[trigger] before[i]) == Err::<
                    CallModel,
                    Seq<char>,
                >(error) && forall|j: int| 0 <= j < i ==> call_of(#[trigger] before[j]) is Ok;
            assert(items[i] == before[i]);
            assert forall|j: int| 0 <= j < i implies call_of(#[trigger] items[j]) is Ok by {
                assert(items[j] == before[j]);
            }
        } else {
            assert forall|j: int| 0 <= j < last implies call_of(#[trigger] items[j]) is Ok by {
                assert(items[j] == before[j]);
            }
            assert(call_of(items[last]) is Ok <==> first_refusal(items) is None);
        }
    }
}

/// A batch is accepted exactly if each of its items makes a call, and then makes
/// those calls, in order. Otherwise the whole of it is refused, for the first
/// item that makes none.
pub proof fn law_batch_is_all_or_nothing(items: Seq<Json>)
    requires
        items.len() > 0,
    ensures
        request_of(Some(Json::Array(items))).error is None <==> forall|i: int|
            0 <= i < items.len() ==> call_of(#[trigger] items[i]) is Ok,
        request_of(Some(Json::Array(items))).error is None ==> {
            let calls = request_of(Some(Json::Array(items))).calls;
            &&& calls.len() == items.len()
            &&& forall|i: int|
                0 <= i < items.len() ==> call_of(items[i]) == Ok::<CallModel, Seq<char>>(
                    #[trigger] calls[i],
                )
        },
        request_of(Some(Json::Array(items))).error matches Some(error) ==> exists|i: int|
            0 <= i < items.len() && call_of(#[trigger] items[i]) is Err && error
                == "batch item invalid: "@ + call_of(items[i])->Err_0 && forall|j: int|
                0 <= j < i ==> call_of(#[trigger] items[j]) is Ok,
{
    lemma_first_refusal(items);
    if first_refusal(items) is None {
        let calls = request_of(Some(Json::Array(items))).calls;
        assert forall|i: int| 0 <= i < items.len() implies call_of(items[i]) == Ok::<
            CallModel,
            Seq<char>,
        >(#[trigger] calls[i]) by {
            assert(call_of(items[i]) is Ok);
        }
    }
}

/// A value makes a call only as JSON-RPC 2.0 has it: the version is `2.0`, the
/// method is a string, the params, where there are any, are an object or an
/// array, and the id, where there is one, is a string, a number or null.
pub proof fn law_calls_are_valid(value: Json)
    ensures
        call_of(value) is Ok ==> {
            &&& value.member("jsonrpc"@) == Some(Json::String("2.0"@))
            &&& value.member("method"@) matches Some(Json::String(_))
            &&& value.member("params"@) matches Some(params) ==> params is Object
                || params is Array
            &&& value.member("id"@) matches Some(id) ==> id is String || id is Number || id is Null
        },
{
}

/// A call depends on the version, the method and the params, and on whether the id
/// is a valid one: which id it is, and other members, change nothing.
pub proof fn law_other_members_are_ignored(first: Json, second: Json)
    requires
        first.member("jsonrpc"@) == second.member("jsonrpc"@),
        first.member("method"@) == second.member("method"@),
        first.member("params"@) == second.member("params"@),
        has_valid_id(first) == has_valid_id(second),
    ensures
        call_of(first) == call_of(second),
{
}

/// Values that differ in the order of members have members that so differ.
proof fn lemma_reordered_member(first: Json, second: Json, name: Seq<char>)
    requires
        reordered(first, second),
        first.unique_names(),
        second.unique_names(),
    ensures
        first.member(name) is Some <==> second.member(name) is Some,
        first.member(name) matches Some(a) ==> second.member(name) matches Some(b) && reordered(
            a,
            b,
        ) && a.unique_names() && b.unique_names(),
{
    if let (Json::Object(a), Json::Object(b)) = (first, second) {
        if first.member(name) is Some {
            let i = lemma_first_member_place(a, name);
            assert(has_its_like(a[i], b));
            let j = choose|j: int|
                0 <= j < b.len() && (#[trigger] b[j]).0 == a[i].0 && reordered(a[i].1, b[j].1);
            lemma_unique_member_is_first(b, j);
        } else if second.member(name) is Some {
            let j = lemma_first_member_place(b, name);
            lemma_reordered_names(a, b);
            assert(names(b)[j] == name);
            assert(names(b).to_set().contains(name));
            assert(names(a).to_set().contains(name));
            let i = choose|i: int| 0 <= i < names(a).len() && names(a)[i] == name;
            lemma_unique_member_is_first(a, i);
        }
    }
}

/// A call does not depend on the order of members.
proof fn lemma_call_ignores_member_order(first: Json, second: Json)
    requires
        reordered(first, second),
        first.unique_names(),
        second.unique_names(),
        call_of(first) is Ok,
    ensures
        call_of(second) == call_of(first),
{
    lemma_reordered_member(first, second, "jsonrpc"@);
    lemma_reordered_member(first, second, "method"@);
    lemma_reordered_member(first, second, "params"@);
    lemma_reordered_member(first, second, "id"@);
    if let Some(params) = first.member("params"@) {
        law_flattening_ignores_member_order(params, second.member("params"@)->0);
    }
}

/// An accepted request, and so its digest, does not depend on the order in which
/// the members of objects are written.
pub proof fn law_requests_ignore_member_order(first: Json, second: Json)
    requires
        first.unique_names(),
        second.unique_names(),
        reordered(first, second),
        request_of(Some(first)).error is None,
    ensures
        request_of(Some(second)) == request_of(Some(first)),
        request_of(Some(second)).digest() == request_of(Some(first)).digest(),
{
    match (first, second) {
        (Json::Array(a), Json::Array(b)) => {
            law_batch_is_all_or_nothing(a);
            law_batch_is_all_or_nothing(b);
            assert forall|i: int| 0 <= i < b.len() implies call_of(#[trigger] b[i]) == call_of(
                a[i],
            ) by {
                lemma_call_ignores_member_order(a[i], b[i]);
            }
            assert(forall|i: int| 0 <= i < b.len() ==> call_of(#[trigger] b[i]) is Ok);
            assert(request_of(Some(second)).calls =~= request_of(Some(first)).calls);
        },
        _ => {
            lemma_call_ignores_member_order(first, second);
        },
    }
}

/// What two bodies call is the same, errors included, where what is read in them
/// differs at most in the order of members: all members are read in the order of
/// their names.
pub proof fn law_read_requests_ignore_member_order(first: Json, second: Json)
    requires
        first.names_in_order(),
        second.names_in_order(),
        reordered(first, second),
    ensures
        request_of(Some(second)) == request_of(Some(first)),
{
    law_ordered_values_are_one(first, second);
}

/// A request has a digest exactly if one of its calls has params.
pub proof fn law_digest_means_params(parsed: Option<Json>)
    ensures
        request_of(parsed).digest() is Some <==> exists|i: int|
            0 <= i < request_of(parsed).calls.len() && !(#[trigger] request_of(
                parsed,
            ).calls[i]).params.dom().is_empty(),
{
    law_requests_are_refused_or_make_calls(parsed);
}

/// Two maps that one value holds are the same.
proof fn lemma_held_params_are_one(value: Json, first: ParamMap, second: ParamMap)
    requires
        holds_params(value, first),
        holds_params(value, second),
    ensures
        first == second,
{
    let members = value->Object_0;
    assert forall|name: Seq<char>|
        (#[trigger] first.contains_key(name) <==> second.contains_key(name)) && (
        first.contains_key(name) ==> first[name] == second[name]) by {
        if first.contains_key(name) {
            let i = choose|i: int| 0 <= i < members.len() && (#[trigger] members[i]).0 == name;
            assert(members[i].1 == Json::String(first[name]));
        }
        if second.contains_key(name) {
            let i = choose|i: int| 0 <= i < members.len() && (#[trigger] members[i]).0 == name;
            assert(members[i].1 == Json::String(second[name]));
        }
    }
    assert(first =~= second);
}

/// The text that is digested tells params apart: where two texts read as the
/// params that they were written for, different params have different texts.
pub proof fn law_digested_text_tells_params_apart(first: CanonicalModel, second: CanonicalModel)
    requires
        reads_as(canonical_text(first), first),
        reads_as(canonical_text(second), second),
        first != second,
    ensures
        canonical_text(first) != canonical_text(second),
{
    if canonical_text(first) == canonical_text(second) {
        let value = read_json(canonical_text(first))->0;
        match (first, second) {
            (CanonicalModel::Single(a), CanonicalModel::Single(b)) => {
                lemma_held_params_are_one(value, a, b);
            },
            (CanonicalModel::Batch(a), CanonicalModel::Batch(b)) => {
                assert forall|i: int| 0 <= i < a.len() implies a[i] == b[i] by {
                    lemma_held_params_are_one(value->Array_0[i], a[i], b[i]);
                }
                assert(a =~= b);
            },
            _ => {},
        }
    }
}

/// Hexadecimal digits tell bytes apart.
pub proof fn law_hexadecimal_tells_bytes_apart(first: Seq<u8>, second: Seq<u8>)
    requires
        hex_text(first) == hex_text(second),
    ensures
        first == second,
{
    assert(hex_text(first).len() == 2 * first.len());
    assert(hex_text(second).len() == 2 * second.len());
    assert forall|i: int| 0 <= i < first.len() implies first[i] == second[i] by {
        assert(hex_text(first)[2 * i] == hex_digit(first[i] as int / 16));
        assert(hex_text(second)[2 * i] == hex_digit(second[i] as int / 16));
        assert(hex_text(first)[2 * i + 1] == hex_digit(first[i] as int % 16));
        assert(hex_text(second)[2 * i + 1] == hex_digit(second[i] as int % 16));
    }
    assert(first =~= second);
}

/// Digests tell params apart as far as SHA-256 tells their texts apart: two
/// digests are the same exactly if the SHA-256 of the two texts is, and for
/// different params that is a collision of two different texts.
pub proof fn law_digests_tell_params_apart(first: CanonicalModel, second: CanonicalModel)
    requires
        reads_as(canonical_text(first), first),
        reads_as(canonical_text(second), second),
        first != second,
    ensures
        canonical_text(first) != canonical_text(second),
        params_digest(first) == params_digest(second) <==> sha256(canonical_text(first)) == sha256(
            canonical_text(second),
        ),
{
    law_digested_text_tells_params_apart(first, second);
    if params_digest(first) == params_digest(second) {
        law_hexadecimal_tells_bytes_apart(
            sha256(canonical_text(first)),
            sha256(canonical_text(second)),
        );
    }
}

/// A digest is written in lower-case hexadecimal digits, two for each byte.
pub proof fn law_digest_is_hexadecimal(bytes: Seq<u8>)
    ensures
        hex_text(bytes).len() == 2 * bytes.len(),
        forall|i: int|
            0 <= i < hex_text(bytes).len() ==> is_hex_digit(#[trigger] hex_text(bytes)[i]),
{
}

/// A digest shows no text that holds anything but lower-case hexadecimal digits.
pub proof fn law_digest_shows_no_other_text(bytes: Seq<u8>, text: Seq<char>, from: int)
    requires
        exists|i: int| 0 <= i < text.len() && !is_hex_digit(#[trigger] text[i]),
        0 <= from,
        from + text.len() <= hex_text(bytes).len(),
    ensures
        hex_text(bytes).subrange(from, from + text.len()) != text,
{
    law_digest_is_hexadecimal(bytes);
    let i = choose|i: int| 0 <= i < text.len() && !is_hex_digit(#[trigger] text[i]);
    let shown = hex_text(bytes).subrange(from, from + text.len());
    assert(shown[i] == hex_text(bytes)[from + i]);
}

} // verus!
