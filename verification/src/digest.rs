//! The digest of params: what a log can hold in place of the params themselves.

use crate::json::{read_json, Json};
use crate::keys::keys_in_order;
use crate::params::ParamMap;
use std::collections::BTreeMap;
use std::collections::HashMap;
use vstd::prelude::*;
use vstd::std_specs::iter::IteratorSpec;

verus! {

/// Calls `HashMap::iter`, which walks the entries of the map, each once, in an
/// order that it leaves open. Of a map with `String` keys, vstd's own contract
/// for it says nothing.
#[verifier::external_body]
fn hash_map_iter(map: &HashMap<String, String>) -> (entries: std::collections::hash_map::Iter<
    '_,
    String,
    String,
>)
    ensures
        IteratorSpec::decrease(&entries) is Some,
        IteratorSpec::initial_value_relation(&entries, &entries),
        forall|i: int|
            0 <= i < entries.remaining().len() ==> {
                let (key, value) = #[trigger] entries.remaining()[i];
                map.deep_view().contains_key(key@) && map.deep_view()[key@] == value@
            },
        forall|key: Seq<char>| #[trigger]
            map.deep_view().contains_key(key) ==> exists|i: int|
                0 <= i < entries.remaining().len() && (#[trigger] entries.remaining()[i]).0@ == key,
        forall|i: int, j: int|
            0 <= i < j < entries.remaining().len() ==> (#[trigger] entries.remaining()[i]).0@ != (
            #[trigger] entries.remaining()[j]).0@,
{
    map.iter()
}

/// Calls `BTreeMap::insert`: puts the value under the key, and returns what was
/// under it before, if anything was. Of a map with `String` keys, vstd's own
/// contract for it says nothing.
#[verifier::external_body]
fn btree_map_insert(map: &mut BTreeMap<String, String>, key: String, value: String) -> (previous:
    Option<String>)
    ensures
        final(map).deep_view() == old(map).deep_view().insert(key@, value@),
        previous is Some <==> old(map).deep_view().contains_key(key@),
        previous matches Some(text) ==> text@ == old(map).deep_view()[key@],
{
    map.insert(key, value)
}

/// The same params in a map that is walked in the order of its keys.
pub fn canonical_params_map(params: &HashMap<String, String>) -> (canonical: BTreeMap<
    String,
    String,
>)
    ensures
        canonical.deep_view() == params.deep_view(),
{
    let mut canonical: BTreeMap<String, String> = BTreeMap::new();
    proof {
        reveal(vstd::std_specs::btree::btree_map_deep_view_impl);
    }
    assert(canonical.deep_view() =~= ParamMap::empty());
    let iter = hash_map_iter(params);
    let ghost all = iter.remaining();
    for (key, value) in entries: iter
        invariant
            entries.seq() == all,
            canonical.deep_view().submap_of(params.deep_view()),
            forall|i: int|
                0 <= i < all.len() ==> {
                    let (key, value) = #[trigger] all[i];
                    params.deep_view().contains_key(key@) && params.deep_view()[key@] == value@
                },
            forall|i: int|
                0 <= i < entries.index() ==> canonical.deep_view().contains_key(
                    (#[trigger] all[i]).0@,
                ),
    {
        btree_map_insert(&mut canonical, key.clone(), value.clone());
    }
    assert(canonical.deep_view() =~= params.deep_view());
    canonical
}

/// Params in the form in which they are digested: those of a lone call, or those
/// of each call of a batch.
pub enum CanonicalParams {
    Single(BTreeMap<String, String>),
    Batch(Vec<BTreeMap<String, String>>),
}

/// What [`CanonicalParams`] holds.
pub enum CanonicalModel {
    Single(ParamMap),
    Batch(Seq<ParamMap>),
}

impl View for CanonicalParams {
    type V = CanonicalModel;

    open spec fn view(&self) -> CanonicalModel {
        match self {
            CanonicalParams::Single(params) => CanonicalModel::Single(params.deep_view()),
            CanonicalParams::Batch(calls) => CanonicalModel::Batch(
                Seq::new(calls@.len(), |i: int| calls@[i].deep_view()),
            ),
        }
    }
}

/// What `sha2::Sha256::digest` computes of those bytes.
pub uninterp spec fn sha256(data: Seq<u8>) -> Seq<u8>;

/// The texts with a comma between each two.
pub open spec fn comma_separated(texts: Seq<Seq<u8>>) -> Seq<u8>
    decreases texts.len(),
{
    if texts.len() == 0 {
        Seq::empty()
    } else if texts.len() == 1 {
        texts[0]
    } else {
        comma_separated(texts.drop_last()) + seq![',' as u8] + texts.last()
    }
}

/// A hexadecimal digit.
pub open spec fn hex_digit(value: int) -> char {
    if value < 10 {
        (value + '0' as int) as char
    } else {
        (value - 10 + 'a' as int) as char
    }
}

/// The JSON text of a character in a string: an escape for a quote, a backslash or
/// a control character, and its UTF-8 otherwise.
pub open spec fn char_text(c: char) -> Seq<u8> {
    let code = c as int;
    if c == '"' || c == '\\' {
        seq!['\\' as u8, c as u8]
    } else if code == 0x08 {
        seq!['\\' as u8, 'b' as u8]
    } else if code == 0x09 {
        seq!['\\' as u8, 't' as u8]
    } else if code == 0x0a {
        seq!['\\' as u8, 'n' as u8]
    } else if code == 0x0c {
        seq!['\\' as u8, 'f' as u8]
    } else if code == 0x0d {
        seq!['\\' as u8, 'r' as u8]
    } else if code < 0x20 {
        seq![
            '\\' as u8,
            'u' as u8,
            '0' as u8,
            '0' as u8,
            hex_digit(code / 16) as u8,
            hex_digit(code % 16) as u8,
        ]
    } else {
        vstd::utf8::encode_utf8(seq![c])
    }
}

/// The JSON texts of the characters, one after the other.
pub open spec fn chars_text(text: Seq<char>) -> Seq<u8>
    decreases text.len(),
{
    if text.len() == 0 {
        Seq::empty()
    } else {
        chars_text(text.drop_last()) + char_text(text.last())
    }
}

/// The JSON text of a string.
pub open spec fn quoted_text(text: Seq<char>) -> Seq<u8> {
    seq!['"' as u8] + chars_text(text) + seq!['"' as u8]
}

/// The JSON text of a member whose name and value have those texts.
pub open spec fn member_text(name: Seq<u8>, value: Seq<u8>) -> Seq<u8> {
    name + seq![':' as u8] + value
}

/// The JSON text of an object whose members have those texts.
pub open spec fn braced_text(members: Seq<Seq<u8>>) -> Seq<u8> {
    seq!['{' as u8] + comma_separated(members) + seq!['}' as u8]
}

/// The JSON text of params: an object of strings, in the order of its keys.
pub open spec fn object_text(params: ParamMap) -> Seq<u8> {
    let keys = keys_in_order(params);
    braced_text(
        Seq::new(
            keys.len(),
            |i: int| member_text(quoted_text(keys[i]), quoted_text(params[keys[i]])),
        ),
    )
}

/// The JSON text of an array whose items have those texts.
pub open spec fn list_text(items: Seq<Seq<u8>>) -> Seq<u8> {
    seq!['[' as u8] + comma_separated(items) + seq![']' as u8]
}

/// The JSON text of canonical params.
pub open spec fn canonical_text(params: CanonicalModel) -> Seq<u8> {
    match params {
        CanonicalModel::Single(params) => object_text(params),
        CanonicalModel::Batch(calls) => list_text(
            Seq::new(calls.len(), |i: int| object_text(calls[i])),
        ),
    }
}

/// Whether the value is an object of strings, whose entries are those of the map.
pub open spec fn holds_params(value: Json, params: ParamMap) -> bool {
    match value {
        Json::Object(members) => {
            &&& forall|i: int|
                0 <= i < members.len() ==> {
                    let (name, member) = #[trigger] members[i];
                    params.contains_key(name) && member == Json::String(params[name])
                }
            &&& forall|name: Seq<char>| #[trigger]
                params.contains_key(name) ==> exists|i: int|
                    0 <= i < members.len() && (#[trigger] members[i]).0 == name
        },
        _ => false,
    }
}

/// Whether the text, read as JSON, is the params and nothing else.
pub open spec fn reads_as(text: Seq<u8>, params: CanonicalModel) -> bool {
    match (read_json(text), params) {
        (Some(value), CanonicalModel::Single(params)) => holds_params(value, params),
        (Some(Json::Array(items)), CanonicalModel::Batch(calls)) => {
            &&& items.len() == calls.len()
            &&& forall|i: int| 0 <= i < items.len() ==> holds_params(#[trigger] items[i], calls[i])
        },
        _ => false,
    }
}

/// Two hexadecimal digits for each byte, the high one first.
pub open spec fn hex_text(bytes: Seq<u8>) -> Seq<char> {
    Seq::new(
        2 * bytes.len(),
        |i: int|
            if i % 2 == 0 {
                hex_digit(bytes[i / 2] as int / 16)
            } else {
                hex_digit(bytes[i / 2] as int % 16)
            },
    )
}

/// Calls `serde_json::to_vec` on one map; it fails on no map from strings to
/// strings. It writes an object: for each entry, in the order of the keys, the
/// quoted key, a colon and the quoted value, with commas between the entries, in
/// braces. Strings are written in UTF-8, with an escape for quotes, backslashes and
/// control characters. `serde_json::from_slice` reads in the text the same entries
/// again.
#[verifier::external_body]
fn map_to_vec(params: &BTreeMap<String, String>) -> (text: Result<Vec<u8>, serde_json::Error>)
    ensures
        text is Ok,
        text->Ok_0@ == object_text(params.deep_view()),
        reads_as(text->Ok_0@, CanonicalModel::Single(params.deep_view())),
{
    serde_json::to_vec(params)
}

/// Calls `serde_json::to_vec` on a list of maps, which it writes as an array: the
/// objects, each as it is written alone, with commas between them, in brackets.
/// `serde_json::from_slice` reads in it the same lists of entries again.
#[verifier::external_body]
fn maps_to_vec(calls: &Vec<BTreeMap<String, String>>) -> (text: Result<Vec<u8>, serde_json::Error>)
    ensures
        text is Ok,
        text->Ok_0@ == list_text(
            Seq::new(calls@.len(), |i: int| object_text(calls@[i].deep_view())),
        ),
        reads_as(
            text->Ok_0@,
            CanonicalModel::Batch(Seq::new(calls@.len(), |i: int| calls@[i].deep_view())),
        ),
{
    serde_json::to_vec(calls)
}

/// Calls `sha2::Sha256::digest`, whose result is named `sha256`.
#[verifier::external_body]
fn sha256_digest(data: &[u8]) -> (digest: [u8; 32])
    ensures
        digest@ == sha256(data@),
{
    <sha2::Sha256 as sha2::Digest>::digest(data).into()
}

/// Calls `hex::encode`, which writes each byte as two lower-case hexadecimal
/// digits, the high one first.
#[verifier::external_body]
fn hex_encode(bytes: &[u8]) -> (text: String)
    ensures
        text@ == hex_text(bytes@),
{
    hex::encode(bytes)
}

/// The digest of canonical params.
pub open spec fn params_digest(params: CanonicalModel) -> Seq<char> {
    hex_text(sha256(canonical_text(params)))
}

/// Whether the character is a lower-case hexadecimal digit.
pub open spec fn is_hex_digit(c: char) -> bool {
    '0' <= c <= '9' || 'a' <= c <= 'f'
}

/// Writes a digest in hexadecimal digits.
pub fn digest_text(digest: &[u8; 32]) -> (text: String)
    ensures
        text@ == hex_text(digest@),
        text@.len() == 64,
        forall|i: int| 0 <= i < text@.len() ==> is_hex_digit(#[trigger] text@[i]),
{
    hex_encode(digest.as_slice())
}

/// The SHA-256 of those bytes, in hexadecimal digits.
pub fn sha256_hex(encoded: &[u8]) -> (text: String)
    ensures
        text@ == hex_text(sha256(encoded@)),
        text@.len() == 64,
        forall|i: int| 0 <= i < text@.len() ==> is_hex_digit(#[trigger] text@[i]),
{
    let digest = sha256_digest(encoded);
    digest_text(&digest)
}

/// Digests params: SHA-256 of their JSON text, in hexadecimal digits.
pub fn sha256_json(value: &CanonicalParams) -> (digest: String)
    ensures
        digest@ == params_digest(value@),
        digest@.len() == 64,
        forall|i: int| 0 <= i < digest@.len() ==> is_hex_digit(#[trigger] digest@[i]),
        reads_as(canonical_text(value@), value@),
{
    let encoded = match value {
        CanonicalParams::Single(params) => map_to_vec(params),
        CanonicalParams::Batch(calls) => maps_to_vec(calls),
    }.expect("canonical JSON-RPC params should serialize");
    proof {
        if let CanonicalModel::Batch(calls) = value@ {
            let maps = value->Batch_0@;
            assert(Seq::new(calls.len(), |i: int| object_text(calls[i])) =~= Seq::new(
                maps.len(),
                |i: int| object_text(maps[i].deep_view()),
            ));
        }
    }
    sha256_hex(encoded.as_slice())
}

} // verus!
