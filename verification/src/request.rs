//! JSON-RPC 2.0 requests: what a body calls, and the digest of its params.

use crate::digest::{
    canonical_params_map, canonical_text, is_hex_digit, params_digest, reads_as, sha256_json,
    CanonicalModel, CanonicalParams,
};
use crate::json::{parse_json, read_json, Json, JsonValue};
use crate::params::{empty_params, enclosed, flatten_jsonrpc_params, flattened, ParamMap};
use std::collections::BTreeMap;
use std::collections::HashMap;
use vstd::prelude::*;

verus! {

/// The most bytes of a body that are read for inspection, unless configured otherwise.
pub const DEFAULT_MAX_BODY_BYTES: usize = 64 * 1024;

/// An HTTP request whose body has been inspected.
pub struct JsonRpcHttpRequest<R> {
    pub request: R,
    pub info: JsonRpcRequestInfo,
}

/// What a body calls: the calls of an accepted request, or why it is refused.
#[derive(Debug, Clone, PartialEq, Eq)]
pub struct JsonRpcRequestInfo {
    pub calls: Vec<JsonRpcCallInfo>,
    pub is_batch: bool,
    pub error: Option<String>,
}

/// One call: its method and its flattened params.
#[derive(Debug, Clone, PartialEq, Eq)]
pub struct JsonRpcCallInfo {
    pub method: String,
    pub params: HashMap<String, String>,
}

/// The model of [`JsonRpcCallInfo`].
pub struct CallModel {
    pub method: Seq<char>,
    pub params: ParamMap,
}

/// The model of [`JsonRpcRequestInfo`].
pub struct RequestModel {
    pub calls: Seq<CallModel>,
    pub is_batch: bool,
    pub error: Option<Seq<char>>,
}

impl View for JsonRpcCallInfo {
    type V = CallModel;

    open spec fn view(&self) -> CallModel {
        CallModel { method: self.method@, params: self.params.deep_view() }
    }
}

impl View for JsonRpcRequestInfo {
    type V = RequestModel;

    open spec fn view(&self) -> RequestModel {
        RequestModel {
            calls: Seq::new(self.calls@.len(), |i: int| self.calls@[i]@),
            is_batch: self.is_batch,
            error: match self.error {
                Some(error) => Some(error@),
                None => None,
            },
        }
    }
}

/// The params of the call that a value makes, or why it may not have them.
pub open spec fn params_of(value: Json) -> Result<ParamMap, Seq<char>> {
    match value.member("params"@) {
        None => Ok(Map::empty()),
        Some(params) => if params is Object || params is Array {
            flattened(params)
        } else {
            Err("'params' field is neither an object nor an array"@)
        },
    }
}

/// Whether the value has no id, or one that is a string, a number or null.
pub open spec fn has_valid_id(value: Json) -> bool {
    value.member("id"@) matches Some(id) ==> id is String || id is Number || id is Null
}

/// The call that a value makes, or why it makes none. The version is judged
/// first, then the method, the params and the id.
pub open spec fn call_of(value: Json) -> Result<CallModel, Seq<char>> {
    match value.member("jsonrpc"@) {
        Some(Json::String(version)) => if version != "2.0"@ {
            Err("unsupported JSON-RPC version '"@ + version + "'"@)
        } else {
            match value.member("method"@) {
                Some(Json::String(method)) => match params_of(value) {
                    Ok(params) => if has_valid_id(value) {
                        Ok(CallModel { method, params })
                    } else {
                        Err("'id' field is neither a string, a number nor null"@)
                    },
                    Err(error) => Err(error),
                },
                _ => Err("missing or non-string 'method' field"@),
            }
        },
        _ => Err("missing or non-string 'jsonrpc' field"@),
    }
}

/// Why the first item that makes no call makes none.
pub open spec fn first_refusal(items: Seq<Json>) -> Option<Seq<char>>
    decreases items.len(),
{
    if items.len() == 0 {
        None
    } else {
        match first_refusal(items.drop_last()) {
            Some(error) => Some(error),
            None => match call_of(items.last()) {
                Ok(_) => None,
                Err(error) => Some(error),
            },
        }
    }
}

/// A request that is refused.
pub open spec fn refused(is_batch: bool, error: Seq<char>) -> RequestModel {
    RequestModel { calls: Seq::empty(), is_batch, error: Some(error) }
}

/// A request that is accepted.
pub open spec fn accepted(is_batch: bool, calls: Seq<CallModel>) -> RequestModel {
    RequestModel { calls, is_batch, error: None }
}

/// What the body calls in which that value was read, or no value.
pub open spec fn request_of(parsed: Option<Json>) -> RequestModel {
    match parsed {
        None => refused(false, "invalid JSON"@),
        Some(Json::Array(items)) => if items.len() == 0 {
            refused(true, "empty batch"@)
        } else {
            match first_refusal(items) {
                Some(error) => refused(true, "batch item invalid: "@ + error),
                None => accepted(true, Seq::new(items.len(), |i: int| call_of(items[i])->Ok_0)),
            }
        },
        Some(value) => match call_of(value) {
            Ok(call) => accepted(false, seq![call]),
            Err(error) => refused(false, error),
        },
    }
}

impl RequestModel {
    /// The params that a digest covers: none where no call has any.
    pub open spec fn digested(self) -> Option<CanonicalModel> {
        if self.is_batch {
            if forall|i: int|
                0 <= i < self.calls.len() ==> (#[trigger] self.calls[i]).params.dom().is_empty() {
                None
            } else {
                let params = Seq::new(self.calls.len(), |i: int| self.calls[i].params);
                Some(CanonicalModel::Batch(params))
            }
        } else if self.calls.len() == 0 || self.calls[0].params.dom().is_empty() {
            None
        } else {
            Some(CanonicalModel::Single(self.calls[0].params))
        }
    }

    /// The digest of the params.
    pub open spec fn digest(self) -> Option<Seq<char>> {
        match self.digested() {
            None => None,
            Some(params) => Some(params_digest(params)),
        }
    }
}

/// A refusal stays the first one whatever follows.
proof fn lemma_first_refusal_stays(items: Seq<Json>, n: int)
    requires
        0 <= n <= items.len(),
        first_refusal(items.take(n)) is Some,
    ensures
        first_refusal(items) == first_refusal(items.take(n)),
    decreases items.len(),
{
    if n == items.len() {
        assert(items.take(n) =~= items);
    } else {
        assert(items.drop_last().take(n) =~= items.take(n));
        lemma_first_refusal_stays(items.drop_last(), n);
    }
}

/// The outcome of a call, as its model has it.
pub open spec fn call_outcome(outcome: Result<JsonRpcCallInfo, String>) -> Result<
    CallModel,
    Seq<char>,
> {
    match outcome {
        Ok(call) => Ok(call@),
        Err(error) => Err(error@),
    }
}

/// Whether the value is an object or an array.
fn is_structured(value: &JsonValue) -> (structured: bool)
    ensures
        structured == (value@ is Object || value@ is Array),
{
    match value {
        JsonValue::Object(_) => true,
        JsonValue::Array(_) => true,
        _ => false,
    }
}

/// Whether the value may stand as the id of a request.
fn is_id(value: &JsonValue) -> (valid: bool)
    ensures
        valid == (value@ is String || value@ is Number || value@ is Null),
{
    match value {
        JsonValue::String(_) => true,
        JsonValue::Number(_) => true,
        JsonValue::Null => true,
        _ => false,
    }
}

/// The call that a value makes, or why it makes none. The version is judged
/// first, then the method, then the params and the id, which may be missing.
pub fn parse_jsonrpc_call(value: &JsonValue) -> (outcome: Result<JsonRpcCallInfo, String>)
    ensures
        call_outcome(outcome) == call_of(value@),
{
    let version = match value.get("jsonrpc") {
        Some(JsonValue::String(version)) => version,
        _ => {
            return Err("missing or non-string 'jsonrpc' field".to_string());
        },
    };
    let supported = "2.0".to_string();
    if *version != supported {
        return Err(enclosed("unsupported JSON-RPC version '", version.as_str(), "'"));
    }
    let method = match value.get("method") {
        Some(JsonValue::String(method)) => method,
        _ => {
            return Err("missing or non-string 'method' field".to_string());
        },
    };
    let params = match value.get("params") {
        None => empty_params(),
        Some(params) => {
            if !is_structured(params) {
                return Err("'params' field is neither an object nor an array".to_string());
            }
            match flatten_jsonrpc_params(params) {
                Ok(params) => params,
                Err(error) => {
                    return Err(error);
                },
            }
        },
    };
    match value.get("id") {
        None => {},
        Some(id) => {
            if !is_id(id) {
                return Err("'id' field is neither a string, a number nor null".to_string());
            }
        },
    }
    Ok(JsonRpcCallInfo { method: method.clone(), params })
}

/// A request that is refused.
fn refuse(is_batch: bool, error: String) -> (info: JsonRpcRequestInfo)
    ensures
        info@ == refused(is_batch, error@),
{
    let info = JsonRpcRequestInfo { calls: Vec::new(), is_batch, error: Some(error) };
    assert(info@.calls =~= Seq::empty());
    info
}

/// What a batch of those items calls.
fn parse_jsonrpc_batch(items: &Vec<JsonValue>) -> (info: JsonRpcRequestInfo)
    ensures
        info@ == request_of(Some(JsonValue::Array(*items)@)),
{
    let ghost all = JsonValue::Array(*items)@->Array_0;
    if items.len() == 0 {
        return refuse(true, "empty batch".to_string());
    }
    let mut calls: Vec<JsonRpcCallInfo> = Vec::new();
    for i in 0..items.len()
        invariant
            0 < items.len(),
            JsonValue::Array(*items)@ == Json::Array(all),
            all.len() == items.len(),
            first_refusal(all.take(i as int)) is None,
            calls.len() == i,
            forall|j: int|
                0 <= j < i ==> call_of(all[j]) == Ok::<CallModel, Seq<char>>(
                    (#[trigger] calls@[j])@,
                ),
    {
        assert(all.take(i + 1).drop_last() =~= all.take(i as int));
        match parse_jsonrpc_call(&items[i]) {
            Ok(call) => {
                calls.push(call);
            },
            Err(error) => {
                proof {
                    lemma_first_refusal_stays(all, i + 1);
                    reveal_strlit("");
                }
                assert("batch item invalid: "@ + error@ + ""@ =~= "batch item invalid: "@ + error@);
                return refuse(true, enclosed("batch item invalid: ", error.as_str(), ""));
            },
        }
    }
    assert(all.take(items.len() as int) =~= all);
    let info = JsonRpcRequestInfo { calls, is_batch: true, error: None };
    assert(info@.calls =~= Seq::new(all.len(), |i: int| call_of(all[i])->Ok_0));
    info
}

/// What a body calls in which that value was read; `None` stands for a body that
/// is not JSON.
pub fn parse_jsonrpc_value(parsed: Option<&JsonValue>) -> (info: JsonRpcRequestInfo)
    ensures
        info@ == request_of(
            match parsed {
                Some(value) => Some(value@),
                None => None,
            },
        ),
{
    match parsed {
        None => refuse(false, "invalid JSON".to_string()),
        Some(JsonValue::Array(items)) => parse_jsonrpc_batch(items),
        Some(value) => match parse_jsonrpc_call(value) {
            Ok(call) => {
                let info = JsonRpcRequestInfo { calls: vec![call], is_batch: false, error: None };
                assert(info@.calls =~= seq![call@]);
                info
            },
            Err(error) => refuse(false, error),
        },
    }
}

/// Parses a JSON-RPC 2.0 request body: the calls that it makes, or, where it is
/// not valid JSON-RPC 2.0, the error.
pub fn parse_jsonrpc_body(body: &[u8]) -> (info: JsonRpcRequestInfo)
    ensures
        info@ == request_of(read_json(body@)),
        read_json(body@) matches Some(value) ==> value.names_in_order() && value.unique_names(),
{
    match parse_json(body) {
        None => parse_jsonrpc_value(None),
        Some(value) => parse_jsonrpc_value(Some(&value)),
    }
}

/// Whether the map has no entries.
fn no_params(params: &HashMap<String, String>) -> (empty: bool)
    ensures
        empty == params.deep_view().dom().is_empty(),
{
    broadcast use vstd::std_specs::hash::lemma_hashmap_deepview_dom;

    let empty = params.is_empty();
    proof {
        if params@.dom().is_empty() {
            assert(params.deep_view().dom() =~= Set::empty());
        } else {
            let key = params@.dom().choose();
            assert(params.deep_view().dom().contains(key.deep_view()));
        }
    }
    empty
}

/// Whether no call of a batch has params.
fn none_has_params(calls: &Vec<JsonRpcCallInfo>) -> (empty: bool)
    ensures
        empty <==> forall|i: int|
            0 <= i < calls@.len() ==> (#[trigger] calls@[i]).params.deep_view().dom().is_empty(),
{
    for i in 0..calls.len()
        invariant
            forall|j: int|
                0 <= j < i ==> (#[trigger] calls@[j]).params.deep_view().dom().is_empty(),
    {
        if !no_params(&calls[i].params) {
            return false;
        }
    }
    true
}

impl JsonRpcRequestInfo {
    /// The digest of the params of the request; `None` where no call has any. The
    /// text that is digested reads as those params again.
    pub fn params_sha256(&self) -> (digest: Option<String>)
        ensures
            self@.digest() == (match digest {
                Some(digest) => Some(digest@),
                None => None,
            }),
            digest matches Some(digest) ==> digest@.len() == 64 && forall|i: int|
                0 <= i < digest@.len() ==> is_hex_digit(#[trigger] digest@[i]),
            self@.digested() matches Some(params) ==> reads_as(canonical_text(params), params),
    {
        if self.is_batch {
            proof {
                assert forall|i: int| 0 <= i < self.calls@.len() implies self.calls@[i]@
                    == #[trigger] self@.calls[i] by {}
            }
            if none_has_params(&self.calls) {
                return None;
            }
            proof {
                let i = choose|i: int|
                    0 <= i < self.calls@.len() && !(
                    #[trigger] self.calls@[i]).params.deep_view().dom().is_empty();
                assert(!self@.calls[i].params.dom().is_empty());
            }
            let mut canonical: Vec<BTreeMap<String, String>> = Vec::new();
            for i in 0..self.calls.len()
                invariant
                    canonical.len() == i,
                    forall|j: int|
                        0 <= j < i ==> (#[trigger] canonical@[j]).deep_view()
                            == self@.calls[j].params,
            {
                canonical.push(canonical_params_map(&self.calls[i].params));
            }
            let canonical = CanonicalParams::Batch(canonical);
            assert(canonical@->Batch_0 =~= self@.digested()->0->Batch_0);
            return Some(sha256_json(&canonical));
        }
        if self.calls.len() == 0 {
            return None;
        }
        assert(self@.calls[0] == self.calls@[0]@);
        if no_params(&self.calls[0].params) {
            return None;
        }
        Some(sha256_json(&CanonicalParams::Single(canonical_params_map(&self.calls[0].params))))
    }
}

/// Inspects the body of an HTTP request, and keeps the request beside it.
pub fn inspect_http_request<R>(request: R, body: &[u8]) -> (inspected: JsonRpcHttpRequest<R>)
    ensures
        inspected.request == request,
        inspected.info@ == request_of(read_json(body@)),
{
    JsonRpcHttpRequest { request, info: parse_jsonrpc_body(body) }
}

} // verus!
