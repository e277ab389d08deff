//! JSON-RPC 2.0 over HTTP: inspection of the requests that pass a proxy.
//!
//! [`request::parse_jsonrpc_body`] says what a body calls: the method of each
//! call, and its params flattened to a map from dotted path to text. A body that
//! is not valid JSON-RPC 2.0, or whose params are ambiguous, is refused with an
//! error and makes no call. [`request::JsonRpcRequestInfo::params_sha256`] is a
//! digest of the params that does not show them.

pub mod digest;
pub mod json;
pub mod keys;
pub mod laws;
pub mod meaning;
pub mod order;
pub mod params;
pub mod request;
pub mod walk;
