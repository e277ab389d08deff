# jsonrpc_l7

Inspection of JSON-RPC 2.0 requests that pass a proxy, verified with Verus: what
a body calls, and a digest of the params that a log can hold in their place.

- `src/json.rs`: JSON values, and the reader that makes one from bytes
- `src/params.rs`: flattening of params to a map from dotted path to text
- `src/digest.rs`: the canonical form of params, and its digest
- `src/request.rs`: requests, single and batched, and the errors they are refused with
- `src/keys.rs`: the order of keys
- `src/walk.rs`, `src/order.rs`, `src/laws.rs`: what holds of every value, request and digest
- `app/`: reading requests off a connection

`serde_json`, `sha2` and `hex` are called behind small functions marked
`external_body`; their doc comments say what is taken on trust of each, as do
those for `HashMap` and `BTreeMap` with string keys.
