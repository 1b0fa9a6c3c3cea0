//! Numbers in the JSON configuration of a model.

use vstd::prelude::*;

verus! {

/// What a JSON text holds under a key of its top-level object: `None` where the
/// text is not JSON, `Some(None)` where there is no such key or its value is not
/// a number that fits in 64 bits without a sign.
pub uninterp spec fn json_u64(text: Seq<u8>, key: Seq<char>) -> Option<Option<u64>>;

/// Calls `serde_json::from_slice`, and `Value::get` and `Value::as_u64` on what it
/// gives. The result is what `json_u64` names.
#[verifier::external_body]
pub(crate) fn json_u64_field(text: &[u8], key: &str) -> (r: Option<Option<u64>>)
    ensures
        r == json_u64(text@, key@),
{
    match serde_json::from_slice::<serde_json::Value>(text) {
        Ok(v) => Some(v.get(key).and_then(|x| x.as_u64())),
        Err(_) => None,
    }
}

} // verus!
