//! JSON values, as far as test data needs them.
//!
//! A value is taken as its compact text, from which everything else about it
//! follows.
use vstd::prelude::*;
use vstd::string::*;

verus! {

#[verifier::external_type_specification]
#[verifier::external_body]
pub struct ExValue(serde_json::Value);

/// The compact text of a value: what `serde_json::to_vec` writes.
pub uninterp spec fn json_text(v: serde_json::Value) -> Seq<u8>;

/// The compact text of the value that a document holds, as `serde_json::from_slice`
/// reads it; none where it finds no value.
pub uninterp spec fn json_parsed(document: Seq<u8>) -> Option<Seq<u8>>;

/// The compact text of the member of a value under a key, as indexing gives it.
pub uninterp spec fn json_member(text: Seq<u8>, key: Seq<char>) -> Seq<u8>;

/// The compact texts of the elements of a value, as `serde_json::Value::as_array`
/// gives them; none for one that is no array.
pub uninterp spec fn json_elements(text: Seq<u8>) -> Option<Seq<Seq<u8>>>;

/// The binary64 bits of a value, as `serde_json::Value::as_f64` gives it; none
/// for one that is no number.
pub uninterp spec fn json_number(text: Seq<u8>) -> Option<u64>;

/// Calls `serde_json::from_slice`. Claims that whether there is a value, and
/// which, follows from the bytes alone.
#[verifier::external_body]
pub(crate) fn from_slice(document: &[u8]) -> (r: Option<serde_json::Value>)
    ensures
        match r {
            Some(v) => json_parsed(document@) == Some(json_text(v)),
            None => json_parsed(document@) is None,
        },
{
    serde_json::from_slice(document).ok()
}

/// Calls `serde_json::to_vec`. Claims that the bytes are the value's compact
/// text. The call cannot fail: every key of a value is a string.
#[verifier::external_body]
pub(crate) fn to_vec(v: &serde_json::Value) -> (r: Vec<u8>)
    ensures
        r@ == json_text(*v),
{
    serde_json::to_vec(v).expect("a JSON value")
}

/// Calls `serde_json::Value::index` with a key. Claims that the member follows
/// from the value and the key; a member that is not there is null.
#[verifier::external_body]
pub(crate) fn member<'a>(v: &'a serde_json::Value, key: &str) -> (r: &'a serde_json::Value)
    ensures
        json_text(*r) == json_member(json_text(*v), key@),
{
    &v[key]
}

/// Calls `serde_json::Value::as_array`. Claims that the elements follow from the
/// value.
#[verifier::external_body]
pub(crate) fn as_array(v: &serde_json::Value) -> (r: Option<&Vec<serde_json::Value>>)
    ensures
        match r {
            Some(a) => json_elements(json_text(*v)) == Some(
                Seq::new(a@.len(), |i: int| json_text(a@[i])),
            ),
            None => json_elements(json_text(*v)) is None,
        },
{
    v.as_array()
}

/// The boolean that a compact text stands for.
pub open spec fn json_bool(text: Seq<u8>) -> Option<bool> {
    if text == "true".spec_bytes() {
        Some(true)
    } else if text == "false".spec_bytes() {
        Some(false)
    } else {
        None
    }
}

/// Calls `serde_json::Value::as_bool`. Claims that there is a boolean exactly
/// where the text is one of the two words, and which.
#[verifier::external_body]
pub(crate) fn as_bool(v: &serde_json::Value) -> (r: Option<bool>)
    ensures
        r == json_bool(json_text(*v)),
{
    v.as_bool()
}

/// Calls `serde_json::Value::as_f64`. Claims that the number follows from the
/// value.
#[verifier::external_body]
pub(crate) fn number_bits(v: &serde_json::Value) -> (r: Option<u64>)
    ensures
        r == json_number(json_text(*v)),
{
    v.as_f64().map(|x| x.to_bits())
}

} // verus!
