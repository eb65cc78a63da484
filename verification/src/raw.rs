//! From JSON text to a document tree.
//!
//! The parser collaborator turns the input bytes into a [`RawJson`] parse
//! tree of plain values; everything after that handover is verified:
//! [`node_from_raw`] computes the size caches bottom-up and returns a
//! well-formed [`Node`] whenever the pretty-printed size of the document
//! fits the machine word.
use vstd::prelude::*;

use crate::error::LoadError;
use crate::model::{bytes_of, lines_of, model_wf, JsonV};
use crate::node::{node_from_raw, Node, RawJson};

verus! {

broadcast use vstd::std_specs::vec::group_vec_axioms;

/// The document a well-formed JSON text denotes.  The decoding depends on
/// the bytes alone.
pub uninterp spec fn parsed_json_of(bytes: Seq<u8>) -> JsonV;

/// Whether the decoder accepts the bytes as a JSON document.  Like the
/// decoding itself, acceptance depends on the bytes alone.
pub uninterp spec fn json_parses(bytes: Seq<u8>) -> bool;

#[verifier::external_type_specification]
#[verifier::external_body]
pub struct ExSonicError(sonic_rs::Error);

#[verifier::external_type_specification]
#[verifier::external_body]
pub struct ExJsonValue(serde_json::Value);

/// Relies on sonic_rs::from_slice to decode JSON text into a
/// serde_json::Value (whose map preserves insertion order), and on
/// serde_json::Value's iterators and serde_json::Number's Display for the
/// conversion to plain values.  Keys of a JSON object are unique, so the
/// converted tree carries no duplicate key.
#[verifier::external_body]
fn parse_raw(bytes: &[u8]) -> (r: Result<RawJson, sonic_rs::Error>)
    ensures
        r is Ok <==> json_parses(bytes@),
        r matches Ok(raw) ==> raw@ == parsed_json_of(bytes@) && model_wf(raw@),
{
    let value: serde_json::Value = sonic_rs::from_slice(bytes)?;
    Ok(value_to_raw(value))
}

/// Relies on serde_json::Value's into_iter (order-preserving) and on
/// serde_json::Number's Display giving the number's decimal text.
#[verifier::external_body]
fn value_to_raw(v: serde_json::Value) -> RawJson {
    match v {
        serde_json::Value::Null => RawJson::Null,
        serde_json::Value::Bool(b) => RawJson::Bool(b),
        serde_json::Value::Number(n) => RawJson::Num(n.to_string()),
        serde_json::Value::String(s) => RawJson::Str(s),
        serde_json::Value::Array(xs) => RawJson::Arr(xs.into_iter().map(value_to_raw).collect()),
        serde_json::Value::Object(m) => {
            RawJson::Obj(m.into_iter().map(|(k, x)| (k, value_to_raw(x))).collect())
        },
    }
}

/// Relies on sonic_rs::Error's Display for the parser's description of
/// what was wrong with the text.
#[verifier::external_body]
fn sonic_error_text(e: &sonic_rs::Error) -> String {
    format!("{e}")
}

impl Node {
    /// Decodes JSON text into a document tree with correct size caches.
    /// Succeeds exactly when the decoder accepts the bytes and the
    /// document's pretty-printed size fits the machine word.
    pub fn load(bytes: &[u8]) -> (r: Result<Node, LoadError>)
        ensures
            r matches Ok(n) ==> n@ == parsed_json_of(bytes@) && n.wf(),
            json_parses(bytes@) && bytes_of(parsed_json_of(bytes@)) <= usize::MAX && lines_of(
                parsed_json_of(bytes@),
            ) <= usize::MAX ==> r is Ok,
            r matches Err(e) ==> e is SerdeJson || e is TooLarge,
            r matches Err(e) && e is SerdeJson ==> !json_parses(bytes@),
            r matches Err(e) && e is TooLarge ==> json_parses(bytes@) && !(bytes_of(
                parsed_json_of(bytes@),
            ) <= usize::MAX && lines_of(parsed_json_of(bytes@)) <= usize::MAX),
    {
        match parse_raw(bytes) {
            Ok(raw) => {
                match node_from_raw(&raw) {
                    Ok(n) => Ok(n),
                    Err(e) => Err(e),
                }
            },
            Err(e) => Err(LoadError::SerdeJson(sonic_error_text(&e))),
        }
    }
}

} // verus!
