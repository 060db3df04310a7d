//! The JSON values that subjects carry, and the calls into `serde_json`.
//!
//! A value is opaque to the store: it is carried, copied and handed back, and
//! nothing in the library looks inside one.

use vstd::prelude::*;

verus! {

/// `serde_json::Value`, carried through the library without being inspected.
#[verifier::external_type_specification]
#[verifier::external_body]
pub struct ExValue(serde_json::Value);

/// `serde_json::Error`, the error of a failed parse or serialisation.
#[verifier::external_type_specification]
#[verifier::external_body]
pub struct ExJsonError(serde_json::Error);

/// `<serde_json::Value as Clone>::clone`, which is derived: the copy is the
/// same JSON value as the one copied.
pub assume_specification[ <serde_json::Value as Clone>::clone ](v: &serde_json::Value) -> (res:
    serde_json::Value)
    ensures
        res == *v,
;

/// The JSON text that `serde_json::to_string` writes for a value, if it
/// writes one.
pub uninterp spec fn json_text(value: serde_json::Value) -> Option<Seq<char>>;

/// The value that `serde_json::from_str` reads from a text, if the text is
/// JSON.
pub uninterp spec fn json_value(text: Seq<char>) -> Option<serde_json::Value>;

/// `serde_json::to_string` on a value: whether it succeeds and what it
/// writes depend on the value alone. It succeeds exactly on the values that
/// have a JSON text, with that text.
#[verifier::external_body]
pub(crate) fn to_json(value: &serde_json::Value) -> (res: Result<String, serde_json::Error>)
    ensures
        match res {
            Ok(text) => json_text(*value) == Some(text@),
            Err(_) => json_text(*value) is None,
        },
{
    serde_json::to_string(value)
}

/// `serde_json::from_str` for a value: it succeeds exactly on the texts that
/// are JSON, with the value that the text writes.
#[verifier::external_body]
pub(crate) fn from_json(text: &str) -> (res: Result<serde_json::Value, serde_json::Error>)
    ensures
        match res {
            Ok(value) => json_value(text@) == Some(value),
            Err(_) => json_value(text@) is None,
        },
{
    serde_json::from_str(text)
}

} // verus!
