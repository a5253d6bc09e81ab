//! JSON values carried by events.
//!
//! A value is held as its compact serde_json text, the same text that
//! `serde_json::to_string` gives for the corresponding `serde_json::Value`.
//! Reading a member, a string or an integer out of it is serde_json's work.

use vstd::prelude::*;

verus! {

/// The compact text of the value that `serde_json::from_str` parses from
/// `text`, or `None` where the text is not JSON.
pub uninterp spec fn json_canonical(text: Seq<char>) -> Option<Seq<char>>;

/// The compact text of member `key` of the value written by `text`
/// (`serde_json::Value::get`), or `None` where there is no such member.
pub uninterp spec fn json_member(text: Seq<char>, key: Seq<char>) -> Option<Seq<char>>;

/// The string held by the value written by `text`
/// (`serde_json::Value::as_str`), or `None` where it is no string.
pub uninterp spec fn json_as_str(text: Seq<char>) -> Option<Seq<char>>;

/// The integer held by the value written by `text`
/// (`serde_json::Value::as_i64`), or `None` where it is no integer that fits
/// in `i64`.
pub uninterp spec fn json_as_i64(text: Seq<char>) -> Option<i64>;

/// The JSON string literal for `s` (`serde_json::to_string` on a `str`).
pub uninterp spec fn json_quote(s: Seq<char>) -> Seq<char>;

/// Calls `serde_json::from_str::<serde_json::Value>` on `text` and, on
/// success, `serde_json::to_string` on the parsed value.
///
/// Trusted: the result is `json_canonical(text)`.
#[verifier::external_body]
fn canonical_text(text: &str) -> (r: Option<String>)
    ensures
        match r {
            Some(t) => json_canonical(text@) == Some(t@),
            None => json_canonical(text@) is None,
        },
{
    match serde_json::from_str::<serde_json::Value>(text) {
        Ok(v) => Some(serde_json::to_string(&v).unwrap_or_default()),
        Err(_) => None,
    }
}

/// Parses `text` with `serde_json::from_str`, calls
/// `serde_json::Value::get` with `key`, and writes the member back with
/// `serde_json::to_string`.
///
/// Trusted: the result is `json_member(text, key)`.
#[verifier::external_body]
fn member_text(text: &str, key: &str) -> (r: Option<String>)
    ensures
        match r {
            Some(t) => json_member(text@, key@) == Some(t@),
            None => json_member(text@, key@) is None,
        },
{
    let v: serde_json::Value = serde_json::from_str(text).unwrap_or_default();
    match v.get(key) {
        Some(m) => Some(serde_json::to_string(m).unwrap_or_default()),
        None => None,
    }
}

/// Parses `text` with `serde_json::from_str` and calls
/// `serde_json::Value::as_str`.
///
/// Trusted: the result is `json_as_str(text)`.
#[verifier::external_body]
fn str_of_text(text: &str) -> (r: Option<String>)
    ensures
        match r {
            Some(t) => json_as_str(text@) == Some(t@),
            None => json_as_str(text@) is None,
        },
{
    let v: serde_json::Value = serde_json::from_str(text).unwrap_or_default();
    match v.as_str() {
        Some(s) => Some(s.to_string()),
        None => None,
    }
}

/// Parses `text` with `serde_json::from_str` and calls
/// `serde_json::Value::as_i64`.
///
/// Trusted: the result is `json_as_i64(text)`.
#[verifier::external_body]
fn i64_of_text(text: &str) -> (r: Option<i64>)
    ensures
        r == json_as_i64(text@),
{
    let v: serde_json::Value = serde_json::from_str(text).unwrap_or_default();
    v.as_i64()
}

/// Calls `serde_json::to_string` on the string `s`.
///
/// Trusted: the result is `json_quote(s)`; serializing a `str` cannot fail.
#[verifier::external_body]
pub(crate) fn quote(s: &str) -> (r: String)
    ensures
        r@ == json_quote(s@),
{
    serde_json::to_string(s).unwrap_or_default()
}

/// A JSON value, held as its compact serde_json text.
#[derive(Debug, Clone, PartialEq, Eq)]
pub struct JsonValue {
    text: String,
}

impl View for JsonValue {
    type V = Seq<char>;

    closed spec fn view(&self) -> Seq<char> {
        self.text@
    }
}

impl DeepView for JsonValue {
    type V = Seq<char>;

    open spec fn deep_view(&self) -> Seq<char> {
        self@
    }
}

impl JsonValue {
    /// Parses JSON text; `None` where it is not JSON.
    pub fn parse(text: &str) -> (r: Option<JsonValue>)
        ensures
            match r {
                Some(v) => json_canonical(text@) == Some(v@),
                None => json_canonical(text@) is None,
            },
    {
        match canonical_text(text) {
            Some(t) => Some(JsonValue { text: t }),
            None => None,
        }
    }

    /// The compact JSON text of this value.
    pub fn text(&self) -> (r: &str)
        ensures
            r@ == self@,
    {
        self.text.as_str()
    }

    /// A copy of this value.
    pub fn duplicate(&self) -> (r: JsonValue)
        ensures
            r@ == self@,
    {
        JsonValue { text: self.text.clone() }
    }

    /// Member `key` of an object value.
    pub fn get(&self, key: &str) -> (r: Option<JsonValue>)
        ensures
            match r {
                Some(v) => json_member(self@, key@) == Some(v@),
                None => json_member(self@, key@) is None,
            },
    {
        match member_text(self.text.as_str(), key) {
            Some(t) => Some(JsonValue { text: t }),
            None => None,
        }
    }

    /// The string held by a string value.
    pub fn as_str(&self) -> (r: Option<String>)
        ensures
            match r {
                Some(s) => json_as_str(self@) == Some(s@),
                None => json_as_str(self@) is None,
            },
    {
        str_of_text(self.text.as_str())
    }

    /// The integer held by an integer value that fits in `i64`.
    pub fn as_i64(&self) -> (r: Option<i64>)
        ensures
            r == json_as_i64(self@),
    {
        i64_of_text(self.text.as_str())
    }
}

} // verus!
