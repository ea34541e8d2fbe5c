//! JSON text, one level at a time, read and written by `serde_json`.

use vstd::prelude::*;

#[allow(unused_imports)]
use crate::text::{opt_text, texts};

verus! {

/// A JSON text as `serde_json` writes it, without blanks and with the members of objects in order,
/// or the text of its error where the text is no JSON.
pub uninterp spec fn normal_text(text: Seq<char>) -> JsonResult<Seq<char>>;

/// The elements of a JSON array, each as JSON text, or the text of an error where it is no array.
pub uninterp spec fn array_items(text: Seq<char>) -> JsonResult<Seq<Seq<char>>>;

/// The member of a JSON object under a key, as JSON text: nothing where the text is no object, and
/// nothing within where the object has no such member.
pub uninterp spec fn object_member(text: Seq<char>, key: Seq<char>) -> Option<Option<Seq<char>>>;

/// The text that a JSON string stands for, or the text of an error where it is no string.
pub uninterp spec fn string_value(text: Seq<char>) -> JsonResult<Seq<char>>;

/// The 32-bit integer that a JSON number stands for, nothing for `null`, or the text of an error
/// where it is neither.
pub uninterp spec fn integer_value(text: Seq<char>) -> JsonResult<Option<i32>>;

/// A text as a JSON string.
pub uninterp spec fn quoted(text: Seq<char>) -> Seq<char>;

/// A value that was read, or the text of the error.
pub type JsonResult<T> = core::result::Result<T, Seq<char>>;

/// A text that was read, by its view.
pub open spec fn text_reading(result: Result<String, String>) -> JsonResult<Seq<char>> {
    match result {
        Ok(text) => Ok(text@),
        Err(message) => Err(message@),
    }
}

/// A list of texts that was read, by its view.
pub open spec fn list_reading(result: Result<Vec<String>, String>) -> JsonResult<Seq<Seq<char>>> {
    match result {
        Ok(list) => Ok(texts(list@)),
        Err(message) => Err(message@),
    }
}

/// Calls `serde_json::from_str` for a `Value`, and writes that, or the error, with `to_string`. The
/// result depends on the text alone.
#[verifier::external_body]
pub(crate) fn json_text(text: &str) -> (result: Result<String, String>)
    ensures
        text_reading(result) == normal_text(text@),
{
    match serde_json::from_str::<serde_json::Value>(text) {
        Ok(value) => Ok(value.to_string()),
        Err(error) => Err(error.to_string()),
    }
}

/// Calls `serde_json::from_str` for a `Value` and `serde_json::from_value` for a list of values, and
/// writes each of them, or the error, with `to_string`. The result depends on the text alone.
#[verifier::external_body]
pub(crate) fn json_items(text: &str) -> (result: Result<Vec<String>, String>)
    ensures
        list_reading(result) == array_items(text@),
{
    match serde_json::from_str(text).and_then(serde_json::from_value::<Vec<serde_json::Value>>) {
        Ok(items) => Ok(items.iter().map(|item| item.to_string()).collect()),
        Err(error) => Err(error.to_string()),
    }
}

/// Calls `serde_json::from_str` for a `Value` and, where that is an object, `get` with the key, and
/// writes the member with `to_string`. The result depends on the text and the key alone.
#[verifier::external_body]
pub(crate) fn json_member(text: &str, key: &str) -> (member: Option<Option<String>>)
    ensures
        match member {
            Some(m) => object_member(text@, key@) == Some(opt_text(m)),
            None => object_member(text@, key@) is None,
        },
{
    let value = serde_json::from_str::<serde_json::Value>(text).ok()?;
    Some(value.as_object()?.get(key).map(|member| member.to_string()))
}

/// Calls `serde_json::from_str` for a `Value` and `serde_json::from_value` for a `String`, and
/// writes the error with `to_string`. The result depends on the text alone.
#[verifier::external_body]
pub(crate) fn json_string(text: &str) -> (result: Result<String, String>)
    ensures
        text_reading(result) == string_value(text@),
{
    match serde_json::from_str(text).and_then(serde_json::from_value::<String>) {
        Ok(value) => Ok(value),
        Err(error) => Err(error.to_string()),
    }
}

/// Calls `serde_json::from_str` for a `Value` and `serde_json::from_value` for an `Option<i32>`, and
/// writes the error with `to_string`. The result depends on the text alone.
#[verifier::external_body]
pub(crate) fn json_integer(text: &str) -> (result: Result<Option<i32>, String>)
    ensures
        match result {
            Ok(value) => integer_value(text@) == JsonResult::<Option<i32>>::Ok(value),
            Err(message) => integer_value(text@) == JsonResult::<Option<i32>>::Err(message@),
        },
{
    match serde_json::from_str(text).and_then(serde_json::from_value::<Option<i32>>) {
        Ok(value) => Ok(value),
        Err(error) => Err(error.to_string()),
    }
}

/// Writes a text with `serde_json::Value::to_string`, as the JSON string that reads back as the
/// text. The result depends on the text alone.
#[verifier::external_body]
pub(crate) fn json_quote(text: &str) -> (result: String)
    ensures
        result@ == quoted(text@),
        string_value(result@) == JsonResult::<Seq<char>>::Ok(text@),
{
    serde_json::Value::from(text).to_string()
}

} // verus!
