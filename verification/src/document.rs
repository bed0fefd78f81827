//! Documents: values that are meant to be JSON text.
//!
//! The store takes any bytes for a value. What is JSON and how it is laid
//! out for a reader is decided here, by `serde_json`; what to do with its
//! answers is decided by the verified functions of this module.

use crate::text::text_of;
use vstd::prelude::*;
use vstd::slice::slice_to_vec;
use vstd::utf8::{decode_utf8, encode_utf8, valid_utf8};

verus! {

/// `serde_json::Value`: a parsed JSON value, carried from the parser to
/// the writer. Nothing is known of what is in it.
#[verifier::external_type_specification]
#[verifier::external_body]
pub struct ExJsonValue(serde_json::Value);

/// What `serde_json::from_str` makes of `text` read as one JSON value:
/// nothing where it parses, else the message of the parser's error.
pub uninterp spec fn json_text_error(text: Seq<char>) -> Option<Seq<char>>;

/// Whether `serde_json::from_slice` parses `bytes` as one JSON value.
pub uninterp spec fn json_bytes_accepted(bytes: Seq<u8>) -> bool;

/// `serde_json::from_str`, asked whether `text` is one JSON value: nothing
/// where it is, else the error as the error's `Display` writes it.
///
/// Not proved: that the answer and the message depend on the text alone.
#[verifier::external_body]
fn parse_error_of_text(text: &str) -> (error: Option<String>)
    ensures
        match error {
            Some(message) => json_text_error(text@) == Some(message@),
            None => json_text_error(text@) is None,
        },
{
    match serde_json::from_str::<serde_json::Value>(text) {
        Ok(_) => None,
        Err(e) => Some(e.to_string()),
    }
}

/// `serde_json::from_slice`: the JSON value that `bytes` spell, or nothing
/// where they spell none.
///
/// Not proved: that whether a value comes back depends on the bytes alone.
/// Nothing is said of the value.
#[verifier::external_body]
fn parse_bytes(bytes: &[u8]) -> (value: Option<serde_json::Value>)
    ensures
        value is Some <==> json_bytes_accepted(bytes@),
{
    match serde_json::from_slice::<serde_json::Value>(bytes) {
        Ok(value) => Some(value),
        Err(_) => None,
    }
}

/// `serde_json::to_string_pretty`: the value as indented JSON text, or the
/// message of the error that the writer met. Nothing is said of either.
#[verifier::external_body]
fn pretty_text(value: &serde_json::Value) -> (text: Result<String, String>) {
    match serde_json::to_string_pretty(value) {
        Ok(text) => Ok(text),
        Err(e) => Err(e.to_string()),
    }
}

/// Checks that `text` is one JSON value and gives the bytes to store for
/// it: the UTF-8 encoding of the text as it stands. Text that is not JSON
/// is refused with the parser's message.
pub fn document_bytes(text: &str) -> (r: Result<Vec<u8>, String>)
    ensures
        match json_text_error(text@) {
            None => r matches Ok(bytes) && bytes@ == encode_utf8(text@),
            Some(message) => r matches Err(e) && e@ == message,
        },
{
    match parse_error_of_text(text) {
        None => Ok(slice_to_vec(text.as_bytes())),
        Some(message) => Err(message),
    }
}

/// What the JSON side made of a stored value.
#[derive(Debug, PartialEq, Eq)]
pub enum Formatted {
    /// The value is not JSON.
    NotJson,
    /// The value is JSON, but laying it out failed with this message.
    Failed(String),
    /// The value is JSON, and this is its indented text.
    Pretty(String),
}

/// A stored value made ready to be shown.
#[derive(Debug, PartialEq, Eq)]
pub struct Rendered {
    /// The text to show.
    pub text: String,
    /// The message of a failure to lay the value out as JSON, where the
    /// text is the value as it was stored instead.
    pub warning: Option<String>,
}

/// Why a stored value cannot be shown.
#[derive(Debug, PartialEq, Eq)]
pub enum RenderError {
    /// The value is neither JSON nor UTF-8 text.
    NotUtf8,
    /// The value could not be laid out as JSON, for the reason given, and
    /// is not UTF-8 text either.
    NotUtf8OrJson(String),
}

/// Whether `r` is the right answer for a stored `value` of which the JSON
/// side made `formatted`: the indented text where there is one, else the
/// value itself read as UTF-8 text, with the failure to lay it out as a
/// warning where there was one; an error where the value is no text.
pub open spec fn is_rendering(
    value: Seq<u8>,
    formatted: Formatted,
    r: Result<Rendered, RenderError>,
) -> bool {
    match formatted {
        Formatted::Pretty(text) => r matches Ok(shown) && shown.text == text
            && shown.warning is None,
        Formatted::NotJson => if valid_utf8(value) {
            r matches Ok(shown) && shown.text@ == decode_utf8(value) && shown.warning is None
        } else {
            r matches Err(RenderError::NotUtf8)
        },
        Formatted::Failed(why) => if valid_utf8(value) {
            r matches Ok(shown) && shown.text@ == decode_utf8(value) && shown.warning == Some(
                why,
            )
        } else {
            r matches Err(RenderError::NotUtf8OrJson(w)) && w == why
        },
    }
}

/// Decides what to show for a stored value, given what the JSON side made
/// of it.
pub fn render_formatted(value: &[u8], formatted: Formatted) -> (r: Result<Rendered, RenderError>)
    ensures
        is_rendering(value@, formatted, r),
{
    broadcast use vstd::utf8::encode_utf8_decode_utf8;

    match formatted {
        Formatted::Pretty(text) => Ok(Rendered { text, warning: None }),
        Formatted::NotJson => match text_of(slice_to_vec(value)) {
            Some(text) => Ok(Rendered { text, warning: None }),
            None => Err(RenderError::NotUtf8),
        },
        Formatted::Failed(why) => match text_of(slice_to_vec(value)) {
            Some(text) => Ok(Rendered { text, warning: Some(why) }),
            None => Err(RenderError::NotUtf8OrJson(why)),
        },
    }
}

/// Asks the JSON side what it makes of a stored value.
pub fn format_json(value: &[u8]) -> (formatted: Formatted)
    ensures
        formatted is NotJson <==> !json_bytes_accepted(value@),
{
    match parse_bytes(value) {
        None => Formatted::NotJson,
        Some(json) => match pretty_text(&json) {
            Ok(text) => Formatted::Pretty(text),
            Err(why) => Formatted::Failed(why),
        },
    }
}

/// Makes a stored value ready to be shown: as indented JSON where it is
/// JSON, else as the UTF-8 text that it is.
///
/// A value that is not JSON is shown exactly where it is UTF-8 text, and
/// then as that text. Of a value that is JSON the contract leaves the
/// indented text open: it is whatever `format_json` returned.
pub fn render(value: &[u8]) -> (r: Result<Rendered, RenderError>)
    ensures
        !json_bytes_accepted(value@) ==> is_rendering(value@, Formatted::NotJson, r),
        json_bytes_accepted(value@) ==> exists|formatted: Formatted|
            formatted !is NotJson && #[trigger] is_rendering(value@, formatted, r),
{
    let formatted = format_json(value);
    render_formatted(value, formatted)
}

} // verus!
