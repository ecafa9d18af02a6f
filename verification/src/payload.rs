//! Message payloads: raw bytes are classified exactly once, at
//! ingestion, into text, a structured JSON document, or an explicit
//! undecodable marker; the classification is never re-evaluated.

use crate::text::{has_digit_run, str_has_digit_run};
use vstd::prelude::*;
use vstd::utf8::{decode_utf8, valid_utf8};

verus! {

/// The shortest digit run kept away from the JSON parser. Its number
/// path decrements a 16-bit decimal exponent once per fraction digit
/// without a check, so a fraction of this many digits (with a small
/// enough mantissa, as leading zeroes give) drives the exponent below
/// its range; every other arithmetic on that exponent in the parser
/// is checked or saturating. Texts holding such a run are never
/// handed to the parser.
pub const DIGIT_RUN_LIMIT: usize = 32768;

#[verifier::external_type_specification]
#[verifier::external_body]
pub struct ExJsonValue(json::JsonValue);

/// Whether the `json` crate parses this text as a JSON document.
/// Parsing is a function of the text alone.
pub uninterp spec fn is_json(s: Seq<char>) -> bool;

/// Relies on String::from_utf8: returns `Ok` exactly when the bytes
/// are valid UTF-8, and then the decoding of those bytes; the `Err`
/// case carries a description of the decode failure.
#[verifier::external_body]
fn decode_payload(bytes: Vec<u8>) -> (r: Result<String, String>)
    ensures
        r is Ok <==> valid_utf8(bytes@),
        r matches Ok(s) ==> s@ == decode_utf8(bytes@),
{
    String::from_utf8(bytes).map_err(|e| e.to_string())
}

/// Relies on json::parse: returns `Some` exactly when the text is a
/// valid JSON document. The precondition keeps out the one input
/// family on which the parser's unchecked 16-bit exponent arithmetic
/// can overflow (see `DIGIT_RUN_LIMIT`): a decimal fraction is one
/// contiguous digit run, so a text without such a run keeps the
/// exponent within range.
#[verifier::external_body]
fn parse_json(text: &str) -> (r: Option<json::JsonValue>)
    requires
        !has_digit_run(text@, DIGIT_RUN_LIMIT as int),
    ensures
        r is Some <==> is_json(text@),
{
    json::parse(text).ok()
}

/// Relies on JsonValue::dump: serializes a parsed document back to
/// one-line JSON text.
#[verifier::external_body]
pub(crate) fn dump_json(value: &json::JsonValue) -> String {
    value.dump()
}

/// What one received message carried, decided once at ingestion.
pub enum Payload {
    /// The bytes decode as UTF-8 but are not a JSON document.
    Text(String),
    /// The bytes decode as UTF-8 and parse as JSON.
    Json(json::JsonValue),
    /// The bytes are not valid UTF-8; carries the decode error text.
    NotUtf8(String),
}

impl Payload {
    /// Classify raw payload bytes. Never fails: undecodable bytes
    /// become the `NotUtf8` variant rather than an error, and a text
    /// holding a digit run the parser cannot survive (see
    /// `DIGIT_RUN_LIMIT`) is kept as plain text instead of parsed.
    pub fn classify(bytes: Vec<u8>) -> (r: Payload)
        ensures
            r is NotUtf8 <==> !valid_utf8(bytes@),
            r is Json <==> valid_utf8(bytes@) && !has_digit_run(
                decode_utf8(bytes@),
                DIGIT_RUN_LIMIT as int,
            ) && is_json(decode_utf8(bytes@)),
            r is Text <==> valid_utf8(bytes@) && (has_digit_run(
                decode_utf8(bytes@),
                DIGIT_RUN_LIMIT as int,
            ) || !is_json(decode_utf8(bytes@))),
            r matches Payload::Text(t) ==> t@ == decode_utf8(bytes@),
    {
        match decode_payload(bytes) {
            Err(e) => Payload::NotUtf8(e),
            Ok(text) => {
                if str_has_digit_run(text.as_str(), DIGIT_RUN_LIMIT) {
                    Payload::Text(text)
                } else {
                    match parse_json(text.as_str()) {
                        Some(v) => Payload::Json(v),
                        None => Payload::Text(text),
                    }
                }
            },
        }
    }

    /// The structured document, when this payload is JSON.
    pub fn as_optional_json(&self) -> (r: Option<&json::JsonValue>)
        ensures
            r is Some <==> self is Json,
    {
        match self {
            Payload::Json(v) => Some(v),
            _ => None,
        }
    }
}

/// Immutable record of one received message.
pub struct HistoryEntry {
    /// Arrival time, in milliseconds since the Unix epoch.
    pub timestamp_millis: i64,
    /// The classified payload.
    pub payload: Payload,
}

impl HistoryEntry {
    /// Build the record of one message from its raw bytes and its
    /// arrival time.
    pub fn new(bytes: Vec<u8>, timestamp_millis: i64) -> (r: HistoryEntry)
        ensures
            r.timestamp_millis == timestamp_millis,
            r.payload is NotUtf8 <==> !valid_utf8(bytes@),
            r.payload is Json <==> valid_utf8(bytes@) && !has_digit_run(
                decode_utf8(bytes@),
                DIGIT_RUN_LIMIT as int,
            ) && is_json(decode_utf8(bytes@)),
            r.payload matches Payload::Text(t) ==> t@ == decode_utf8(bytes@),
    {
        HistoryEntry { timestamp_millis, payload: Payload::classify(bytes) }
    }
}

} // verus!
