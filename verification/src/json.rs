//! JSON text, as far as packets and messages need it.
//!
//! Numbers and lists of numbers are written as JSON says. Strings are written
//! and every text is parsed by `serde_json`; what it gives for a string or a
//! text has a name here, and is a function of that string or text alone.

use vstd::prelude::*;
use crate::error::CodecError;

verus! {

/// The decimal digits of `n` in ASCII, without leading zeros.
pub open spec fn decimal_digits(n: nat) -> Seq<u8>
    decreases n,
{
    if n < 10 {
        seq![(48 + n) as u8]
    } else {
        decimal_digits(n / 10).push((48 + n % 10) as u8)
    }
}

/// The JSON number for the integer `v`: its decimal digits, after a minus
/// sign where it is negative.
pub open spec fn json_integer(v: int) -> Seq<u8> {
    if v < 0 {
        seq![45u8] + decimal_digits((-v) as nat)
    } else {
        decimal_digits(v as nat)
    }
}

/// The JSON numbers for the first `n` of `bytes`, with commas between them.
pub open spec fn json_numbers(bytes: Seq<u8>, n: nat) -> Seq<u8>
    decreases n,
{
    if n == 0 {
        Seq::empty()
    } else if n == 1 {
        json_integer(bytes[0] as int)
    } else {
        json_numbers(bytes, (n - 1) as nat) + seq![44u8] + json_integer(bytes[n - 1] as int)
    }
}

/// The JSON array of the numbers `bytes`, without any space.
pub open spec fn json_byte_array(bytes: Seq<u8>) -> Seq<u8> {
    seq![91u8] + json_numbers(bytes, bytes.len()) + seq![93u8]
}

/// The JSON string literal that `serde_json` writes for `s`: `s` between
/// double quotes, with the characters escaped that JSON asks to escape.
pub uninterp spec fn json_string_text(s: Seq<char>) -> Seq<u8>;

/// The integer that `serde_json` reads from the JSON text `text` when asked
/// for an `i32`, or `None` where it refuses the text.
pub uninterp spec fn json_i32_value(text: Seq<u8>) -> Option<i32>;

/// The string that `serde_json` reads from the JSON text `text` when asked
/// for a `String`, or `None` where it refuses the text.
pub uninterp spec fn json_string_value(text: Seq<u8>) -> Option<Seq<char>>;

/// What `serde_json` reads from the JSON text `text` when asked for an
/// optional list of strings: the outer `None` where it refuses the text, the
/// inner `None` for `null`.
pub uninterp spec fn json_string_list_value(text: Seq<u8>) -> Option<Option<Seq<Seq<char>>>>;

/// The fields of the JSON object `text` as `serde_json` reads them into a map
/// ordered by name: each name once, with the JSON text of its value. `None`
/// where it refuses the text.
pub uninterp spec fn json_object_fields(text: Seq<u8>) -> Option<Seq<(Seq<char>, Seq<u8>)>>;

/// One field of a JSON object: its name and the JSON text of its value.
#[derive(Debug, PartialEq, Eq)]
pub struct JsonField {
    pub name: String,
    pub text: Vec<u8>,
}

impl View for JsonField {
    type V = (Seq<char>, Seq<u8>);

    open spec fn view(&self) -> (Seq<char>, Seq<u8>) {
        (self.name@, self.text@)
    }
}

/// The views of a list of fields.
pub open spec fn field_views(fields: Seq<JsonField>) -> Seq<(Seq<char>, Seq<u8>)> {
    Seq::new(fields.len(), |i: int| fields[i]@)
}

/// The views of a list of strings.
pub open spec fn string_views(strings: Seq<String>) -> Seq<Seq<char>> {
    Seq::new(strings.len(), |i: int| strings[i]@)
}

/// The view of an optional list of strings.
pub open spec fn string_list_view(list: Option<Vec<String>>) -> Option<Seq<Seq<char>>> {
    match list {
        Some(strings) => Some(string_views(strings@)),
        None => None,
    }
}

/// `serde_json::Error`: why `serde_json` refused a value or a text. It is
/// carried as it comes and never looked into.
#[verifier::external_type_specification]
#[verifier::external_body]
pub struct ExJsonError(serde_json::Error);

/// `serde_json::to_vec` on a string, which it writes in full whatever the
/// string holds: the result is the JSON string literal for `s`.
#[verifier::external_body]
pub(crate) fn write_json_string(s: &str) -> (text: Vec<u8>)
    ensures
        text@ == json_string_text(s@),
{
    serde_json::to_vec(s).unwrap_or_default()
}

/// `serde_json::to_vec` on an `i32`: the decimal digits of `v`, after a minus
/// sign where `v` is negative.
#[verifier::external_body]
pub(crate) fn write_json_i32(v: i32) -> (text: Vec<u8>)
    ensures
        text@ == json_integer(v as int),
{
    serde_json::to_vec(&v).unwrap_or_default()
}

/// `serde_json::to_vec` on a list of bytes: their decimal numbers between
/// square brackets, with commas and no space.
#[verifier::external_body]
pub(crate) fn write_json_bytes(bytes: &[u8]) -> (text: Vec<u8>)
    ensures
        text@ == json_byte_array(bytes@),
{
    serde_json::to_vec(bytes).unwrap_or_default()
}

/// `serde_json::from_slice` for an `i32`.
#[verifier::external_body]
pub(crate) fn parse_json_i32(text: &[u8]) -> (r: Result<i32, serde_json::Error>)
    ensures
        match r {
            Ok(v) => json_i32_value(text@) == Some(v),
            Err(_) => json_i32_value(text@) is None,
        },
{
    serde_json::from_slice::<i32>(text)
}

/// `serde_json::from_slice` for a `String`.
#[verifier::external_body]
pub(crate) fn parse_json_string(text: &[u8]) -> (r: Result<String, serde_json::Error>)
    ensures
        match r {
            Ok(s) => json_string_value(text@) == Some(s@),
            Err(_) => json_string_value(text@) is None,
        },
{
    serde_json::from_slice::<String>(text)
}

/// `serde_json::from_slice` for an optional list of strings.
#[verifier::external_body]
pub(crate) fn parse_json_string_list(text: &[u8]) -> (r: Result<
    Option<Vec<String>>,
    serde_json::Error,
>)
    ensures
        match r {
            Ok(list) => json_string_list_value(text@) == Some(string_list_view(list)),
            Err(_) => json_string_list_value(text@) is None,
        },
{
    serde_json::from_slice::<Option<Vec<String>>>(text)
}

/// `serde_json::from_slice` for a map from names to raw values, handed out
/// as a list in the map's order.
#[verifier::external_body]
pub(crate) fn parse_json_fields(text: &[u8]) -> (r: Result<Vec<JsonField>, serde_json::Error>)
    ensures
        match r {
            Ok(fields) => json_object_fields(text@) == Some(field_views(fields@)),
            Err(_) => json_object_fields(text@) is None,
        },
{
    let map = serde_json::from_slice::<
        std::collections::BTreeMap<String, Box<serde_json::value::RawValue>>,
    >(text)?;
    Ok(map.into_iter().map(|(name, raw)| JsonField { name, text: raw.get().as_bytes().to_vec() }).collect())
}

/// What a typed read of JSON text comes to: the value, or the protocol error
/// for text that did not parse.
pub fn json_outcome<T>(parsed: Result<T, serde_json::Error>) -> (r: Result<T, CodecError>)
    ensures
        match parsed {
            Ok(v) => r == Ok::<T, CodecError>(v),
            Err(_) => r == Err::<T, CodecError>(CodecError::InvalidJson),
        },
{
    match parsed {
        Ok(v) => Ok(v),
        Err(_) => Err(CodecError::InvalidJson),
    }
}

} // verus!
