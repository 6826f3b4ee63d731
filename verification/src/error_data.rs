//! The error of a failed call as a JSON object.
//!
//! The object has the fields `message` and `name`, which are strings, and
//! `stack`, which is `null` or a list of strings and may be missing. The
//! object is taken apart into its fields and the fields are read one by one,
//! so what counts as a string or a list is what `serde_json` takes for one.

use vstd::prelude::*;
use crate::error::CodecError;
use crate::json::{
    field_views, json_object_fields, json_outcome, json_string_list_value, json_string_text,
    json_string_value, parse_json_fields, parse_json_string, parse_json_string_list,
    string_views, write_json_string, JsonField,
};
use crate::packets::null_text;
use crate::requests::{ErrorDataView, PromiseErrorData};

verus! {

/// The JSON text of the value of the first field named `name`.
pub open spec fn field_text(fields: Seq<(Seq<char>, Seq<u8>)>, name: Seq<char>) -> Option<Seq<u8>>
    decreases fields.len(),
{
    if fields.len() == 0 {
        None
    } else if fields[0].0 == name {
        Some(fields[0].1)
    } else {
        field_text(fields.skip(1), name)
    }
}

/// A required string field: `None` where it is missing or no string.
pub open spec fn string_field(fields: Seq<(Seq<char>, Seq<u8>)>, name: Seq<char>) -> Option<
    Seq<char>,
> {
    match field_text(fields, name) {
        Some(text) => json_string_value(text),
        None => None,
    }
}

/// An optional field that holds a list of strings: `Some(None)` where it is
/// missing or `null`, `None` where it holds anything else.
pub open spec fn string_list_field(fields: Seq<(Seq<char>, Seq<u8>)>, name: Seq<char>) -> Option<
    Option<Seq<Seq<char>>>,
> {
    match field_text(fields, name) {
        Some(text) => json_string_list_value(text),
        None => Some(None),
    }
}

/// The error that the JSON object `text` describes: its fields `message` and
/// `name` are strings, its field `stack`, where it has one that is not
/// `null`, a list of strings. Other fields do not count. `None` where `text`
/// is no such object.
pub open spec fn error_data_of(text: Seq<u8>) -> Option<ErrorDataView> {
    match json_object_fields(text) {
        None => None,
        Some(fields) => match (
            string_field(fields, "message"@),
            string_field(fields, "name"@),
            string_list_field(fields, "stack"@),
        ) {
            (Some(message), Some(name), Some(stack)) => Some(
                ErrorDataView { message, name, stack },
            ),
            _ => None,
        },
    }
}

/// The JSON strings for the first `n` of `strings`, with commas between them.
pub open spec fn json_strings(strings: Seq<Seq<char>>, n: nat) -> Seq<u8>
    decreases n,
{
    if n == 0 {
        Seq::empty()
    } else if n == 1 {
        json_string_text(strings[0])
    } else {
        json_strings(strings, (n - 1) as nat) + seq![44u8] + json_string_text(strings[n - 1])
    }
}

/// The JSON text of a stack: `null`, or the array of its lines.
pub open spec fn stack_text(stack: Option<Seq<Seq<char>>>) -> Seq<u8> {
    match stack {
        None => null_text(),
        Some(lines) => seq![91u8] + json_strings(lines, lines.len()) + seq![93u8],
    }
}

/// The JSON object that describes the error `data`: its fields `message`,
/// `name` and `stack`, in this order and without any space.
pub open spec fn error_data_text(data: ErrorDataView) -> Seq<u8> {
    seq![123u8] + json_string_text("message"@) + seq![58u8] + json_string_text(data.message)
        + seq![44u8] + json_string_text("name"@) + seq![58u8] + json_string_text(data.name)
        + seq![44u8] + json_string_text("stack"@) + seq![58u8] + stack_text(data.stack)
        + seq![125u8]
}

/// Finds the first field named `name`.
pub fn find_field<'a>(fields: &'a Vec<JsonField>, name: &String) -> (r: Option<&'a JsonField>)
    ensures
        match r {
            Some(field) => field.name@ == name@ && field_text(field_views(fields@), name@) == Some(
                field.text@,
            ),
            None => field_text(field_views(fields@), name@) is None,
        },
{
    let ghost all = field_views(fields@);
    let mut i: usize = 0;
    assert(all.skip(0) =~= all);
    while i < fields.len()
        invariant
            i <= fields@.len(),
            all == field_views(fields@),
            field_text(all, name@) == field_text(all.skip(i as int), name@),
        decreases fields@.len() - i,
    {
        assert(all.skip(i as int)[0] == fields@[i as int]@);
        if fields[i].name == *name {
            return Some(&fields[i]);
        }
        assert(all.skip(i as int).skip(1) =~= all.skip(i + 1));
        i = i + 1;
    }
    None
}

impl PromiseErrorData {
    /// Puts an error together from what reading its three fields gave. Each
    /// argument is `None` where the object has no such field. `message` and
    /// `name` are required; a missing `stack` is no stack.
    pub fn from_parts(
        message: Option<Result<String, CodecError>>,
        name: Option<Result<String, CodecError>>,
        stack: Option<Result<Option<Vec<String>>, CodecError>>,
    ) -> (r: Result<PromiseErrorData, CodecError>)
        ensures
            match (message, name, stack) {
                (Some(Ok(m)), Some(Ok(n)), Some(Ok(s))) => r == Ok::<PromiseErrorData, CodecError>(
                    PromiseErrorData { message: m, name: n, stack: s },
                ),
                (Some(Ok(m)), Some(Ok(n)), None) => r == Ok::<PromiseErrorData, CodecError>(
                    PromiseErrorData { message: m, name: n, stack: None },
                ),
                _ => r == Err::<PromiseErrorData, CodecError>(CodecError::InvalidJson),
            },
    {
        let message = match message {
            Some(Ok(m)) => m,
            _ => {
                return Err(CodecError::InvalidJson);
            },
        };
        let name = match name {
            Some(Ok(n)) => n,
            _ => {
                return Err(CodecError::InvalidJson);
            },
        };
        let stack = match stack {
            Some(Ok(s)) => s,
            None => None,
            Some(Err(_)) => {
                return Err(CodecError::InvalidJson);
            },
        };
        Ok(PromiseErrorData { message, name, stack })
    }

    /// Reads an error from the JSON object `text`.
    pub fn from_json(text: &[u8]) -> (r: Result<PromiseErrorData, CodecError>)
        ensures
            match error_data_of(text@) {
                Some(data) => r matches Ok(v) && v@ == data,
                None => r == Err::<PromiseErrorData, CodecError>(CodecError::InvalidJson),
            },
    {
        let fields = match json_outcome(parse_json_fields(text)) {
            Ok(fields) => fields,
            Err(e) => {
                return Err(e);
            },
        };
        let message = match find_field(&fields, &"message".to_owned()) {
            Some(field) => Some(json_outcome(parse_json_string(field.text.as_slice()))),
            None => None,
        };
        let name = match find_field(&fields, &"name".to_owned()) {
            Some(field) => Some(json_outcome(parse_json_string(field.text.as_slice()))),
            None => None,
        };
        let stack = match find_field(&fields, &"stack".to_owned()) {
            Some(field) => Some(json_outcome(parse_json_string_list(field.text.as_slice()))),
            None => None,
        };
        PromiseErrorData::from_parts(message, name, stack)
    }

    /// Writes the error as a JSON object.
    pub fn to_json(&self) -> (text: Vec<u8>)
        ensures
            text@ == error_data_text(self@),
    {
        let mut buf: Vec<u8> = Vec::new();
        buf.push(123);
        append(&mut buf, write_json_string("message"));
        buf.push(58);
        append(&mut buf, write_json_string(self.message.as_str()));
        buf.push(44);
        append(&mut buf, write_json_string("name"));
        buf.push(58);
        append(&mut buf, write_json_string(self.name.as_str()));
        buf.push(44);
        append(&mut buf, write_json_string("stack"));
        buf.push(58);
        let ghost head = buf@;
        match &self.stack {
            None => {
                buf.push(110);
                buf.push(117);
                buf.push(108);
                buf.push(108);
                assert(buf@ =~= head + stack_text(self@.stack));
            },
            Some(lines) => {
                let ghost all = string_views(lines@);
                buf.push(91);
                let mut i: usize = 0;
                while i < lines.len()
                    invariant
                        i <= lines@.len(),
                        all == string_views(lines@),
                        buf@ == head + seq![91u8] + json_strings(all, i as nat),
                    decreases lines@.len() - i,
                {
                    if i > 0 {
                        buf.push(44);
                    }
                    append(&mut buf, write_json_string(lines[i].as_str()));
                    i = i + 1;
                    assert(buf@ =~= head + seq![91u8] + json_strings(all, i as nat));
                }
                buf.push(93);
                assert(buf@ =~= head + stack_text(self@.stack));
            },
        }
        buf.push(125);
        assert(buf@ =~= error_data_text(self@));
        buf
    }
}

/// Appends `bytes` to `buf`.
fn append(buf: &mut Vec<u8>, bytes: Vec<u8>)
    ensures
        final(buf)@ == old(buf)@ + bytes@,
{
    let mut bytes = bytes;
    buf.append(&mut bytes);
}

} // verus!
