//! Packets: the self-describing values of the wire format.
//!
//! A packet is undefined, a string, one of two kinds of byte buffer, an array
//! of packets, JSON text, or a 32-bit integer. Arrays nest to any depth.

use vstd::prelude::*;
use vstd::slice::slice_to_vec;
use vstd::utf8::encode_utf8;
use crate::encode::write_all;
use crate::error::CodecError;
use crate::json::{
    json_byte_array, json_i32_value, json_integer, json_outcome, json_string_text, parse_json_i32,
    write_json_bytes, write_json_i32, write_json_string,
};

verus! {

pub const DELIM_UNDEFINED: u8 = 0;

pub const DELIM_STRING: u8 = 1;

pub const DELIM_BUFFER: u8 = 2;

pub const DELIM_VSBUFFER: u8 = 3;

pub const DELIM_ARRAY: u8 = 4;

pub const DELIM_OBJECT: u8 = 5;

pub const DELIM_INT: u8 = 6;

pub const MAX_DELIM: u8 = 6;

/// The largest byte length or element count that the wire format carries.
pub const MAX_LENGTH: usize = 0x7fff_ffff;

/// One value of the wire format.
#[derive(Debug, PartialEq, Eq)]
pub enum CodePacket {
    Undefined,
    /// A UTF-8 string.
    String(String),
    /// A buffer of raw binary data.
    Buffer(Vec<u8>),
    /// Raw binary data that the peer holds in its own buffer type. It travels
    /// like `Buffer`, under a tag of its own.
    VSBuffer(Vec<u8>),
    /// Nested packets, in order.
    Array(Vec<CodePacket>),
    /// JSON text, carried as bytes and not looked into.
    Object(Vec<u8>),
    /// A 32-bit integer.
    Int32(i32),
}

/// What a packet stands for: the same tree over mathematical sequences.
pub enum Packet {
    Undefined,
    String(Seq<char>),
    Buffer(Seq<u8>),
    VSBuffer(Seq<u8>),
    Array(Seq<Packet>),
    Object(Seq<u8>),
    Int32(i32),
}

/// What `p` stands for.
pub open spec fn packet_view(p: CodePacket) -> Packet
    decreases p,
{
    match p {
        CodePacket::Undefined => Packet::Undefined,
        CodePacket::String(s) => Packet::String(s@),
        CodePacket::Buffer(b) => Packet::Buffer(b@),
        CodePacket::VSBuffer(b) => Packet::VSBuffer(b@),
        CodePacket::Array(items) => Packet::Array(
            Seq::new(
                items@.len(),
                |i: int|
                    if 0 <= i < items@.len() {
                        packet_view(items@[i])
                    } else {
                        Packet::Undefined
                    },
            ),
        ),
        CodePacket::Object(b) => Packet::Object(b@),
        CodePacket::Int32(v) => Packet::Int32(v),
    }
}

impl View for CodePacket {
    type V = Packet;

    open spec fn view(&self) -> Packet {
        packet_view(*self)
    }
}

/// The views of a sequence of packets.
pub open spec fn views(items: Seq<CodePacket>) -> Seq<Packet> {
    Seq::new(items.len(), |i: int| items[i]@)
}

/// Whether every length and count in `p` fits the wire format.
pub open spec fn fits_wire(p: Packet) -> bool
    decreases p,
{
    match p {
        Packet::Undefined => true,
        Packet::String(s) => encode_utf8(s).len() <= MAX_LENGTH,
        Packet::Buffer(b) => b.len() <= MAX_LENGTH,
        Packet::VSBuffer(b) => b.len() <= MAX_LENGTH,
        Packet::Array(items) => items.len() <= MAX_LENGTH && forall|i: int|
            0 <= i < items.len() ==> fits_wire(#[trigger] items[i]),
        Packet::Object(b) => b.len() <= MAX_LENGTH,
        Packet::Int32(_) => true,
    }
}

/// What an array packet with the items `items` stands for.
pub proof fn lemma_array_view(items: Vec<CodePacket>)
    ensures
        CodePacket::Array(items)@ == Packet::Array(views(items@)),
{
    let inner = CodePacket::Array(items)@->Array_0;
    assert(inner.len() == items@.len());
    assert forall|i: int| 0 <= i < inner.len() implies inner[i] == views(items@)[i] by {
        assert(inner[i] == items@[i]@);
    }
    assert(inner =~= views(items@));
}

/// The text `undefined`, which stands for an undefined packet in the
/// diagnostic projection. It is no JSON.
pub open spec fn undefined_text() -> Seq<u8> {
    seq![117u8, 110u8, 100u8, 101u8, 102u8, 105u8, 110u8, 101u8, 100u8]
}

/// The JSON text `null`.
pub open spec fn null_text() -> Seq<u8> {
    seq![110u8, 117u8, 108u8, 108u8]
}

/// The diagnostic projection of `p` as text: strings and integers as JSON,
/// buffers as JSON arrays of their bytes, arrays as their items' projections
/// between brackets, and the text of an object as it is.
pub open spec fn json_projection(p: Packet) -> Seq<u8>
    decreases p, 0nat,
{
    match p {
        Packet::Undefined => undefined_text(),
        Packet::String(s) => json_string_text(s),
        Packet::Buffer(b) => json_byte_array(b),
        Packet::VSBuffer(b) => json_byte_array(b),
        Packet::Array(items) => seq![91u8] + json_joined(items, items.len()) + seq![93u8],
        Packet::Object(b) => b,
        Packet::Int32(v) => json_integer(v as int),
    }
}

/// The projections of the first `n` of `items`, with commas between them.
pub open spec fn json_joined(items: Seq<Packet>, n: nat) -> Seq<u8>
    decreases items, n,
{
    if n == 0 || n > items.len() {
        Seq::empty()
    } else if n == 1 {
        json_projection(items[0])
    } else {
        json_joined(items, (n - 1) as nat) + seq![44u8] + json_projection(items[n - 1])
    }
}

/// The JSON text from which a typed value of `p` is read: the text of an
/// object, `null` for an undefined packet, and none for any other packet.
pub open spec fn object_text(p: Packet) -> Option<Seq<u8>> {
    match p {
        Packet::Undefined => Some(null_text()),
        Packet::Object(b) => Some(b),
        _ => None,
    }
}

/// The integer that `p` holds: its own value where it is an integer packet,
/// else what its JSON text reads as.
pub open spec fn i32_of(p: Packet) -> Result<i32, CodecError> {
    match p {
        Packet::Int32(v) => Ok(v),
        _ => match object_text(p) {
            None => Err(CodecError::ExpectedObject),
            Some(text) => match json_i32_value(text) {
                Some(v) => Ok(v),
                None => Err(CodecError::InvalidJson),
            },
        },
    }
}

impl CodePacket {
    /// Creates a `CodePacket::Undefined`.
    pub fn undefined() -> (p: Self)
        ensures
            p@ == Packet::Undefined,
    {
        CodePacket::Undefined
    }

    /// Creates a `CodePacket::String`.
    pub fn from_string(str: String) -> (p: Self)
        ensures
            p@ == Packet::String(str@),
    {
        CodePacket::String(str)
    }

    /// Creates a `CodePacket::VSBuffer`.
    pub fn from_vs_buffer(arr: Vec<u8>) -> (p: Self)
        ensures
            p@ == Packet::VSBuffer(arr@),
    {
        CodePacket::VSBuffer(arr)
    }

    /// Creates a `CodePacket::Buffer`.
    pub fn from_buffer(arr: Vec<u8>) -> (p: Self)
        ensures
            p@ == Packet::Buffer(arr@),
    {
        CodePacket::Buffer(arr)
    }

    /// Creates a `CodePacket` from an array of nested packets.
    pub fn from_array(arr: Vec<CodePacket>) -> (p: Self)
        ensures
            p@ == Packet::Array(views(arr@)),
    {
        proof {
            lemma_array_view(arr);
        }
        CodePacket::Array(arr)
    }

    /// Creates an object packet from the outcome of writing a value as JSON:
    /// the packet that carries the text, or the failure as it came.
    pub fn from_object(json: Result<Vec<u8>, serde_json::Error>) -> (r: Result<
        Self,
        serde_json::Error,
    >)
        ensures
            match json {
                Ok(text) => r matches Ok(p) && p@ == Packet::Object(text@),
                Err(e) => r == Err::<Self, serde_json::Error>(e),
            },
    {
        match json {
            Ok(text) => Ok(CodePacket::Object(text)),
            Err(e) => Err(e),
        }
    }

    /// Whether every length and count in the packet fits the wire format.
    pub fn fits(&self) -> (b: bool)
        ensures
            b == fits_wire(self@),
        decreases self,
    {
        match self {
            CodePacket::Undefined => true,
            CodePacket::String(s) => s.as_str().as_bytes().len() <= MAX_LENGTH,
            CodePacket::Buffer(b) => b.len() <= MAX_LENGTH,
            CodePacket::VSBuffer(b) => b.len() <= MAX_LENGTH,
            CodePacket::Object(b) => b.len() <= MAX_LENGTH,
            CodePacket::Int32(_) => true,
            CodePacket::Array(items) => {
                proof {
                    lemma_array_view(*items);
                }
                if items.len() > MAX_LENGTH {
                    return false;
                }
                let mut i: usize = 0;
                while i < items.len()
                    invariant
                        i <= items@.len(),
                        items@.len() <= MAX_LENGTH,
                        self@ == Packet::Array(views(items@)),
                        forall|j: int| 0 <= j < i ==> fits_wire(#[trigger] views(items@)[j]),
                        forall|j: int| 0 <= j < items@.len() ==> decreases_to!(self => items@[j]),
                    decreases items@.len() - i,
                {
                    if !items[i].fits() {
                        assert(!fits_wire(views(items@)[i as int]));
                        return false;
                    }
                    i = i + 1;
                }
                true
            },
        }
    }

    /// The diagnostic projection of the packet as text. It is for reading by
    /// people and never travels on the wire.
    pub fn to_json(&self) -> (text: Vec<u8>)
        ensures
            text@ == json_projection(self@),
        decreases self,
    {
        match self {
            CodePacket::Undefined => {
                let mut buf: Vec<u8> = Vec::new();
                buf.push(117);
                buf.push(110);
                buf.push(100);
                buf.push(101);
                buf.push(102);
                buf.push(105);
                buf.push(110);
                buf.push(101);
                buf.push(100);
                assert(buf@ =~= undefined_text());
                buf
            },
            CodePacket::String(s) => write_json_string(s.as_str()),
            CodePacket::Buffer(b) => write_json_bytes(b.as_slice()),
            CodePacket::VSBuffer(b) => write_json_bytes(b.as_slice()),
            CodePacket::Array(items) => {
                proof {
                    lemma_array_view(*items);
                }
                let ghost all = views(items@);
                let mut buf: Vec<u8> = Vec::new();
                buf.push(91);
                assert(buf@ =~= seq![91u8] + json_joined(all, 0));
                let mut i: usize = 0;
                while i < items.len()
                    invariant
                        i <= items@.len(),
                        all == views(items@),
                        buf@ == seq![91u8] + json_joined(all, i as nat),
                        forall|j: int| 0 <= j < items@.len() ==> decreases_to!(self => items@[j]),
                    decreases items@.len() - i,
                {
                    if i > 0 {
                        buf.push(44);
                    }
                    let part = items[i].to_json();
                    write_all(&mut buf, part.as_slice());
                    i = i + 1;
                    assert(buf@ =~= seq![91u8] + json_joined(all, i as nat));
                }
                buf.push(93);
                buf
            },
            CodePacket::Object(b) => slice_to_vec(b.as_slice()),
            CodePacket::Int32(v) => write_json_i32(*v),
        }
    }

    /// The JSON text from which a typed value of the packet is read: the text
    /// of an object, `null` for an undefined packet. Any other packet holds no
    /// typed value.
    pub fn to_object(&self) -> (r: Result<Vec<u8>, CodecError>)
        ensures
            match object_text(self@) {
                Some(text) => r matches Ok(v) && v@ == text,
                None => r == Err::<Vec<u8>, CodecError>(CodecError::ExpectedObject),
            },
    {
        match self {
            CodePacket::Undefined => {
                let mut buf: Vec<u8> = Vec::new();
                buf.push(110);
                buf.push(117);
                buf.push(108);
                buf.push(108);
                assert(buf@ =~= null_text());
                Ok(buf)
            },
            CodePacket::Object(b) => Ok(slice_to_vec(b.as_slice())),
            _ => Err(CodecError::ExpectedObject),
        }
    }

    /// The integer that the packet holds, whether it came as an integer
    /// packet or as a JSON number in an object packet.
    pub fn to_i32(&self) -> (r: Result<i32, CodecError>)
        ensures
            r == i32_of(self@),
    {
        if let CodePacket::Int32(v) = self {
            return Ok(*v);
        }
        match self.to_object() {
            Ok(text) => json_outcome(parse_json_i32(text.as_slice())),
            Err(e) => Err(e),
        }
    }
}

} // verus!
