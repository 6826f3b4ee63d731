//! Messages: the requests, responses and events that travel as packets.
//!
//! A message is a header, which is an array packet that begins with the
//! message type, and for some types a body, which is one more packet right
//! behind the header.

use vstd::prelude::*;
use crate::error::CodecError;
use crate::error_data::{error_data_of, error_data_text};
use crate::json::string_list_view;
use crate::packets::{fits_wire, lemma_array_view, object_text, views, CodePacket, Packet};
use crate::wire::{
    decode_packet, lemma_decode_bounds, lemma_packet_round_trip, lemma_packet_stable,
    lemma_packet_truncated, packet_bytes,
};

verus! {

pub const REQUEST_PROMISE: i32 = 100;

pub const REQUEST_PROMISE_CANCEL: i32 = 101;

pub const REQUEST_EVENT_LISTEN: i32 = 102;

pub const REQUEST_EVENT_DISPOSE: i32 = 103;

pub const RESPONSE_INITIALIZE: i32 = 200;

pub const RESPONSE_PROMISE_SUCCESS: i32 = 201;

pub const RESPONSE_PROMISE_ERROR: i32 = 202;

pub const RESPONSE_PROMISE_ERROR_OBJ: i32 = 203;

pub const RESPONSE_EVENT_FIRE: i32 = 204;

/// The error that a failed call reports.
#[derive(Debug, PartialEq, Eq)]
pub struct PromiseErrorData {
    pub message: String,
    pub name: String,
    pub stack: Option<Vec<String>>,
}

/// What a `PromiseErrorData` stands for.
pub struct ErrorDataView {
    pub message: Seq<char>,
    pub name: Seq<char>,
    pub stack: Option<Seq<Seq<char>>>,
}

impl View for PromiseErrorData {
    type V = ErrorDataView;

    open spec fn view(&self) -> ErrorDataView {
        ErrorDataView {
            message: self.message@,
            name: self.name@,
            stack: string_list_view(self.stack),
        }
    }
}

/// One message of the protocol.
#[allow(inconsistent_fields)]
#[derive(Debug, PartialEq, Eq)]
pub enum Message {
    RequestPromise { id: i32, channel_name: String, name: String, arg: CodePacket },
    RequestPromiseCancel { id: i32 },
    RequestEventListen { id: i32, channel_name: String, name: String, arg: CodePacket },
    RequestEventDispose { id: i32 },
    ResponseInitialize,
    ResponsePromiseSuccess { id: i32 },
    ResponsePromiseError { id: i32, data: PromiseErrorData },
    ResponsePromiseErrorObject { id: i32, data: CodePacket },
    ResponseEventFired { id: i32, data: CodePacket },
}

/// What a `Message` stands for.
#[allow(inconsistent_fields)]
pub enum MessageView {
    RequestPromise { id: i32, channel_name: Seq<char>, name: Seq<char>, arg: Packet },
    RequestPromiseCancel { id: i32 },
    RequestEventListen { id: i32, channel_name: Seq<char>, name: Seq<char>, arg: Packet },
    RequestEventDispose { id: i32 },
    ResponseInitialize,
    ResponsePromiseSuccess { id: i32 },
    ResponsePromiseError { id: i32, data: ErrorDataView },
    ResponsePromiseErrorObject { id: i32, data: Packet },
    ResponseEventFired { id: i32, data: Packet },
}

impl View for Message {
    type V = MessageView;

    open spec fn view(&self) -> MessageView {
        match self {
            Message::RequestPromise { id, channel_name, name, arg } => MessageView::RequestPromise {
                id: *id,
                channel_name: channel_name@,
                name: name@,
                arg: arg@,
            },
            Message::RequestPromiseCancel { id } => MessageView::RequestPromiseCancel { id: *id },
            Message::RequestEventListen {
                id,
                channel_name,
                name,
                arg,
            } => MessageView::RequestEventListen {
                id: *id,
                channel_name: channel_name@,
                name: name@,
                arg: arg@,
            },
            Message::RequestEventDispose { id } => MessageView::RequestEventDispose { id: *id },
            Message::ResponseInitialize => MessageView::ResponseInitialize,
            Message::ResponsePromiseSuccess { id } => MessageView::ResponsePromiseSuccess {
                id: *id,
            },
            Message::ResponsePromiseError { id, data } => MessageView::ResponsePromiseError {
                id: *id,
                data: data@,
            },
            Message::ResponsePromiseErrorObject {
                id,
                data,
            } => MessageView::ResponsePromiseErrorObject { id: *id, data: data@ },
            Message::ResponseEventFired { id, data } => MessageView::ResponseEventFired {
                id: *id,
                data: data@,
            },
        }
    }
}

/// What a header leaves to be read: the body of a message of one of the
/// types that have one, with what the header held.
#[allow(inconsistent_fields)]
#[derive(Debug, PartialEq, Eq)]
pub enum PendingMessage {
    RequestPromise { id: i32, channel_name: String, name: String },
    RequestEventListen { id: i32, channel_name: String, name: String },
    ResponsePromiseError { id: i32 },
    ResponsePromiseErrorObject { id: i32 },
    ResponseEventFired { id: i32 },
}

/// What a `PendingMessage` stands for.
#[allow(inconsistent_fields)]
pub enum PendingView {
    RequestPromise { id: i32, channel_name: Seq<char>, name: Seq<char> },
    RequestEventListen { id: i32, channel_name: Seq<char>, name: Seq<char> },
    ResponsePromiseError { id: i32 },
    ResponsePromiseErrorObject { id: i32 },
    ResponseEventFired { id: i32 },
}

impl View for PendingMessage {
    type V = PendingView;

    open spec fn view(&self) -> PendingView {
        match self {
            PendingMessage::RequestPromise {
                id,
                channel_name,
                name,
            } => PendingView::RequestPromise { id: *id, channel_name: channel_name@, name: name@ },
            PendingMessage::RequestEventListen {
                id,
                channel_name,
                name,
            } => PendingView::RequestEventListen {
                id: *id,
                channel_name: channel_name@,
                name: name@,
            },
            PendingMessage::ResponsePromiseError { id } => PendingView::ResponsePromiseError {
                id: *id,
            },
            PendingMessage::ResponsePromiseErrorObject {
                id,
            } => PendingView::ResponsePromiseErrorObject { id: *id },
            PendingMessage::ResponseEventFired { id } => PendingView::ResponseEventFired {
                id: *id,
            },
        }
    }
}

/// What a header amounts to: a whole message, or a message that waits for
/// its body.
#[derive(Debug, PartialEq, Eq)]
pub enum Head {
    Whole(Message),
    Body(PendingMessage),
}

/// What a `Head` stands for.
pub enum HeadView {
    Whole(MessageView),
    Body(PendingView),
}

impl View for Head {
    type V = HeadView;

    open spec fn view(&self) -> HeadView {
        match self {
            Head::Whole(m) => HeadView::Whole(m@),
            Head::Body(p) => HeadView::Body(p@),
        }
    }
}

/// The message type at the front of a header.
pub open spec fn header_type(parts: Seq<Packet>) -> Result<i32, CodecError> {
    if parts.len() > 0 && parts[0] is Int32 {
        Ok(parts[0]->Int32_0)
    } else {
        Err(CodecError::ExpectedPacketType)
    }
}

/// The request id at position 1 of a header.
pub open spec fn header_id(parts: Seq<Packet>) -> Result<i32, CodecError> {
    if parts.len() > 1 && parts[1] is Int32 {
        Ok(parts[1]->Int32_0)
    } else {
        Err(CodecError::ExpectedRequestId)
    }
}

/// The channel name at position 2 of a header.
pub open spec fn header_channel(parts: Seq<Packet>) -> Result<Seq<char>, CodecError> {
    if parts.len() > 2 && parts[2] is String {
        Ok(parts[2]->String_0)
    } else {
        Err(CodecError::ExpectedChannelName)
    }
}

/// The request name at position 3 of a header.
pub open spec fn header_name(parts: Seq<Packet>) -> Result<Seq<char>, CodecError> {
    if parts.len() > 3 && parts[3] is String {
        Ok(parts[3]->String_0)
    } else {
        Err(CodecError::ExpectedRequestName)
    }
}

/// Whether `typ` is one of the nine message types.
pub open spec fn known_type(typ: i32) -> bool {
    REQUEST_PROMISE <= typ <= REQUEST_EVENT_DISPOSE || RESPONSE_INITIALIZE <= typ
        <= RESPONSE_EVENT_FIRE
}

/// What the header `parts` of a message of type `typ` amounts to. The fields
/// are looked at in the order of their positions, and the first that is
/// missing or of another kind is the failure.
pub open spec fn head_of_type(typ: i32, parts: Seq<Packet>) -> Result<HeadView, CodecError> {
    if typ == RESPONSE_INITIALIZE {
        Ok(HeadView::Whole(MessageView::ResponseInitialize))
    } else if !known_type(typ) {
        Err(CodecError::UnknownPacketType(typ))
    } else {
        match header_id(parts) {
            Err(e) => Err(e),
            Ok(id) => if typ == REQUEST_PROMISE_CANCEL {
                Ok(HeadView::Whole(MessageView::RequestPromiseCancel { id }))
            } else if typ == REQUEST_EVENT_DISPOSE {
                Ok(HeadView::Whole(MessageView::RequestEventDispose { id }))
            } else if typ == RESPONSE_PROMISE_SUCCESS {
                Ok(HeadView::Whole(MessageView::ResponsePromiseSuccess { id }))
            } else if typ == RESPONSE_PROMISE_ERROR {
                Ok(HeadView::Body(PendingView::ResponsePromiseError { id }))
            } else if typ == RESPONSE_PROMISE_ERROR_OBJ {
                Ok(HeadView::Body(PendingView::ResponsePromiseErrorObject { id }))
            } else if typ == RESPONSE_EVENT_FIRE {
                Ok(HeadView::Body(PendingView::ResponseEventFired { id }))
            } else {
                match header_channel(parts) {
                    Err(e) => Err(e),
                    Ok(channel_name) => match header_name(parts) {
                        Err(e) => Err(e),
                        Ok(name) => if typ == REQUEST_PROMISE {
                            Ok(HeadView::Body(PendingView::RequestPromise { id, channel_name, name }))
                        } else {
                            Ok(
                                HeadView::Body(
                                    PendingView::RequestEventListen { id, channel_name, name },
                                ),
                            )
                        },
                    },
                }
            },
        }
    }
}

/// What the header packet `header` amounts to: it is an array that begins
/// with the message type, and holds the fields of that type.
pub open spec fn head_of(header: Packet) -> Result<HeadView, CodecError> {
    match header {
        Packet::Array(parts) => match header_type(parts) {
            Err(e) => Err(e),
            Ok(typ) => head_of_type(typ, parts),
        },
        _ => Err(CodecError::ExpectedHeaderArray),
    }
}

/// The message that `pending` and the body `body` make. The body of a
/// promise error is read as an error object; any other body is taken as it
/// is.
pub open spec fn finish_of(pending: PendingView, body: Packet) -> Result<MessageView, CodecError> {
    match pending {
        PendingView::RequestPromise { id, channel_name, name } => Ok(
            MessageView::RequestPromise { id, channel_name, name, arg: body },
        ),
        PendingView::RequestEventListen { id, channel_name, name } => Ok(
            MessageView::RequestEventListen { id, channel_name, name, arg: body },
        ),
        PendingView::ResponsePromiseErrorObject { id } => Ok(
            MessageView::ResponsePromiseErrorObject { id, data: body },
        ),
        PendingView::ResponseEventFired { id } => Ok(
            MessageView::ResponseEventFired { id, data: body },
        ),
        PendingView::ResponsePromiseError { id } => match object_text(body) {
            None => Err(CodecError::ExpectedObject),
            Some(text) => match error_data_of(text) {
                None => Err(CodecError::InvalidJson),
                Some(data) => Ok(MessageView::ResponsePromiseError { id, data }),
            },
        },
    }
}

/// What reading one message from the front of `bytes` gives: the message and
/// the number of bytes it takes, or the failure. The header is one packet;
/// where it asks for a body, the body is the packet right behind it.
pub open spec fn decode_message(bytes: Seq<u8>) -> Result<(MessageView, nat), CodecError> {
    match decode_packet(bytes) {
        Err(e) => Err(e),
        Ok((header, used)) => match head_of(header) {
            Err(e) => Err(e),
            Ok(HeadView::Whole(m)) => Ok((m, used)),
            Ok(HeadView::Body(pending)) => match decode_packet(bytes.skip(used as int)) {
                Err(e) => Err(e),
                Ok((body, more)) => match finish_of(pending, body) {
                    Ok(m) => Ok((m, used + more)),
                    Err(e) => Err(e),
                },
            },
        },
    }
}

/// The header of `m`: the message type, then the fields in their positions.
pub open spec fn message_header(m: MessageView) -> Packet {
    match m {
        MessageView::RequestPromise { id, channel_name, name, arg } => Packet::Array(
            seq![
                Packet::Int32(REQUEST_PROMISE),
                Packet::Int32(id),
                Packet::String(channel_name),
                Packet::String(name),
            ],
        ),
        MessageView::RequestPromiseCancel { id } => Packet::Array(
            seq![Packet::Int32(REQUEST_PROMISE_CANCEL), Packet::Int32(id)],
        ),
        MessageView::RequestEventListen { id, channel_name, name, arg } => Packet::Array(
            seq![
                Packet::Int32(REQUEST_EVENT_LISTEN),
                Packet::Int32(id),
                Packet::String(channel_name),
                Packet::String(name),
            ],
        ),
        MessageView::RequestEventDispose { id } => Packet::Array(
            seq![Packet::Int32(REQUEST_EVENT_DISPOSE), Packet::Int32(id)],
        ),
        MessageView::ResponseInitialize => Packet::Array(seq![Packet::Int32(RESPONSE_INITIALIZE)]),
        MessageView::ResponsePromiseSuccess { id } => Packet::Array(
            seq![Packet::Int32(RESPONSE_PROMISE_SUCCESS), Packet::Int32(id)],
        ),
        MessageView::ResponsePromiseError { id, data } => Packet::Array(
            seq![Packet::Int32(RESPONSE_PROMISE_ERROR), Packet::Int32(id)],
        ),
        MessageView::ResponsePromiseErrorObject { id, data } => Packet::Array(
            seq![Packet::Int32(RESPONSE_PROMISE_ERROR_OBJ), Packet::Int32(id)],
        ),
        MessageView::ResponseEventFired { id, data } => Packet::Array(
            seq![Packet::Int32(RESPONSE_EVENT_FIRE), Packet::Int32(id)],
        ),
    }
}

/// The body of `m`, where its type has one.
pub open spec fn message_body(m: MessageView) -> Option<Packet> {
    match m {
        MessageView::RequestPromise { id, channel_name, name, arg } => Some(arg),
        MessageView::RequestEventListen { id, channel_name, name, arg } => Some(arg),
        MessageView::ResponsePromiseError { id, data } => Some(
            Packet::Object(error_data_text(data)),
        ),
        MessageView::ResponsePromiseErrorObject { id, data } => Some(data),
        MessageView::ResponseEventFired { id, data } => Some(data),
        _ => None,
    }
}

/// The bytes that stand for `m` on the wire: its header, and its body right
/// behind it.
pub open spec fn message_bytes(m: MessageView) -> Seq<u8> {
    match message_body(m) {
        Some(body) => packet_bytes(message_header(m)) + packet_bytes(body),
        None => packet_bytes(message_header(m)),
    }
}

/// Whether every length and count in the header and the body of `m` fits the
/// wire format.
pub open spec fn message_fits(m: MessageView) -> bool {
    fits_wire(message_header(m)) && match message_body(m) {
        Some(body) => fits_wire(body),
        None => true,
    }
}

/// The message type at the front of the header `parts`.
fn message_type(parts: &Vec<CodePacket>) -> (r: Result<i32, CodecError>)
    ensures
        r == header_type(views(parts@)),
{
    if parts.len() > 0 {
        if let CodePacket::Int32(typ) = &parts[0] {
            return Ok(*typ);
        }
    }
    Err(CodecError::ExpectedPacketType)
}

/// The request id at position 1 of the header `parts`.
fn request_id(parts: &Vec<CodePacket>) -> (r: Result<i32, CodecError>)
    ensures
        r == header_id(views(parts@)),
{
    if parts.len() > 1 {
        if let CodePacket::Int32(id) = &parts[1] {
            return Ok(*id);
        }
    }
    Err(CodecError::ExpectedRequestId)
}

/// The channel name at position 2 of the header `parts`.
fn channel_name(parts: &Vec<CodePacket>) -> (r: Result<String, CodecError>)
    ensures
        match header_channel(views(parts@)) {
            Ok(text) => r matches Ok(s) && s@ == text,
            Err(e) => r == Err::<String, CodecError>(e),
        },
{
    if parts.len() > 2 {
        if let CodePacket::String(s) = &parts[2] {
            return Ok(s.clone());
        }
    }
    Err(CodecError::ExpectedChannelName)
}

/// The request name at position 3 of the header `parts`.
fn request_name(parts: &Vec<CodePacket>) -> (r: Result<String, CodecError>)
    ensures
        match header_name(views(parts@)) {
            Ok(text) => r matches Ok(s) && s@ == text,
            Err(e) => r == Err::<String, CodecError>(e),
        },
{
    if parts.len() > 3 {
        if let CodePacket::String(s) = &parts[3] {
            return Ok(s.clone());
        }
    }
    Err(CodecError::ExpectedRequestName)
}

/// Looks at a header packet: gives the message where the header is all of
/// it, and else what waits for the body.
pub fn read_head(header: CodePacket) -> (r: Result<Head, CodecError>)
    ensures
        match head_of(header@) {
            Ok(head) => r matches Ok(h) && h@ == head,
            Err(e) => r == Err::<Head, CodecError>(e),
        },
{
    let parts = match header {
        CodePacket::Array(parts) => {
            proof {
                lemma_array_view(parts);
            }
            parts
        },
        _ => {
            return Err(CodecError::ExpectedHeaderArray);
        },
    };
    let typ = match message_type(&parts) {
        Ok(typ) => typ,
        Err(e) => {
            return Err(e);
        },
    };
    if typ == RESPONSE_INITIALIZE {
        return Ok(Head::Whole(Message::ResponseInitialize));
    }
    if !((REQUEST_PROMISE <= typ && typ <= REQUEST_EVENT_DISPOSE) || (RESPONSE_INITIALIZE <= typ
        && typ <= RESPONSE_EVENT_FIRE)) {
        return Err(CodecError::UnknownPacketType(typ));
    }
    let id = match request_id(&parts) {
        Ok(id) => id,
        Err(e) => {
            return Err(e);
        },
    };
    if typ == REQUEST_PROMISE_CANCEL {
        Ok(Head::Whole(Message::RequestPromiseCancel { id }))
    } else if typ == REQUEST_EVENT_DISPOSE {
        Ok(Head::Whole(Message::RequestEventDispose { id }))
    } else if typ == RESPONSE_PROMISE_SUCCESS {
        Ok(Head::Whole(Message::ResponsePromiseSuccess { id }))
    } else if typ == RESPONSE_PROMISE_ERROR {
        Ok(Head::Body(PendingMessage::ResponsePromiseError { id }))
    } else if typ == RESPONSE_PROMISE_ERROR_OBJ {
        Ok(Head::Body(PendingMessage::ResponsePromiseErrorObject { id }))
    } else if typ == RESPONSE_EVENT_FIRE {
        Ok(Head::Body(PendingMessage::ResponseEventFired { id }))
    } else {
        let channel_name = match channel_name(&parts) {
            Ok(s) => s,
            Err(e) => {
                return Err(e);
            },
        };
        let name = match request_name(&parts) {
            Ok(s) => s,
            Err(e) => {
                return Err(e);
            },
        };
        if typ == REQUEST_PROMISE {
            Ok(Head::Body(PendingMessage::RequestPromise { id, channel_name, name }))
        } else {
            Ok(Head::Body(PendingMessage::RequestEventListen { id, channel_name, name }))
        }
    }
}

impl PendingMessage {
    /// Makes the message with the body that was read for it.
    pub fn finish(self, body: CodePacket) -> (r: Result<Message, CodecError>)
        ensures
            match finish_of(self@, body@) {
                Ok(m) => r matches Ok(message) && message@ == m,
                Err(e) => r == Err::<Message, CodecError>(e),
            },
    {
        match self {
            PendingMessage::RequestPromise { id, channel_name, name } => Ok(
                Message::RequestPromise { id, channel_name, name, arg: body },
            ),
            PendingMessage::RequestEventListen { id, channel_name, name } => Ok(
                Message::RequestEventListen { id, channel_name, name, arg: body },
            ),
            PendingMessage::ResponsePromiseErrorObject { id } => Ok(
                Message::ResponsePromiseErrorObject { id, data: body },
            ),
            PendingMessage::ResponseEventFired { id } => Ok(
                Message::ResponseEventFired { id, data: body },
            ),
            PendingMessage::ResponsePromiseError { id } => {
                let text = match body.to_object() {
                    Ok(text) => text,
                    Err(e) => {
                        return Err(e);
                    },
                };
                match PromiseErrorData::from_json(text.as_slice()) {
                    Ok(data) => Ok(Message::ResponsePromiseError { id, data }),
                    Err(e) => Err(e),
                }
            },
        }
    }
}

/// Reads one message from the front of `reader`. On success gives the
/// message and the number of bytes it took: those of the header and, where
/// the message type has one, of the body behind it.
pub fn read_message(reader: &[u8]) -> (r: Result<(Message, usize), CodecError>)
    ensures
        match decode_message(reader@) {
            Ok((m, n)) => r matches Ok((message, used)) && message@ == m && used == n,
            Err(e) => r == Err::<(Message, usize), CodecError>(e),
        },
{
    let (header, used) = match CodePacket::from_reader(reader) {
        Ok(pair) => pair,
        Err(e) => {
            return Err(e);
        },
    };
    proof {
        lemma_decode_bounds(reader@, 0);
    }
    let pending = match read_head(header) {
        Ok(Head::Whole(message)) => {
            return Ok((message, used));
        },
        Ok(Head::Body(pending)) => pending,
        Err(e) => {
            return Err(e);
        },
    };
    let rest = vstd::slice::slice_subrange(reader, used, reader.len());
    assert(rest@ =~= reader@.skip(used as int));
    proof {
        lemma_decode_bounds(rest@, 0);
    }
    let (body, more) = match CodePacket::from_reader(rest) {
        Ok(pair) => pair,
        Err(e) => {
            return Err(e);
        },
    };
    match pending.finish(body) {
        Ok(message) => Ok((message, used + more)),
        Err(e) => Err(e),
    }
}

impl Message {
    /// The header packet of the message.
    pub fn header(&self) -> (h: CodePacket)
        ensures
            h@ == message_header(self@),
    {
        let mut parts: Vec<CodePacket> = Vec::new();
        match self {
            Message::RequestPromise { id, channel_name, name, arg } => {
                parts.push(CodePacket::Int32(REQUEST_PROMISE));
                parts.push(CodePacket::Int32(*id));
                parts.push(CodePacket::String(channel_name.clone()));
                parts.push(CodePacket::String(name.clone()));
            },
            Message::RequestPromiseCancel { id } => {
                parts.push(CodePacket::Int32(REQUEST_PROMISE_CANCEL));
                parts.push(CodePacket::Int32(*id));
            },
            Message::RequestEventListen { id, channel_name, name, arg } => {
                parts.push(CodePacket::Int32(REQUEST_EVENT_LISTEN));
                parts.push(CodePacket::Int32(*id));
                parts.push(CodePacket::String(channel_name.clone()));
                parts.push(CodePacket::String(name.clone()));
            },
            Message::RequestEventDispose { id } => {
                parts.push(CodePacket::Int32(REQUEST_EVENT_DISPOSE));
                parts.push(CodePacket::Int32(*id));
            },
            Message::ResponseInitialize => {
                parts.push(CodePacket::Int32(RESPONSE_INITIALIZE));
            },
            Message::ResponsePromiseSuccess { id } => {
                parts.push(CodePacket::Int32(RESPONSE_PROMISE_SUCCESS));
                parts.push(CodePacket::Int32(*id));
            },
            Message::ResponsePromiseError { id, data } => {
                parts.push(CodePacket::Int32(RESPONSE_PROMISE_ERROR));
                parts.push(CodePacket::Int32(*id));
            },
            Message::ResponsePromiseErrorObject { id, data } => {
                parts.push(CodePacket::Int32(RESPONSE_PROMISE_ERROR_OBJ));
                parts.push(CodePacket::Int32(*id));
            },
            Message::ResponseEventFired { id, data } => {
                parts.push(CodePacket::Int32(RESPONSE_EVENT_FIRE));
                parts.push(CodePacket::Int32(*id));
            },
        }
        proof {
            lemma_array_view(parts);
            assert(views(parts@) =~= message_header(self@)->Array_0);
        }
        CodePacket::Array(parts)
    }
}

/// Appends the encoding of `message` to `writer`: the header, and the body
/// right behind it. A message with a length or count above the wire
/// format's limit is refused, and `writer` is left as it was.
pub fn write_message(message: &Message, writer: &mut Vec<u8>) -> (r: Result<(), CodecError>)
    ensures
        message_fits(message@) ==> r is Ok && final(writer)@ == old(writer)@ + message_bytes(
            message@,
        ),
        !message_fits(message@) ==> final(writer)@ == old(writer)@ && r == Err::<(), CodecError>(
            CodecError::LengthOverflow,
        ),
{
    let header = message.header();
    if !header.fits() {
        return Err(CodecError::LengthOverflow);
    }
    match message {
        Message::RequestPromise { arg, .. } | Message::RequestEventListen { arg, .. } => {
            write_pair(&header, arg, writer)
        },
        Message::ResponsePromiseErrorObject { data, .. } | Message::ResponseEventFired {
            data,
            ..
        } => { write_pair(&header, data, writer) },
        Message::ResponsePromiseError { data, .. } => {
            let body = CodePacket::Object(data.to_json());
            write_pair(&header, &body, writer)
        },
        _ => {
            header.to_writer(writer)
        },
    }
}

/// Appends the encodings of `header` and `body`, or nothing where `body`
/// does not fit the wire format.
fn write_pair(header: &CodePacket, body: &CodePacket, writer: &mut Vec<u8>) -> (r: Result<
    (),
    CodecError,
>)
    requires
        fits_wire(header@),
    ensures
        fits_wire(body@) ==> r is Ok && final(writer)@ == old(writer)@ + (packet_bytes(header@)
            + packet_bytes(body@)),
        !fits_wire(body@) ==> final(writer)@ == old(writer)@ && r == Err::<(), CodecError>(
            CodecError::LengthOverflow,
        ),
{
    if !body.fits() {
        return Err(CodecError::LengthOverflow);
    }
    let _ = header.to_writer(writer);
    let r = body.to_writer(writer);
    assert(writer@ =~= old(writer)@ + (packet_bytes(header@) + packet_bytes(body@)));
    r
}

/// What the header of `m` amounts to.
pub open spec fn message_head(m: MessageView) -> HeadView {
    match m {
        MessageView::RequestPromise { id, channel_name, name, .. } => HeadView::Body(
            PendingView::RequestPromise { id, channel_name, name },
        ),
        MessageView::RequestEventListen { id, channel_name, name, .. } => HeadView::Body(
            PendingView::RequestEventListen { id, channel_name, name },
        ),
        MessageView::ResponsePromiseError { id, .. } => HeadView::Body(
            PendingView::ResponsePromiseError { id },
        ),
        MessageView::ResponsePromiseErrorObject { id, .. } => HeadView::Body(
            PendingView::ResponsePromiseErrorObject { id },
        ),
        MessageView::ResponseEventFired { id, .. } => HeadView::Body(
            PendingView::ResponseEventFired { id },
        ),
        _ => HeadView::Whole(m),
    }
}

/// The header of a message reads as the head of that message, which waits
/// for a body just where the message has one.
proof fn lemma_header_reads(m: MessageView)
    ensures
        head_of(message_header(m)) == Ok::<HeadView, CodecError>(message_head(m)),
        message_head(m) is Body <==> message_body(m) is Some,
{
    let parts = message_header(m)->Array_0;
    assert(parts[0] is Int32);
    if m !is ResponseInitialize {
        assert(parts[1] is Int32);
    }
    if m is RequestPromise || m is RequestEventListen {
        assert(parts[2] is String);
        assert(parts[3] is String);
    }
}

/// Decoding the encoding of a message, whatever follows it, reads the
/// header and the body that the message was written with.
proof fn lemma_message_parts_read(m: MessageView, rest: Seq<u8>)
    requires
        message_fits(m),
    ensures
        decode_message(message_bytes(m) + rest) == match message_body(m) {
            None => Ok::<(MessageView, nat), CodecError>((m, message_bytes(m).len())),
            Some(body) => match finish_of(message_head(m)->Body_0, body) {
                Ok(back) => Ok((back, message_bytes(m).len())),
                Err(e) => Err(e),
            },
        },
{
    let header = message_header(m);
    let head = packet_bytes(header);
    let bytes = message_bytes(m) + rest;
    lemma_header_reads(m);
    match message_body(m) {
        Some(body) => {
            let tail = packet_bytes(body) + rest;
            assert(bytes =~= head + tail);
            lemma_packet_round_trip(header, tail);
            assert(bytes.skip(head.len() as int) =~= tail);
            lemma_packet_round_trip(body, rest);
        },
        None => {
            lemma_packet_round_trip(header, rest);
        },
    }
}

/// Decoding the encoding of a message other than a promise error, whatever
/// follows it, gives the message back and consumes exactly the encoding.
pub proof fn lemma_message_round_trip(m: MessageView, rest: Seq<u8>)
    requires
        message_fits(m),
        m !is ResponsePromiseError,
    ensures
        decode_message(message_bytes(m) + rest) == Ok::<(MessageView, nat), CodecError>(
            (m, message_bytes(m).len()),
        ),
{
    lemma_message_parts_read(m, rest);
}

/// Decoding the encoding of a promise error, whatever follows it, consumes
/// exactly the encoding and gives the promise error with the data that the
/// JSON text written for its data reads as.
pub proof fn lemma_promise_error_round_trip(id: i32, data: ErrorDataView, rest: Seq<u8>)
    requires
        message_fits(MessageView::ResponsePromiseError { id, data }),
    ensures
        ({
            let m = MessageView::ResponsePromiseError { id, data };
            decode_message(message_bytes(m) + rest) == match error_data_of(error_data_text(data)) {
                Some(back) => Ok::<(MessageView, nat), CodecError>(
                    (MessageView::ResponsePromiseError { id, data: back }, message_bytes(m).len()),
                ),
                None => Err(CodecError::InvalidJson),
            }
        }),
{
    lemma_message_parts_read(MessageView::ResponsePromiseError { id, data }, rest);
}

/// A proper prefix of a message's encoding never decodes: the decoder runs
/// out of input, in the header or in the body.
pub proof fn lemma_message_truncated(m: MessageView, k: int)
    requires
        message_fits(m),
        0 <= k < message_bytes(m).len(),
    ensures
        decode_message(message_bytes(m).take(k)) == Err::<(MessageView, nat), CodecError>(
            CodecError::UnexpectedEof,
        ),
{
    let header = message_header(m);
    let head = packet_bytes(header);
    let cut = message_bytes(m).take(k);
    if k < head.len() {
        assert(cut =~= head.take(k));
        lemma_packet_truncated(header, k);
    } else {
        lemma_header_reads(m);
        let body = message_body(m)->Some_0;
        let part = packet_bytes(body).take(k - head.len());
        assert(cut =~= head + part);
        lemma_packet_round_trip(header, part);
        assert(cut.skip(head.len() as int) =~= part);
        lemma_packet_truncated(body, k - head.len());
    }
}

/// An outcome other than running out of input stands whatever follows the
/// input: what arrives later changes neither a message that was read nor a
/// protocol error that was found.
pub proof fn lemma_message_stable(bytes: Seq<u8>, more: Seq<u8>)
    requires
        decode_message(bytes) != Err::<(MessageView, nat), CodecError>(CodecError::UnexpectedEof),
    ensures
        decode_message(bytes + more) == decode_message(bytes),
{
    lemma_packet_stable(bytes, more);
    lemma_decode_bounds(bytes, 0);
    if let Ok((header, used)) = decode_packet(bytes) {
        if head_of(header) matches Ok(HeadView::Body(_)) {
            assert((bytes + more).skip(used as int) =~= bytes.skip(used as int) + more);
            lemma_packet_stable(bytes.skip(used as int), more);
        }
    }
}

} // verus!
