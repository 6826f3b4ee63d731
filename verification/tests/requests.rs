use codeipc::error::CodecError;
use codeipc::json::{json_outcome, JsonField};
use codeipc::packets::CodePacket;
use codeipc::error_data::find_field;
use codeipc::requests::{
    read_head, read_message, write_message, Head, Message, PendingMessage, PromiseErrorData,
};

fn encode(m: &Message) -> Vec<u8> {
    let mut out = Vec::new();
    write_message(m, &mut out).unwrap();
    out
}

fn boom() -> PromiseErrorData {
    PromiseErrorData { message: "boom".to_string(), name: "Error".to_string(), stack: None }
}

fn samples() -> Vec<Message> {
    vec![
        Message::RequestPromise {
            id: 0,
            channel_name: "testchannel".to_string(),
            name: "marco".to_string(),
            arg: CodePacket::Undefined,
        },
        Message::RequestPromise {
            id: -3,
            channel_name: String::new(),
            name: "n".to_string(),
            arg: CodePacket::Array(vec![CodePacket::Int32(1), CodePacket::Buffer(vec![2])]),
        },
        Message::RequestPromiseCancel { id: 17 },
        Message::RequestEventListen {
            id: 300,
            channel_name: "c".to_string(),
            name: "changed".to_string(),
            arg: CodePacket::Object(b"{\"x\":true}".to_vec()),
        },
        Message::RequestEventDispose { id: i32::MAX },
        Message::ResponseInitialize,
        Message::ResponsePromiseSuccess { id: 1 },
        Message::ResponsePromiseError { id: 5, data: boom() },
        Message::ResponsePromiseError {
            id: 6,
            data: PromiseErrorData {
                message: "a \"quoted\" line\n".to_string(),
                name: "TypeError".to_string(),
                stack: Some(vec!["at f".to_string(), "at g".to_string()]),
            },
        },
        Message::ResponsePromiseError {
            id: 7,
            data: PromiseErrorData {
                message: String::new(),
                name: String::new(),
                stack: Some(vec![]),
            },
        },
        Message::ResponsePromiseErrorObject { id: 2, data: CodePacket::String("x".to_string()) },
        Message::ResponseEventFired { id: i32::MIN, data: CodePacket::VSBuffer(vec![1, 2, 3]) },
    ]
}

#[test]
fn test_parses_request() {
    let input = vec![
        4, 4, 6, 100, 6, 0, 1, 11, 116, 101, 115, 116, 99, 104, 97, 110, 110, 101, 108, 1, 5,
        109, 97, 114, 99, 111, 0,
    ];

    let (actual, used) = read_message(&input).unwrap();

    assert_eq!(
        actual,
        Message::RequestPromise {
            id: 0,
            channel_name: "testchannel".to_string(),
            name: "marco".to_string(),
            arg: CodePacket::Undefined,
        }
    );
    assert_eq!(used, input.len());
}

#[test]
fn request_encodes_to_the_known_bytes() {
    let m = Message::RequestPromise {
        id: 0,
        channel_name: "testchannel".to_string(),
        name: "marco".to_string(),
        arg: CodePacket::Undefined,
    };
    assert_eq!(
        encode(&m),
        vec![
            4, 4, 6, 100, 6, 0, 1, 11, 116, 101, 115, 116, 99, 104, 97, 110, 110, 101, 108, 1, 5,
            109, 97, 114, 99, 111, 0,
        ]
    );
}

#[test]
fn exact_bytes_of_short_messages() {
    assert_eq!(encode(&Message::ResponseInitialize), vec![4, 1, 6, 0xc8, 0x01]);
    assert_eq!(encode(&Message::RequestPromiseCancel { id: 3 }), vec![4, 2, 6, 101, 6, 3]);
    assert_eq!(encode(&Message::RequestEventDispose { id: 3 }), vec![4, 2, 6, 103, 6, 3]);
    assert_eq!(
        encode(&Message::ResponsePromiseSuccess { id: 3 }),
        vec![4, 2, 6, 0xc9, 0x01, 6, 3]
    );
    assert_eq!(
        encode(&Message::ResponseEventFired { id: 1, data: CodePacket::Int32(2) }),
        vec![4, 2, 6, 0xcc, 0x01, 6, 1, 6, 2]
    );
    assert_eq!(
        encode(&Message::ResponsePromiseErrorObject { id: 1, data: CodePacket::Undefined }),
        vec![4, 2, 6, 0xcb, 0x01, 6, 1, 0]
    );
}

#[test]
fn round_trip_of_every_kind_of_message() {
    for m in samples() {
        let bytes = encode(&m);
        let (back, used) = read_message(&bytes).unwrap();
        assert_eq!(back, m);
        assert_eq!(used, bytes.len());
    }
}

#[test]
fn messages_follow_each_other_without_delimiter() {
    let all = samples();
    let mut bytes = Vec::new();
    for m in &all {
        write_message(m, &mut bytes).unwrap();
    }
    let mut at = 0;
    for m in &all {
        let (back, used) = read_message(&bytes[at..]).unwrap();
        assert_eq!(back, *m);
        at += used;
    }
    assert_eq!(at, bytes.len());
}

#[test]
fn promise_error_round_trip() {
    let m = Message::ResponsePromiseError { id: 5, data: boom() };
    let bytes = encode(&m);
    let (back, used) = read_message(&bytes).unwrap();
    assert_eq!(used, bytes.len());
    assert_eq!(
        back,
        Message::ResponsePromiseError {
            id: 5,
            data: PromiseErrorData {
                message: "boom".to_string(),
                name: "Error".to_string(),
                stack: None,
            },
        }
    );
}

#[test]
fn promise_error_travels_as_a_json_object() {
    let m = Message::ResponsePromiseError { id: 5, data: boom() };
    let mut expected = vec![4, 2, 6, 0xca, 0x01, 6, 5, 5, 46];
    expected.extend_from_slice(b"{\"message\":\"boom\",\"name\":\"Error\",\"stack\":null}");
    assert_eq!(encode(&m), expected);
}

#[test]
fn error_data_json_text() {
    assert_eq!(
        boom().to_json(),
        b"{\"message\":\"boom\",\"name\":\"Error\",\"stack\":null}".to_vec()
    );
    let with_stack = PromiseErrorData {
        message: "m".to_string(),
        name: "n".to_string(),
        stack: Some(vec!["a".to_string(), "b\\c".to_string()]),
    };
    assert_eq!(
        with_stack.to_json(),
        b"{\"message\":\"m\",\"name\":\"n\",\"stack\":[\"a\",\"b\\\\c\"]}".to_vec()
    );
    let empty_stack = PromiseErrorData {
        message: String::new(),
        name: String::new(),
        stack: Some(vec![]),
    };
    assert_eq!(
        empty_stack.to_json(),
        b"{\"message\":\"\",\"name\":\"\",\"stack\":[]}".to_vec()
    );
}

#[test]
fn error_data_from_json() {
    assert_eq!(
        PromiseErrorData::from_json(b"{\"message\":\"boom\",\"name\":\"Error\",\"stack\":null}"),
        Ok(boom())
    );
    // a missing stack is no stack; other fields and spaces do not count
    assert_eq!(
        PromiseErrorData::from_json(b" { \"name\" : \"Error\", \"code\": [1, {\"a\": 2}], \"message\" : \"boom\" } "),
        Ok(boom())
    );
    assert_eq!(
        PromiseErrorData::from_json(b"{\"message\":\"m\",\"name\":\"n\",\"stack\":[\"x\",\"y\"]}"),
        Ok(PromiseErrorData {
            message: "m".to_string(),
            name: "n".to_string(),
            stack: Some(vec!["x".to_string(), "y".to_string()]),
        })
    );
    assert_eq!(
        PromiseErrorData::from_json(b"{\"message\":\"\\u0041\\n\",\"name\":\"\"}"),
        Ok(PromiseErrorData { message: "A\n".to_string(), name: String::new(), stack: None })
    );
}

#[test]
fn error_data_from_bad_json() {
    let bad: Vec<&[u8]> = vec![
        b"",
        b"null",
        b"[]",
        b"42",
        b"{",
        b"{\"message\":\"boom\"}",
        b"{\"name\":\"Error\"}",
        b"{\"message\":1,\"name\":\"Error\"}",
        b"{\"message\":\"boom\",\"name\":null}",
        b"{\"message\":\"boom\",\"name\":\"Error\",\"stack\":\"x\"}",
        b"{\"message\":\"boom\",\"name\":\"Error\",\"stack\":[1]}",
        b"{\"message\":\"boom\",\"name\":\"Error\"} x",
    ];
    for text in bad {
        assert_eq!(PromiseErrorData::from_json(text), Err(CodecError::InvalidJson));
    }
}

#[test]
fn error_data_from_parts() {
    let ok = |s: &str| Some(Ok::<String, CodecError>(s.to_string()));
    assert_eq!(
        PromiseErrorData::from_parts(ok("boom"), ok("Error"), None),
        Ok(boom())
    );
    assert_eq!(
        PromiseErrorData::from_parts(ok("boom"), ok("Error"), Some(Ok(None))),
        Ok(boom())
    );
    assert_eq!(
        PromiseErrorData::from_parts(ok("m"), ok("n"), Some(Ok(Some(vec!["s".to_string()])))),
        Ok(PromiseErrorData {
            message: "m".to_string(),
            name: "n".to_string(),
            stack: Some(vec!["s".to_string()]),
        })
    );
    assert_eq!(
        PromiseErrorData::from_parts(None, ok("Error"), None),
        Err(CodecError::InvalidJson)
    );
    assert_eq!(
        PromiseErrorData::from_parts(ok("boom"), None, None),
        Err(CodecError::InvalidJson)
    );
    assert_eq!(
        PromiseErrorData::from_parts(Some(Err(CodecError::InvalidJson)), ok("Error"), None),
        Err(CodecError::InvalidJson)
    );
    assert_eq!(
        PromiseErrorData::from_parts(ok("boom"), Some(Err(CodecError::InvalidJson)), None),
        Err(CodecError::InvalidJson)
    );
    assert_eq!(
        PromiseErrorData::from_parts(ok("boom"), ok("Error"), Some(Err(CodecError::InvalidJson))),
        Err(CodecError::InvalidJson)
    );
}

#[test]
fn json_outcome_maps_the_failure() {
    assert_eq!(json_outcome(serde_json::from_slice::<i32>(b"12")), Ok(12));
    assert_eq!(json_outcome(serde_json::from_slice::<i32>(b"x")), Err(CodecError::InvalidJson));
}

#[test]
fn find_field_takes_the_first_of_that_name() {
    let fields = vec![
        JsonField { name: "a".to_string(), text: b"1".to_vec() },
        JsonField { name: "b".to_string(), text: b"2".to_vec() },
        JsonField { name: "a".to_string(), text: b"3".to_vec() },
    ];
    assert_eq!(find_field(&fields, &"a".to_string()).unwrap().text, b"1".to_vec());
    assert_eq!(find_field(&fields, &"b".to_string()).unwrap().text, b"2".to_vec());
    assert!(find_field(&fields, &"c".to_string()).is_none());
    assert!(find_field(&Vec::new(), &"a".to_string()).is_none());
}

#[test]
fn promise_error_body_must_be_an_object() {
    // header [202, 1], body Int32(3)
    let bytes = vec![4, 2, 6, 0xca, 0x01, 6, 1, 6, 3];
    assert_eq!(read_message(&bytes), Err(CodecError::ExpectedObject));
    // body Undefined reads as null, which is no error object
    let bytes = vec![4, 2, 6, 0xca, 0x01, 6, 1, 0];
    assert_eq!(read_message(&bytes), Err(CodecError::InvalidJson));
    // body Object("{}")
    let bytes = vec![4, 2, 6, 0xca, 0x01, 6, 1, 5, 2, b'{', b'}'];
    assert_eq!(read_message(&bytes), Err(CodecError::InvalidJson));
}

#[test]
fn header_must_be_an_array() {
    assert_eq!(read_message(&[6, 100]), Err(CodecError::ExpectedHeaderArray));
    assert_eq!(read_message(&[0]), Err(CodecError::ExpectedHeaderArray));
    assert_eq!(read_message(&[1, 1, 97]), Err(CodecError::ExpectedHeaderArray));
}

#[test]
fn header_must_begin_with_the_type() {
    assert_eq!(read_message(&[4, 0]), Err(CodecError::ExpectedPacketType));
    assert_eq!(read_message(&[4, 1, 0]), Err(CodecError::ExpectedPacketType));
    assert_eq!(read_message(&[4, 2, 1, 1, 97, 6, 1]), Err(CodecError::ExpectedPacketType));
    // a JSON number is no message type
    assert_eq!(
        read_message(&[4, 1, 5, 3, b'2', b'0', b'0']),
        Err(CodecError::ExpectedPacketType)
    );
}

#[test]
fn unknown_types_are_refused() {
    for typ in vec![0, 1, 99, 104, 199, 205, 356, 456, -100, i32::MAX, i32::MIN] {
        let header = CodePacket::Array(vec![CodePacket::Int32(typ), CodePacket::Int32(1)]);
        let mut bytes = Vec::new();
        header.to_writer(&mut bytes).unwrap();
        bytes.push(0);
        assert_eq!(read_message(&bytes), Err(CodecError::UnknownPacketType(typ)));
    }
}

#[test]
fn request_id_is_required() {
    for typ in vec![100, 101, 102, 103, 201, 202, 203, 204] {
        let header = CodePacket::Array(vec![CodePacket::Int32(typ)]);
        let mut bytes = Vec::new();
        header.to_writer(&mut bytes).unwrap();
        bytes.push(0);
        assert_eq!(read_message(&bytes), Err(CodecError::ExpectedRequestId));

        let header = CodePacket::Array(vec![
            CodePacket::Int32(typ),
            CodePacket::String("1".to_string()),
            CodePacket::String("c".to_string()),
            CodePacket::String("n".to_string()),
        ]);
        let mut bytes = Vec::new();
        header.to_writer(&mut bytes).unwrap();
        bytes.push(0);
        assert_eq!(read_message(&bytes), Err(CodecError::ExpectedRequestId));
    }
}

#[test]
fn channel_and_request_names_are_required() {
    for typ in vec![100, 102] {
        let header = CodePacket::Array(vec![CodePacket::Int32(typ), CodePacket::Int32(1)]);
        let mut bytes = Vec::new();
        header.to_writer(&mut bytes).unwrap();
        bytes.push(0);
        assert_eq!(read_message(&bytes), Err(CodecError::ExpectedChannelName));

        let header = CodePacket::Array(vec![
            CodePacket::Int32(typ),
            CodePacket::Int32(1),
            CodePacket::Buffer(b"c".to_vec()),
            CodePacket::String("n".to_string()),
        ]);
        let mut bytes = Vec::new();
        header.to_writer(&mut bytes).unwrap();
        bytes.push(0);
        assert_eq!(read_message(&bytes), Err(CodecError::ExpectedChannelName));

        let header = CodePacket::Array(vec![
            CodePacket::Int32(typ),
            CodePacket::Int32(1),
            CodePacket::String("c".to_string()),
        ]);
        let mut bytes = Vec::new();
        header.to_writer(&mut bytes).unwrap();
        bytes.push(0);
        assert_eq!(read_message(&bytes), Err(CodecError::ExpectedRequestName));

        let header = CodePacket::Array(vec![
            CodePacket::Int32(typ),
            CodePacket::Int32(1),
            CodePacket::String("c".to_string()),
            CodePacket::Int32(2),
        ]);
        let mut bytes = Vec::new();
        header.to_writer(&mut bytes).unwrap();
        bytes.push(0);
        assert_eq!(read_message(&bytes), Err(CodecError::ExpectedRequestName));
    }
}

#[test]
fn header_faults_come_before_the_body_is_read() {
    // no body at all behind a faulty header: the fault is reported, not the end of the stream
    let header = CodePacket::Array(vec![CodePacket::Int32(100), CodePacket::Int32(1)]);
    let mut bytes = Vec::new();
    header.to_writer(&mut bytes).unwrap();
    assert_eq!(read_message(&bytes), Err(CodecError::ExpectedChannelName));
}

#[test]
fn missing_body_is_end_of_stream() {
    for m in samples() {
        let mut header = Vec::new();
        m.header().to_writer(&mut header).unwrap();
        let all = encode(&m);
        if all.len() > header.len() {
            assert_eq!(read_message(&header), Err(CodecError::UnexpectedEof));
        } else {
            assert!(read_message(&header).is_ok());
        }
    }
}

#[test]
fn every_proper_prefix_of_a_message_fails() {
    for m in samples() {
        let bytes = encode(&m);
        for k in 0..bytes.len() {
            assert_eq!(read_message(&bytes[..k]), Err(CodecError::UnexpectedEof));
        }
    }
}

#[test]
fn bad_body_is_a_protocol_error() {
    let mut bytes = Vec::new();
    CodePacket::Array(vec![CodePacket::Int32(204), CodePacket::Int32(1)])
        .to_writer(&mut bytes)
        .unwrap();
    bytes.push(9);
    assert_eq!(read_message(&bytes), Err(CodecError::UnexpectedPacketType(9)));
}

#[test]
fn more_header_fields_than_needed_are_let_be() {
    let header = CodePacket::Array(vec![
        CodePacket::Int32(101),
        CodePacket::Int32(8),
        CodePacket::Undefined,
    ]);
    let mut bytes = Vec::new();
    header.to_writer(&mut bytes).unwrap();
    assert_eq!(
        read_message(&bytes),
        Ok((Message::RequestPromiseCancel { id: 8 }, bytes.len()))
    );
    let header = CodePacket::Array(vec![CodePacket::Int32(200), CodePacket::Int32(8)]);
    let mut bytes = Vec::new();
    header.to_writer(&mut bytes).unwrap();
    bytes.push(0);
    assert_eq!(read_message(&bytes), Ok((Message::ResponseInitialize, bytes.len() - 1)));
}

#[test]
fn a_message_with_a_body_beyond_31_bits_is_refused() {
    let m = Message::ResponseEventFired { id: 1, data: CodePacket::Buffer(vec![0u8; 0x8000_0000]) };
    let mut out = vec![7u8];
    assert_eq!(write_message(&m, &mut out), Err(CodecError::LengthOverflow));
    assert_eq!(out, vec![7u8]);
}

#[test]
fn a_header_without_body_is_a_whole_message() {
    let header = CodePacket::Array(vec![CodePacket::Int32(200)]);
    assert_eq!(read_head(header), Ok(Head::Whole(Message::ResponseInitialize)));
    let header = CodePacket::Array(vec![CodePacket::Int32(101), CodePacket::Int32(4)]);
    assert_eq!(read_head(header), Ok(Head::Whole(Message::RequestPromiseCancel { id: 4 })));
    let header = CodePacket::Array(vec![CodePacket::Int32(103), CodePacket::Int32(4)]);
    assert_eq!(read_head(header), Ok(Head::Whole(Message::RequestEventDispose { id: 4 })));
    let header = CodePacket::Array(vec![CodePacket::Int32(201), CodePacket::Int32(4)]);
    assert_eq!(read_head(header), Ok(Head::Whole(Message::ResponsePromiseSuccess { id: 4 })));
}

#[test]
fn a_header_with_body_waits_for_it() {
    for m in samples() {
        let head = read_head(m.header()).unwrap();
        let expected = match &m {
            Message::RequestPromise { id, channel_name, name, .. } => {
                Head::Body(PendingMessage::RequestPromise {
                    id: *id,
                    channel_name: channel_name.clone(),
                    name: name.clone(),
                })
            }
            Message::RequestEventListen { id, channel_name, name, .. } => {
                Head::Body(PendingMessage::RequestEventListen {
                    id: *id,
                    channel_name: channel_name.clone(),
                    name: name.clone(),
                })
            }
            Message::ResponsePromiseError { id, .. } => {
                Head::Body(PendingMessage::ResponsePromiseError { id: *id })
            }
            Message::ResponsePromiseErrorObject { id, .. } => {
                Head::Body(PendingMessage::ResponsePromiseErrorObject { id: *id })
            }
            Message::ResponseEventFired { id, .. } => {
                Head::Body(PendingMessage::ResponseEventFired { id: *id })
            }
            _ => Head::Whole(m),
        };
        assert_eq!(head, expected);
    }
}

#[test]
fn finish_makes_the_message_with_its_body() {
    assert_eq!(
        PendingMessage::RequestPromise {
            id: 1,
            channel_name: "c".to_string(),
            name: "n".to_string()
        }
        .finish(CodePacket::Int32(9)),
        Ok(Message::RequestPromise {
            id: 1,
            channel_name: "c".to_string(),
            name: "n".to_string(),
            arg: CodePacket::Int32(9),
        })
    );
    assert_eq!(
        PendingMessage::RequestEventListen {
            id: 1,
            channel_name: "c".to_string(),
            name: "n".to_string()
        }
        .finish(CodePacket::Undefined),
        Ok(Message::RequestEventListen {
            id: 1,
            channel_name: "c".to_string(),
            name: "n".to_string(),
            arg: CodePacket::Undefined,
        })
    );
    assert_eq!(
        PendingMessage::ResponsePromiseErrorObject { id: 2 }.finish(CodePacket::Buffer(vec![1])),
        Ok(Message::ResponsePromiseErrorObject { id: 2, data: CodePacket::Buffer(vec![1]) })
    );
    assert_eq!(
        PendingMessage::ResponseEventFired { id: 3 }.finish(CodePacket::Array(vec![])),
        Ok(Message::ResponseEventFired { id: 3, data: CodePacket::Array(vec![]) })
    );
    assert_eq!(
        PendingMessage::ResponsePromiseError { id: 5 }.finish(CodePacket::Object(
            b"{\"message\":\"boom\",\"name\":\"Error\"}".to_vec()
        )),
        Ok(Message::ResponsePromiseError { id: 5, data: boom() })
    );
    assert_eq!(
        PendingMessage::ResponsePromiseError { id: 5 }.finish(CodePacket::Int32(1)),
        Err(CodecError::ExpectedObject)
    );
    assert_eq!(
        PendingMessage::ResponsePromiseError { id: 5 }.finish(CodePacket::Undefined),
        Err(CodecError::InvalidJson)
    );
}

#[test]
fn head_faults() {
    assert_eq!(read_head(CodePacket::Int32(100)), Err(CodecError::ExpectedHeaderArray));
    assert_eq!(read_head(CodePacket::Array(vec![])), Err(CodecError::ExpectedPacketType));
    assert_eq!(
        read_head(CodePacket::Array(vec![CodePacket::Int32(105), CodePacket::Int32(1)])),
        Err(CodecError::UnknownPacketType(105))
    );
    assert_eq!(
        read_head(CodePacket::Array(vec![CodePacket::Int32(204)])),
        Err(CodecError::ExpectedRequestId)
    );
    assert_eq!(
        read_head(CodePacket::Array(vec![CodePacket::Int32(102), CodePacket::Int32(1)])),
        Err(CodecError::ExpectedChannelName)
    );
    assert_eq!(
        read_head(CodePacket::Array(vec![
            CodePacket::Int32(102),
            CodePacket::Int32(1),
            CodePacket::String("c".to_string())
        ])),
        Err(CodecError::ExpectedRequestName)
    );
}
