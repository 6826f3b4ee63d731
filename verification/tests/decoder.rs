use codeipc::decode::Decoder;
use codeipc::error::CodecError;
use codeipc::packets::CodePacket;

fn encode(p: &CodePacket) -> Vec<u8> {
    let mut out = Vec::new();
    p.to_writer(&mut out).unwrap();
    out
}

fn samples() -> Vec<CodePacket> {
    vec![
        CodePacket::Undefined,
        CodePacket::String("h\u{e9}llo".to_string()),
        CodePacket::Buffer(vec![5; 200]),
        CodePacket::VSBuffer(vec![]),
        CodePacket::Object(b"{\"a\":[1,2]}".to_vec()),
        CodePacket::Int32(-77),
        CodePacket::Int32(i32::MIN),
        CodePacket::Array(vec![]),
        CodePacket::Array(vec![
            CodePacket::Array(vec![CodePacket::Int32(300), CodePacket::Array(vec![])]),
            CodePacket::String("x".to_string()),
            CodePacket::Array(vec![CodePacket::Array(vec![CodePacket::Buffer(vec![1, 2, 3])])]),
        ]),
    ]
}

/// Hands `bytes` to the decoder in pieces of at most `piece` bytes, keeping
/// what the decoder did not take for the next piece.
fn feed_in_pieces(bytes: &[u8], piece: usize) -> Result<(CodePacket, usize), CodecError> {
    let mut decoder = Decoder::new();
    let mut held: Vec<u8> = Vec::new();
    let mut taken = 0;
    let mut at = 0;
    loop {
        match decoder.feed(&held)? {
            (Some(p), used) => return Ok((p, taken + used)),
            (None, used) => {
                held.drain(..used);
                taken += used;
            }
        }
        if at == bytes.len() {
            return Err(CodecError::UnexpectedEof);
        }
        let end = (at + piece).min(bytes.len());
        held.extend_from_slice(&bytes[at..end]);
        at = end;
    }
}

#[test]
fn whole_input_gives_the_packet() {
    for p in samples() {
        let bytes = encode(&p);
        let mut decoder = Decoder::new();
        assert_eq!(decoder.feed(&bytes), Ok((Some(p), bytes.len())));
    }
}

#[test]
fn byte_by_byte_gives_the_same_packet() {
    for p in samples() {
        let bytes = encode(&p);
        assert_eq!(feed_in_pieces(&bytes, 1), Ok((p, bytes.len())));
    }
}

#[test]
fn any_piece_length_gives_the_same_packet() {
    for p in samples() {
        let bytes = encode(&p);
        for piece in 1..=bytes.len() {
            let (back, used) = feed_in_pieces(&bytes, piece).unwrap();
            assert_eq!(back, p);
            assert_eq!(used, bytes.len());
        }
    }
}

#[test]
fn pieces_agree_with_reading_at_once() {
    let inputs: Vec<Vec<u8>> = vec![
        vec![],
        vec![4, 2, 0],
        vec![4, 2, 0, 9],
        vec![1, 2, 0xc3, 0x28],
        vec![2, 0xff, 0xff, 0xff, 0xff, 0x0f, 1],
        vec![4, 1, 4, 1, 6, 0x80],
        vec![200],
        vec![4, 3, 6, 1, 4, 0, 5, 1, b'1', 0, 0],
    ];
    for bytes in inputs {
        let at_once = CodePacket::from_reader(&bytes);
        for piece in 1..=bytes.len().max(1) {
            assert_eq!(feed_in_pieces(&bytes, piece), at_once);
        }
    }
}

#[test]
fn the_decoder_keeps_open_arrays_between_pieces() {
    let mut decoder = Decoder::new();
    // an array of two items opens; the first item is there, the second is not
    assert_eq!(decoder.feed(&[4, 2, 6, 1]), Ok((None, 4)));
    // the start of a string: its header is not taken while its payload is short
    assert_eq!(decoder.feed(&[1, 3, b'a']), Ok((None, 0)));
    assert_eq!(
        decoder.feed(&[1, 3, b'a', b'b', b'c', 0]),
        Ok((
            Some(CodePacket::Array(vec![
                CodePacket::Int32(1),
                CodePacket::String("abc".to_string())
            ])),
            5
        ))
    );
}

#[test]
fn the_decoder_reads_one_packet_after_the_other() {
    let mut bytes = Vec::new();
    for p in samples() {
        bytes.extend_from_slice(&encode(&p));
    }
    let mut decoder = Decoder::new();
    let mut at = 0;
    for p in samples() {
        let (back, used) = decoder.feed(&bytes[at..]).unwrap();
        assert_eq!(back, Some(p));
        at += used;
    }
    assert_eq!(at, bytes.len());
    assert_eq!(decoder.feed(&bytes[at..]), Ok((None, 0)));
}

#[test]
fn the_decoder_starts_afresh_after_a_protocol_error() {
    let mut decoder = Decoder::new();
    assert_eq!(decoder.feed(&[4, 2, 0]), Ok((None, 3)));
    assert_eq!(decoder.feed(&[7]), Err(CodecError::UnexpectedPacketType(7)));
    assert_eq!(decoder.feed(&[6, 5]), Ok((Some(CodePacket::Int32(5)), 2)));
}

#[test]
fn deep_nesting_in_small_pieces() {
    let depth = 2000;
    let mut bytes = Vec::new();
    for _ in 0..depth {
        bytes.extend_from_slice(&[4, 1]);
    }
    bytes.push(0);
    let (back, used) = feed_in_pieces(&bytes, 3).unwrap();
    assert_eq!(used, bytes.len());
    let mut cur = back;
    let mut seen = 0;
    loop {
        match cur {
            CodePacket::Array(mut items) => {
                cur = items.pop().unwrap();
                seen += 1;
            }
            other => {
                assert_eq!(other, CodePacket::Undefined);
                break;
            }
        }
    }
    assert_eq!(seen, depth);
}
