//! The wire format of packets: what bytes a packet is written as, what
//! reading bytes gives, and how the two go together.
//!
//! A packet is one tag byte and, depending on the tag, a variable-length
//! quantity and a payload: the quantity is the integer of an integer packet,
//! the byte length of a string, buffer or object, and the item count of an
//! array, whose items follow as packets of their own.

use vstd::prelude::*;
use vstd::utf8::{
    decode_utf8, encode_utf8, encode_utf8_decode_utf8, encode_utf8_valid_utf8, valid_utf8,
};
use crate::error::CodecError;
use crate::packets::{
    fits_wire, Packet, DELIM_ARRAY, DELIM_BUFFER, DELIM_INT, DELIM_OBJECT, DELIM_STRING,
    DELIM_UNDEFINED, DELIM_VSBUFFER, MAX_DELIM, MAX_LENGTH,
};
use crate::vql::{
    lemma_parse_bounds, lemma_vql_exact, lemma_vql_round_trip, lemma_vql_stable,
    lemma_vql_truncated, vql_decoding, vql_encoding,
};

verus! {

/// A tag byte followed by a length or count.
pub open spec fn sized_header(tag: u8, size: nat) -> Seq<u8> {
    seq![tag] + vql_encoding(size as i32)
}

/// The bytes that stand for `p` on the wire.
pub open spec fn packet_bytes(p: Packet) -> Seq<u8>
    decreases p, 0nat,
{
    match p {
        Packet::Undefined => seq![DELIM_UNDEFINED],
        Packet::String(s) => sized_header(DELIM_STRING, encode_utf8(s).len()) + encode_utf8(s),
        Packet::Buffer(b) => sized_header(DELIM_BUFFER, b.len()) + b,
        Packet::VSBuffer(b) => sized_header(DELIM_VSBUFFER, b.len()) + b,
        Packet::Array(items) => sized_header(DELIM_ARRAY, items.len()) + items_bytes(items, 0),
        Packet::Object(b) => sized_header(DELIM_OBJECT, b.len()) + b,
        Packet::Int32(v) => seq![DELIM_INT] + vql_encoding(v),
    }
}

/// The encodings of `items[from..]`, one after the other.
pub open spec fn items_bytes(items: Seq<Packet>, from: nat) -> Seq<u8>
    decreases items, items.len() - from,
{
    if from >= items.len() {
        Seq::empty()
    } else {
        packet_bytes(items[from as int]) + items_bytes(items, from + 1)
    }
}

/// What reading one packet from the front of `bytes` gives: the packet and
/// the number of bytes it takes, or the failure.
pub open spec fn decode_packet(bytes: Seq<u8>) -> Result<(Packet, nat), CodecError>
    decreases bytes.len(), 0nat,
{
    if bytes.len() == 0 {
        Err(CodecError::UnexpectedEof)
    } else if bytes[0] == DELIM_UNDEFINED {
        Ok((Packet::Undefined, 1nat))
    } else if bytes[0] == DELIM_INT {
        match vql_decoding(bytes.skip(1)) {
            Some((v, n)) => Ok((Packet::Int32(v), 1 + n)),
            None => Err(CodecError::UnexpectedEof),
        }
    } else if bytes[0] > MAX_DELIM {
        Err(CodecError::UnexpectedPacketType(bytes[0]))
    } else {
        match vql_decoding(bytes.skip(1)) {
            None => Err(CodecError::UnexpectedEof),
            Some((len, n)) => {
                let head = 1 + n;
                if len < 0 {
                    Err(CodecError::NegativeLength(len))
                } else if bytes[0] == DELIM_ARRAY {
                    proof {
                        lemma_parse_bounds(bytes.skip(1));
                    }
                    match decode_items(bytes.skip(head as int), len as nat) {
                        Ok((items, used)) => Ok((Packet::Array(items), head + used)),
                        Err(e) => Err(e),
                    }
                } else if bytes.len() < head + len {
                    Err(CodecError::UnexpectedEof)
                } else {
                    let payload = bytes.subrange(head as int, head + len);
                    let end = (head + len) as nat;
                    if bytes[0] == DELIM_STRING {
                        if valid_utf8(payload) {
                            Ok((Packet::String(decode_utf8(payload)), end))
                        } else {
                            Err(CodecError::InvalidUtf8)
                        }
                    } else if bytes[0] == DELIM_BUFFER {
                        Ok((Packet::Buffer(payload), end))
                    } else if bytes[0] == DELIM_VSBUFFER {
                        Ok((Packet::VSBuffer(payload), end))
                    } else {
                        Ok((Packet::Object(payload), end))
                    }
                }
            },
        }
    }
}

/// What reading `count` packets in a row from the front of `bytes` gives.
///
/// A packet never takes more bytes than there are, so the test on `used` is
/// never met: it only lets this definition be seen to end.
pub open spec fn decode_items(bytes: Seq<u8>, count: nat) -> Result<(Seq<Packet>, nat), CodecError>
    decreases bytes.len(), count + 1,
{
    if count == 0 {
        Ok((Seq::empty(), 0nat))
    } else {
        match decode_packet(bytes) {
            Err(e) => Err(e),
            Ok((first, used)) => {
                if used > bytes.len() {
                    Err(CodecError::UnexpectedEof)
                } else {
                    match decode_items(bytes.skip(used as int), (count - 1) as nat) {
                        Err(e) => Err(e),
                        Ok((others, more)) => Ok((seq![first] + others, used + more)),
                    }
                }
            },
        }
    }
}

/// A packet that decodes takes at least one byte and no more than there are;
/// a run of packets that decodes has as many items as were asked for.
pub proof fn lemma_decode_bounds(bytes: Seq<u8>, count: nat)
    ensures
        decode_packet(bytes) matches Ok((_, n)) ==> 1 <= n <= bytes.len(),
        decode_items(bytes, count) matches Ok((items, n)) ==> n <= bytes.len() && items.len()
            == count,
    decreases bytes.len(), count + 1,
{
    if bytes.len() > 0 {
        lemma_parse_bounds(bytes.skip(1));
        if let Some((len, n)) = vql_decoding(bytes.skip(1)) {
            if bytes[0] == DELIM_ARRAY && len >= 0 {
                lemma_decode_bounds(bytes.skip((1 + n) as int), len as nat);
            }
        }
    }
    if count > 0 {
        lemma_decode_bounds(bytes, 0);
        if let Ok((_, used)) = decode_packet(bytes) {
            lemma_decode_bounds(bytes.skip(used as int), (count - 1) as nat);
        }
    }
}

proof fn lemma_sized_header_decodes(tag: u8, size: nat, rest: Seq<u8>)
    requires
        size <= MAX_LENGTH,
    ensures
        (sized_header(tag, size) + rest)[0] == tag,
        vql_decoding((sized_header(tag, size) + rest).skip(1)) == Some(
            (size as i32, (sized_header(tag, size).len() - 1) as nat),
        ),
        size as i32 == size,
        (sized_header(tag, size) + rest).skip(sized_header(tag, size).len() as int) == rest,
{
    let bytes = sized_header(tag, size) + rest;
    assert(bytes.skip(1) =~= vql_encoding(size as i32) + rest);
    lemma_vql_round_trip(size as i32, rest);
    assert(bytes.skip(sized_header(tag, size).len() as int) =~= rest);
}

/// Decoding the encoding of a packet, whatever follows it, gives the packet
/// back and consumes exactly the encoding.
pub proof fn lemma_packet_round_trip(p: Packet, rest: Seq<u8>)
    requires
        fits_wire(p),
    ensures
        decode_packet(packet_bytes(p) + rest) == Ok::<(Packet, nat), CodecError>(
            (p, packet_bytes(p).len()),
        ),
    decreases p, 0nat,
{
    let bytes = packet_bytes(p) + rest;
    match p {
        Packet::Undefined => {
            assert(bytes[0] == DELIM_UNDEFINED);
        },
        Packet::Int32(v) => {
            assert(bytes[0] == DELIM_INT);
            assert(bytes.skip(1) =~= vql_encoding(v) + rest);
            lemma_vql_round_trip(v, rest);
        },
        Packet::String(s) => {
            let payload = encode_utf8(s);
            encode_utf8_valid_utf8(s);
            encode_utf8_decode_utf8(s);
            lemma_payload_round_trip(DELIM_STRING, payload, rest);
        },
        Packet::Buffer(b) => {
            lemma_payload_round_trip(DELIM_BUFFER, b, rest);
        },
        Packet::VSBuffer(b) => {
            lemma_payload_round_trip(DELIM_VSBUFFER, b, rest);
        },
        Packet::Object(b) => {
            lemma_payload_round_trip(DELIM_OBJECT, b, rest);
        },
        Packet::Array(items) => {
            let body = items_bytes(items, 0);
            assert(bytes =~= sized_header(DELIM_ARRAY, items.len()) + (body + rest));
            lemma_sized_header_decodes(DELIM_ARRAY, items.len(), body + rest);
            lemma_items_round_trip(items, 0, rest);
            assert(items.skip(0) =~= items);
        },
    }
}

proof fn lemma_payload_round_trip(tag: u8, payload: Seq<u8>, rest: Seq<u8>)
    requires
        payload.len() <= MAX_LENGTH,
    ensures
        ({
            let head = sized_header(tag, payload.len());
            let bytes = head + payload + rest;
            &&& bytes[0] == tag
            &&& vql_decoding(bytes.skip(1)) == Some(
                (payload.len() as i32, (head.len() - 1) as nat),
            )
            &&& payload.len() as i32 == payload.len()
            &&& bytes.len() >= head.len() + payload.len()
            &&& bytes.subrange(head.len() as int, (head.len() + payload.len()) as int) == payload
        }),
{
    let head = sized_header(tag, payload.len());
    let bytes = head + payload + rest;
    assert(bytes =~= head + (payload + rest));
    lemma_sized_header_decodes(tag, payload.len(), payload + rest);
    assert(bytes.subrange(head.len() as int, (head.len() + payload.len()) as int) =~= payload);
}

/// Decoding the encodings of `items[from..]`, whatever follows them, gives
/// those items back in order and consumes exactly their encodings.
pub proof fn lemma_items_round_trip(items: Seq<Packet>, from: nat, rest: Seq<u8>)
    requires
        from <= items.len(),
        forall|i: int| 0 <= i < items.len() ==> fits_wire(#[trigger] items[i]),
    ensures
        decode_items(items_bytes(items, from) + rest, (items.len() - from) as nat) == Ok::<
            (Seq<Packet>, nat),
            CodecError,
        >((items.skip(from as int), items_bytes(items, from).len())),
    decreases items, items.len() - from,
{
    if from == items.len() {
        assert(items.skip(from as int) =~= Seq::<Packet>::empty());
    } else {
        let first = packet_bytes(items[from as int]);
        let tail = items_bytes(items, from + 1);
        let bytes = items_bytes(items, from) + rest;
        assert(bytes =~= first + (tail + rest));
        lemma_packet_round_trip(items[from as int], tail + rest);
        assert(bytes.skip(first.len() as int) =~= tail + rest);
        lemma_items_round_trip(items, from + 1, rest);
        assert(seq![items[from as int]] + items.skip((from + 1) as int) =~= items.skip(from as int));
    }
}

/// A proper prefix of a packet's encoding never decodes: the decoder runs
/// out of input.
pub proof fn lemma_packet_truncated(p: Packet, k: int)
    requires
        fits_wire(p),
        0 <= k < packet_bytes(p).len(),
    ensures
        decode_packet(packet_bytes(p).take(k)) == Err::<(Packet, nat), CodecError>(
            CodecError::UnexpectedEof,
        ),
    decreases p, 0nat,
{
    let full = packet_bytes(p);
    let cut = full.take(k);
    if k == 0 {
    } else {
        assert(cut[0] == full[0]);
        match p {
            Packet::Undefined => {},
            Packet::Int32(v) => {
                assert(cut.skip(1) =~= vql_encoding(v).take(k - 1));
                lemma_vql_truncated(v, k - 1);
            },
            Packet::String(s) => {
                lemma_payload_truncated(DELIM_STRING, encode_utf8(s), k);
            },
            Packet::Buffer(b) => {
                lemma_payload_truncated(DELIM_BUFFER, b, k);
            },
            Packet::VSBuffer(b) => {
                lemma_payload_truncated(DELIM_VSBUFFER, b, k);
            },
            Packet::Object(b) => {
                lemma_payload_truncated(DELIM_OBJECT, b, k);
            },
            Packet::Array(items) => {
                let head = sized_header(DELIM_ARRAY, items.len());
                let body = items_bytes(items, 0);
                if k < head.len() {
                    assert(cut.skip(1) =~= vql_encoding(items.len() as i32).take(k - 1));
                    lemma_vql_truncated(items.len() as i32, k - 1);
                } else {
                    let part = body.take(k - head.len());
                    assert(cut =~= head + part);
                    lemma_sized_header_decodes(DELIM_ARRAY, items.len(), part);
                    lemma_items_truncated(items, 0, k - head.len());
                }
            },
        }
    }
}

proof fn lemma_payload_truncated(tag: u8, payload: Seq<u8>, k: int)
    requires
        payload.len() <= MAX_LENGTH,
        1 <= k < (sized_header(tag, payload.len()) + payload).len(),
    ensures
        ({
            let head = sized_header(tag, payload.len());
            let cut = (head + payload).take(k);
            &&& cut[0] == tag
            &&& match vql_decoding(cut.skip(1)) {
                Some((len, n)) => len == payload.len() && cut.len() < 1 + n + len,
                None => true,
            }
        }),
{
    let head = sized_header(tag, payload.len());
    let cut = (head + payload).take(k);
    if k < head.len() {
        assert(cut.skip(1) =~= vql_encoding(payload.len() as i32).take(k - 1));
        lemma_vql_truncated(payload.len() as i32, k - 1);
    } else {
        let part = payload.take(k - head.len());
        assert(cut =~= head + part);
        lemma_sized_header_decodes(tag, payload.len(), part);
    }
}

/// A proper prefix of the encodings of `items[from..]` never decodes as that
/// many packets.
pub proof fn lemma_items_truncated(items: Seq<Packet>, from: nat, k: int)
    requires
        from <= items.len(),
        forall|i: int| 0 <= i < items.len() ==> fits_wire(#[trigger] items[i]),
        0 <= k < items_bytes(items, from).len(),
    ensures
        decode_items(items_bytes(items, from).take(k), (items.len() - from) as nat) == Err::<
            (Seq<Packet>, nat),
            CodecError,
        >(CodecError::UnexpectedEof),
    decreases items, items.len() - from,
{
    let first = packet_bytes(items[from as int]);
    let tail = items_bytes(items, from + 1);
    let cut = items_bytes(items, from).take(k);
    if k < first.len() {
        assert(cut =~= first.take(k));
        lemma_packet_truncated(items[from as int], k);
    } else {
        let part = tail.take(k - first.len());
        assert(cut =~= first + part);
        lemma_packet_round_trip(items[from as int], part);
        assert(cut.skip(first.len() as int) =~= part);
        lemma_items_truncated(items, from + 1, k - first.len());
    }
}

/// An outcome other than running out of input stands whatever follows the
/// input: what arrives later changes neither a packet that was read nor a
/// protocol error that was found.
pub proof fn lemma_packet_stable(bytes: Seq<u8>, more: Seq<u8>)
    requires
        decode_packet(bytes) != Err::<(Packet, nat), CodecError>(CodecError::UnexpectedEof),
    ensures
        decode_packet(bytes + more) == decode_packet(bytes),
    decreases bytes.len(), 0nat,
{
    let longer = bytes + more;
    assert(longer[0] == bytes[0]);
    if bytes[0] != DELIM_UNDEFINED && bytes[0] <= MAX_DELIM {
        assert(longer.skip(1) =~= bytes.skip(1) + more);
        lemma_vql_stable(bytes.skip(1), more);
        lemma_parse_bounds(bytes.skip(1));
        let (len, n) = vql_decoding(bytes.skip(1))->Some_0;
        let head = 1 + n;
        if bytes[0] == DELIM_ARRAY && len >= 0 {
            assert(longer.skip(head as int) =~= bytes.skip(head as int) + more);
            lemma_items_stable(bytes.skip(head as int), len as nat, more);
        } else if bytes[0] != DELIM_INT && len >= 0 {
            assert(longer.subrange(head as int, head + len) =~= bytes.subrange(
                head as int,
                head + len,
            ));
        }
    }
}

/// The same of a run of packets.
pub proof fn lemma_items_stable(bytes: Seq<u8>, count: nat, more: Seq<u8>)
    requires
        decode_items(bytes, count) != Err::<(Seq<Packet>, nat), CodecError>(
            CodecError::UnexpectedEof,
        ),
    ensures
        decode_items(bytes + more, count) == decode_items(bytes, count),
    decreases bytes.len(), count + 1,
{
    if count > 0 {
        lemma_packet_stable(bytes, more);
        lemma_decode_bounds(bytes, 0);
        if let Ok((_, used)) = decode_packet(bytes) {
            assert((bytes + more).skip(used as int) =~= bytes.skip(used as int) + more);
            lemma_items_stable(bytes.skip(used as int), (count - 1) as nat, more);
        }
    }
}

/// A quantity at the front of `bytes` reads the same with any other bytes
/// behind it.
proof fn lemma_vql_local(bytes: Seq<u8>, n: nat, rest: Seq<u8>)
    requires
        vql_decoding(bytes) matches Some((_, m)) && m == n,
    ensures
        n <= bytes.len(),
        vql_decoding(bytes.take(n as int) + rest) == vql_decoding(bytes),
{
    lemma_parse_bounds(bytes);
    lemma_vql_exact(bytes);
    lemma_vql_stable(bytes.take(n as int), rest);
}

/// A packet that decodes from `bytes` decodes to the same from the bytes
/// that it takes alone.
pub proof fn lemma_packet_exact(bytes: Seq<u8>)
    requires
        decode_packet(bytes) is Ok,
    ensures
        decode_packet(bytes.take(decode_packet(bytes)->Ok_0.1 as int)) == decode_packet(bytes),
    decreases bytes.len(), 0nat,
{
    lemma_decode_bounds(bytes, 0);
    let total = decode_packet(bytes)->Ok_0.1;
    let own = bytes.take(total as int);
    assert(own[0] == bytes[0]);
    if bytes[0] != DELIM_UNDEFINED {
        lemma_parse_bounds(bytes.skip(1));
        let (len, n) = vql_decoding(bytes.skip(1))->Some_0;
        let head = 1 + n;
        assert(own.skip(1) =~= bytes.skip(1).take(n as int) + bytes.subrange(
            head as int,
            total as int,
        ));
        lemma_vql_local(bytes.skip(1), n, bytes.subrange(head as int, total as int));
        if bytes[0] == DELIM_ARRAY {
            let inner = bytes.skip(head as int);
            lemma_decode_bounds(inner, len as nat);
            assert(own.skip(head as int) =~= inner.take(total - head));
            lemma_items_exact(inner, len as nat);
        } else if bytes[0] != DELIM_INT {
            assert(own.subrange(head as int, head + len) =~= bytes.subrange(
                head as int,
                head + len,
            ));
        }
    }
}

/// The same of a run of packets.
pub proof fn lemma_items_exact(bytes: Seq<u8>, count: nat)
    requires
        decode_items(bytes, count) is Ok,
    ensures
        decode_items(bytes.take(decode_items(bytes, count)->Ok_0.1 as int), count) == decode_items(
            bytes,
            count,
        ),
    decreases bytes.len(), count + 1,
{
    if count > 0 {
        lemma_decode_bounds(bytes, count);
        lemma_decode_bounds(bytes, 0);
        let total = decode_items(bytes, count)->Ok_0.1;
        let own = bytes.take(total as int);
        let used = decode_packet(bytes)->Ok_0.1;
        let behind = bytes.skip(used as int);
        lemma_decode_bounds(behind, (count - 1) as nat);
        lemma_packet_exact(bytes);
        assert(own =~= bytes.take(used as int) + bytes.subrange(used as int, total as int));
        lemma_packet_stable(bytes.take(used as int), bytes.subrange(used as int, total as int));
        assert(own.skip(used as int) =~= behind.take(total - used));
        lemma_items_exact(behind, (count - 1) as nat);
    }
}

/// A packet at the front of `bytes` reads the same with any other bytes
/// behind it: reading looks at the packet's own bytes and no further.
pub proof fn lemma_packet_local(bytes: Seq<u8>, rest: Seq<u8>)
    requires
        decode_packet(bytes) is Ok,
    ensures
        decode_packet(bytes.take(decode_packet(bytes)->Ok_0.1 as int) + rest) == decode_packet(
            bytes,
        ),
{
    lemma_packet_exact(bytes);
    lemma_packet_stable(bytes.take(decode_packet(bytes)->Ok_0.1 as int), rest);
}

/// The array packet whose items are arrays with the items `rows[i]`.
pub open spec fn array_of_arrays(rows: Seq<Seq<Packet>>) -> Packet {
    Packet::Array(Seq::new(rows.len(), |i: int| Packet::Array(rows[i])))
}

/// An array of arrays decodes to as many outer items as it was made of, each
/// with the items it was made of, in their order. This holds for any number
/// of rows and any length of a row, zero too, and whatever the items are,
/// arrays of any depth among them.
pub proof fn lemma_array_of_arrays_round_trip(rows: Seq<Seq<Packet>>, rest: Seq<u8>)
    requires
        fits_wire(array_of_arrays(rows)),
    ensures
        decode_packet(packet_bytes(array_of_arrays(rows)) + rest) matches Ok(
            (Packet::Array(outer), used),
        ) && used == packet_bytes(array_of_arrays(rows)).len() && outer.len() == rows.len()
            && forall|i: int| 0 <= i < rows.len() ==> #[trigger] outer[i] == Packet::Array(rows[i]),
{
    lemma_packet_round_trip(array_of_arrays(rows), rest);
}

/// Input that begins with a byte above the greatest tag is refused with a
/// protocol error that names the byte, whatever follows it.
pub proof fn lemma_unknown_tag_refused(bytes: Seq<u8>)
    requires
        bytes.len() >= 1,
        bytes[0] > MAX_DELIM,
    ensures
        decode_packet(bytes) == Err::<(Packet, nat), CodecError>(
            CodecError::UnexpectedPacketType(bytes[0]),
        ),
        CodecError::UnexpectedPacketType(bytes[0]).is_protocol_error(),
{
}

} // verus!
