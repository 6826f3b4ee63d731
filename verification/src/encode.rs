//! Writing packets.

use vstd::prelude::*;
use crate::error::CodecError;
use crate::packets::{
    fits_wire, lemma_array_view, views, CodePacket, Packet, DELIM_ARRAY, DELIM_BUFFER, DELIM_INT,
    DELIM_OBJECT, DELIM_STRING, DELIM_UNDEFINED, DELIM_VSBUFFER,
};
use crate::vql::write_vql;
use crate::wire::{items_bytes, packet_bytes, sized_header};

verus! {

/// Appends `bytes` to `writer`.
pub(crate) fn write_all(writer: &mut Vec<u8>, bytes: &[u8])
    ensures
        final(writer)@ == old(writer)@ + bytes@,
{
    let mut i: usize = 0;
    while i < bytes.len()
        invariant
            i <= bytes@.len(),
            writer@ == old(writer)@ + bytes@.take(i as int),
        decreases bytes@.len() - i,
    {
        writer.push(bytes[i]);
        i = i + 1;
        assert(bytes@.take(i as int) =~= bytes@.take(i - 1).push(bytes@[i - 1]));
    }
    assert(bytes@.take(i as int) =~= bytes@);
}

/// The tag byte and the length or count that open a sized packet. A size
/// above `MAX_LENGTH` is cut to its low 32 bits.
pub fn make_sized_header(type_marker: u8, size: usize) -> (header: Vec<u8>)
    ensures
        header@ == sized_header(type_marker, size as nat),
{
    let mut header: Vec<u8> = Vec::new();
    header.push(type_marker);
    assert(header@ =~= seq![type_marker]);
    write_vql(#[verifier::truncate] (size as i32), &mut header);
    header
}

impl CodePacket {
    /// Appends the packet's encoding to `writer`.
    fn write_packet(&self, writer: &mut Vec<u8>)
        requires
            fits_wire(self@),
        ensures
            final(writer)@ == old(writer)@ + packet_bytes(self@),
        decreases self,
    {
        match self {
            CodePacket::Undefined => {
                writer.push(DELIM_UNDEFINED);
                assert(writer@ =~= old(writer)@ + packet_bytes(self@));
            },
            CodePacket::String(s) => {
                let payload = s.as_str().as_bytes();
                let header = make_sized_header(DELIM_STRING, payload.len());
                write_all(writer, header.as_slice());
                write_all(writer, payload);
                assert(writer@ =~= old(writer)@ + packet_bytes(self@));
            },
            CodePacket::Buffer(b) => {
                let header = make_sized_header(DELIM_BUFFER, b.len());
                write_all(writer, header.as_slice());
                write_all(writer, b.as_slice());
                assert(writer@ =~= old(writer)@ + packet_bytes(self@));
            },
            CodePacket::VSBuffer(b) => {
                let header = make_sized_header(DELIM_VSBUFFER, b.len());
                write_all(writer, header.as_slice());
                write_all(writer, b.as_slice());
                assert(writer@ =~= old(writer)@ + packet_bytes(self@));
            },
            CodePacket::Object(b) => {
                let header = make_sized_header(DELIM_OBJECT, b.len());
                write_all(writer, header.as_slice());
                write_all(writer, b.as_slice());
                assert(writer@ =~= old(writer)@ + packet_bytes(self@));
            },
            CodePacket::Int32(v) => {
                writer.push(DELIM_INT);
                write_vql(*v, writer);
                assert(writer@ =~= old(writer)@ + packet_bytes(self@));
            },
            CodePacket::Array(items) => {
                proof {
                    lemma_array_view(*items);
                }
                let header = make_sized_header(DELIM_ARRAY, items.len());
                write_all(writer, header.as_slice());
                let ghost all = views(items@);
                let mut i: usize = 0;
                while i < items.len()
                    invariant
                        i <= items@.len(),
                        all == views(items@),
                        self@ == Packet::Array(all),
                        fits_wire(self@),
                        writer@ + items_bytes(all, i as nat) == old(writer)@ + packet_bytes(self@),
                        forall|j: int| 0 <= j < items@.len() ==> decreases_to!(self => items@[j]),
                    decreases items@.len() - i,
                {
                    let ghost before = writer@;
                    assert(fits_wire(all[i as int]));
                    items[i].write_packet(writer);
                    assert(before + items_bytes(all, i as nat) =~= writer@ + items_bytes(
                        all,
                        (i + 1) as nat,
                    ));
                    i = i + 1;
                }
                assert(writer@ + items_bytes(all, i as nat) =~= writer@);
            },
        }
    }

    /// Appends the packet's encoding to `writer`. A packet with a length or
    /// count above `MAX_LENGTH` is refused, and `writer` is left as it was.
    pub fn to_writer(&self, writer: &mut Vec<u8>) -> (r: Result<(), CodecError>)
        ensures
            fits_wire(self@) ==> r is Ok && final(writer)@ == old(writer)@ + packet_bytes(self@),
            !fits_wire(self@) ==> final(writer)@ == old(writer)@ && r == Err::<(), CodecError>(
                CodecError::LengthOverflow,
            ),
    {
        if self.fits() {
            self.write_packet(writer);
            Ok(())
        } else {
            Err(CodecError::LengthOverflow)
        }
    }
}

} // verus!
