//! Reading packets.
//!
//! Arrays are read without recursion. The arrays that still lack items are
//! kept on a stack of frames; a packet that has been read goes into the
//! innermost of them, and a frame that has all its items becomes an array
//! packet that goes into the frame below. The bottom frame stands for no
//! array: it waits for the one packet that is being read.
//!
//! The stack belongs to a `Decoder`, which takes its input in pieces: where
//! the input ends inside a packet, the decoder keeps the open arrays and
//! goes on with the next piece. Whatever the pieces, it reads what reading
//! all the input at once reads.

use vstd::prelude::*;
use vstd::slice::{slice_subrange, slice_to_vec};
use vstd::utf8::{decode_utf8, valid_utf8};
use crate::error::CodecError;
use crate::packets::{
    lemma_array_view, views, CodePacket, Packet, DELIM_ARRAY, DELIM_BUFFER, DELIM_INT,
    DELIM_STRING, DELIM_UNDEFINED, DELIM_VSBUFFER, MAX_DELIM,
};
use crate::vql::{lemma_parse_bounds, lemma_vql_exact, lemma_vql_stable, read_vql_at, vql_decoding};
use crate::wire::{decode_items, decode_packet, lemma_decode_bounds, lemma_packet_local};

verus! {

/// `String::from_utf8` of std: the string that `bytes` spell in UTF-8, and
/// `None` where they are not valid UTF-8.
#[verifier::external_body]
fn string_from_utf8(bytes: Vec<u8>) -> (r: Option<String>)
    ensures
        match r {
            Some(s) => valid_utf8(bytes@) && s@ == decode_utf8(bytes@),
            None => !valid_utf8(bytes@),
        },
{
    match String::from_utf8(bytes) {
        Ok(s) => Some(s),
        Err(_) => None,
    }
}

/// An array whose items are still being read.
struct Frame {
    /// How many items the array was announced with.
    expected: usize,
    /// The items read so far, in order.
    items: Vec<CodePacket>,
}

/// What a frame stands for.
struct OpenArray {
    expected: nat,
    items: Seq<Packet>,
}

impl View for Frame {
    type V = OpenArray;

    closed spec fn view(&self) -> OpenArray {
        OpenArray { expected: self.expected as nat, items: views(self.items@) }
    }
}

/// The views of a stack of frames, outermost first.
spec fn open_arrays(stack: Seq<Frame>) -> Seq<OpenArray> {
    Seq::new(stack.len(), |i: int| stack[i]@)
}

/// Every open array still lacks an item.
spec fn all_open(frames: Seq<OpenArray>) -> bool {
    forall|i: int| 0 <= i < frames.len() ==> (#[trigger] frames[i]).items.len() < frames[i].expected
}

/// `frames` with `p` added to the innermost open array.
spec fn with_item(frames: Seq<OpenArray>, p: Packet) -> Seq<OpenArray> {
    frames.drop_last().push(
        OpenArray { expected: frames.last().expected, items: frames.last().items.push(p) },
    )
}

/// `n` more bytes consumed before an outcome.
spec fn after(n: nat, r: Result<(Packet, nat), CodecError>) -> Result<
    (Packet, nat),
    CodecError,
> {
    match r {
        Ok((p, used)) => Ok((p, n + used)),
        Err(e) => Err(e),
    }
}

/// What finishing the open arrays `frames` from `bytes` gives: the items that
/// the innermost array lacks are read, the array is added to the one around
/// it, and so on outwards. The outermost frame stands for no array: its first
/// item is the result.
spec fn resume(frames: Seq<OpenArray>, bytes: Seq<u8>) -> Result<(Packet, nat), CodecError>
    decreases frames.len(),
{
    if frames.len() == 0 {
        Err(CodecError::UnexpectedEof)
    } else {
        let top = frames.last();
        match decode_items(bytes, (top.expected - top.items.len()) as nat) {
            Err(e) => Err(e),
            Ok((more, used)) => {
                let items = top.items + more;
                if frames.len() == 1 {
                    Ok((items[0], used))
                } else {
                    after(
                        used,
                        resume(
                            with_item(frames.drop_last(), Packet::Array(items)),
                            bytes.skip(used as int),
                        ),
                    )
                }
            },
        }
    }
}

/// Reading the next packet and adding it to the innermost open array leaves
/// the outcome as it was.
proof fn lemma_resume_item(frames: Seq<OpenArray>, bytes: Seq<u8>, p: Packet, used: nat)
    requires
        frames.len() >= 1,
        frames.last().items.len() < frames.last().expected,
        decode_packet(bytes) == Ok::<(Packet, nat), CodecError>((p, used)),
    ensures
        used <= bytes.len(),
        resume(frames, bytes) == after(used, resume(with_item(frames, p), bytes.skip(used as int))),
{
    lemma_decode_bounds(bytes, 0);
    let top = frames.last();
    let lacking = (top.expected - top.items.len()) as nat;
    let next = with_item(frames, p);
    let rest = bytes.skip(used as int);
    assert(next.last().items == top.items.push(p));
    assert(next.drop_last() =~= frames.drop_last());
    match decode_items(rest, (lacking - 1) as nat) {
        Err(e) => {},
        Ok((others, more)) => {
            lemma_decode_bounds(rest, (lacking - 1) as nat);
            assert(top.items + (seq![p] + others) =~= top.items.push(p) + others);
            assert(bytes.skip((used + more) as int) =~= rest.skip(more as int));
        },
    }
}

/// An open array that lacks nothing is the next item of the array around it.
proof fn lemma_resume_full(frames: Seq<OpenArray>, bytes: Seq<u8>)
    requires
        frames.len() >= 1,
        frames.last().items.len() == frames.last().expected,
    ensures
        frames.len() == 1 ==> resume(frames, bytes) == Ok::<(Packet, nat), CodecError>(
            (frames[0].items[0], 0nat),
        ),
        frames.len() > 1 ==> resume(frames, bytes) == resume(
            with_item(frames.drop_last(), Packet::Array(frames.last().items)),
            bytes,
        ),
{
    let top = frames.last();
    assert(top.items + Seq::<Packet>::empty() =~= top.items);
    assert(bytes.skip(0) =~= bytes);
    if frames.len() > 1 {
        let outer = resume(with_item(frames.drop_last(), Packet::Array(top.items)), bytes);
        assert(after(0, outer) == outer);
    }
}

/// What a packet that begins with an array header of `count` items, `head`
/// bytes long, decodes to.
spec fn array_behind(bytes: Seq<u8>, head: nat, count: nat) -> Result<
    (Packet, nat),
    CodecError,
> {
    match decode_items(bytes.skip(head as int), count) {
        Ok((items, used)) => Ok((Packet::Array(items), head + used)),
        Err(e) => Err(e),
    }
}

/// Opening an array and finishing it leaves the outcome as it was.
proof fn lemma_resume_open(frames: Seq<OpenArray>, bytes: Seq<u8>, head: nat, count: nat)
    requires
        frames.len() >= 1,
        frames.last().items.len() < frames.last().expected,
        head <= bytes.len(),
        decode_packet(bytes) == array_behind(bytes, head, count),
    ensures
        resume(frames, bytes) == after(
            head,
            resume(
                frames.push(OpenArray { expected: count, items: Seq::empty() }),
                bytes.skip(head as int),
            ),
        ),
{
    let inner = bytes.skip(head as int);
    let opened = frames.push(OpenArray { expected: count, items: Seq::empty() });
    assert(opened.drop_last() =~= frames);
    match decode_items(inner, count) {
        Err(e) => {},
        Ok((items, used)) => {
            lemma_decode_bounds(inner, count);
            assert(Seq::<Packet>::empty() + items =~= items);
            lemma_resume_item(frames, bytes, Packet::Array(items), head + used);
            assert(bytes.skip((head + used) as int) =~= inner.skip(used as int));
        },
    }
}

/// A stack with only the outermost frame, which lacks its one item, stands
/// for reading one packet.
proof fn lemma_resume_start(bytes: Seq<u8>)
    ensures
        resume(seq![OpenArray { expected: 1, items: Seq::empty() }], bytes) == decode_packet(bytes),
{
    lemma_decode_bounds(bytes, 0);
    match decode_packet(bytes) {
        Err(e) => {},
        Ok((p, used)) => {
            assert(decode_items(bytes.skip(used as int), 0) == Ok::<(Seq<Packet>, nat), CodecError>(
                (Seq::empty(), 0nat),
            ));
            assert((Seq::<Packet>::empty() + (seq![p] + Seq::<Packet>::empty()))[0] == p);
        },
    }
}

/// Whether `bytes` begin with the header of an array of `count` items that
/// is `head` bytes long.
spec fn is_array_header(bytes: Seq<u8>, head: nat, count: nat) -> bool {
    &&& bytes.len() >= 1
    &&& bytes[0] == DELIM_ARRAY
    &&& count <= i32::MAX
    &&& head >= 1
    &&& vql_decoding(bytes.skip(1)) == Some((count as i32, (head - 1) as nat))
}

/// Behind an array header, the packet is the array of the items that follow.
proof fn lemma_array_header(bytes: Seq<u8>, head: nat, count: nat)
    requires
        is_array_header(bytes, head, count),
    ensures
        head <= bytes.len(),
        decode_packet(bytes) == array_behind(bytes, head, count),
{
    lemma_parse_bounds(bytes.skip(1));
}

/// An array header reads the same with any other bytes behind it.
proof fn lemma_array_header_local(bytes: Seq<u8>, head: nat, count: nat, rest: Seq<u8>)
    requires
        is_array_header(bytes, head, count),
    ensures
        head <= bytes.len(),
        is_array_header(bytes.take(head as int) + rest, head, count),
{
    lemma_parse_bounds(bytes.skip(1));
    let moved = bytes.take(head as int) + rest;
    assert(moved[0] == bytes[0]);
    assert(moved.skip(1) =~= bytes.skip(1).take(head - 1) + rest);
    lemma_vql_exact(bytes.skip(1));
    lemma_vql_stable(bytes.skip(1).take(head - 1), rest);
}

/// What stands at the front of the input: a whole packet, or the header of an
/// array that has items.
enum Step {
    /// A packet without items to read, and the position behind it.
    Leaf(CodePacket, usize),
    /// The item count of an array, and the position behind its header.
    Open(usize, usize),
}

/// Reads the tag at `pos` and what belongs to it, short of an array's items.
fn read_step(input: &[u8], pos: usize) -> (r: Result<Step, CodecError>)
    requires
        pos <= input@.len(),
    ensures
        match r {
            Ok(Step::Leaf(p, next)) => pos < next <= input@.len() && decode_packet(
                input@.skip(pos as int),
            ) == Ok::<(Packet, nat), CodecError>((p@, (next - pos) as nat)),
            Ok(Step::Open(count, next)) => pos < next <= input@.len() && count > 0
                && is_array_header(input@.skip(pos as int), (next - pos) as nat, count as nat),
            Err(e) => decode_packet(input@.skip(pos as int)) == Err::<(Packet, nat), CodecError>(e),
        },
{
    let ghost bytes = input@.skip(pos as int);
    if pos >= input.len() {
        return Err(CodecError::UnexpectedEof);
    }
    let typ: u8 = input[pos];
    assert(bytes[0] == typ);
    assert(bytes.skip(1) =~= input@.skip(pos + 1));
    if typ == DELIM_UNDEFINED {
        return Ok(Step::Leaf(CodePacket::Undefined, pos + 1));
    }
    if typ == DELIM_INT {
        return match read_vql_at(input, pos + 1) {
            Ok((v, next)) => Ok(Step::Leaf(CodePacket::Int32(v), next)),
            Err(e) => Err(e),
        };
    }
    if typ > MAX_DELIM {
        return Err(CodecError::UnexpectedPacketType(typ));
    }
    let (len, next) = match read_vql_at(input, pos + 1) {
        Ok(pair) => pair,
        Err(e) => {
            return Err(e);
        },
    };
    if len < 0 {
        return Err(CodecError::NegativeLength(len));
    }
    let size: usize = len as usize;
    if typ == DELIM_ARRAY {
        if size == 0 {
            let none: Vec<CodePacket> = Vec::new();
            proof {
                lemma_array_view(none);
                assert(views(none@) =~= Seq::<Packet>::empty());
            }
            return Ok(Step::Leaf(CodePacket::Array(none), next));
        }
        return Ok(Step::Open(size, next));
    }
    if input.len() - next < size {
        return Err(CodecError::UnexpectedEof);
    }
    let data: Vec<u8> = slice_to_vec(slice_subrange(input, next, next + size));
    assert(data@ =~= bytes.subrange(next - pos, next - pos + len));
    let end: usize = next + size;
    if typ == DELIM_STRING {
        match string_from_utf8(data) {
            Some(text) => Ok(Step::Leaf(CodePacket::String(text), end)),
            None => Err(CodecError::InvalidUtf8),
        }
    } else if typ == DELIM_BUFFER {
        Ok(Step::Leaf(CodePacket::Buffer(data), end))
    } else if typ == DELIM_VSBUFFER {
        Ok(Step::Leaf(CodePacket::VSBuffer(data), end))
    } else {
        Ok(Step::Leaf(CodePacket::Object(data), end))
    }
}

/// Adds `packet` to the innermost open array, and closes every array that
/// has all its items by adding it to the one around it. Gives the packet that
/// was read once the outermost frame has its item.
fn attach(stack: &mut Vec<Frame>, packet: CodePacket) -> (r: Option<CodePacket>)
    requires
        old(stack)@.len() >= 1,
        all_open(open_arrays(old(stack)@)),
    ensures
        match r {
            Some(root) => forall|rest: Seq<u8>| #[trigger]
                resume(with_item(open_arrays(old(stack)@), packet@), rest) == Ok::<
                    (Packet, nat),
                    CodecError,
                >((root@, 0nat)),
            None => final(stack)@.len() >= 1 && all_open(open_arrays(final(stack)@)) && forall|
                rest: Seq<u8>,
            | #[trigger]
                resume(with_item(open_arrays(old(stack)@), packet@), rest) == resume(
                    open_arrays(final(stack)@),
                    rest,
                ),
        },
{
    let ghost start = with_item(open_arrays(stack@), packet@);
    let mut done = packet;
    loop
        invariant
            stack@.len() >= 1,
            all_open(open_arrays(stack@)),
            start == with_item(open_arrays(old(stack)@), packet@),
            forall|rest: Seq<u8>| #[trigger]
                resume(start, rest) == resume(with_item(open_arrays(stack@), done@), rest),
        decreases stack@.len(),
    {
        let ghost frames = open_arrays(stack@);
        let ghost filled = with_item(frames, done@);
        let mut frame = stack.pop().unwrap();
        assert(frame@ == frames.last());
        assert(open_arrays(stack@) =~= frames.drop_last());
        frame.items.push(done);
        assert(views(frame.items@) =~= frames.last().items.push(done@));
        assert(filled.last() == frame@);
        assert(filled.drop_last() =~= frames.drop_last());
        if frame.items.len() < frame.expected {
            stack.push(frame);
            assert(open_arrays(stack@) =~= filled);
            return None;
        }
        if stack.len() == 0 {
            let root = frame.items.remove(0);
            assert forall|rest: Seq<u8>| #[trigger]
                resume(start, rest) == Ok::<(Packet, nat), CodecError>((root@, 0nat)) by {
                lemma_resume_full(filled, rest);
            }
            return Some(root);
        }
        proof {
            lemma_array_view(frame.items);
            assert forall|rest: Seq<u8>| #[trigger]
                resume(start, rest) == resume(
                    with_item(open_arrays(stack@), CodePacket::Array(frame.items)@),
                    rest,
                ) by {
                lemma_resume_full(filled, rest);
            }
        }
        done = CodePacket::Array(frame.items);
    }
}

/// Whether reading `taken` and then `rest` from the start comes to
/// finishing `frames` from `rest`.
spec fn agrees(taken: Seq<u8>, frames: Seq<OpenArray>, rest: Seq<u8>) -> bool {
    decode_packet(taken + rest) == after(taken.len(), resume(frames, rest))
}

/// Whether the open arrays `frames` are what reading `taken` leaves open,
/// whatever follows.
spec fn tracks(taken: Seq<u8>, frames: Seq<OpenArray>) -> bool {
    &&& frames.len() >= 1
    &&& all_open(frames)
    &&& forall|rest: Seq<u8>| #[trigger] agrees(taken, frames, rest)
}

/// Nothing taken leaves open the outermost frame alone.
proof fn lemma_tracks_start()
    ensures
        tracks(Seq::empty(), seq![OpenArray { expected: 1, items: Seq::empty() }]),
{
    let frames = seq![OpenArray { expected: 1, items: Seq::<Packet>::empty() }];
    assert forall|rest: Seq<u8>| #[trigger] agrees(Seq::empty(), frames, rest) by {
        lemma_resume_start(rest);
        assert(Seq::<u8>::empty() + rest =~= rest);
    }
}

/// Taking an array header opens one more array.
proof fn lemma_tracks_open(
    taken: Seq<u8>,
    frames: Seq<OpenArray>,
    bytes: Seq<u8>,
    head: nat,
    count: nat,
)
    requires
        tracks(taken, frames),
        is_array_header(bytes, head, count),
        count > 0,
    ensures
        head <= bytes.len(),
        tracks(
            taken + bytes.take(head as int),
            frames.push(OpenArray { expected: count, items: Seq::empty() }),
        ),
{
    lemma_parse_bounds(bytes.skip(1));
    let step = bytes.take(head as int);
    let opened = frames.push(OpenArray { expected: count, items: Seq::empty() });
    assert forall|rest: Seq<u8>| #[trigger] agrees(taken + step, opened, rest) by {
        let whole = step + rest;
        lemma_array_header_local(bytes, head, count, rest);
        lemma_array_header(whole, head, count);
        lemma_resume_open(frames, whole, head, count);
        assert(whole.skip(head as int) =~= rest);
        assert(agrees(taken, frames, whole));
        assert(taken + whole =~= (taken + step) + rest);
    }
}

/// Taking a packet adds it to the innermost open array.
proof fn lemma_tracks_item(taken: Seq<u8>, frames: Seq<OpenArray>, bytes: Seq<u8>)
    requires
        frames.len() >= 1,
        frames.last().items.len() < frames.last().expected,
        forall|rest: Seq<u8>| #[trigger] agrees(taken, frames, rest),
        decode_packet(bytes) is Ok,
    ensures
        ({
            let (p, used) = decode_packet(bytes)->Ok_0;
            &&& used <= bytes.len()
            &&& forall|rest: Seq<u8>| #[trigger]
                agrees(taken + bytes.take(used as int), with_item(frames, p), rest)
        }),
{
    lemma_decode_bounds(bytes, 0);
    let (p, used) = decode_packet(bytes)->Ok_0;
    let step = bytes.take(used as int);
    assert forall|rest: Seq<u8>| #[trigger] agrees(taken + step, with_item(frames, p), rest) by {
        let whole = step + rest;
        lemma_packet_local(bytes, rest);
        lemma_resume_item(frames, whole, p, used);
        assert(whole.skip(used as int) =~= rest);
        assert(agrees(taken, frames, whole));
        assert(taken + whole =~= (taken + step) + rest);
    }
}

/// Open arrays that finish alike track the same input.
proof fn lemma_tracks_same(taken: Seq<u8>, before: Seq<OpenArray>, now: Seq<OpenArray>)
    requires
        forall|rest: Seq<u8>| #[trigger] agrees(taken, before, rest),
        forall|rest: Seq<u8>| #[trigger] resume(before, rest) == resume(now, rest),
        now.len() >= 1,
        all_open(now),
    ensures
        tracks(taken, now),
{
    assert forall|rest: Seq<u8>| #[trigger] agrees(taken, now, rest) by {
        assert(agrees(taken, before, rest));
        assert(resume(before, rest) == resume(now, rest));
    }
}

/// Where the next packet does not decode, neither does the whole.
proof fn lemma_tracks_failure(taken: Seq<u8>, frames: Seq<OpenArray>, bytes: Seq<u8>)
    requires
        tracks(taken, frames),
        decode_packet(bytes) is Err,
    ensures
        decode_packet(taken + bytes) == Err::<(Packet, nat), CodecError>(
            decode_packet(bytes)->Err_0,
        ),
{
    assert(agrees(taken, frames, bytes));
    assert(frames.last().items.len() < frames.last().expected);
}

/// Where the next packet completes the outermost frame, it completes the
/// whole.
proof fn lemma_tracks_done(
    taken: Seq<u8>,
    frames: Seq<OpenArray>,
    bytes: Seq<u8>,
    root: Packet,
)
    requires
        tracks(taken, frames),
        decode_packet(bytes) is Ok,
        forall|rest: Seq<u8>| #[trigger]
            resume(with_item(frames, decode_packet(bytes)->Ok_0.0), rest) == Ok::<
                (Packet, nat),
                CodecError,
            >((root, 0nat)),
    ensures
        decode_packet(taken + bytes) == Ok::<(Packet, nat), CodecError>(
            (root, taken.len() + decode_packet(bytes)->Ok_0.1),
        ),
{
    let (p, used) = decode_packet(bytes)->Ok_0;
    assert(agrees(taken, frames, bytes));
    assert(frames.last().items.len() < frames.last().expected);
    lemma_resume_item(frames, bytes, p, used);
    assert(resume(with_item(frames, p), bytes.skip(used as int)) == Ok::<(Packet, nat), CodecError>(
        (root, 0nat),
    ));
}

/// A reader of one packet after the other that takes its input in pieces.
///
/// It holds the arrays of the packet being read that still lack items, so
/// that input can stop at any byte and go on later. It belongs to one stream:
/// nothing of it is shared.
pub struct Decoder {
    stack: Vec<Frame>,
    taken: Ghost<Seq<u8>>,
}

impl Decoder {
    /// The bytes of the packet being read that the decoder has taken so far.
    pub closed spec fn taken(&self) -> Seq<u8> {
        self.taken@
    }

    /// The open arrays are those that reading `taken()` leaves open.
    pub closed spec fn wf(&self) -> bool {
        tracks(self.taken@, open_arrays(self.stack@))
    }

    /// A decoder that has taken nothing yet.
    pub fn new() -> (d: Decoder)
        ensures
            d.wf(),
            d.taken() == Seq::<u8>::empty(),
    {
        let mut stack: Vec<Frame> = Vec::new();
        stack.push(Frame { expected: 1, items: Vec::new() });
        proof {
            assert(stack@[0]@.items =~= Seq::<Packet>::empty());
            assert(open_arrays(stack@) =~= seq![OpenArray { expected: 1, items: Seq::empty() }]);
            lemma_tracks_start();
        }
        Decoder { stack, taken: Ghost(Seq::empty()) }
    }

    /// Reads on in `input`, which continues what the decoder has taken.
    ///
    /// Where the packet ends in `input`, gives the packet and the number of
    /// bytes of `input` that belong to it, and is ready for the next packet.
    /// Where `input` ends first, gives no packet and the number of bytes that
    /// the decoder has taken; the rest of `input`, which is the beginning of a
    /// string, buffer, integer or array header, is to be handed in again with
    /// what follows it. After a protocol error the decoder starts afresh.
    pub fn feed(&mut self, input: &[u8]) -> (r: Result<(Option<CodePacket>, usize), CodecError>)
        requires
            old(self).wf(),
        ensures
            final(self).wf(),
            match r {
                Ok((Some(p), used)) => used <= input@.len() && final(self).taken() == Seq::<
                    u8,
                >::empty() && decode_packet(old(self).taken() + input@) == Ok::<
                    (Packet, nat),
                    CodecError,
                >((p@, (old(self).taken().len() + used) as nat)),
                Ok((None, used)) => used <= input@.len() && final(self).taken() == old(
                    self,
                ).taken() + input@.take(used as int) && decode_packet(old(self).taken() + input@)
                    == Err::<(Packet, nat), CodecError>(CodecError::UnexpectedEof),
                Err(e) => e != CodecError::UnexpectedEof && final(self).taken() == Seq::<
                    u8,
                >::empty() && decode_packet(old(self).taken() + input@) == Err::<
                    (Packet, nat),
                    CodecError,
                >(e),
            },
    {
        let mut pos: usize = 0;
        assert(self.taken@ + input@.take(0) =~= self.taken@);
        loop
            invariant
                pos <= input@.len(),
                self.wf(),
                self.taken@ == old(self).taken@ + input@.take(pos as int),
            decreases input@.len() - pos,
        {
            let ghost taken = self.taken@;
            let ghost frames = open_arrays(self.stack@);
            let ghost bytes = input@.skip(pos as int);
            assert(taken + bytes =~= old(self).taken@ + input@);
            match read_step(input, pos) {
                Err(e) => {
                    proof {
                        lemma_tracks_failure(taken, frames, bytes);
                    }
                    if let CodecError::UnexpectedEof = e {
                        return Ok((None, pos));
                    }
                    *self = Decoder::new();
                    return Err(e);
                },
                Ok(Step::Open(count, next)) => {
                    let ghost step = bytes.take(next - pos);
                    proof {
                        lemma_tracks_open(taken, frames, bytes, (next - pos) as nat, count as nat);
                    }
                    self.stack.push(Frame { expected: count, items: Vec::new() });
                    self.taken = Ghost(taken + step);
                    assert(self.stack@.last()@.items =~= Seq::<Packet>::empty());
                    assert(open_arrays(self.stack@) =~= frames.push(
                        OpenArray { expected: count as nat, items: Seq::empty() },
                    ));
                    assert(taken + step =~= old(self).taken@ + input@.take(next as int));
                    pos = next;
                },
                Ok(Step::Leaf(packet, next)) => {
                    let ghost step = bytes.take(next - pos);
                    proof {
                        lemma_tracks_item(taken, frames, bytes);
                    }
                    match attach(&mut self.stack, packet) {
                        Some(root) => {
                            proof {
                                lemma_tracks_done(taken, frames, bytes, root@);
                            }
                            *self = Decoder::new();
                            return Ok((Some(root), next));
                        },
                        None => {
                            proof {
                                lemma_tracks_same(
                                    taken + step,
                                    with_item(frames, packet@),
                                    open_arrays(self.stack@),
                                );
                            }
                            self.taken = Ghost(taken + step);
                            assert(taken + step =~= old(self).taken@ + input@.take(next as int));
                            pos = next;
                        },
                    }
                },
            }
        }
    }
}

impl CodePacket {
    /// Reads one packet from the front of `reader`. On success gives the
    /// packet and the number of bytes it took.
    pub fn from_reader(reader: &[u8]) -> (r: Result<(CodePacket, usize), CodecError>)
        ensures
            match decode_packet(reader@) {
                Ok((p, n)) => r matches Ok((packet, used)) && packet@ == p && used == n,
                Err(e) => r == Err::<(CodePacket, usize), CodecError>(e),
            },
    {
        let mut decoder = Decoder::new();
        assert(decoder.taken() + reader@ =~= reader@);
        match decoder.feed(reader) {
            Ok((Some(packet), used)) => Ok((packet, used)),
            Ok((None, _)) => Err(CodecError::UnexpectedEof),
            Err(e) => Err(e),
        }
    }
}

} // verus!
