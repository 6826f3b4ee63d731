//! Variable-length quantities: a 32-bit integer as one to five bytes.
//!
//! The integer's two's-complement bit pattern is read as an unsigned number
//! and written in base 128, least significant digit first. Every byte but the
//! last has its high bit set.

use vstd::prelude::*;
use crate::error::CodecError;

verus! {

/// The bit pattern of `v` read as an unsigned number.
pub open spec fn as_unsigned(v: i32) -> nat {
    if v >= 0 {
        v as nat
    } else {
        (v + 0x1_0000_0000) as nat
    }
}

/// The low 32 bits of `n` read as a signed number.
#[verifier::opaque]
pub open spec fn as_signed(n: nat) -> i32 {
    let m = n % 0x1_0000_0000;
    if m < 0x8000_0000 {
        m as i32
    } else {
        (m - 0x1_0000_0000) as i32
    }
}

/// The base-128 digits of `n`, least significant first, each but the last
/// with the continuation bit set.
pub open spec fn base128(n: nat) -> Seq<u8>
    decreases n,
{
    if n < 128 {
        seq![n as u8]
    } else {
        seq![(n % 128 + 128) as u8] + base128(n / 128)
    }
}

/// The bytes that stand for `v` on the wire.
pub open spec fn vql_encoding(v: i32) -> Seq<u8> {
    base128(as_unsigned(v))
}

/// Reads base-128 digits from the front of `bytes` up to the first byte
/// without a continuation bit: the number they denote and how many bytes they
/// take, or `None` where `bytes` ends before such a byte.
pub open spec fn base128_parse(bytes: Seq<u8>) -> Option<(nat, nat)>
    decreases bytes.len(),
{
    if bytes.len() == 0 {
        None
    } else if bytes[0] < 128 {
        Some((bytes[0] as nat, 1nat))
    } else {
        match base128_parse(bytes.skip(1)) {
            Some((high, n)) => Some(((bytes[0] - 128 + 128 * high) as nat, n + 1)),
            None => None,
        }
    }
}

/// The integer at the front of `bytes` and the number of bytes it takes, or
/// `None` where `bytes` ends inside it. Digits beyond 32 bits are dropped.
pub open spec fn vql_decoding(bytes: Seq<u8>) -> Option<(i32, nat)> {
    match base128_parse(bytes) {
        Some((n, len)) => Some((as_signed(n), len)),
        None => None,
    }
}

/// A quantity that parses takes at least one byte and no more than there are.
pub proof fn lemma_parse_bounds(bytes: Seq<u8>)
    ensures
        base128_parse(bytes) matches Some((_, n)) ==> 1 <= n <= bytes.len(),
    decreases bytes.len(),
{
    if bytes.len() > 0 && bytes[0] >= 128 {
        lemma_parse_bounds(bytes.skip(1));
    }
}

/// Reading the bit pattern as unsigned and back gives the integer again.
pub proof fn lemma_signed_unsigned(v: i32)
    ensures
        as_unsigned(v) < 0x1_0000_0000,
        as_signed(as_unsigned(v)) == v,
{
    reveal(as_signed);
}

/// The digits of `n` followed by anything parse back to `n`.
pub proof fn lemma_base128_round_trip(n: nat, rest: Seq<u8>)
    ensures
        base128_parse(base128(n) + rest) == Some((n, base128(n).len())),
    decreases n,
{
    let bytes = base128(n) + rest;
    if n < 128 {
        assert(bytes[0] == n as u8);
    } else {
        let tail = base128(n / 128);
        lemma_base128_round_trip(n / 128, rest);
        assert(bytes[0] == (n % 128 + 128) as u8);
        assert(bytes.skip(1) =~= tail + rest);
        assert(base128(n).len() == tail.len() + 1);
    }
}

/// A number below `128^k` has at most `k` digits, for the five sizes that a
/// 32-bit number can have.
pub proof fn lemma_base128_len(n: nat)
    ensures
        base128(n).len() >= 1,
        n < 0x80 ==> base128(n).len() == 1,
        0x80 <= n < 0x4000 ==> base128(n).len() == 2,
        0x4000 <= n < 0x20_0000 ==> base128(n).len() == 3,
        0x20_0000 <= n < 0x1000_0000 ==> base128(n).len() == 4,
        0x1000_0000 <= n < 0x8_0000_0000 ==> base128(n).len() == 5,
    decreases n,
{
    if n >= 128 {
        lemma_base128_len(n / 128);
    }
}

/// Cutting the digits of `n` short leaves nothing that parses.
pub proof fn lemma_base128_truncated(n: nat, k: int)
    requires
        0 <= k < base128(n).len(),
    ensures
        base128_parse(base128(n).take(k)) is None,
    decreases n,
{
    let cut = base128(n).take(k);
    if n < 128 {
        assert(cut.len() == 0);
    } else if k == 0 {
        assert(cut.len() == 0);
    } else {
        let tail = base128(n / 128);
        lemma_base128_truncated(n / 128, k - 1);
        assert(cut[0] == (n % 128 + 128) as u8);
        assert(cut.skip(1) =~= tail.take(k - 1));
    }
}

/// Decoding the encoding of any integer, whatever follows it, gives the
/// integer back and consumes exactly the encoding.
pub proof fn lemma_vql_round_trip(v: i32, rest: Seq<u8>)
    ensures
        vql_decoding(vql_encoding(v) + rest) == Some((v, vql_encoding(v).len())),
{
    lemma_base128_round_trip(as_unsigned(v), rest);
    lemma_signed_unsigned(v);
}

/// An encoding takes one to five bytes; zero is the single byte `0x00`, and a
/// negative integer always takes five.
pub proof fn lemma_vql_length(v: i32)
    ensures
        1 <= vql_encoding(v).len() <= 5,
        v == 0 ==> vql_encoding(v) == seq![0u8],
        v < 0 ==> vql_encoding(v).len() == 5,
{
    lemma_base128_len(as_unsigned(v));
}

/// A proper prefix of an encoding never decodes.
pub proof fn lemma_vql_truncated(v: i32, k: int)
    requires
        0 <= k < vql_encoding(v).len(),
    ensures
        vql_decoding(vql_encoding(v).take(k)) is None,
{
    lemma_base128_truncated(as_unsigned(v), k);
}

/// Digits that parse from `bytes` parse to the same from `bytes` with more
/// behind them.
proof fn lemma_parse_stable(bytes: Seq<u8>, more: Seq<u8>)
    requires
        base128_parse(bytes) is Some,
    ensures
        base128_parse(bytes + more) == base128_parse(bytes),
    decreases bytes.len(),
{
    let longer = bytes + more;
    assert(longer[0] == bytes[0]);
    if bytes[0] >= 128 {
        assert(longer.skip(1) =~= bytes.skip(1) + more);
        lemma_parse_stable(bytes.skip(1), more);
    }
}

/// Digits that parse from `bytes` parse to the same from the bytes that they
/// take alone.
proof fn lemma_parse_exact(bytes: Seq<u8>)
    requires
        base128_parse(bytes) is Some,
    ensures
        base128_parse(bytes.take(base128_parse(bytes)->Some_0.1 as int)) == base128_parse(bytes),
    decreases bytes.len(),
{
    lemma_parse_bounds(bytes);
    let n = base128_parse(bytes)->Some_0.1;
    let own = bytes.take(n as int);
    assert(own[0] == bytes[0]);
    if bytes[0] >= 128 {
        lemma_parse_bounds(bytes.skip(1));
        lemma_parse_exact(bytes.skip(1));
        assert(own.skip(1) =~= bytes.skip(1).take(n - 1));
    }
}

/// A quantity that parses from `bytes` parses to the same from `bytes`
/// with more behind them: what arrives later never changes what was read.
pub proof fn lemma_vql_stable(bytes: Seq<u8>, more: Seq<u8>)
    requires
        vql_decoding(bytes) is Some,
    ensures
        vql_decoding(bytes + more) == vql_decoding(bytes),
{
    lemma_parse_stable(bytes, more);
}

/// A quantity that parses from `bytes` parses to the same from the bytes
/// that it takes alone.
pub proof fn lemma_vql_exact(bytes: Seq<u8>)
    requires
        vql_decoding(bytes) is Some,
    ensures
        vql_decoding(bytes.take(vql_decoding(bytes)->Some_0.1 as int)) == vql_decoding(bytes),
{
    lemma_parse_exact(bytes);
}

/// What a partly read quantity amounts to once the rest of it has been
/// parsed: `low` holds the digits read so far, the next digit weighs
/// `weight`, and `taken` bytes have been consumed.
spec fn parse_resumed(low: nat, weight: nat, taken: nat, rest: Option<(nat, nat)>) -> Option<
    (nat, nat),
> {
    match rest {
        Some((high, n)) => Some((low + weight * high, n + taken)),
        None => None,
    }
}

/// Reading one more digit with a continuation bit leaves the outcome as it
/// was.
proof fn lemma_parse_step(bytes: Seq<u8>, low: nat, weight: nat, taken: nat)
    requires
        bytes.len() > 0,
        bytes[0] >= 128,
    ensures
        parse_resumed(low, weight, taken, base128_parse(bytes)) == parse_resumed(
            (low + weight * (bytes[0] - 128)) as nat,
            weight * 128,
            taken + 1,
            base128_parse(bytes.skip(1)),
        ),
{
    match base128_parse(bytes.skip(1)) {
        Some((high, n)) => {
            let d = (bytes[0] - 128) as int;
            assert(low + weight * (d + 128 * high) == (low + weight * d) + (weight * 128) * high)
                by (nonlinear_arith);
        },
        None => {},
    }
}

/// A digit whose weight is a multiple of `2^32` adds nothing to the low 32
/// bits, and neither does any digit behind it.
proof fn lemma_low_bits_unchanged(low: nat, weight: nat, digit: nat)
    requires
        weight % 0x1_0000_0000 == 0,
    ensures
        (low + weight * digit) % 0x1_0000_0000 == low % 0x1_0000_0000,
        (weight * 128) % 0x1_0000_0000 == 0,
{
    let q = weight / 0x1_0000_0000;
    assert(weight == 0x1_0000_0000 * q);
    assert(weight * digit == 0x1_0000_0000 * (q * digit)) by (nonlinear_arith)
        requires
            weight == 0x1_0000_0000 * q,
    ;
    assert(weight * 128 == 0x1_0000_0000 * (q * 128)) by (nonlinear_arith)
        requires
            weight == 0x1_0000_0000 * q,
    ;
    vstd::arithmetic::div_mod::lemma_mod_multiples_vanish((q * digit) as int, low as int, 0x1_0000_0000);
    vstd::arithmetic::div_mod::lemma_mod_multiples_vanish((q * 128) as int, 0, 0x1_0000_0000);
}

/// The weight of the digit that is placed `shift` bits up.
spec fn weight_at(shift: u32) -> nat {
    if shift == 0 {
        1
    } else if shift == 7 {
        0x80
    } else if shift == 14 {
        0x4000
    } else if shift == 21 {
        0x20_0000
    } else if shift == 28 {
        0x1000_0000
    } else {
        0x8_0000_0000
    }
}

/// Placing a digit above the digits read so far, by shift and bitwise or,
/// adds its weighted value, within 32 bits.
proof fn lemma_place_digit(acc: u32, digit: u32, shift: u32)
    requires
        shift == 0 || shift == 7 || shift == 14 || shift == 21 || shift == 28,
        acc < weight_at(shift),
        digit < 128,
    ensures
        (acc | (digit << shift)) == (acc + weight_at(shift) * digit) % 0x1_0000_0000,
        acc + weight_at(shift) * digit < weight_at(shift) * 128,
        weight_at((shift + 7) as u32) == weight_at(shift) * 128,
{
    if shift == 0 {
        assert((acc | (digit << 0u32)) == digit) by (bit_vector)
            requires
                acc < 1,
        ;
    } else if shift == 7 {
        assert((acc | (digit << 7u32)) as u64 == acc as u64 + 0x80u64 * (digit as u64)) by (bit_vector)
            requires
                acc < 0x80,
                digit < 128,
        ;
    } else if shift == 14 {
        assert((acc | (digit << 14u32)) as u64 == acc as u64 + 0x4000u64 * (digit as u64))
            by (bit_vector)
            requires
                acc < 0x4000,
                digit < 128,
        ;
    } else if shift == 21 {
        assert((acc | (digit << 21u32)) as u64 == acc as u64 + 0x20_0000u64 * (digit as u64))
            by (bit_vector)
            requires
                acc < 0x20_0000,
                digit < 128,
        ;
    } else {
        assert((acc | (digit << 28u32)) as u64 == (acc as u64 + 0x1000_0000u64 * (digit as u64))
            % 0x1_0000_0000) by (bit_vector)
            requires
                acc < 0x1000_0000,
                digit < 128,
        ;
    }
}

/// Appends the encoding of `value` to `writer`.
pub fn write_vql(value: i32, writer: &mut Vec<u8>)
    ensures
        final(writer)@ == old(writer)@ + vql_encoding(value),
{
    let mut v: u32 = #[verifier::truncate] (value as u32);
    assert(if value >= 0 {
        v as i64 == value as i64
    } else {
        v as i64 == value as i64 + 0x1_0000_0000i64
    }) by (bit_vector)
        requires
            v == value as u32,
    ;
    assert(v == as_unsigned(value));
    while v >= 0x80
        invariant
            old(writer)@ + vql_encoding(value) == writer@ + base128(v as nat),
        decreases v,
    {
        let digit: u8 = #[verifier::truncate] ((v & 0x7f) as u8) | 0x80u8;
        assert(digit as u32 == v % 128 + 128 && v >> 7 == v / 128 && (v >> 7) < v) by (bit_vector)
            requires
                v >= 0x80,
                digit == ((v & 0x7f) as u8) | 0x80u8,
        ;
        assert(writer@ + base128(v as nat) =~= writer@.push(digit) + base128((v / 128) as nat));
        writer.push(digit);
        v = v >> 7;
    }
    assert(writer@ + base128(v as nat) =~= writer@.push(v as u8));
    writer.push(#[verifier::truncate] (v as u8));
}

/// Reads one quantity from `input` at `start`. On success gives the integer
/// and the position just behind it.
pub(crate) fn read_vql_at(input: &[u8], start: usize) -> (r: Result<(i32, usize), CodecError>)
    requires
        start <= input@.len(),
    ensures
        match vql_decoding(input@.skip(start as int)) {
            Some((v, n)) => start + n <= input@.len() && r == Ok::<(i32, usize), CodecError>(
                (v, (start + n) as usize),
            ),
            None => r == Err::<(i32, usize), CodecError>(CodecError::UnexpectedEof),
        },
{
    let mut acc: u32 = 0;
    let mut shift: u32 = 0;
    let mut pos: usize = start;
    let ghost mut low: nat = 0;
    let ghost mut weight: nat = 1;
    while pos < input.len()
        invariant
            start <= pos <= input@.len(),
            base128_parse(input@.skip(start as int)) == parse_resumed(
                low,
                weight,
                (pos - start) as nat,
                base128_parse(input@.skip(pos as int)),
            ),
            acc == low % 0x1_0000_0000,
            shift == 0 || shift == 7 || shift == 14 || shift == 21 || shift == 28 || shift == 35,
            weight_at(shift) <= weight,
            shift < 35 ==> weight == weight_at(shift) && low < weight,
            shift == 35 ==> weight % 0x1_0000_0000 == 0,
        decreases input@.len() - pos,
    {
        let byte: u8 = input[pos];
        let digit: u32 = (byte & 0x7f) as u32;
        let ghost rest = input@.skip(pos as int);
        assert(rest[0] == byte);
        assert(rest.skip(1) =~= input@.skip(pos + 1));
        assert(digit == (byte % 128) as u32 && ((byte & 0x80 == 0) <==> byte < 128)) by (bit_vector)
            requires
                digit == (byte & 0x7f) as u32,
        ;
        let ghost next: nat = low + weight * (digit as nat);
        if shift < 32 {
            let merged: u32 = acc | (digit << shift);
            proof {
                lemma_place_digit(acc, digit, shift);
            }
            acc = merged;
            shift = shift + 7;
        } else {
            proof {
                lemma_low_bits_unchanged(low, weight, digit as nat);
            }
        }
        pos = pos + 1;
        if byte & 0x80 == 0 {
            let value: i32 = #[verifier::truncate] (acc as i32);
            assert(if acc < 0x8000_0000u32 {
                value as i64 == acc as i64
            } else {
                value as i64 == acc as i64 - 0x1_0000_0000i64
            }) by (bit_vector)
                requires
                    value == acc as i32,
            ;
            assert(as_signed(next) == value) by {
                reveal(as_signed);
            }
            assert(base128_parse(rest) == Some((byte as nat, 1nat)));
            assert(weight * digit == weight * (byte as nat));
            return Ok((value, pos));
        }
        proof {
            lemma_parse_step(rest, low, weight, (pos - 1 - start) as nat);
            assert(digit == rest[0] - 128);
            low = next;
            weight = weight * 128;
        }
    }
    assert(input@.skip(pos as int).len() == 0);
    Err(CodecError::UnexpectedEof)
}

/// Reads one quantity from the front of `reader`. On success gives the
/// integer and the number of bytes it took.
pub fn read_vql(reader: &[u8]) -> (r: Result<(i32, usize), CodecError>)
    ensures
        match vql_decoding(reader@) {
            Some((v, n)) => n <= reader@.len() && r == Ok::<(i32, usize), CodecError>((v, n as usize)),
            None => r == Err::<(i32, usize), CodecError>(CodecError::UnexpectedEof),
        },
{
    assert(reader@.skip(0) =~= reader@);
    read_vql_at(reader, 0)
}

} // verus!
