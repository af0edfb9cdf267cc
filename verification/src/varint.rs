//! Variable-width integers: base 128, least significant group first, seven
//! data bits per byte, the high bit set on every byte but the last.

use vstd::prelude::*;
use crate::error::SnappyError;

verus! {

/// The most bytes that the encoding of a 32-bit value takes.
pub const MAX_VARINT_LEN: usize = 5;

/// The encoding of `value`.
pub open spec fn varint_bytes(value: nat) -> Seq<u8>
    decreases value,
{
    if value < 128 {
        seq![value as u8]
    } else {
        seq![(128 + value % 128) as u8] + varint_bytes(value / 128)
    }
}

/// Reads one varint from the front of `s`, looking at no more than `budget`
/// bytes: the value and the number of bytes it takes, or `None` where `s`
/// ends (or the budget runs out) before a byte under 128 is met.
pub open spec fn varint_parse(s: Seq<u8>, budget: nat) -> Option<(nat, nat)>
    decreases budget,
{
    if budget == 0 || s.len() == 0 {
        None
    } else if s[0] < 128 {
        Some((s[0] as nat, 1nat))
    } else {
        match varint_parse(s.skip(1), (budget - 1) as nat) {
            Some((rest, used)) => Some((((s[0] - 128) + 128 * rest) as nat, used + 1)),
            None => None,
        }
    }
}

/// The 32-bit varint at the front of `s` and its width, or `None` where
/// there is none: `s` ends too early, the varint runs past five bytes, or
/// its value does not fit in 32 bits.
pub open spec fn varint_decode(s: Seq<u8>) -> Option<(nat, nat)> {
    match varint_parse(s, MAX_VARINT_LEN as nat) {
        Some((value, used)) => if value <= u32::MAX {
            Some((value, used))
        } else {
            None
        },
        None => None,
    }
}

/// The bound on a parsed value by its width, width by width.
pub proof fn lemma_varint_parse_scale(s: Seq<u8>, budget: nat)
    ensures
        match varint_parse(s, budget) {
            Some((value, used)) => {
                &&& used == 1 ==> value < 0x80
                &&& used == 2 ==> value < 0x4000
                &&& used == 3 ==> value < 0x20_0000
                &&& used == 4 ==> value < 0x1000_0000
                &&& used == 5 ==> value < 0x8_0000_0000
                &&& used >= 1
            },
            None => true,
        },
    decreases budget,
{
    if budget > 0 && s.len() > 0 && s[0] >= 128 {
        lemma_varint_parse_scale(s.skip(1), (budget - 1) as nat);
    }
}

/// A parsed varint takes at least one byte, no more than the budget and no
/// more than `s` holds, and its value stays under 128 to the power of its width.
pub proof fn lemma_varint_parse_bounds(s: Seq<u8>, budget: nat)
    ensures
        match varint_parse(s, budget) {
            Some((value, used)) => 1 <= used <= budget && used <= s.len() && (used <= 5 ==> value
                < 0x8_0000_0000),
            None => true,
        },
    decreases budget,
{
    lemma_varint_parse_scale(s, budget);
    if budget > 0 && s.len() > 0 && s[0] >= 128 {
        lemma_varint_parse_bounds(s.skip(1), (budget - 1) as nat);
    }
}

/// The width of the encoding: one byte for each started group of seven bits.
pub proof fn lemma_varint_bytes_len(value: nat)
    ensures
        varint_bytes(value).len() >= 1,
        value < 0x80 ==> varint_bytes(value).len() == 1,
        0x80 <= value < 0x4000 ==> varint_bytes(value).len() == 2,
        0x4000 <= value < 0x20_0000 ==> varint_bytes(value).len() == 3,
        0x20_0000 <= value < 0x1000_0000 ==> varint_bytes(value).len() == 4,
        0x1000_0000 <= value < 0x8_0000_0000 ==> varint_bytes(value).len() == 5,
    decreases value,
{
    if value >= 128 {
        lemma_varint_bytes_len(value / 128);
    }
}

/// Parsing what was encoded gives the value back, whatever follows it, as
/// long as the budget covers the encoding.
pub proof fn lemma_varint_parse_bytes(value: nat, rest: Seq<u8>, budget: nat)
    requires
        varint_bytes(value).len() <= budget,
    ensures
        varint_parse(varint_bytes(value) + rest, budget) == Some(
            (value, varint_bytes(value).len()),
        ),
    decreases value,
{
    let s = varint_bytes(value) + rest;
    lemma_varint_bytes_len(value);
    if value < 128 {
        assert(s[0] == value as u8);
    } else {
        let tail = varint_bytes(value / 128);
        assert(s[0] == (128 + value % 128) as u8);
        assert(s.skip(1) =~= tail + rest);
        lemma_varint_parse_bytes(value / 128, rest, (budget - 1) as nat);
    }
}

/// Decoding the encoding of a 32-bit value gives the value and the width of
/// its encoding, whatever bytes follow.
pub proof fn lemma_varint_round_trip(value: nat, rest: Seq<u8>)
    requires
        value <= u32::MAX,
    ensures
        varint_decode(varint_bytes(value) + rest) == Some((value, varint_bytes(value).len())),
        varint_bytes(value).len() <= MAX_VARINT_LEN,
{
    lemma_varint_bytes_len(value);
    lemma_varint_parse_bytes(value, rest, MAX_VARINT_LEN as nat);
}

/// Appends the encoding of `value` to `out`.
pub fn write_varint(out: &mut Vec<u8>, value: u32)
    ensures
        final(out)@ == old(out)@ + varint_bytes(value as nat),
{
    let mut rest: u32 = value;
    while rest >= 128
        invariant
            out@ + varint_bytes(rest as nat) == old(out)@ + varint_bytes(value as nat),
        decreases rest,
    {
        let low: u8 = (128 + rest % 128) as u8;
        proof {
            let tail = varint_bytes((rest / 128) as nat);
            assert(out@.push(low) + tail =~= out@ + (seq![low] + tail));
        }
        out.push(low);
        rest = rest / 128;
    }
    proof {
        assert(out@.push(rest as u8) =~= out@ + varint_bytes(rest as nat));
    }
    out.push(rest as u8);
}

/// The encoding of `value`: one to five bytes.
pub fn encode_varint(value: u32) -> (bytes: Vec<u8>)
    ensures
        bytes@ == varint_bytes(value as nat),
        1 <= bytes@.len() <= MAX_VARINT_LEN,
{
    let mut bytes: Vec<u8> = Vec::new();
    write_varint(&mut bytes, value);
    proof {
        lemma_varint_bytes_len(value as nat);
        assert(bytes@ =~= varint_bytes(value as nat));
    }
    bytes
}

/// Reads the varint that starts at `pos`, looking at no more than `budget` bytes.
fn parse_at(input: &[u8], pos: usize, budget: usize) -> (res: Option<(u64, usize)>)
    requires
        pos <= input@.len(),
        budget <= MAX_VARINT_LEN,
    ensures
        match res {
            Some((value, used)) => varint_parse(input@.skip(pos as int), budget as nat) == Some(
                (value as nat, used as nat),
            ),
            None => varint_parse(input@.skip(pos as int), budget as nat).is_none(),
        },
    decreases budget,
{
    if budget == 0 || pos >= input.len() {
        return None;
    }
    let byte: u8 = input[pos];
    if byte < 128 {
        return Some((byte as u64, 1));
    }
    proof {
        assert(input@.skip(pos as int).skip(1) =~= input@.skip(pos + 1));
        lemma_varint_parse_bounds(input@.skip(pos + 1), (budget - 1) as nat);
    }
    match parse_at(input, pos + 1, budget - 1) {
        Some((rest, used)) => Some(((byte - 128) as u64 + 128 * rest, used + 1)),
        None => None,
    }
}

/// Reads a 32-bit varint from the front of `input`: the value and the number
/// of bytes it takes. Fails with `MalformedInput` where `input` ends before
/// the varint does, where the varint runs past five bytes, and where its
/// value does not fit in 32 bits.
pub fn decode_varint(input: &[u8]) -> (res: Result<(u32, usize), SnappyError>)
    ensures
        match res {
            Ok((value, used)) => varint_decode(input@) == Some((value as nat, used as nat)) && 1
                <= used <= MAX_VARINT_LEN && used <= input@.len(),
            Err(e) => varint_decode(input@).is_none() && e == SnappyError::MalformedInput,
        },
{
    proof {
        assert(input@.skip(0) =~= input@);
        lemma_varint_parse_bounds(input@, MAX_VARINT_LEN as nat);
    }
    match parse_at(input, 0, MAX_VARINT_LEN) {
        Some((value, used)) => {
            if value <= u32::MAX as u64 {
                Ok((value as u32, used))
            } else {
                Err(SnappyError::MalformedInput)
            }
        },
        None => Err(SnappyError::MalformedInput),
    }
}

} // verus!
