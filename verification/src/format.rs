//! What a block means.
//!
//! A block is a varint, the length of the data it stands for, followed by
//! instructions. A literal carries bytes to append to the output; a copy
//! names bytes already in the output, by distance and length, to append
//! again. The two low bits of an instruction's first byte, its tag, tell
//! the four instruction forms apart.

use vstd::prelude::*;
use crate::error::SnappyError;
use crate::varint::{varint_decode, lemma_varint_parse_bounds, MAX_VARINT_LEN};

verus! {

/// One instruction, as read from the front of a stream.
pub enum Step {
    /// `len` bytes of data follow the `header` bytes of the instruction.
    Literal { header: nat, len: nat },
    /// An instruction of `size` bytes that repeats `len` bytes of the
    /// output, starting `offset` bytes before its end.
    Copy { size: nat, offset: nat, len: nat },
}

/// The little-endian value of the `width` bytes of `s` from `start`, for
/// widths up to four.
pub open spec fn le_at(s: Seq<u8>, start: int, width: nat) -> nat {
    ((if width >= 1 { s[start] as nat } else { 0 })
        + (if width >= 2 { 0x100 * (s[start + 1] as nat) } else { 0 })
        + (if width >= 3 { 0x1_0000 * (s[start + 2] as nat) } else { 0 })
        + (if width >= 4 { 0x100_0000 * (s[start + 3] as nat) } else { 0 })) as nat
}

/// How many length bytes follow the tag of a literal.
pub open spec fn literal_extra(tag: u8) -> nat {
    if tag / 4 < 60 {
        0
    } else {
        (tag / 4 - 59) as nat
    }
}

/// The instruction at the front of `s`, or `None` where `s` ends inside
/// the instruction's header. A literal's data is not looked at.
pub open spec fn instruction(s: Seq<u8>) -> Option<Step>
    recommends
        s.len() > 0,
{
    let tag = s[0];
    let kind = tag % 4;
    if kind == 0 {
        let extra = literal_extra(tag);
        if s.len() < 1 + extra {
            None
        } else if extra == 0 {
            Some(Step::Literal { header: 1, len: (tag / 4 + 1) as nat })
        } else {
            Some(Step::Literal { header: 1 + extra, len: le_at(s, 1, extra) + 1 })
        }
    } else if kind == 1 {
        if s.len() < 2 {
            None
        } else {
            Some(
                Step::Copy {
                    size: 2,
                    offset: ((tag / 32) * 0x100 + s[1]) as nat,
                    len: (4 + (tag / 4) % 8) as nat,
                },
            )
        }
    } else if kind == 2 {
        if s.len() < 3 {
            None
        } else {
            Some(Step::Copy { size: 3, offset: le_at(s, 1, 2), len: (1 + tag / 4) as nat })
        }
    } else {
        if s.len() < 5 {
            None
        } else {
            Some(Step::Copy { size: 5, offset: le_at(s, 1, 4), len: (1 + tag / 4) as nat })
        }
    }
}

/// `out` with `len` more bytes, each the byte `offset` places before the
/// end at the moment it is appended. With `offset < len` the copy reads
/// bytes that it wrote itself.
pub open spec fn expand_copy(out: Seq<u8>, offset: nat, len: nat) -> Seq<u8>
    recommends
        1 <= offset <= out.len(),
    decreases len,
{
    if len == 0 {
        out
    } else {
        expand_copy(out.push(out[out.len() - offset]), offset, (len - 1) as nat)
    }
}

/// What the instructions of `s` make of `out`, given that the block
/// declares `expected` bytes. Instructions are taken one by one from the
/// front; the first one that cannot be carried out decides the error:
/// `MalformedInput` where `s` ends inside an instruction,
/// `InvalidCopyOffset` where a copy reaches back zero bytes or further than
/// the output goes, `LengthMismatch` where the output would outgrow
/// `expected`, or where `s` is used up and the output is shorter.
pub open spec fn decode_stream(s: Seq<u8>, out: Seq<u8>, expected: nat) -> Result<
    Seq<u8>,
    SnappyError,
>
    decreases s.len(),
{
    if s.len() == 0 {
        if out.len() == expected {
            Ok(out)
        } else {
            Err(SnappyError::LengthMismatch)
        }
    } else {
        match instruction(s) {
            None => Err(SnappyError::MalformedInput),
            Some(Step::Literal { header, len }) => {
                if s.len() < header + len {
                    Err(SnappyError::MalformedInput)
                } else if out.len() + len > expected {
                    Err(SnappyError::LengthMismatch)
                } else {
                    decode_stream(
                        s.skip((header + len) as int),
                        out + s.subrange(header as int, (header + len) as int),
                        expected,
                    )
                }
            },
            Some(Step::Copy { size, offset, len }) => {
                if offset == 0 || offset > out.len() {
                    Err(SnappyError::InvalidCopyOffset)
                } else if out.len() + len > expected {
                    Err(SnappyError::LengthMismatch)
                } else {
                    decode_stream(s.skip(size as int), expand_copy(out, offset, len), expected)
                }
            },
        }
    }
}

/// The data that the block `s` stands for, or the reason why it stands for
/// none: `MalformedInput` where the length header is no 32-bit varint,
/// else whatever the instructions after it give.
pub open spec fn decode_block(s: Seq<u8>) -> Result<Seq<u8>, SnappyError> {
    match varint_decode(s) {
        None => Err(SnappyError::MalformedInput),
        Some((expected, used)) => decode_stream(s.skip(used as int), Seq::empty(), expected),
    }
}

/// [`decode_stream`] without the data: the same walk over the
/// instructions, keeping only the number of bytes produced so far.
pub open spec fn scan_stream(s: Seq<u8>, produced: nat, expected: nat) -> Result<(), SnappyError>
    decreases s.len(),
{
    if s.len() == 0 {
        if produced == expected {
            Ok(())
        } else {
            Err(SnappyError::LengthMismatch)
        }
    } else {
        match instruction(s) {
            None => Err(SnappyError::MalformedInput),
            Some(Step::Literal { header, len }) => {
                if s.len() < header + len {
                    Err(SnappyError::MalformedInput)
                } else if produced + len > expected {
                    Err(SnappyError::LengthMismatch)
                } else {
                    scan_stream(s.skip((header + len) as int), produced + len, expected)
                }
            },
            Some(Step::Copy { size, offset, len }) => {
                if offset == 0 || offset > produced {
                    Err(SnappyError::InvalidCopyOffset)
                } else if produced + len > expected {
                    Err(SnappyError::LengthMismatch)
                } else {
                    scan_stream(s.skip(size as int), produced + len, expected)
                }
            },
        }
    }
}

/// The length that the block `s` declares, where `s` is a block that
/// decodes; else the error that decoding it gives.
pub open spec fn scan_block(s: Seq<u8>) -> Result<nat, SnappyError> {
    match varint_decode(s) {
        None => Err(SnappyError::MalformedInput),
        Some((expected, used)) => match scan_stream(s.skip(used as int), 0, expected) {
            Ok(()) => Ok(expected),
            Err(e) => Err(e),
        },
    }
}

/// Whether `s` is a block that decodes.
pub open spec fn is_valid_block(s: Seq<u8>) -> bool {
    decode_block(s).is_ok()
}

/// Every instruction takes at least one byte of the stream and yields at
/// least one byte of output; lengths and offsets fit in 33 bits.
pub proof fn lemma_instruction_bounds(s: Seq<u8>)
    requires
        s.len() > 0,
    ensures
        match instruction(s) {
            None => true,
            Some(Step::Literal { header, len }) => 1 <= header <= 5 && header <= s.len() && 1
                <= len <= 0x1_0000_0000,
            Some(Step::Copy { size, offset, len }) => 2 <= size <= 5 && size <= s.len() && 1
                <= len <= 64 && offset < 0x1_0000_0000,
        },
{
}

/// A copy appends exactly `len` bytes and leaves what was there in place.
pub proof fn lemma_expand_copy_len(out: Seq<u8>, offset: nat, len: nat)
    ensures
        expand_copy(out, offset, len).len() == out.len() + len,
        expand_copy(out, offset, len).subrange(0, out.len() as int) == out,
    decreases len,
{
    if len > 0 {
        let next = out.push(out[out.len() - offset]);
        lemma_expand_copy_len(next, offset, (len - 1) as nat);
        assert(expand_copy(out, offset, len).subrange(0, out.len() as int) =~= expand_copy(
            next,
            offset,
            (len - 1) as nat,
        ).subrange(0, next.len() as int).subrange(0, out.len() as int));
        assert(next.subrange(0, out.len() as int) =~= out);
    } else {
        assert(out.subrange(0, out.len() as int) =~= out);
    }
}

/// Walking a stream for its lengths alone succeeds exactly where decoding
/// it does, and fails with the same error; what is decoded has the
/// expected length.
pub proof fn lemma_scan_matches_decode(s: Seq<u8>, out: Seq<u8>, expected: nat)
    ensures
        match decode_stream(s, out, expected) {
            Ok(data) => scan_stream(s, out.len(), expected).is_ok() && data.len() == expected,
            Err(e) => scan_stream(s, out.len(), expected) == Err::<(), SnappyError>(e),
        },
    decreases s.len(),
{
    if s.len() > 0 {
        lemma_instruction_bounds(s);
        match instruction(s) {
            None => {},
            Some(Step::Literal { header, len }) => {
                if s.len() >= header + len && out.len() + len <= expected {
                    lemma_scan_matches_decode(
                        s.skip((header + len) as int),
                        out + s.subrange(header as int, (header + len) as int),
                        expected,
                    );
                }
            },
            Some(Step::Copy { size, offset, len }) => {
                if 1 <= offset <= out.len() && out.len() + len <= expected {
                    lemma_expand_copy_len(out, offset, len);
                    lemma_scan_matches_decode(
                        s.skip(size as int),
                        expand_copy(out, offset, len),
                        expected,
                    );
                }
            },
        }
    }
}

/// A block decodes exactly where its scan succeeds, to as many bytes as
/// it declares, and the two fail alike.
pub proof fn lemma_scan_block_matches_decode(s: Seq<u8>)
    ensures
        match decode_block(s) {
            Ok(data) => scan_block(s) == Ok::<nat, SnappyError>(data.len()),
            Err(e) => scan_block(s) == Err::<nat, SnappyError>(e),
        },
{
    match varint_decode(s) {
        None => {},
        Some((expected, used)) => {
            lemma_varint_parse_bounds(s, MAX_VARINT_LEN as nat);
            lemma_scan_matches_decode(s.skip(used as int), Seq::empty(), expected);
        },
    }
}

} // verus!
