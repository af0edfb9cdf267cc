//! The decoder: reads a block instruction by instruction and rebuilds the
//! data it stands for, or says why it cannot.

use vstd::prelude::*;
use vstd::slice::slice_subrange;
use crate::error::SnappyError;
use crate::format::{
    decode_block, decode_stream, expand_copy, instruction, is_valid_block, le_at,
    lemma_expand_copy_len, lemma_instruction_bounds, lemma_scan_block_matches_decode, literal_extra, scan_stream,
    Step,
};
use crate::varint::{decode_varint, varint_decode};

verus! {

/// One instruction with machine integers: see [`Step`].
#[derive(Debug, Clone, Copy)]
pub enum Instruction {
    /// `len` bytes of data follow the `header` bytes of the instruction.
    Literal { header: usize, len: u64 },
    /// An instruction of `size` bytes that repeats `len` bytes of the output.
    Copy { size: usize, offset: u64, len: u64 },
}

impl View for Instruction {
    type V = Step;

    open spec fn view(&self) -> Step {
        match *self {
            Instruction::Literal { header, len } => Step::Literal {
                header: header as nat,
                len: len as nat,
            },
            Instruction::Copy { size, offset, len } => Step::Copy {
                size: size as nat,
                offset: offset as nat,
                len: len as nat,
            },
        }
    }
}

/// The little-endian value of the `width` bytes of `input` from `start`.
fn read_le(input: &[u8], start: usize, width: usize) -> (value: u64)
    requires
        width <= 4,
        start + width <= input@.len(),
    ensures
        value == le_at(input@, start as int, width as nat),
        value < 0x1_0000_0000,
{
    let mut value: u64 = 0;
    if width >= 1 {
        value = input[start] as u64;
    }
    if width >= 2 {
        value = value + 0x100 * (input[start + 1] as u64);
    }
    if width >= 3 {
        value = value + 0x1_0000 * (input[start + 2] as u64);
    }
    if width >= 4 {
        value = value + 0x100_0000 * (input[start + 3] as u64);
    }
    value
}

/// Reads the instruction that starts at `pos`: `None` where `input` ends
/// inside its header.
pub fn read_instruction(input: &[u8], pos: usize) -> (res: Option<Instruction>)
    requires
        pos < input@.len(),
    ensures
        match res {
            Some(found) => instruction(input@.skip(pos as int)) == Some(found@),
            None => instruction(input@.skip(pos as int)).is_none(),
        },
{
    let tag: u8 = input[pos];
    let kind: u8 = tag % 4;
    let left: usize = input.len() - pos;
    let ghost s = input@.skip(pos as int);
    proof {
        assert(s[0] == tag);
        assert(s.len() == left);
    }
    if kind == 0 {
        let extra: usize = if tag / 4 < 60 {
            0
        } else {
            (tag / 4 - 59) as usize
        };
        assert(extra == literal_extra(tag));
        if left < 1 + extra {
            None
        } else if extra == 0 {
            Some(Instruction::Literal { header: 1, len: (tag / 4 + 1) as u64 })
        } else {
            let value: u64 = read_le(input, pos + 1, extra);
            proof {
                assert(le_at(s, 1, extra as nat) == le_at(input@, pos + 1, extra as nat));
            }
            Some(Instruction::Literal { header: 1 + extra, len: value + 1 })
        }
    } else if kind == 1 {
        if left < 2 {
            None
        } else {
            let low: u8 = input[pos + 1];
            assert(s[1] == low);
            Some(
                Instruction::Copy {
                    size: 2,
                    offset: (tag / 32) as u64 * 0x100 + low as u64,
                    len: (4 + (tag / 4) % 8) as u64,
                },
            )
        }
    } else if kind == 2 {
        if left < 3 {
            None
        } else {
            let offset: u64 = read_le(input, pos + 1, 2);
            proof {
                assert(le_at(s, 1, 2) == le_at(input@, pos + 1, 2));
            }
            Some(Instruction::Copy { size: 3, offset, len: (1 + tag / 4) as u64 })
        }
    } else {
        if left < 5 {
            None
        } else {
            let offset: u64 = read_le(input, pos + 1, 4);
            proof {
                assert(le_at(s, 1, 4) == le_at(input@, pos + 1, 4));
            }
            Some(Instruction::Copy { size: 5, offset, len: (1 + tag / 4) as u64 })
        }
    }
}

/// Walks the instructions of `input` from `start` without producing any
/// output, and says whether they yield `expected` bytes.
pub fn scan_instructions(input: &[u8], start: usize, expected: u32) -> (res: Result<
    (),
    SnappyError,
>)
    requires
        start <= input@.len(),
    ensures
        res == scan_stream(input@.skip(start as int), 0, expected as nat),
{
    let ghost goal = scan_stream(input@.skip(start as int), 0, expected as nat);
    let mut pos: usize = start;
    let mut produced: u64 = 0;
    while pos < input.len()
        invariant
            start <= pos <= input@.len(),
            produced <= expected,
            goal == scan_stream(input@.skip(start as int), 0, expected as nat),
            scan_stream(input@.skip(pos as int), produced as nat, expected as nat) == goal,
        decreases input@.len() - pos,
    {
        let ghost s = input@.skip(pos as int);
        proof {
            lemma_instruction_bounds(s);
        }
        match read_instruction(input, pos) {
            None => {
                return Err(SnappyError::MalformedInput);
            },
            Some(Instruction::Literal { header, len }) => {
                let left: usize = input.len() - pos - header;
                if len > left as u64 {
                    return Err(SnappyError::MalformedInput);
                }
                if produced + len > expected as u64 {
                    return Err(SnappyError::LengthMismatch);
                }
                proof {
                    assert(s.skip((header + len) as int) =~= input@.skip(pos + header + len));
                }
                pos = pos + header + len as usize;
                produced = produced + len;
            },
            Some(Instruction::Copy { size, offset, len }) => {
                if offset == 0 || offset > produced {
                    return Err(SnappyError::InvalidCopyOffset);
                }
                if produced + len > expected as u64 {
                    return Err(SnappyError::LengthMismatch);
                }
                proof {
                    assert(s.skip(size as int) =~= input@.skip(pos + size));
                }
                pos = pos + size;
                produced = produced + len;
            },
        }
    }
    if produced == expected as u64 {
        Ok(())
    } else {
        Err(SnappyError::LengthMismatch)
    }
}

/// Appends `len` bytes to `out`, one at a time, each the byte `offset`
/// places before the end at that moment.
pub fn append_copy(out: &mut Vec<u8>, offset: usize, len: usize)
    requires
        1 <= offset <= old(out)@.len(),
        old(out)@.len() + len <= usize::MAX,
    ensures
        final(out)@ == expand_copy(old(out)@, offset as nat, len as nat),
{
    let mut done: usize = 0;
    while done < len
        invariant
            done <= len,
            1 <= offset <= out@.len(),
            out@.len() == old(out)@.len() + done,
            old(out)@.len() + len <= usize::MAX,
            expand_copy(out@, offset as nat, (len - done) as nat) == expand_copy(
                old(out)@,
                offset as nat,
                len as nat,
            ),
        decreases len - done,
    {
        let byte: u8 = out[out.len() - offset];
        out.push(byte);
        done = done + 1;
    }
}

/// Carries out the instructions of `input` from `start`, appending to an
/// output that starts empty and may grow to `expected` bytes.
pub(crate) fn decode_instructions(input: &[u8], start: usize, expected: u32) -> (res: Result<
    Vec<u8>,
    SnappyError,
>)
    requires
        start <= input@.len(),
    ensures
        match res {
            Ok(data) => decode_stream(input@.skip(start as int), Seq::empty(), expected as nat)
                == Ok::<Seq<u8>, SnappyError>(data@),
            Err(e) => decode_stream(input@.skip(start as int), Seq::empty(), expected as nat)
                == Err::<Seq<u8>, SnappyError>(e),
        },
{
    let ghost goal = decode_stream(input@.skip(start as int), Seq::empty(), expected as nat);
    let mut out: Vec<u8> = Vec::with_capacity(expected as usize);
    let mut pos: usize = start;
    while pos < input.len()
        invariant
            start <= pos <= input@.len(),
            out@.len() <= expected,
            goal == decode_stream(input@.skip(start as int), Seq::empty(), expected as nat),
            decode_stream(input@.skip(pos as int), out@, expected as nat) == goal,
        decreases input@.len() - pos,
    {
        let ghost s = input@.skip(pos as int);
        proof {
            lemma_instruction_bounds(s);
        }
        match read_instruction(input, pos) {
            None => {
                return Err(SnappyError::MalformedInput);
            },
            Some(Instruction::Literal { header, len }) => {
                let left: usize = input.len() - pos - header;
                if len > left as u64 {
                    return Err(SnappyError::MalformedInput);
                }
                if out.len() as u64 + len > expected as u64 {
                    return Err(SnappyError::LengthMismatch);
                }
                let from: usize = pos + header;
                let to: usize = from + len as usize;
                let data = slice_subrange(input, from, to);
                proof {
                    assert(s.skip((header + len) as int) =~= input@.skip(to as int));
                    assert(s.subrange(header as int, (header + len) as int) =~= data@);
                }
                let ghost before = out@;
                out.extend_from_slice(data);
                proof {
                    assert(out@ =~= before + data@);
                }
                pos = to;
            },
            Some(Instruction::Copy { size, offset, len }) => {
                if offset == 0 || offset > out.len() as u64 {
                    return Err(SnappyError::InvalidCopyOffset);
                }
                if out.len() as u64 + len > expected as u64 {
                    return Err(SnappyError::LengthMismatch);
                }
                proof {
                    assert(s.skip(size as int) =~= input@.skip(pos + size));
                }
                let ghost before = out@;
                append_copy(&mut out, offset as usize, len as usize);
                proof {
                    lemma_expand_copy_len(before, offset as nat, len as nat);
                }
                pos = pos + size;
            },
        }
    }
    if out.len() as u64 == expected as u64 {
        Ok(out)
    } else {
        Err(SnappyError::LengthMismatch)
    }
}

/// Decodes a block. The result is the data that the block stands for, all
/// of it or none: `MalformedInput` where the length header or an
/// instruction is cut short, `InvalidCopyOffset` where a copy reaches
/// outside the output, `LengthMismatch` where the instructions do not
/// yield the declared number of bytes.
pub fn uncompress(input: &[u8]) -> (res: Result<Vec<u8>, SnappyError>)
    ensures
        match res {
            Ok(data) => decode_block(input@) == Ok::<Seq<u8>, SnappyError>(data@),
            Err(e) => decode_block(input@) == Err::<Seq<u8>, SnappyError>(e),
        },
{
    proof {
        lemma_scan_block_matches_decode(input@);
    }
    match decode_varint(input) {
        Err(e) => Err(e),
        Ok((expected, used)) => {
            match scan_instructions(input, used, expected) {
                Err(e) => Err(e),
                Ok(()) => decode_instructions(input, used, expected),
            }
        },
    }
}

/// The number of bytes that a block declares in its header, without a
/// look at its instructions.
pub fn uncompressed_length(input: &[u8]) -> (res: Result<u32, SnappyError>)
    ensures
        match res {
            Ok(n) => varint_decode(input@).is_some() && varint_decode(input@).unwrap().0 == n,
            Err(e) => varint_decode(input@).is_none() && e == SnappyError::MalformedInput,
        },
{
    match decode_varint(input) {
        Ok((expected, _)) => Ok(expected),
        Err(e) => Err(e),
    }
}

/// Whether `input` is a block that decodes. Reads the lengths and offsets
/// of the instructions and builds no output.
pub fn validate_compressed_buffer(input: &[u8]) -> (ok: bool)
    ensures
        ok == is_valid_block(input@),
{
    proof {
        lemma_scan_block_matches_decode(input@);
    }
    match decode_varint(input) {
        Err(_) => false,
        Ok((expected, used)) => scan_instructions(input, used, expected).is_ok(),
    }
}

} // verus!
