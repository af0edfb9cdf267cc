//! The encoder: walks the input once, asks the match finder at each
//! position, and writes literals for what is new and copies for what
//! repeats.

use vstd::prelude::*;
use crate::emit::{copy_run, literal_run, write_copy_run, write_literal_run};
use crate::error::SnappyError;
use crate::format::decode_block;
use crate::laws::{lemma_bounded_growth, lemma_round_trip};
use crate::matcher::{
    check_match, empty_table, extend_match, is_match, lemma_match_len, load_word, match_len,
    new_table, slot,
    slot_of, word_at,
};
use crate::varint::{varint_bytes, write_varint};

verus! {

/// The longest input that a block can declare.
pub const MAX_INPUT_LEN: usize = 0xffff_ffff;

/// The bound on the size of the block for an input of `n` bytes.
pub open spec fn max_compressed_len(n: nat) -> nat {
    32 + n + n / 6
}

/// Whether an input of `n` bytes can be compressed: a block can declare
/// its length, and the bound on the block's size is a `usize`.
pub open spec fn fits_in_block(n: nat) -> bool {
    n <= MAX_INPUT_LEN && max_compressed_len(n) <= usize::MAX
}

/// `table` after the position `pos` is recorded under the hash of the four
/// bytes found there.
pub open spec fn note(input: Seq<u8>, table: Seq<usize>, pos: nat) -> Seq<usize>
    recommends
        pos + 4 <= input.len(),
        table.len() > 0,
{
    table.update(slot_of(word_at(input, pos as int), table.len()) as int, pos as usize)
}

/// The instructions for `input` from `lit_start` on, given that the scan
/// stands at `pos`, that the bytes between the two wait to go out as a
/// literal, and that `table` holds what the scan has seen.
///
/// At each position the table is asked for the last place with the same
/// hash and told of this one. Where the place it names holds the same four
/// bytes within reach, the waiting bytes go out as literals, the match is
/// extended as far as the bytes agree and goes out as copies, and the scan
/// goes on behind it, after recording the last position inside the match.
/// Elsewhere the scan moves on by one byte. With fewer than four bytes
/// left, all that waits goes out as literals.
pub open spec fn encode_from(input: Seq<u8>, pos: nat, lit_start: nat, table: Seq<usize>) -> Seq<
    u8,
>
    recommends
        lit_start <= pos <= input.len(),
        table.len() > 0,
    decreases input.len() - pos,
    via encode_from_terminates
{
    if pos + 4 > input.len() {
        literal_run(input.subrange(lit_start as int, input.len() as int))
    } else {
        let cand = table[slot_of(word_at(input, pos as int), table.len()) as int] as int;
        let seen = note(input, table, pos);
        if is_match(input, cand, pos as int) {
            let len = 4 + match_len(input, cand + 4, (pos + 4) as int);
            let end = pos + len;
            let after = if end + 3 <= input.len() {
                note(input, seen, (end - 1) as nat)
            } else {
                seen
            };
            literal_run(input.subrange(lit_start as int, pos as int)) + copy_run(
                (pos - cand) as nat,
                len,
            ) + encode_from(input, end, end, after)
        } else {
            encode_from(input, pos + 1, lit_start, seen)
        }
    }
}

#[via_fn]
proof fn encode_from_terminates(input: Seq<u8>, pos: nat, lit_start: nat, table: Seq<usize>) {
    if pos + 4 <= input.len() {
        let cand = table[slot_of(word_at(input, pos as int), table.len()) as int] as int;
        if is_match(input, cand, pos as int) {
            lemma_match_len(input, cand + 4, (pos + 4) as int);
        }
    }
}

/// The block for `input`: its length as a varint, then its instructions.
pub open spec fn encode_block(input: Seq<u8>) -> Seq<u8> {
    varint_bytes(input.len()) + encode_from(input, 0, 0, empty_table(input.len()))
}

/// The bound on the size of the block for an input of `source_len` bytes,
/// or `None` where the bound is more than a `usize` holds.
pub fn checked_max_compressed_length(source_len: usize) -> (bound: Option<usize>)
    ensures
        match bound {
            Some(b) => b == max_compressed_len(source_len as nat),
            None => max_compressed_len(source_len as nat) > usize::MAX,
        },
{
    match source_len.checked_add(source_len / 6) {
        None => None,
        Some(sum) => sum.checked_add(32),
    }
}

/// The bound on the size of the block for an input of `source_len` bytes.
pub fn max_compressed_length(source_len: usize) -> (bound: usize)
    requires
        max_compressed_len(source_len as nat) <= usize::MAX,
    ensures
        bound == max_compressed_len(source_len as nat),
{
    32 + source_len + source_len / 6
}

/// Appends the block for `input` to `out`.
pub fn compress_into(out: &mut Vec<u8>, input: &[u8])
    requires
        input@.len() <= MAX_INPUT_LEN,
    ensures
        final(out)@ == old(out)@ + encode_block(input@),
{
    let n: usize = input.len();
    write_varint(out, n as u32);
    let mut table: Vec<usize> = new_table(n);
    let ghost goal = out@ + encode_from(input@, 0, 0, table@);
    let mut pos: usize = 0;
    let mut lit_start: usize = 0;
    while n - pos >= 4
        invariant
            n == input@.len(),
            lit_start <= pos <= n,
            table@.len() > 0,
            out@ + encode_from(input@, pos as nat, lit_start as nat, table@) == goal,
        decreases n - pos,
    {
        let word: u32 = load_word(input, pos);
        let index: usize = slot(word, table.len());
        let cand: usize = table[index];
        let ghost before = table@;
        table.set(index, pos);
        assert(table@ == note(input@, before, pos as nat));
        if check_match(input, cand, pos) {
            let len: usize = 4 + extend_match(input, cand + 4, pos + 4);
            let end: usize = pos + len;
            proof {
                let lits = literal_run(input@.subrange(lit_start as int, pos as int));
                let copies = copy_run((pos - cand) as nat, len as nat);
                let after = if end + 3 <= n {
                    note(input@, table@, (end - 1) as nat)
                } else {
                    table@
                };
                let tail = encode_from(input@, end as nat, end as nat, after);
                assert((out@ + lits + copies) + tail =~= out@ + (lits + copies + tail));
            }
            write_literal_run(out, input, lit_start, pos);
            write_copy_run(out, pos - cand, len);
            pos = end;
            lit_start = end;
            if n - end >= 3 {
                let last: usize = end - 1;
                let index: usize = slot(load_word(input, last), table.len());
                table.set(index, last);
            }
        } else {
            pos = pos + 1;
        }
    }
    write_literal_run(out, input, lit_start, n);
}

/// Compresses `input` into one block.
///
/// Fails with `InvalidInput` where `input` is longer than a block can
/// declare, and with `BufferTooSmall` where the bound on the block's size
/// is more than a `usize` holds. On every other input the result is the
/// block that [`encode_block`] describes: it decodes to `input` and is no
/// longer than the bound.
pub fn compress(input: &[u8]) -> (res: Result<Vec<u8>, SnappyError>)
    ensures
        match res {
            Ok(block) => {
                &&& fits_in_block(input@.len())
                &&& block@ == encode_block(input@)
                &&& decode_block(block@) == Ok::<Seq<u8>, SnappyError>(input@)
                &&& block@.len() <= max_compressed_len(input@.len())
            },
            Err(e) => if input@.len() > MAX_INPUT_LEN {
                e == SnappyError::InvalidInput
            } else {
                e == SnappyError::BufferTooSmall && max_compressed_len(input@.len()) > usize::MAX
            },
        },
{
    if input.len() > MAX_INPUT_LEN {
        return Err(SnappyError::InvalidInput);
    }
    match checked_max_compressed_length(input.len()) {
        None => Err(SnappyError::BufferTooSmall),
        Some(bound) => {
            let mut block: Vec<u8> = Vec::with_capacity(bound);
            compress_into(&mut block, input);
            proof {
                assert(block@ =~= encode_block(input@));
                lemma_round_trip(input@);
                lemma_bounded_growth(input@);
            }
            Ok(block)
        },
    }
}

} // verus!
