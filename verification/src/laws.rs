//! What holds of the codec as a whole: every block written by the encoder
//! decodes to the input it was written for, within a known size, and a
//! block that loses its last byte no longer decodes.

use vstd::prelude::*;
use crate::emit::{
    copy_run, lemma_copy_run_len, lemma_decode_copy_run, lemma_decode_literal_run,
    lemma_literal_run_len, literal_run,
};
use crate::encoder::{encode_block, encode_from, max_compressed_len, note, MAX_INPUT_LEN};
use crate::error::SnappyError;
use crate::format::{
    decode_block, decode_stream, expand_copy, instruction, is_valid_block,
    lemma_instruction_bounds, Step,
};
use crate::matcher::{empty_table, is_match, lemma_match_len, match_len, slot_of, word_at};
use crate::varint::{
    lemma_varint_parse_bounds, lemma_varint_round_trip, varint_bytes, varint_decode,
    varint_parse, MAX_VARINT_LEN,
};

verus! {

/// A copy whose bytes are those that the input holds next turns the first
/// `pos` bytes of the input into its first `pos + len` bytes.
pub proof fn lemma_copy_rebuilds(input: Seq<u8>, pos: nat, offset: nat, len: nat)
    requires
        1 <= offset <= pos,
        pos + len <= input.len(),
        forall|i: int| pos <= i < pos + len ==> #[trigger] input[i] == input[i - offset],
    ensures
        expand_copy(input.subrange(0, pos as int), offset, len) == input.subrange(
            0,
            (pos + len) as int,
        ),
    decreases len,
{
    let out = input.subrange(0, pos as int);
    if len > 0 {
        assert(input[pos as int] == input[pos - offset]);
        assert(out.push(out[out.len() - offset]) =~= input.subrange(0, (pos + 1) as int));
        lemma_copy_rebuilds(input, pos + 1, offset, (len - 1) as nat);
    }
}

/// Where the four bytes at `pos` match those at `cand`, every byte of the
/// extended match repeats the byte `pos - cand` places before it, and the
/// match ends inside the input.
pub proof fn lemma_match_repeats(input: Seq<u8>, cand: int, pos: int)
    requires
        is_match(input, cand, pos),
    ensures
        pos + 4 + match_len(input, cand + 4, pos + 4) <= input.len(),
        forall|i: int|
            pos <= i < pos + 4 + match_len(input, cand + 4, pos + 4) ==> #[trigger] input[i]
                == input[i - (pos - cand)],
{
    lemma_match_len(input, cand + 4, pos + 4);
    let more = match_len(input, cand + 4, pos + 4);
    assert forall|i: int| pos <= i < pos + 4 + more implies #[trigger] input[i] == input[i - (
    pos - cand)] by {
        if i >= pos + 4 {
            let k = i - (pos + 4);
            assert(input[cand + 4 + k] == input[pos + 4 + k]);
        }
    }
}

/// Literals for the bytes that wait, then copies for a match, then
/// instructions that rebuild the input from behind the match: together
/// they rebuild the input from where the waiting bytes start.
pub proof fn lemma_match_step_decodes(
    input: Seq<u8>,
    pos: int,
    lit_start: int,
    cand: int,
    tail: Seq<u8>,
)
    requires
        0 <= lit_start <= pos,
        is_match(input, cand, pos),
        decode_stream(
            tail,
            input.subrange(0, pos + 4 + match_len(input, cand + 4, pos + 4)),
            input.len(),
        ) == Ok::<Seq<u8>, SnappyError>(input),
    ensures
        decode_stream(
            literal_run(input.subrange(lit_start, pos)) + copy_run(
                (pos - cand) as nat,
                4 + match_len(input, cand + 4, pos + 4),
            ) + tail,
            input.subrange(0, lit_start),
            input.len(),
        ) == Ok::<Seq<u8>, SnappyError>(input),
{
    let n = input.len();
    let out = input.subrange(0, lit_start);
    let len = 4 + match_len(input, cand + 4, pos + 4);
    let offset = (pos - cand) as nat;
    let data = input.subrange(lit_start, pos);
    let copies = copy_run(offset, len);
    let reached = input.subrange(0, pos);
    lemma_match_repeats(input, cand, pos);
    assert(literal_run(data) + copies + tail =~= literal_run(data) + (copies + tail));
    assert(decode_stream(literal_run(data) + (copies + tail), out, n) == decode_stream(
        copies + tail,
        out + data,
        n,
    )) by {
        lemma_decode_literal_run(data, copies + tail, out, n);
    }
    assert(out + data =~= reached);
    assert(decode_stream(copies + tail, reached, n) == decode_stream(
        tail,
        expand_copy(reached, offset, len),
        n,
    )) by {
        lemma_decode_copy_run(offset, len, tail, reached, n);
    }
    lemma_copy_rebuilds(input, pos as nat, offset, len);
}

/// The instructions written from any state of the scan rebuild the input
/// from the bytes that were already out, whatever the table holds.
pub proof fn lemma_encode_from_decodes(
    input: Seq<u8>,
    pos: nat,
    lit_start: nat,
    table: Seq<usize>,
)
    requires
        lit_start <= pos <= input.len(),
        table.len() > 0,
    ensures
        decode_stream(
            encode_from(input, pos, lit_start, table),
            input.subrange(0, lit_start as int),
            input.len(),
        ) == Ok::<Seq<u8>, SnappyError>(input),
    decreases input.len() - pos,
{
    let n = input.len();
    let out = input.subrange(0, lit_start as int);
    if pos + 4 > n {
        let none = Seq::<u8>::empty();
        let data = input.subrange(lit_start as int, n as int);
        assert(literal_run(data) + none =~= literal_run(data));
        assert(out + data =~= input);
        assert(decode_stream(literal_run(data) + none, out, n) == decode_stream(
            none,
            out + data,
            n,
        )) by {
            lemma_decode_literal_run(data, none, out, n);
        }
    } else {
        let cand = table[slot_of(word_at(input, pos as int), table.len()) as int] as int;
        let seen = note(input, table, pos);
        if is_match(input, cand, pos as int) {
            let len = 4 + match_len(input, cand + 4, (pos + 4) as int);
            let end = pos + len;
            let after = if end + 3 <= n {
                note(input, seen, (end - 1) as nat)
            } else {
                seen
            };
            lemma_match_repeats(input, cand, pos as int);
            lemma_encode_from_decodes(input, end, end, after);
            lemma_match_step_decodes(
                input,
                pos as int,
                lit_start as int,
                cand,
                encode_from(input, end, end, after),
            );
        } else {
            lemma_encode_from_decodes(input, pos + 1, lit_start, seen);
        }
    }
}

/// The instructions written from any state of the scan take at most seven
/// bytes for every six bytes of input that were still to go out, and one more.
pub proof fn lemma_encode_from_len(input: Seq<u8>, pos: nat, lit_start: nat, table: Seq<usize>)
    requires
        lit_start <= pos <= input.len(),
        table.len() > 0,
    ensures
        6 * encode_from(input, pos, lit_start, table).len() <= 7 * (input.len() - lit_start) + 6,
    decreases input.len() - pos,
{
    let n = input.len();
    if pos + 4 > n {
        lemma_literal_run_len(input.subrange(lit_start as int, n as int));
    } else {
        let cand = table[slot_of(word_at(input, pos as int), table.len()) as int] as int;
        let seen = note(input, table, pos);
        if is_match(input, cand, pos as int) {
            let len = 4 + match_len(input, cand + 4, (pos + 4) as int);
            let end = pos + len;
            let after = if end + 3 <= n {
                note(input, seen, (end - 1) as nat)
            } else {
                seen
            };
            lemma_match_repeats(input, cand, pos as int);
            lemma_literal_run_len(input.subrange(lit_start as int, pos as int));
            lemma_copy_run_len((pos - cand) as nat, len);
            lemma_encode_from_len(input, end, end, after);
        } else {
            lemma_encode_from_len(input, pos + 1, lit_start, seen);
        }
    }
}

/// Decoding the block written for `input` gives `input` back, byte for byte.
pub proof fn lemma_round_trip(input: Seq<u8>)
    requires
        input.len() <= MAX_INPUT_LEN,
    ensures
        decode_block(encode_block(input)) == Ok::<Seq<u8>, SnappyError>(input),
{
    let body = encode_from(input, 0, 0, empty_table(input.len()));
    let block = encode_block(input);
    lemma_varint_round_trip(input.len(), body);
    assert(block.skip(varint_bytes(input.len()).len() as int) =~= body);
    lemma_encode_from_decodes(input, 0, 0, empty_table(input.len()));
    assert(input.subrange(0, 0) =~= Seq::<u8>::empty());
}

/// The block written for any input passes validation.
pub proof fn lemma_encoded_block_is_valid(input: Seq<u8>)
    requires
        input.len() <= MAX_INPUT_LEN,
    ensures
        is_valid_block(encode_block(input)),
{
    lemma_round_trip(input);
}

/// The block written for an input of `n` bytes is never longer than
/// `32 + n + n / 6` bytes.
pub proof fn lemma_bounded_growth(input: Seq<u8>)
    requires
        input.len() <= MAX_INPUT_LEN,
    ensures
        encode_block(input).len() <= max_compressed_len(input.len()),
{
    lemma_varint_round_trip(input.len(), Seq::empty());
    lemma_encode_from_len(input, 0, 0, empty_table(input.len()));
}

/// A varint that takes all of `s` is no longer there once `s` loses its
/// last byte.
pub proof fn lemma_varint_cut_short(s: Seq<u8>, budget: nat)
    requires
        varint_parse(s, budget).is_some(),
        varint_parse(s, budget).unwrap().1 == s.len(),
    ensures
        varint_parse(s.drop_last(), budget).is_none(),
    decreases budget,
{
    lemma_varint_parse_bounds(s, budget);
    if s[0] >= 128 {
        lemma_varint_parse_bounds(s.skip(1), (budget - 1) as nat);
        lemma_varint_cut_short(s.skip(1), (budget - 1) as nat);
        assert(s.drop_last().skip(1) =~= s.skip(1).drop_last());
    }
}

/// A varint that ends before the last byte of `s` reads the same once `s`
/// loses that byte.
pub proof fn lemma_varint_kept(s: Seq<u8>, budget: nat)
    requires
        varint_parse(s, budget).is_some(),
        varint_parse(s, budget).unwrap().1 < s.len(),
    ensures
        varint_parse(s.drop_last(), budget) == varint_parse(s, budget),
    decreases budget,
{
    lemma_varint_parse_bounds(s, budget);
    if s[0] >= 128 {
        lemma_varint_parse_bounds(s.skip(1), (budget - 1) as nat);
        lemma_varint_kept(s.skip(1), (budget - 1) as nat);
        assert(s.drop_last().skip(1) =~= s.skip(1).drop_last());
    }
}

/// Instructions that decode no longer do once the last byte is gone: the
/// last instruction is then cut short.
pub proof fn lemma_truncated_stream_fails(s: Seq<u8>, out: Seq<u8>, expected: nat)
    requires
        s.len() > 0,
        decode_stream(s, out, expected).is_ok(),
    ensures
        decode_stream(s.drop_last(), out, expected) == Err::<Seq<u8>, SnappyError>(
            SnappyError::MalformedInput,
        ),
    decreases s.len(),
{
    let t = s.drop_last();
    lemma_instruction_bounds(s);
    match instruction(s) {
        None => {},
        Some(Step::Literal { header, len }) => {
            assert(t.len() >= header);
            assert(instruction(t) == instruction(s));
            if s.len() > header + len {
                let next = (header + len) as int;
                assert(t.skip(next) =~= s.skip(next).drop_last());
                assert(t.subrange(header as int, next) =~= s.subrange(header as int, next));
                lemma_truncated_stream_fails(
                    s.skip(next),
                    out + s.subrange(header as int, next),
                    expected,
                );
            }
        },
        Some(Step::Copy { size, offset, len }) => {
            if s.len() > size {
                assert(instruction(t) == instruction(s));
                assert(t.skip(size as int) =~= s.skip(size as int).drop_last());
                lemma_truncated_stream_fails(
                    s.skip(size as int),
                    expand_copy(out, offset, len),
                    expected,
                );
            } else {
                assert(instruction(t).is_none());
            }
        },
    }
}

/// A block that decodes no longer does once its last byte is removed:
/// decoding what is left fails with `MalformedInput`.
pub proof fn lemma_truncated_block_fails(block: Seq<u8>)
    requires
        decode_block(block).is_ok(),
    ensures
        block.len() > 0,
        decode_block(block.drop_last()) == Err::<Seq<u8>, SnappyError>(
            SnappyError::MalformedInput,
        ),
{
    let budget = MAX_VARINT_LEN as nat;
    lemma_varint_parse_bounds(block, budget);
    let (expected, used) = varint_decode(block).unwrap();
    if used == block.len() {
        lemma_varint_cut_short(block, budget);
    } else {
        lemma_varint_kept(block, budget);
        assert(block.drop_last().skip(used as int) =~= block.skip(used as int).drop_last());
        lemma_truncated_stream_fails(block.skip(used as int), Seq::empty(), expected);
    }
}

/// A copy at offset 1 repeats the last byte of the output: the copy reads
/// each byte that it has just written.
pub proof fn lemma_copy_at_offset_one(out: Seq<u8>, len: nat)
    requires
        out.len() > 0,
    ensures
        expand_copy(out, 1, len) == out + Seq::new(len, |i: int| out.last()),
    decreases len,
{
    if len == 0 {
        assert(out + Seq::new(len, |i: int| out.last()) =~= out);
    } else {
        let next = out.push(out.last());
        lemma_copy_at_offset_one(next, (len - 1) as nat);
        assert(next + Seq::new((len - 1) as nat, |i: int| next.last()) =~= out + Seq::new(
            len,
            |i: int| out.last(),
        ));
    }
}

/// A copy that reaches back further than the output goes, or no byte at
/// all, stops the decoder with `InvalidCopyOffset`, whatever follows it.
pub proof fn lemma_copy_out_of_range_fails(s: Seq<u8>, out: Seq<u8>, expected: nat)
    requires
        s.len() > 0,
        instruction(s).is_some(),
        instruction(s).unwrap() is Copy,
        instruction(s).unwrap()->offset == 0 || instruction(s).unwrap()->offset > out.len(),
    ensures
        decode_stream(s, out, expected) == Err::<Seq<u8>, SnappyError>(
            SnappyError::InvalidCopyOffset,
        ),
{
}

} // verus!
