//! The byte form of each instruction that the encoder writes, with the
//! proof that the decoder reads it back as meant.

use vstd::prelude::*;
use vstd::slice::slice_subrange;
use crate::format::{decode_stream, expand_copy, instruction, lemma_expand_copy_len, Step};

verus! {

/// The most bytes that the encoder puts into one literal.
pub const MAX_LITERAL_LEN: usize = 0x1_0000;

/// The furthest that a copy written by the encoder reaches back.
pub const MAX_COPY_OFFSET: usize = 0xffff;

/// The most bytes that one copy instruction repeats.
pub const MAX_COPY_LEN: usize = 64;

/// The fewest bytes that the encoder spends a copy on.
pub const MIN_COPY_LEN: usize = 4;

/// The tag and length bytes of a literal of `len` bytes: lengths up to 60
/// sit in the tag, longer ones follow it in one to four bytes, least
/// significant first.
pub open spec fn literal_header(len: nat) -> Seq<u8>
    recommends
        1 <= len <= 0x1_0000_0000,
{
    let n = (len - 1) as nat;
    if n < 60 {
        seq![(n * 4) as u8]
    } else if n < 0x100 {
        seq![240u8, n as u8]
    } else if n < 0x1_0000 {
        seq![244u8, (n % 0x100) as u8, (n / 0x100) as u8]
    } else if n < 0x100_0000 {
        seq![248u8, (n % 0x100) as u8, (n / 0x100 % 0x100) as u8, (n / 0x1_0000) as u8]
    } else {
        seq![
            252u8,
            (n % 0x100) as u8,
            (n / 0x100 % 0x100) as u8,
            (n / 0x1_0000 % 0x100) as u8,
            (n / 0x100_0000) as u8,
        ]
    }
}

/// A literal that carries `data`.
pub open spec fn literal_bytes(data: Seq<u8>) -> Seq<u8>
    recommends
        1 <= data.len() <= 0x1_0000_0000,
{
    literal_header(data.len()) + data
}

/// `data` as literals of at most [`MAX_LITERAL_LEN`] bytes each; nothing
/// for no data.
pub open spec fn literal_run(data: Seq<u8>) -> Seq<u8>
    decreases data.len(),
{
    if data.len() == 0 {
        Seq::empty()
    } else if data.len() <= MAX_LITERAL_LEN {
        literal_bytes(data)
    } else {
        literal_bytes(data.take(MAX_LITERAL_LEN as int)) + literal_run(
            data.skip(MAX_LITERAL_LEN as int),
        )
    }
}

/// One copy instruction, in the shortest form that holds it: two bytes for
/// a length of 4 to 11 at an offset under 2048, else three bytes.
pub open spec fn copy_bytes(offset: nat, len: nat) -> Seq<u8>
    recommends
        1 <= offset <= MAX_COPY_OFFSET,
        1 <= len <= MAX_COPY_LEN,
{
    if 4 <= len <= 11 && offset < 0x800 {
        seq![(1 + (len - 4) * 4 + (offset / 0x100) * 32) as u8, (offset % 0x100) as u8]
    } else {
        seq![(2 + (len - 1) * 4) as u8, (offset % 0x100) as u8, (offset / 0x100) as u8]
    }
}

/// A match of `len` bytes as copy instructions: full ones of 64 bytes
/// while 68 or more are left, then one of 60 where more than 64 are left,
/// so that the last one still has at least four.
pub open spec fn copy_run(offset: nat, len: nat) -> Seq<u8>
    recommends
        1 <= offset <= MAX_COPY_OFFSET,
        len >= MIN_COPY_LEN,
    decreases len,
{
    if len >= 68 {
        copy_bytes(offset, 64) + copy_run(offset, (len - 64) as nat)
    } else if len > 64 {
        copy_bytes(offset, 60) + copy_run(offset, (len - 60) as nat)
    } else {
        copy_bytes(offset, len)
    }
}

/// The width of a literal's header by the literal's length.
pub proof fn lemma_literal_header_len(len: nat)
    requires
        1 <= len <= 0x1_0000_0000,
    ensures
        1 <= literal_header(len).len() <= 5,
        len <= 60 ==> literal_header(len).len() == 1,
        60 < len <= 0x100 ==> literal_header(len).len() == 2,
        0x100 < len <= 0x1_0000 ==> literal_header(len).len() == 3,
{
}

/// The decoder reads a written literal as a literal of the same data.
pub proof fn lemma_read_literal(data: Seq<u8>, rest: Seq<u8>)
    requires
        1 <= data.len() <= 0x1_0000_0000,
    ensures
        instruction(literal_bytes(data) + rest) == Some(
            Step::Literal { header: literal_header(data.len()).len(), len: data.len() },
        ),
{
    let head = literal_header(data.len());
    let s = literal_bytes(data) + rest;
    let n = (data.len() - 1) as nat;
    assert(s.len() >= head.len() + data.len());
    assert(forall|i: int| 0 <= i < head.len() ==> s[i] == head[i]);
    if n < 60 {
        assert(s[0] == (n * 4) as u8);
    } else if n < 0x100 {
        assert(s[0] == 240u8);
        assert(s[1] == head[1]);
    } else if n < 0x1_0000 {
        assert(s[0] == 244u8);
        assert(s[1] == head[1]);
        assert(s[2] == head[2]);
    } else if n < 0x100_0000 {
        assert(s[0] == 248u8);
        assert(s[1] == head[1]);
        assert(s[2] == head[2]);
        assert(s[3] == head[3]);
    } else {
        assert(s[0] == 252u8);
        assert(s[1] == head[1]);
        assert(s[2] == head[2]);
        assert(s[3] == head[3]);
        assert(s[4] == head[4]);
    }
}

/// Decoding a literal appends its data and goes on with what follows.
pub proof fn lemma_decode_literal(data: Seq<u8>, rest: Seq<u8>, out: Seq<u8>, expected: nat)
    requires
        1 <= data.len() <= 0x1_0000_0000,
        out.len() + data.len() <= expected,
    ensures
        decode_stream(literal_bytes(data) + rest, out, expected) == decode_stream(
            rest,
            out + data,
            expected,
        ),
{
    let head = literal_header(data.len());
    let s = literal_bytes(data) + rest;
    lemma_read_literal(data, rest);
    let h = head.len() as int;
    let l = data.len() as int;
    assert(s.skip(h + l) =~= rest);
    assert(s.subrange(h, h + l) =~= data);
}

/// Decoding a run of literals appends all of its data.
pub proof fn lemma_decode_literal_run(data: Seq<u8>, rest: Seq<u8>, out: Seq<u8>, expected: nat)
    requires
        out.len() + data.len() <= expected,
    ensures
        decode_stream(literal_run(data) + rest, out, expected) == decode_stream(
            rest,
            out + data,
            expected,
        ),
    decreases data.len(),
{
    if data.len() == 0 {
        assert(literal_run(data) + rest =~= rest);
        assert(out + data =~= out);
    } else if data.len() <= MAX_LITERAL_LEN {
        lemma_decode_literal(data, rest, out, expected);
    } else {
        let first = data.take(MAX_LITERAL_LEN as int);
        let more = data.skip(MAX_LITERAL_LEN as int);
        assert(literal_run(data) + rest =~= literal_bytes(first) + (literal_run(more) + rest));
        lemma_decode_literal(first, literal_run(more) + rest, out, expected);
        lemma_decode_literal_run(more, rest, out + first, expected);
        assert((out + first) + more =~= out + data);
    }
}

/// The decoder reads a written copy as a copy of the same offset and length.
pub proof fn lemma_read_copy(offset: nat, len: nat, rest: Seq<u8>)
    requires
        1 <= offset <= MAX_COPY_OFFSET,
        1 <= len <= MAX_COPY_LEN,
    ensures
        instruction(copy_bytes(offset, len) + rest) == Some(
            Step::Copy { size: copy_bytes(offset, len).len(), offset, len },
        ),
        2 <= copy_bytes(offset, len).len() <= 3,
{
    let body = copy_bytes(offset, len);
    let s = body + rest;
    assert(forall|i: int| 0 <= i < body.len() ==> s[i] == body[i]);
    if 4 <= len <= 11 && offset < 0x800 {
        let tag = (1 + (len - 4) * 4 + (offset / 0x100) * 32) as u8;
        assert(s[0] == tag);
        assert(s[1] == (offset % 0x100) as u8);
        assert(tag % 4 == 1);
        assert(tag / 32 == offset / 0x100);
        assert((tag / 4) % 8 == len - 4);
    } else {
        let tag = (2 + (len - 1) * 4) as u8;
        assert(s[0] == tag);
        assert(s[1] == (offset % 0x100) as u8);
        assert(s[2] == (offset / 0x100) as u8);
        assert(tag % 4 == 2);
    }
}

/// Decoding a copy repeats the bytes it names and goes on with what follows.
pub proof fn lemma_decode_copy(offset: nat, len: nat, rest: Seq<u8>, out: Seq<u8>, expected: nat)
    requires
        1 <= offset <= MAX_COPY_OFFSET,
        offset <= out.len(),
        1 <= len <= MAX_COPY_LEN,
        out.len() + len <= expected,
    ensures
        decode_stream(copy_bytes(offset, len) + rest, out, expected) == decode_stream(
            rest,
            expand_copy(out, offset, len),
            expected,
        ),
{
    let s = copy_bytes(offset, len) + rest;
    lemma_read_copy(offset, len, rest);
    assert(s.skip(copy_bytes(offset, len).len() as int) =~= rest);
}

/// Two copies at one offset, one after the other, are one copy of both lengths.
pub proof fn lemma_expand_copy_twice(out: Seq<u8>, offset: nat, first: nat, second: nat)
    ensures
        expand_copy(expand_copy(out, offset, first), offset, second) == expand_copy(
            out,
            offset,
            first + second,
        ),
    decreases first,
{
    if first > 0 {
        lemma_expand_copy_twice(
            out.push(out[out.len() - offset]),
            offset,
            (first - 1) as nat,
            second,
        );
    }
}

/// Decoding a run of copies repeats as many bytes as the whole match has.
pub proof fn lemma_decode_copy_run(
    offset: nat,
    len: nat,
    rest: Seq<u8>,
    out: Seq<u8>,
    expected: nat,
)
    requires
        1 <= offset <= MAX_COPY_OFFSET,
        offset <= out.len(),
        len >= 1,
        out.len() + len <= expected,
    ensures
        decode_stream(copy_run(offset, len) + rest, out, expected) == decode_stream(
            rest,
            expand_copy(out, offset, len),
            expected,
        ),
    decreases len,
{
    if len > 64 {
        let first: nat = if len >= 68 {
            64
        } else {
            60
        };
        let more = copy_run(offset, (len - first) as nat);
        assert(copy_run(offset, len) + rest =~= copy_bytes(offset, first) + (more + rest));
        lemma_decode_copy(offset, first, more + rest, out, expected);
        lemma_expand_copy_len(out, offset, first);
        lemma_decode_copy_run(
            offset,
            (len - first) as nat,
            rest,
            expand_copy(out, offset, first),
            expected,
        );
        lemma_expand_copy_twice(out, offset, first, (len - first) as nat);
    } else {
        lemma_decode_copy(offset, len, rest, out, expected);
    }
}

/// A run of literals costs at most one byte in six over its data, and six
/// sixths more.
pub proof fn lemma_literal_run_len(data: Seq<u8>)
    ensures
        6 * literal_run(data).len() <= 7 * data.len() + 6,
        data.len() == 0 ==> literal_run(data).len() == 0,
        data.len() > 0 ==> literal_run(data).len() > data.len(),
    decreases data.len(),
{
    if data.len() == 0 {
    } else if data.len() <= MAX_LITERAL_LEN {
        lemma_literal_header_len(data.len());
    } else {
        lemma_literal_header_len(MAX_LITERAL_LEN as nat);
        lemma_literal_run_len(data.skip(MAX_LITERAL_LEN as int));
    }
}

/// A run of copies for at least four bytes is shorter than what it repeats.
pub proof fn lemma_copy_run_len(offset: nat, len: nat)
    requires
        len >= MIN_COPY_LEN,
    ensures
        6 * copy_run(offset, len).len() + 6 <= 7 * len,
        copy_run(offset, len).len() >= 2,
    decreases len,
{
    if len >= 68 {
        lemma_copy_run_len(offset, (len - 64) as nat);
    } else if len > 64 {
        lemma_copy_run_len(offset, (len - 60) as nat);
    }
}

/// Appends to `out` a literal that carries the bytes of `input` from
/// `from` up to `to`.
pub fn write_literal(out: &mut Vec<u8>, input: &[u8], from: usize, to: usize)
    requires
        from < to <= input@.len(),
        to - from <= 0x1_0000_0000,
    ensures
        final(out)@ == old(out)@ + literal_bytes(input@.subrange(from as int, to as int)),
{
    let n: u64 = (to - from - 1) as u64;
    let ghost head = literal_header((to - from) as nat);
    if n < 60 {
        out.push((n * 4) as u8);
    } else if n < 0x100 {
        out.push(240u8);
        out.push(n as u8);
    } else if n < 0x1_0000 {
        out.push(244u8);
        out.push((n % 0x100) as u8);
        out.push((n / 0x100) as u8);
    } else if n < 0x100_0000 {
        out.push(248u8);
        out.push((n % 0x100) as u8);
        out.push((n / 0x100 % 0x100) as u8);
        out.push((n / 0x1_0000) as u8);
    } else {
        out.push(252u8);
        out.push((n % 0x100) as u8);
        out.push((n / 0x100 % 0x100) as u8);
        out.push((n / 0x1_0000 % 0x100) as u8);
        out.push((n / 0x100_0000) as u8);
    }
    assert(out@ =~= old(out)@ + head);
    let data = slice_subrange(input, from, to);
    let ghost before = out@;
    out.extend_from_slice(data);
    assert(out@ =~= before + data@);
    assert(out@ =~= old(out)@ + (head + data@));
}

/// Appends to `out` the bytes of `input` from `from` up to `to` as
/// literals of at most [`MAX_LITERAL_LEN`] bytes each.
pub fn write_literal_run(out: &mut Vec<u8>, input: &[u8], from: usize, to: usize)
    requires
        from <= to <= input@.len(),
    ensures
        final(out)@ == old(out)@ + literal_run(input@.subrange(from as int, to as int)),
{
    let ghost goal = old(out)@ + literal_run(input@.subrange(from as int, to as int));
    let mut at: usize = from;
    while to - at > MAX_LITERAL_LEN
        invariant
            from <= at <= to <= input@.len(),
            out@ + literal_run(input@.subrange(at as int, to as int)) == goal,
        decreases to - at,
    {
        let next: usize = at + MAX_LITERAL_LEN;
        proof {
            let data = input@.subrange(at as int, to as int);
            assert(data.take(MAX_LITERAL_LEN as int) =~= input@.subrange(at as int, next as int));
            assert(data.skip(MAX_LITERAL_LEN as int) =~= input@.subrange(next as int, to as int));
            let first = literal_bytes(input@.subrange(at as int, next as int));
            let more = literal_run(input@.subrange(next as int, to as int));
            assert((out@ + first) + more =~= out@ + (first + more));
        }
        write_literal(out, input, at, next);
        at = next;
    }
    if at < to {
        write_literal(out, input, at, to);
    } else {
        assert(out@ + Seq::<u8>::empty() =~= out@);
    }
}

/// Appends to `out` one copy instruction.
pub fn write_copy(out: &mut Vec<u8>, offset: usize, len: usize)
    requires
        1 <= offset <= MAX_COPY_OFFSET,
        1 <= len <= MAX_COPY_LEN,
    ensures
        final(out)@ == old(out)@ + copy_bytes(offset as nat, len as nat),
{
    if 4 <= len && len <= 11 && offset < 0x800 {
        out.push((1 + (len - 4) * 4 + (offset / 0x100) * 32) as u8);
        out.push((offset % 0x100) as u8);
    } else {
        out.push((2 + (len - 1) * 4) as u8);
        out.push((offset % 0x100) as u8);
        out.push((offset / 0x100) as u8);
    }
    assert(out@ =~= old(out)@ + copy_bytes(offset as nat, len as nat));
}

/// Appends to `out` the copy instructions for a match of `len` bytes.
pub fn write_copy_run(out: &mut Vec<u8>, offset: usize, len: usize)
    requires
        1 <= offset <= MAX_COPY_OFFSET,
        len >= MIN_COPY_LEN,
    ensures
        final(out)@ == old(out)@ + copy_run(offset as nat, len as nat),
{
    let ghost goal = old(out)@ + copy_run(offset as nat, len as nat);
    let mut left: usize = len;
    while left >= 68
        invariant
            1 <= offset <= MAX_COPY_OFFSET,
            left >= MIN_COPY_LEN,
            out@ + copy_run(offset as nat, left as nat) == goal,
        decreases left,
    {
        proof {
            let first = copy_bytes(offset as nat, 64);
            let more = copy_run(offset as nat, (left - 64) as nat);
            assert((out@ + first) + more =~= out@ + (first + more));
        }
        write_copy(out, offset, 64);
        left = left - 64;
    }
    if left > 64 {
        proof {
            let first = copy_bytes(offset as nat, 60);
            let more = copy_run(offset as nat, (left - 60) as nat);
            assert((out@ + first) + more =~= out@ + (first + more));
        }
        write_copy(out, offset, 60);
        left = left - 60;
    }
    write_copy(out, offset, left);
}

} // verus!
