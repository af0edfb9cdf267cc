//! The match finder: a table from a hash of four bytes to the place where
//! bytes with that hash were last seen. A slot holds one position and no
//! more, so the table may name a place whose bytes differ; whoever asks
//! compares the bytes before using what it says.

use vstd::prelude::*;
use crate::emit::MAX_COPY_OFFSET;
use crate::format::le_at;

verus! {

/// The factor of the multiplicative hash.
pub const HASH_MULTIPLIER: u32 = 0x1e35_a7bd;

/// The fewest slots that a table has.
pub const MIN_TABLE_LEN: usize = 0x100;

/// The most slots that a table has.
pub const MAX_TABLE_LEN: usize = 0x4000;

/// The four bytes of `input` from `pos` as one little-endian word.
pub open spec fn word_at(input: Seq<u8>, pos: int) -> u32
    recommends
        0 <= pos,
        pos + 4 <= input.len(),
{
    le_at(input, pos, 4) as u32
}

/// The slot of `word` in a table of `table_len` slots: the top fourteen
/// bits of the word's product with [`HASH_MULTIPLIER`], reduced to the
/// table's length.
pub open spec fn slot_of(word: u32, table_len: nat) -> nat
    recommends
        table_len > 0,
{
    (((word.wrapping_mul(HASH_MULTIPLIER) >> 18u32) as nat) % table_len) as nat
}

/// The number of slots in the table for an input of `n` bytes: 256 for a
/// short input, then the next power of two, and never above 16384.
pub open spec fn table_len(n: nat) -> nat {
    if n <= 0x100 {
        0x100
    } else if n <= 0x200 {
        0x200
    } else if n <= 0x400 {
        0x400
    } else if n <= 0x800 {
        0x800
    } else if n <= 0x1000 {
        0x1000
    } else if n <= 0x2000 {
        0x2000
    } else {
        0x4000
    }
}

/// A table that has seen nothing: every slot names position 0.
pub open spec fn empty_table(n: nat) -> Seq<usize> {
    Seq::new(table_len(n), |i: int| 0usize)
}

/// How many bytes from `b` on equal the bytes from `a` on, up to the end
/// of `input`.
pub open spec fn match_len(input: Seq<u8>, a: int, b: int) -> nat
    decreases input.len() - b,
{
    if 0 <= a < b < input.len() && input[a] == input[b] {
        1 + match_len(input, a + 1, b + 1)
    } else {
        0
    }
}

/// Whether the four bytes at `pos` repeat those at `cand`, an earlier
/// place within reach of a copy.
pub open spec fn is_match(input: Seq<u8>, cand: int, pos: int) -> bool {
    &&& 0 <= cand < pos
    &&& pos - cand <= MAX_COPY_OFFSET
    &&& pos + 4 <= input.len()
    &&& input[cand] == input[pos]
    &&& input[cand + 1] == input[pos + 1]
    &&& input[cand + 2] == input[pos + 2]
    &&& input[cand + 3] == input[pos + 3]
}

/// A match runs inside the input, and byte for byte the two places agree.
pub proof fn lemma_match_len(input: Seq<u8>, a: int, b: int)
    requires
        0 <= a < b,
    ensures
        b + match_len(input, a, b) <= input.len() || match_len(input, a, b) == 0,
        forall|i: int|
            0 <= i < match_len(input, a, b) ==> input[a + i] == #[trigger] input[b + i],
    decreases input.len() - b,
{
    if b < input.len() && input[a] == input[b] {
        lemma_match_len(input, a + 1, b + 1);
        let rest = match_len(input, a + 1, b + 1);
        assert forall|i: int| 0 <= i < 1 + rest implies input[a + i] == #[trigger] input[b
            + i] by {
            if i > 0 {
                assert(input[a + 1 + (i - 1)] == input[b + 1 + (i - 1)]);
            }
        }
    }
}

/// The four bytes of `input` from `pos` as one little-endian word.
pub fn load_word(input: &[u8], pos: usize) -> (word: u32)
    requires
        pos + 4 <= input@.len(),
    ensures
        word == word_at(input@, pos as int),
{
    let word: u32 = input[pos] as u32 + 0x100 * (input[pos + 1] as u32) + 0x1_0000 * (input[pos
        + 2] as u32) + 0x100_0000 * (input[pos + 3] as u32);
    word
}

/// The slot of `word` in a table of `table_len` slots.
pub fn slot(word: u32, table_len: usize) -> (index: usize)
    requires
        table_len > 0,
    ensures
        index == slot_of(word, table_len as nat),
        index < table_len,
{
    let top: u32 = word.wrapping_mul(HASH_MULTIPLIER) >> 18u32;
    let index: usize = (top as usize) % table_len;
    index
}

/// The number of slots in the table for an input of `n` bytes.
pub fn table_size(n: usize) -> (len: usize)
    ensures
        len == table_len(n as nat),
        MIN_TABLE_LEN <= len <= MAX_TABLE_LEN,
{
    if n <= 0x100 {
        0x100
    } else if n <= 0x200 {
        0x200
    } else if n <= 0x400 {
        0x400
    } else if n <= 0x800 {
        0x800
    } else if n <= 0x1000 {
        0x1000
    } else if n <= 0x2000 {
        0x2000
    } else {
        0x4000
    }
}

/// A table for an input of `n` bytes that has seen nothing.
pub fn new_table(n: usize) -> (table: Vec<usize>)
    ensures
        table@ == empty_table(n as nat),
        MIN_TABLE_LEN <= table@.len() <= MAX_TABLE_LEN,
{
    let len: usize = table_size(n);
    let mut table: Vec<usize> = Vec::with_capacity(len);
    while table.len() < len
        invariant
            table@.len() <= len,
            forall|i: int| 0 <= i < table@.len() ==> table@[i] == 0usize,
        decreases len - table@.len(),
    {
        table.push(0usize);
    }
    assert(table@ =~= empty_table(n as nat));
    table
}

/// Whether the four bytes at `pos` repeat those at `cand`, an earlier
/// place within reach of a copy.
pub fn check_match(input: &[u8], cand: usize, pos: usize) -> (found: bool)
    requires
        pos + 4 <= input@.len(),
    ensures
        found == is_match(input@, cand as int, pos as int),
{
    cand < pos && pos - cand <= MAX_COPY_OFFSET && input[cand] == input[pos] && input[cand + 1]
        == input[pos + 1] && input[cand + 2] == input[pos + 2] && input[cand + 3] == input[pos
        + 3]
}

/// How many bytes from `b` on equal the bytes from `a` on, up to the end
/// of `input`.
pub fn extend_match(input: &[u8], a: usize, b: usize) -> (len: usize)
    requires
        a < b <= input@.len(),
    ensures
        len == match_len(input@, a as int, b as int),
        b + len <= input@.len(),
{
    let mut len: usize = 0;
    while len < input.len() - b && input[a + len] == input[b + len]
        invariant
            a < b <= input@.len(),
            b + len <= input@.len(),
            match_len(input@, a as int, b as int) == len + match_len(
                input@,
                a + len,
                b + len,
            ),
        decreases input@.len() - b - len,
    {
        len = len + 1;
    }
    len
}

} // verus!
