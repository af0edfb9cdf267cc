//! Sources and sinks: the two roles through which the codec can read its
//! input and hand out its output without being given whole buffers, and
//! the two in-memory types that play them.

use vstd::prelude::*;
use vstd::slice::slice_subrange;
use crate::decoder::uncompress;
use crate::encoder::{compress, encode_block, fits_in_block};
use crate::format::decode_block;
use crate::varint::lemma_varint_bytes_len;

verus! {

/// Something that bytes can be pulled from.
pub trait Source {
    /// The bytes that are still to come.
    spec fn remaining(&self) -> Seq<u8>;

    /// How many bytes are still to come.
    fn available(&self) -> (n: usize)
        ensures
            n == self.remaining().len(),
    ;

    /// The next bytes, as many as lie in one piece: at least one while
    /// any are left. Nothing is consumed.
    fn peek(&self) -> (chunk: &[u8])
        ensures
            chunk@.len() <= self.remaining().len(),
            chunk@ == self.remaining().subrange(0, chunk@.len() as int),
            self.remaining().len() > 0 ==> chunk@.len() > 0,
    ;

    /// Consumes the next `n` bytes.
    fn skip(&mut self, n: usize)
        requires
            n <= old(self).remaining().len(),
        ensures
            final(self).remaining() == old(self).remaining().skip(n as int),
    ;
}

/// Something that bytes can be handed to.
pub trait Sink {
    /// All the bytes handed over so far.
    spec fn written(&self) -> Seq<u8>;

    /// Hands over `bytes`.
    fn append(&mut self, bytes: &[u8])
        ensures
            final(self).written() == old(self).written() + bytes@,
    ;
}

/// A source that reads from a slice.
pub struct RustSliceSource<'a> {
    data: &'a [u8],
}

impl<'a> View for RustSliceSource<'a> {
    type V = Seq<u8>;

    /// The bytes not yet consumed.
    closed spec fn view(&self) -> Seq<u8> {
        self.data@
    }
}

impl<'a> RustSliceSource<'a> {
    /// A source that yields the bytes of `data`.
    pub fn new(data: &'a [u8]) -> (source: Self)
        ensures
            source@ == data@,
    {
        Self { data }
    }

    /// How many bytes are left.
    pub fn available(&self) -> (n: usize)
        ensures
            n == self@.len(),
    {
        self.data.len()
    }

    /// All the bytes that are left, in one piece.
    pub fn peek(&self) -> (chunk: &'a [u8])
        ensures
            chunk@ == self@,
    {
        self.data
    }

    /// Consumes the next `n` bytes.
    pub fn skip(&mut self, n: usize)
        requires
            n <= old(self)@.len(),
        ensures
            final(self)@ == old(self)@.skip(n as int),
    {
        let len: usize = self.data.len();
        self.data = slice_subrange(self.data, n, len);
        assert(self.data@ =~= old(self).data@.skip(n as int));
    }
}

impl<'a> Source for RustSliceSource<'a> {
    open spec fn remaining(&self) -> Seq<u8> {
        self@
    }

    fn available(&self) -> (n: usize) {
        RustSliceSource::available(self)
    }

    fn peek(&self) -> (chunk: &[u8]) {
        let chunk = RustSliceSource::peek(self);
        assert(self@.subrange(0, chunk@.len() as int) =~= self@);
        chunk
    }

    fn skip(&mut self, n: usize) {
        RustSliceSource::skip(self, n)
    }
}

/// A sink that collects what it is given in a vector.
pub struct RustVecSink {
    data: Vec<u8>,
}

impl View for RustVecSink {
    type V = Seq<u8>;

    /// The bytes collected so far.
    closed spec fn view(&self) -> Seq<u8> {
        self.data@
    }
}

impl RustVecSink {
    /// A sink that holds nothing yet.
    pub fn new() -> (sink: Self)
        ensures
            sink@ == Seq::<u8>::empty(),
    {
        Self { data: Vec::new() }
    }

    /// The bytes collected.
    pub fn into_inner(self) -> (data: Vec<u8>)
        ensures
            data@ == self@,
    {
        self.data
    }

    /// Adds `bytes` behind what is already there.
    pub fn append(&mut self, bytes: &[u8])
        ensures
            final(self)@ == old(self)@ + bytes@,
    {
        self.data.extend_from_slice(bytes);
        assert(self.data@ =~= old(self).data@ + bytes@);
    }
}

impl Sink for RustVecSink {
    open spec fn written(&self) -> Seq<u8> {
        self@
    }

    fn append(&mut self, bytes: &[u8]) {
        RustVecSink::append(self, bytes)
    }
}

/// Pulls everything that `source` still has into one buffer.
pub fn drain<S: Source>(source: &mut S) -> (all: Vec<u8>)
    ensures
        all@ == old(source).remaining(),
        final(source).remaining() == Seq::<u8>::empty(),
{
    let mut all: Vec<u8> = Vec::new();
    while source.available() > 0
        invariant
            all@ + source.remaining() == old(source).remaining(),
        decreases source.remaining().len(),
    {
        let ghost left = source.remaining();
        let ghost before = all@;
        let chunk = source.peek();
        let taken: usize = chunk.len();
        all.extend_from_slice(chunk);
        source.skip(taken);
        proof {
            assert(all@ =~= before + left.subrange(0, taken as int));
            assert(all@ + left.skip(taken as int) =~= before + left);
        }
    }
    assert(all@ + source.remaining() =~= all@);
    all
}

/// Compresses all that `source` has left and hands the block to `sink`.
/// Returns the number of bytes handed over. Where the source holds more
/// than [`compress`] takes, nothing is handed over and the result is 0,
/// which is the length of no block.
pub fn compress_source_to_sink<S: Source, K: Sink>(source: &mut S, sink: &mut K) -> (written:
    usize)
    ensures
        final(source).remaining() == Seq::<u8>::empty(),
        fits_in_block(old(source).remaining().len()) ==> {
            &&& final(sink).written() == old(sink).written() + encode_block(
                old(source).remaining(),
            )
            &&& written == encode_block(old(source).remaining()).len()
            &&& written > 0
        },
        !fits_in_block(old(source).remaining().len()) ==> {
            &&& final(sink).written() == old(sink).written()
            &&& written == 0
        },
{
    let input: Vec<u8> = drain(source);
    match compress(input.as_slice()) {
        Ok(block) => {
            proof {
                lemma_varint_bytes_len(input@.len());
            }
            sink.append(block.as_slice());
            block.len()
        },
        Err(_) => 0,
    }
}

/// Decodes the block that `source` has left and hands the data to `sink`.
/// Returns whether the block decoded; where it did not, nothing is handed
/// over.
pub fn uncompress_source_to_sink<S: Source, K: Sink>(source: &mut S, sink: &mut K) -> (ok: bool)
    ensures
        final(source).remaining() == Seq::<u8>::empty(),
        match decode_block(old(source).remaining()) {
            Ok(data) => ok && final(sink).written() == old(sink).written() + data,
            Err(_) => !ok && final(sink).written() == old(sink).written(),
        },
{
    let block: Vec<u8> = drain(source);
    match uncompress(block.as_slice()) {
        Ok(data) => {
            sink.append(data.as_slice());
            true
        },
        Err(_) => false,
    }
}

} // verus!
