//! The content chunker: a lazy, finite, forward-only sequence of
//! same-size chunks cut from a byte source (the last chunk may be
//! shorter). Each step reads into a fixed-size buffer; a short read
//! truncates the returned chunk, a zero-byte read ends the sequence
//! permanently, and a read error from the source is swallowed and
//! treated as end-of-stream — callers cannot distinguish exhaustion
//! from failure, a documented quirk preserved here.

use vstd::arithmetic::div_mod::{lemma_basic_div, lemma_div_plus_one, lemma_mod_self_0,
    lemma_mod_sub_multiples_vanish, lemma_small_mod};
use vstd::prelude::*;

verus! {

/// The default chunk size: 256 KiB.
pub const DEFAULT_CHUNK_SIZE: usize = 1 << 18;

/// A read failure in a chunk source.
#[derive(Clone, Copy, Debug, PartialEq, Eq)]
pub struct SourceError;

/// A byte source the chunker can draw from: it delivers its content in
/// order, a prefix at a time, and may stop short or fail as an I/O
/// stream would.
pub trait ChunkSource: Sized {
    /// The bytes the source still has to deliver; a source the library
    /// has no model for defaults to none.
    open spec fn content(&self) -> Seq<u8> {
        Seq::empty()
    }

    /// Whether the source always fills the buffer as far as content
    /// remains and never fails: true of in-memory sources; a stream
    /// that can short-read or fail — a file — is not exact.
    open spec fn exact(&self) -> bool {
        false
    }

    /// Reads up to `buf.len()` bytes into the front of `buf`, handing
    /// back how many; they are the next bytes of the content, and a
    /// zero count on a nonempty buffer means the content is exhausted.
    fn read(&mut self, buf: &mut Vec<u8>) -> (r: Result<usize, SourceError>)
        ensures
            final(buf)@.len() == old(buf)@.len(),
            r matches Ok(n) ==> n <= old(buf)@.len() && n <= old(self).content().len()
                && final(buf)@.take(n as int) == old(self).content().take(n as int)
                && final(self).content() == old(self).content().skip(n as int)
                && (n == 0 && old(buf)@.len() > 0 ==> old(self).content().len() == 0),
            r is Err ==> final(self).content() == old(self).content(),
            old(self).exact() ==> final(self).exact() && (r matches Ok(n) && n == (
            if old(buf)@.len() <= old(self).content().len() {
                old(buf)@.len()
            } else {
                old(self).content().len()
            })),
    ;
}

/// An in-memory source: delivers a byte vector, always filling the
/// whole buffer until the bytes run out.
pub struct SliceSource {
    data: Vec<u8>,
    pos: usize,
}

impl SliceSource {
    /// A source over the given bytes.
    pub fn new(data: Vec<u8>) -> (r: SliceSource)
        ensures
            r.content() == data@,
    {
        let r = SliceSource { data, pos: 0 };
        proof {
            assert(r.content() =~= r.data@);
        }
        r
    }
}

impl ChunkSource for SliceSource {
    closed spec fn content(&self) -> Seq<u8> {
        if self.pos <= self.data@.len() {
            self.data@.skip(self.pos as int)
        } else {
            Seq::empty()
        }
    }

    open spec fn exact(&self) -> bool {
        true
    }

    fn read(&mut self, buf: &mut Vec<u8>) -> (r: Result<usize, SourceError>) {
        if self.pos >= self.data.len() {
            return Ok(0);
        }
        let avail = self.data.len() - self.pos;
        let n = if buf.len() < avail {
            buf.len()
        } else {
            avail
        };
        let mut i: usize = 0;
        while i < n
            invariant
                n <= buf@.len(),
                self.pos + n <= self.data@.len(),
                i <= n,
                buf@.len() == old(buf)@.len(),
                self == old(self),
                forall|j: int| 0 <= j < i ==> buf@[j] == self.data@[self.pos + j],
                forall|j: int| i <= j < buf@.len() ==> buf@[j] == old(buf)@[j],
            decreases n - i,
        {
            proof {
                vstd::std_specs::vec::axiom_spec_len(&self.data);
            }
            let b = self.data[self.pos + i];
            buf.set(i, b);
            i = i + 1;
        }
        self.pos = self.pos + n;
        proof {
            assert(buf@.take(n as int) =~= old(self).content().take(n as int));
            assert(self.content() =~= old(self).content().skip(n as int));
        }
        Ok(n)
    }
}

/// The chunker over a source: a configurable chunk size, and a declared
/// content size whose running remainder serves planning only.
pub struct ChunkReader<R> {
    inner: R,
    content_size: u64,
    chunk_size: usize,
    rem_size: u64,
}

impl<R: ChunkSource> ChunkReader<R> {
    /// The bytes the source still has to deliver.
    pub closed spec fn remaining(&self) -> Seq<u8> {
        self.inner.content()
    }

    /// Whether the underlying source is exact.
    pub closed spec fn source_exact(&self) -> bool {
        self.inner.exact()
    }

    /// The configured chunk size.
    pub closed spec fn chunk_size(&self) -> usize {
        self.chunk_size
    }

    /// The declared total content size.
    pub closed spec fn declared_size(&self) -> u64 {
        self.content_size
    }

    /// The declared bytes still expected; not authoritative.
    pub closed spec fn declared_rem(&self) -> u64 {
        self.rem_size
    }

    /// Creates a new `ChunkReader<R>` with a default chunk size.
    pub fn new(inner: R) -> (r: ChunkReader<R>)
        ensures
            r.remaining() == inner.content(),
            r.chunk_size() == DEFAULT_CHUNK_SIZE,
            r.declared_size() == 0,
            r.declared_rem() == 0,
            r.source_exact() == inner.exact(),
    {
        ChunkReader::with_chunk_size(DEFAULT_CHUNK_SIZE, inner)
    }

    /// Creates a new `ChunkReader<R>` with a given chunk size.
    pub fn with_chunk_size(size: usize, inner: R) -> (r: ChunkReader<R>)
        ensures
            r.remaining() == inner.content(),
            r.chunk_size() == size,
            r.declared_size() == 0,
            r.declared_rem() == 0,
            r.source_exact() == inner.exact(),
    {
        ChunkReader { inner, chunk_size: size, content_size: 0, rem_size: 0 }
    }

    /// Changes the chunk size of the reader.
    pub fn set_chunk_size(&mut self, size: usize)
        ensures
            final(self).chunk_size() == size,
            final(self).remaining() == old(self).remaining(),
            final(self).declared_size() == old(self).declared_size(),
            final(self).declared_rem() == old(self).declared_rem(),
            final(self).source_exact() == old(self).source_exact(),
    {
        self.chunk_size = size;
    }

    /// Changes the content size.
    pub fn set_content_size(&mut self, size: u64)
        ensures
            final(self).declared_size() == size,
            final(self).declared_rem() == size,
            final(self).remaining() == old(self).remaining(),
            final(self).chunk_size() == old(self).chunk_size(),
            final(self).source_exact() == old(self).source_exact(),
    {
        self.content_size = size;
        self.rem_size = size;
    }

    /// The next chunk: the content's next bytes, at most one chunk
    /// size of them and at least one. Absence means the content was
    /// exhausted — or a source error was swallowed, leaving the source
    /// where it was.
    pub fn next(&mut self) -> (r: Option<Vec<u8>>)
        ensures
            final(self).chunk_size() == old(self).chunk_size(),
            final(self).declared_size() == old(self).declared_size(),
            r matches Some(c) ==> 1 <= c@.len() <= old(self).chunk_size()
                && c@.len() <= old(self).remaining().len()
                && c@ == old(self).remaining().take(c@.len() as int)
                && final(self).remaining() == old(self).remaining().skip(c@.len() as int)
                && final(self).declared_rem() == (if c@.len() as u64 <= old(self).declared_rem() {
                    (old(self).declared_rem() - c@.len() as u64) as u64
                } else {
                    0u64
                }),
            r is None ==> final(self).remaining() == old(self).remaining()
                && ((final(self).declared_rem() == 0 && (old(self).chunk_size() > 0 ==> old(
                self,
            ).remaining().len() == 0)) || final(self).declared_rem() == old(self).declared_rem()),
            old(self).source_exact() ==> final(self).source_exact() && (if old(self).chunk_size()
                == 0 || old(self).remaining().len() == 0 {
                r is None
            } else {
                r matches Some(c) && c@.len() == (if old(self).chunk_size() <= old(
                    self,
                ).remaining().len() {
                    old(self).chunk_size() as int
                } else {
                    old(self).remaining().len() as int
                })
            }),
    {
        let mut chunk: Vec<u8> = Vec::new();
        let mut z: usize = 0;
        while z < self.chunk_size
            invariant
                z <= self.chunk_size,
                chunk@.len() == z,
                self == old(self),
            decreases self.chunk_size - z,
        {
            chunk.push(0u8);
            z = z + 1;
        }
        match self.inner.read(&mut chunk) {
            Ok(n) => {
                if n == 0 {
                    self.rem_size = 0;
                    return None;
                }
                chunk.truncate(n);
                proof {
                    assert(chunk@ =~= old(self).remaining().take(n as int));
                }
                if n as u64 <= self.rem_size {
                    self.rem_size = self.rem_size - n as u64;
                } else {
                    self.rem_size = 0;
                }
                Some(chunk)
            }
            Err(_) => None,
        }
    }

    /// How many whole chunks the declared remainder still spans:
    /// planning only, not authoritative. The declared remainder must
    /// be consistent with a nonzero chunk size.
    pub fn size_hint(&self) -> (r: (usize, Option<usize>))
        requires
            self.declared_rem() > 0 ==> self.chunk_size() > 0,
        ensures
            self.declared_rem() == 0 ==> r == (0usize, Some(0usize)),
            self.declared_rem() > 0 ==> r.0 == #[verifier::truncate] ((self.declared_rem() / (
            self.chunk_size() as u64)) as usize) && r.1 == Some(r.0),
    {
        if self.rem_size == 0 {
            return (0, Some(0));
        }
        let size = #[verifier::truncate] ((self.rem_size / (self.chunk_size as u64)) as usize);
        (size, Some(size))
    }
}

/// The chunks an exact source yields for `data`: whole chunks of
/// `size` bytes, then what remains.
pub open spec fn chunk_seq(data: Seq<u8>, size: nat) -> Seq<Seq<u8>>
    decreases data.len(),
{
    if size == 0 || data.len() == 0 {
        Seq::empty()
    } else if data.len() <= size {
        seq![data]
    } else {
        seq![data.take(size as int)] + chunk_seq(data.skip(size as int), size)
    }
}

/// Chunks laid back end to end.
pub open spec fn concat_chunks(cs: Seq<Seq<u8>>) -> Seq<u8>
    decreases cs.len(),
{
    if cs.len() == 0 {
        Seq::empty()
    } else {
        cs[0] + concat_chunks(cs.skip(1))
    }
}

/// Chunking is complete: the chunks of an N-byte source under chunk
/// size S concatenate back to the source in order; there are
/// ceil(N / S) of them, every chunk but the last has exactly S bytes,
/// and the last has N mod S, or S when S divides N.
pub proof fn lemma_chunking_complete(data: Seq<u8>, size: nat)
    requires
        size > 0,
    ensures
        concat_chunks(chunk_seq(data, size)) == data,
        chunk_seq(data, size).len() == (data.len() + size - 1) as int / (size as int),
        forall|i: int|
            0 <= i < chunk_seq(data, size).len() - 1 ==> (#[trigger] chunk_seq(data, size)[i]).len()
                == size,
        data.len() > 0 ==> chunk_seq(data, size).last().len() == (if data.len() % size == 0 {
            size as int
        } else {
            (data.len() % size) as int
        }),
        forall|i: int|
            0 <= i < chunk_seq(data, size).len() ==> 1 <= (#[trigger] chunk_seq(data, size)[i]).len()
                <= size,
    decreases data.len(),
{
    let cs = chunk_seq(data, size);
    if data.len() == 0 {
        assert((0 + size - 1) as int / (size as int) == 0) by {
            lemma_basic_div((size - 1) as int, size as int);
        }
    } else if data.len() <= size {
        assert(cs =~= seq![data]);
        assert(cs[0] == data);
        assert(cs.skip(1) =~= Seq::<Seq<u8>>::empty());
        assert(concat_chunks(cs) == cs[0] + concat_chunks(cs.skip(1)));
        assert(concat_chunks(Seq::<Seq<u8>>::empty()) == Seq::<u8>::empty());
        assert(concat_chunks(cs) =~= data);
        assert((data.len() + size - 1) as int / (size as int) == 1) by {
            lemma_div_plus_one((data.len() - 1) as int, size as int);
            lemma_basic_div((data.len() - 1) as int, size as int);
        }
        if data.len() < size {
            lemma_small_mod(data.len(), size);
        } else {
            lemma_mod_self_0(size as int);
        }
    } else {
        let head = data.take(size as int);
        let tail = data.skip(size as int);
        lemma_chunking_complete(tail, size);
        let rest = chunk_seq(tail, size);
        assert(cs =~= seq![head] + rest);
        assert(cs.skip(1) =~= rest);
        assert(concat_chunks(cs) == head + concat_chunks(rest));
        assert(concat_chunks(cs) =~= data);
        assert(cs.len() == 1 + rest.len());
        assert((data.len() + size - 1) as int / (size as int) == 1 + (tail.len() + size - 1) as int
            / (size as int)) by {
            lemma_div_plus_one((tail.len() + size - 1) as int, size as int);
        }
        assert(rest.len() >= 1);
        assert(cs.last() == rest.last());
        assert(data.len() % size == tail.len() % size) by {
            lemma_mod_sub_multiples_vanish(data.len() as int, size as int);
        }
        assert forall|i: int| 0 <= i < cs.len() - 1 implies (#[trigger] cs[i]).len() == size by {
            if i > 0 {
                assert(cs[i] == rest[i - 1]);
            }
        }
        assert forall|i: int| 0 <= i < cs.len() implies 1 <= (#[trigger] cs[i]).len() <= size by {
            if i > 0 {
                assert(cs[i] == rest[i - 1]);
            }
        }
    }
}

/// Only an empty sequence of nonempty chunks concatenates to nothing.
pub proof fn lemma_concat_chunks_empty(cs: Seq<Seq<u8>>)
    requires
        concat_chunks(cs).len() == 0,
        forall|i: int| 0 <= i < cs.len() ==> (#[trigger] cs[i]).len() >= 1,
    ensures
        cs.len() == 0,
{
    if cs.len() > 0 {
        assert(cs[0].len() >= 1);
        assert(concat_chunks(cs).len() >= cs[0].len());
    }
}

} // verus!
