//! Walker: scan-aligned, store-free traversal of a chunked JSON document.
//!
//! [`Walker`] is the seam between bitmap construction and the source of the
//! bytes. It exposes primitives - `byte_at`, `next_string_close`, `skip_value`,
//! `advance_top_level_commas` - that consume already-loaded chunks from a
//! [`ChunkWindow`]. When a primitive needs a chunk that isn't loaded, it returns
//! [`ChunkMiss`] with the offset to fetch; the caller pulls the chunk into the
//! window and retries.
//!
//! Bitmaps are NOT stored. Each primitive builds the 64-byte-block bitmaps it
//! needs **on the fly, windowed at its own scan position**, threading
//! [`ScanCarry`] from one block to the next. The entry carry is known
//! structurally - `ScanCarry::default()` (outside-string) at every value /
//! element / container boundary, and [`inside_string`] one byte past an opening
//! quote - so a scan never has to rebuild state from the start of the document.
//! Resumable scans commit their `(offset, carry)` at a block boundary, so a
//! chunk fault never rewinds work or loses the carry.

use vstd::prelude::*;

use crate::bitmap::{structural_word, StructuralByte};
use crate::bits::{
    bit, lemma_bit_ops, lemma_clear_lowest, lemma_low_mask, lemma_ones_from_zero,
    lemma_trailing_zeros, lemma_zero_word, ones_from,
};
pub use crate::chunks::ChunkMiss;
use crate::chunks::{
    chunk_start, doc_byte, end_past, law_byte_of_document, least, lemma_byte_residency,
    lemma_chunk_start, lemma_miss_inside, lemma_same_chunk, ChunkWindow, WindowView,
};
use crate::scan::{
    closes_at, comma_marks, comma_run, comma_step, eof_offset, inside, is_array_structural,
    is_closer, is_opener, is_primitive, is_whitespace, lemma_closes_at, lemma_comma_bulk,
    lemma_comma_left, lemma_comma_quiet, lemma_comma_shift, lemma_comma_split, lemma_lex_split,
    lemma_marks_split, lemma_nest_bulk, lemma_nest_quiet, lemma_nest_shift, lemma_nest_split,
    lemma_string_open, lemma_string_quiet, lemma_string_shift, lemma_string_split, lex, lex_step,
    nest_run, outside, run_end, string_run, ByteClass, CommaRun, Commas, Lex, Nest, NestRun,
    StringRun, COMMA, LBRACE, LBRACKET, QUOTE, RBRACE, RBRACKET, SPACE,
};
use crate::simd::{scan_block, ScanCarry, BLOCK_BYTES};
use crate::text::{decimal, numbered};

verus! {

/// Carry entering the interior of a string (one byte past its opening quote):
/// inside a string, no pending escape. The opening quote is never a backslash,
/// so `prev_escaped` is always 0 there.
pub fn inside_string() -> (carry: ScanCarry)
    ensures
        carry == (ScanCarry { prev_escaped: 0, inside_string: u64::MAX }),
        carry.wf(),
        carry@ == inside(),
{
    ScanCarry { prev_escaped: 0, inside_string: u64::MAX }
}

/// Errors raised by higher-level traversal helpers (`skip_value`, container
/// balancing). `ChunkMiss` is folded in so callers can handle it uniformly.
#[derive(Debug, Clone, Copy, PartialEq, Eq, Structural)]
pub enum TraverseError {
    Pending(ChunkMiss),
    UnexpectedEof(u64),
    Malformed(u64),
}

impl TraverseError {
    /// The text of [`TraverseError::message`].
    pub open spec fn spec_message(self) -> Seq<char> {
        match self {
            TraverseError::Pending(miss) => "chunk at offset "@ + decimal(miss.0 as nat)
                + " not loaded"@,
            TraverseError::UnexpectedEof(at) => "unexpected end of input at offset "@ + decimal(
                at as nat,
            ) + ""@,
            TraverseError::Malformed(at) => "malformed JSON at offset "@ + decimal(at as nat)
                + ""@,
        }
    }

    /// The error in words.
    pub fn message(&self) -> (s: String)
        ensures
            s@ == self.spec_message(),
    {
        match self {
            TraverseError::Pending(miss) => miss.message(),
            TraverseError::UnexpectedEof(at) => numbered(
                "unexpected end of input at offset ",
                *at,
                "",
            ),
            TraverseError::Malformed(at) => numbered("malformed JSON at offset ", *at, ""),
        }
    }
}

/// How a fault of the document itself is named on the wire.
#[derive(Debug, Clone, Copy, PartialEq, Eq, Structural)]
pub enum JsonFaultCode {
    MalformedJson,
    UnexpectedEof,
}

impl JsonFaultCode {
    /// The text of [`JsonFaultCode::as_str`].
    pub open spec fn spec_text(self) -> Seq<char> {
        match self {
            JsonFaultCode::MalformedJson => "malformed_json"@,
            JsonFaultCode::UnexpectedEof => "unexpected_eof"@,
        }
    }

    pub fn as_str(self) -> (s: &'static str)
        ensures
            s@ == self.spec_text(),
    {
        match self {
            JsonFaultCode::MalformedJson => "malformed_json",
            JsonFaultCode::UnexpectedEof => "unexpected_eof",
        }
    }
}

/// The 64 bytes of a document from `offset` on, padded with spaces past its end.
pub open spec fn is_block_of(doc: Seq<u8>, offset: int, block: Seq<u8>) -> bool {
    &&& block.len() == 64
    &&& forall|i: int|
        0 <= i < 64 ==> #[trigger] block[i] == (if offset + i < doc.len() {
            doc[offset + i]
        } else {
            SPACE
        })
}

/// The bytes `from..to` of a document, cut off at its end.
pub open spec fn doc_range(doc: Seq<u8>, from: int, to: int) -> Seq<u8> {
    let end = least(to, doc.len() as int);
    if from <= end {
        doc.subrange(from, end)
    } else {
        Seq::empty()
    }
}

pub struct Walker<'a> {
    bytes: &'a ChunkWindow,
    /// Most-recently-touched chunk's data. `byte_at`, `read_range`, and
    /// `block_at` check this before going through the window's map.
    cached: Option<CachedChunk<'a>>,
}

#[derive(Clone, Copy)]
struct CachedChunk<'a> {
    offset: u64,
    data: &'a [u8],
}

impl<'a> Walker<'a> {
    /// What the window under the walker holds.
    pub closed spec fn window(&self) -> WindowView {
        self.bytes@
    }

    /// Chunks are not empty, and the chunk at hand is the window's own.
    pub open spec fn wf(&self) -> bool {
        &&& self.window().chunk_bytes > 0
        &&& self.cache_wf()
    }

    pub closed spec fn cache_wf(&self) -> bool {
        &&& self.bytes.wf()
        &&& self.cached matches Some(c) ==> self.bytes@.chunks.contains_key(c.offset)
            && self.bytes@.chunks[c.offset] == c.data@
    }

    pub fn new(bytes: &'a ChunkWindow) -> (w: Self)
        requires
            bytes.wf(),
        ensures
            w.wf(),
            w.window() == bytes@,
    {
        Walker { bytes, cached: None }
    }

    pub fn source_size(&self) -> (n: u64)
        ensures
            n == self.window().bound(),
    {
        self.bytes.source_size()
    }

    pub fn chunk_bytes(&self) -> (n: u64)
        requires
            self.wf(),
        ensures
            n == self.window().chunk_bytes,
            n > 0,
    {
        self.bytes.chunk_bytes()
    }

    fn chunk_slice(&mut self, chunk_start: u64) -> (r: Result<&'a [u8], ChunkMiss>)
        requires
            old(self).wf(),
        ensures
            final(self).wf(),
            final(self).window() == old(self).window(),
            match r {
                Ok(data) => old(self).window().chunks.contains_key(chunk_start) && data@
                    == old(self).window().chunks[chunk_start],
                Err(miss) => !old(self).window().chunks.contains_key(chunk_start) && miss
                    == ChunkMiss(chunk_start),
            },
    {
        if let Some(c) = self.cached {
            if c.offset == chunk_start {
                return Ok(c.data);
            }
        }
        let data: &'a [u8] = match self.bytes.chunk_for(chunk_start) {
            Ok(data) => data,
            Err(miss) => return Err(miss),
        };
        self.cached = Some(CachedChunk { offset: chunk_start, data });
        Ok(data)
    }

    /// The byte at `offset`, `None` past the end, or the chunk that is missing.
    pub fn byte_at(&mut self, offset: u64) -> (r: Result<Option<u8>, ChunkMiss>)
        requires
            old(self).wf(),
        ensures
            final(self).wf(),
            final(self).window() == old(self).window(),
            r == old(self).window().byte_at(offset),
            forall|doc: Seq<u8>| #[trigger]
                old(self).window().agrees(doc) ==> (r matches Ok(b) ==> b == doc_byte(
                    doc,
                    offset as int,
                )),
            r matches Ok(Some(_)) ==> old(self).window().resident(offset as int, offset + 1)
                && offset < u64::MAX,
            r matches Err(miss) ==> old(self).window().lacks(offset as int, miss.0) && old(
                self,
            ).window().resident(offset as int, miss.0 as int) && miss.0 <= offset,
    {
        let source_size: u64 = self.source_size();
        proof {
            lemma_byte_residency(self.window(), offset);
            assert forall|doc: Seq<u8>| #[trigger] self.window().agrees(doc) implies (
            self.window().byte_at(offset) matches Ok(b) ==> b == doc_byte(doc, offset as int)) by {
                law_byte_of_document(self.window(), doc, offset);
            }
        }
        if offset >= source_size {
            return Ok(None);
        }
        let cs: u64 = self.chunk_bytes();
        proof {
            lemma_chunk_start(cs as int, offset as int);
        }
        let chunk_start: u64 = (offset / cs) * cs;
        let data: &'a [u8] = match self.chunk_slice(chunk_start) {
            Ok(data) => data,
            Err(miss) => return Err(miss),
        };
        let local: u64 = offset - chunk_start;
        if local < data.len() as u64 {
            Ok(Some(data[local as usize]))
        } else {
            Ok(None)
        }
    }

    /// Gather the 64-byte block beginning at `offset` (aligned to `offset`, not
    /// to a chunk boundary), space-padding any tail past end-of-source. The
    /// `ChunkMiss` names the lowest absent chunk.
    fn block_at(&mut self, offset: u64) -> (r: Result<[u8; BLOCK_BYTES], ChunkMiss>)
        requires
            old(self).wf(),
            offset < old(self).window().bound(),
        ensures
            final(self).wf(),
            final(self).window() == old(self).window(),
            r matches Ok(block) ==> forall|i: int|
                0 <= i < 64 && offset + i >= old(self).window().bound() ==> #[trigger] block@[i]
                    == SPACE,
            r matches Ok(block) ==> forall|doc: Seq<u8>| #[trigger]
                old(self).window().agrees(doc) ==> block_read(
                    old(self).window(),
                    doc,
                    offset as int,
                    block@,
                ),
            r matches Err(miss) ==> old(self).window().lacks(offset as int, miss.0) && old(
                self,
            ).window().resident(offset as int, miss.0 as int) && miss.0 < offset + 64,
    {
        let source_size: u64 = self.source_size();
        let cs: u64 = self.chunk_bytes();
        let mut block: [u8; BLOCK_BYTES] = [SPACE;64];
        let reach: u64 = offset.saturating_add(BLOCK_BYTES as u64);
        let end: u64 = if reach <= source_size {
            reach
        } else {
            source_size
        };
        let ghost w = self.window();
        let mut o: u64 = offset;
        let mut short: bool = false;
        while !short && o < end
            invariant
                self.wf(),
                self.window() == w,
                w == old(self).window(),
                cs == w.chunk_bytes,
                cs > 0,
                source_size == w.bound(),
                offset < source_size,
                end == least(offset + 64, source_size as int),
                offset <= o,
                block@.len() == 64,
                forall|i: int| 0 <= i < 64 && offset + i >= end ==> #[trigger] block@[i] == SPACE,
                forall|doc: Seq<u8>| #[trigger]
                    w.agrees(doc) ==> {
                        &&& !short
                        &&& w.resident(offset as int, least(o as int, end as int))
                        &&& offset < o ==> least(o as int, end as int) <= doc.len()
                        &&& forall|i: int|
                            0 <= i < 64 ==> #[trigger] block@[i] == (if offset + i < least(
                                o as int,
                                end as int,
                            ) {
                                doc[offset + i]
                            } else {
                                SPACE
                            })
                    },
                !short && o < end ==> w.resident(offset as int, o as int),
            decreases (if short {
                0
            } else {
                1 + u64::MAX - o
            }),
        {
            proof {
                lemma_chunk_start(cs as int, o as int);
            }
            let chunk_start: u64 = (o / cs) * cs;
            let data: &'a [u8] = match self.chunk_slice(chunk_start) {
                Ok(data) => data,
                Err(miss) => {
                    proof {
                        lemma_lacks_chunk(w, offset as int, o as int);
                    }
                    return Err(miss);
                },
            };
            let chunk_limit: u64 = chunk_start.saturating_add(cs);
            let data_limit: u64 = chunk_start.saturating_add(data.len() as u64);
            let mut take_end: u64 = end;
            if chunk_limit < take_end {
                take_end = chunk_limit;
            }
            if data_limit < take_end {
                take_end = data_limit;
            }
            if take_end <= o {
                short = true;
            } else {
                let ghost before = block@;
                let ghost from = o;
                let mut p: u64 = o;
                while p < take_end
                    invariant
                        offset <= from <= p <= take_end <= end,
                        from == o,
                        end <= offset + 64,
                        forall|i: int|
                            0 <= i < 64 && offset + i >= end ==> #[trigger] block@[i] == SPACE,
                        chunk_start <= from,
                        take_end <= chunk_start + data@.len(),
                        block@.len() == 64,
                        forall|i: int|
                            0 <= i < 64 ==> #[trigger] block@[i] == (if from <= offset + i < p {
                                data@[offset + i - chunk_start]
                            } else {
                                before[i]
                            }),
                    decreases take_end - p,
                {
                    block[(p - offset) as usize] = data[(p - chunk_start) as usize];
                    p = p + 1;
                }
                o = chunk_limit;
                proof {
                    lemma_reads_chunk(w, offset as int, from as int);
                    assert forall|doc: Seq<u8>| #[trigger] w.agrees(doc) implies {
                        &&& least(o as int, end as int) <= doc.len()
                        &&& forall|i: int|
                            0 <= i < 64 ==> #[trigger] block@[i] == (if offset + i < least(
                                o as int,
                                end as int,
                            ) {
                                doc[offset + i]
                            } else {
                                SPACE
                            })
                    } by {
                        assert(w.chunks.contains_key(chunk_start));
                        assert(data@ == doc.subrange(
                            chunk_start as int,
                            least(chunk_start + cs, doc.len() as int),
                        ));
                        assert(take_end == least(o as int, end as int));
                    }
                }
            }
            proof {
                if short {
                    assert forall|doc: Seq<u8>| #[trigger] w.agrees(doc) implies false by {
                        assert(w.chunks.contains_key(chunk_start));
                    }
                }
            }
        }
        Ok(block)
    }

    /// Copy bytes in `[from, to)` out of loaded chunks into an owned buffer.
    /// Returns `ChunkMiss` for the first chunk that isn't resident.
    pub fn read_range(&mut self, from: u64, to: u64) -> (r: Result<Vec<u8>, ChunkMiss>)
        requires
            old(self).wf(),
        ensures
            final(self).wf(),
            final(self).window() == old(self).window(),
            r matches Ok(out) ==> forall|doc: Seq<u8>| #[trigger]
                old(self).window().agrees(doc) ==> out@ == doc_range(doc, from as int, to as int),
            r matches Err(miss) ==> old(self).window().lacks(from as int, miss.0) && old(
                self,
            ).window().resident(from as int, miss.0 as int) && miss.0 < to,
    {
        let source_size: u64 = self.source_size();
        let end: u64 = if to <= source_size {
            to
        } else {
            source_size
        };
        let cs: u64 = self.chunk_bytes();
        let ghost w = self.window();
        let mut out: Vec<u8> = Vec::new();
        let mut offset: u64 = from;
        while offset < end
            invariant
                self.wf(),
                self.window() == w,
                w == old(self).window(),
                cs == w.chunk_bytes,
                cs > 0,
                source_size == w.bound(),
                end == least(to as int, source_size as int),
                from <= offset,
                offset <= end ==> w.resident(from as int, offset as int),
                forall|doc: Seq<u8>| #[trigger]
                    w.agrees(doc) ==> {
                        &&& from < offset && from < end ==> least(offset as int, end as int)
                            <= doc.len()
                        &&& out@ == (if from < least(offset as int, end as int) {
                            doc.subrange(from as int, least(offset as int, end as int))
                        } else {
                            Seq::empty()
                        })
                    },
            decreases u64::MAX - offset,
        {
            proof {
                lemma_chunk_start(cs as int, offset as int);
            }
            let chunk_start: u64 = (offset / cs) * cs;
            let data: &'a [u8] = match self.chunk_slice(chunk_start) {
                Ok(data) => data,
                Err(miss) => {
                    proof {
                        lemma_lacks_chunk(w, from as int, offset as int);
                    }
                    return Err(miss);
                },
            };
            let ghost before = out@;
            let ghost at = offset;
            let chunk_limit: u64 = chunk_start.saturating_add(cs);
            let data_limit: u64 = chunk_start.saturating_add(data.len() as u64);
            let mut take_end: u64 = end;
            if chunk_limit < take_end {
                take_end = chunk_limit;
            }
            if data_limit < take_end {
                take_end = data_limit;
            }
            if take_end > offset {
                let lo: usize = (offset - chunk_start) as usize;
                let hi: usize = (take_end - chunk_start) as usize;
                out.extend_from_slice(&data[lo..hi]);
            }
            offset = chunk_limit;
            proof {
                lemma_reads_chunk(w, from as int, at as int);
                assert forall|doc: Seq<u8>| #[trigger] w.agrees(doc) implies {
                    &&& least(offset as int, end as int) <= doc.len()
                    &&& out@ == doc.subrange(from as int, least(offset as int, end as int))
                } by {
                    assert(w.chunks.contains_key(chunk_start));
                    assert(data@ == doc.subrange(
                        chunk_start as int,
                        least(chunk_start + cs, doc.len() as int),
                    ));
                    assert(take_end == least(offset as int, end as int));
                    assert(out@ =~= before + doc.subrange(at as int, take_end as int));
                }
            }
        }
        proof {
            assert forall|doc: Seq<u8>| #[trigger] w.agrees(doc) implies out@ == doc_range(
                doc,
                from as int,
                to as int,
            ) by {
                assert(out@ =~= doc_range(doc, from as int, to as int));
            }
        }
        Ok(out)
    }

    /// Advance from `from` while the bytes are of the class, stopping at the
    /// first byte that is not, at end-of-source, or at end-of-loaded-data.
    fn skip_while(&mut self, from: u64, class: ByteClass) -> (r: Result<u64, ChunkMiss>)
        requires
            old(self).wf(),
        ensures
            final(self).wf(),
            final(self).window() == old(self).window(),
            skipped(old(self).window(), from, class, r),
    {
        let ghost w = self.window();
        let mut offset: u64 = from;
        while offset < self.source_size()
            invariant
                self.wf(),
                self.window() == w,
                w == old(self).window(),
                from <= offset,
                w.resident(from as int, offset as int),
                forall|doc: Seq<u8>| #[trigger]
                    w.agrees(doc) ==> run_end(doc, from as int, class) == run_end(
                        doc,
                        offset as int,
                        class,
                    ),
            decreases u64::MAX - offset,
        {
            match self.byte_at(offset) {
                Err(miss) => {
                    proof {
                        assert forall|doc: Seq<u8>| #[trigger] w.agrees(doc) implies miss.0
                            <= run_end(doc, from as int, class) by {
                            crate::scan::lemma_run_end(doc, offset as int, class);
                        }
                    }
                    return Err(miss);
                },
                Ok(None) => {
                    return Ok(offset);
                },
                Ok(Some(b)) => {
                    let more: bool = match class {
                        ByteClass::Whitespace => is_whitespace_byte(b),
                        ByteClass::Primitive => is_primitive_byte(b),
                    };
                    if !more {
                        return Ok(offset);
                    }
                    offset = offset + 1;
                },
            }
        }
        Ok(offset)
    }

    pub fn skip_whitespace(&mut self, from: u64) -> (r: Result<u64, ChunkMiss>)
        requires
            old(self).wf(),
        ensures
            final(self).wf(),
            final(self).window() == old(self).window(),
            skipped(old(self).window(), from, ByteClass::Whitespace, r),
    {
        self.skip_while(from, ByteClass::Whitespace)
    }

    pub fn skip_primitive(&mut self, from: u64) -> (r: Result<u64, ChunkMiss>)
        requires
            old(self).wf(),
        ensures
            final(self).wf(),
            final(self).window() == old(self).window(),
            skipped(old(self).window(), from, ByteClass::Primitive, r),
    {
        self.skip_while(from, ByteClass::Primitive)
    }
}

/// What passing over a class of bytes from `from` on gives: the end of the run
/// in every document that the window shows, or the first chunk that is absent, which
/// does not start past the end of the run.
pub open spec fn skipped(
    w: WindowView,
    from: u64,
    class: ByteClass,
    r: Result<u64, ChunkMiss>,
) -> bool {
    match r {
        Ok(end) => {
            &&& from <= end
            &&& w.resident(from as int, end as int)
            &&& forall|doc: Seq<u8>| #[trigger]
                w.agrees(doc) ==> end == run_end(doc, from as int, class)
        },
        Err(miss) => {
            &&& w.lacks(from as int, miss.0)
            &&& w.resident(from as int, miss.0 as int)
            &&& forall|doc: Seq<u8>| #[trigger]
                w.agrees(doc) ==> miss.0 <= run_end(doc, from as int, class)
        },
    }
}

/// Whether `b` is JSON whitespace.
pub fn is_whitespace_byte(b: u8) -> (r: bool)
    ensures
        r == is_whitespace(b),
{
    b == 0x20 || b == 0x09 || b == 0x0a || b == 0x0d
}

/// Whether `b` can stand in a number, `true`, `false` or `null`.
pub fn is_primitive_byte(b: u8) -> (r: bool)
    ensures
        r == is_primitive(b),
{
    (0x30 <= b && b <= 0x39) || b == 0x2d || b == 0x2b || b == 0x2e || b == 0x65 || b == 0x45 || b
        == 0x74 || b == 0x72 || b == 0x75 || b == 0x66 || b == 0x61 || b == 0x6c || b == 0x73 || b
        == 0x6e
}

/// `block` is what a window that shows `doc` gives for the block at `offset`.
pub open spec fn block_read(w: WindowView, doc: Seq<u8>, offset: int, block: Seq<u8>) -> bool {
    let end = least(offset + 64, w.bound() as int);
    &&& is_block_of(doc, offset, block)
    &&& end <= doc.len()
    &&& end < offset + 64 ==> end == doc.len()
    &&& w.resident(offset, end)
}

/// A scan that has read from `at` up to the absent chunk of `o` lacks that chunk.
proof fn lemma_lacks_chunk(w: WindowView, at: int, o: int)
    requires
        w.chunk_bytes > 0,
        0 <= at <= o < w.bound(),
        w.resident(at, o),
        !w.chunks.contains_key(chunk_start(w.chunk_bytes, o) as u64),
    ensures
        w.lacks(at, chunk_start(w.chunk_bytes, o) as u64),
        w.resident(at, chunk_start(w.chunk_bytes, o)),
{
    lemma_chunk_start(w.chunk_bytes, o);
}

/// A scan that has read from `at` up to the resident chunk of `o` has read that
/// chunk to its end.
proof fn lemma_reads_chunk(w: WindowView, at: int, o: int)
    requires
        w.chunk_bytes > 0,
        0 <= at <= o <= u64::MAX,
        w.resident(at, o),
        w.chunks.contains_key(chunk_start(w.chunk_bytes, o) as u64),
    ensures
        w.resident(at, chunk_start(w.chunk_bytes, o) + w.chunk_bytes),
{
    let cs = w.chunk_bytes;
    lemma_chunk_start(cs, o);
    let k0 = chunk_start(cs, o);
    assert forall|k: u64|
        k as int % cs == 0 && at < k + cs && k < k0 + cs implies #[trigger] w.chunks.contains_key(
        k,
    ) by {
        if k <= o < k + cs {
            lemma_same_chunk(cs, o, k as int);
        } else if k > o {
            lemma_same_chunk(cs, k as int, k0);
            lemma_same_chunk(cs, k as int, k as int);
        }
    }
}

/// The closing quote of the string that is open at `at`, or where a scan that
/// does not find it stands in the end.
pub open spec fn string_answer(doc: Seq<u8>, at: int, s: Lex) -> Result<int, u64> {
    match string_run(doc, at, doc.len() as int, s) {
        StringRun::Closed(k) => Ok(k),
        StringRun::Open(_) => Err(eof_offset(at, doc.len() as int)),
    }
}

/// The offset just past the container that is open at `at`.
pub open spec fn nest_answer(
    doc: Seq<u8>,
    at: int,
    s: Nest,
    open: u8,
    close: u8,
) -> Result<u64, TraverseError> {
    match nest_run(doc, at, doc.len() as int, s, open, close) {
        NestRun::Closed(k) => Ok(k as u64),
        NestRun::Open(_) => Err(TraverseError::UnexpectedEof(eof_offset(at, doc.len() as int))),
    }
}

/// How many of the bytes of the block at `offset` lie below `bound`.
pub open spec fn valid_bytes(offset: int, bound: int) -> int {
    least(64, bound - offset)
}

/// The next block boundary after `offset`.
pub open spec fn next_block(offset: int) -> int {
    least(offset + 64, u64::MAX as int)
}

proof fn lemma_eof_next(offset: int, len: int)
    requires
        0 <= offset < len <= u64::MAX,
    ensures
        eof_offset(offset, len) == eof_offset(next_block(offset), len),
{
}

/// One block of a scan for the end of a string.
proof fn lemma_string_block(w: WindowView, doc: Seq<u8>, offset: u64, block: Seq<u8>, s: Lex)
    requires
        block_read(w, doc, offset as int, block),
        offset < w.bound(),
        doc.len() <= u64::MAX,
    ensures
        match string_run(block, 0, valid_bytes(offset as int, w.bound() as int), s) {
            StringRun::Closed(k) => string_answer(doc, offset as int, s) == Ok::<int, u64>(
                offset + k,
            ),
            StringRun::Open(_) => string_answer(doc, offset as int, s) == string_answer(
                doc,
                next_block(offset as int),
                lex(block, 0, 64, s),
            ),
        },
{
    let valid = valid_bytes(offset as int, w.bound() as int);
    let len = doc.len() as int;
    assert forall|i: int| 0 <= i < valid implies #[trigger] block[i] == doc[i + offset] by {}
    lemma_string_shift(block, doc, 0, valid, offset as int, s);
    lemma_string_split(doc, offset as int, offset + valid, len, s);
    lemma_eof_next(offset as int, len);
    if string_run(block, 0, valid, s) is Open {
        lemma_string_open(block, 0, valid, s);
    }
}

/// One block of a scan for the end of a container.
proof fn lemma_nest_block(
    w: WindowView,
    doc: Seq<u8>,
    offset: u64,
    block: Seq<u8>,
    s: Nest,
    open: u8,
    close: u8,
)
    requires
        block_read(w, doc, offset as int, block),
        offset < w.bound(),
        doc.len() <= u64::MAX,
    ensures
        match nest_run(block, 0, valid_bytes(offset as int, w.bound() as int), s, open, close) {
            NestRun::Closed(k) => nest_answer(doc, offset as int, s, open, close) == Ok::<
                u64,
                TraverseError,
            >((offset + k) as u64),
            NestRun::Open(m) => valid_bytes(offset as int, w.bound() as int) == 64 ==> nest_answer(
                doc,
                offset as int,
                s,
                open,
                close,
            ) == nest_answer(doc, next_block(offset as int), m, open, close),
        },
        valid_bytes(offset as int, w.bound() as int) < 64 && nest_run(
            block,
            0,
            valid_bytes(offset as int, w.bound() as int),
            s,
            open,
            close,
        ) is Open ==> forall|any: Nest|
            nest_answer(doc, offset as int, s, open, close) == #[trigger] nest_answer(
                doc,
                next_block(offset as int),
                any,
                open,
                close,
            ),
{
    let valid = valid_bytes(offset as int, w.bound() as int);
    let len = doc.len() as int;
    assert forall|i: int| 0 <= i < valid implies #[trigger] block[i] == doc[i + offset] by {}
    lemma_nest_shift(block, doc, 0, valid, offset as int, s, open, close);
    lemma_nest_split(doc, offset as int, offset + valid, len, s, open, close);
    lemma_eof_next(offset as int, len);
}

/// Whether bit `i` of `w` is set.
fn has_bit(w: u64, i: u32) -> (r: bool)
    requires
        i < 64,
    ensures
        r == bit(w, i as int),
{
    let k: u64 = i as u64;
    (w >> k) & 1 == 1
}

/// Mask of the low `n` bits.
fn low_bits(n: u64) -> (mask: u64)
    requires
        n <= 64,
    ensures
        forall|i: int| 0 <= i < 64 ==> #[trigger] bit(mask, i) == (i < n),
{
    if n >= 64 {
        proof {
            assert forall|i: int| 0 <= i < 64 implies #[trigger] bit(u64::MAX, i) by {
                let k = i as u64;
                assert(k < 64 ==> (u64::MAX >> k) & 1u64 == 1u64) by (bit_vector);
            }
        }
        u64::MAX
    } else {
        proof {
            assert forall|i: int| 0 <= i < 64 implies #[trigger] bit(
                ((1u64 << n) - 1) as u64,
                i,
            ) == (i < n) by {
                lemma_low_mask(n, i);
            }
            lemma_low_mask(n, 0);
        }
        (1u64 << n) - 1
    }
}

/// Resumable position of an in-string scan: the next block offset to examine
/// and the carry entering it. Threaded across `ChunkMiss` faults so a long
/// string value isn't rescanned from its interior on every fault.
#[derive(Debug, Clone, Copy)]
pub struct StringScan {
    pub offset: u64,
    pub carry: ScanCarry,
}

impl StringScan {
    /// What the scan finds in `doc`, from where it stands.
    pub open spec fn answer(self, doc: Seq<u8>) -> Result<int, u64> {
        string_answer(doc, self.offset as int, self.carry@)
    }
}

/// What a scan for a closing quote that stood at `was` gives: the quote, nothing
/// at the end of the document, or the first absent chunk from `now` on, where
/// the scan still finds what it would have found. Every block before the absent
/// chunk is behind `now`.
pub open spec fn string_scanned(
    w: WindowView,
    was: StringScan,
    now: StringScan,
    r: Result<Option<u64>, ChunkMiss>,
) -> bool {
    &&& was.offset <= now.offset
    &&& now.carry.wf()
    &&& r matches Err(miss) ==> w.lacks(now.offset as int, miss.0) && miss.0 < now.offset + 64
    &&& r matches Ok(Some(k)) ==> was.offset <= k < u64::MAX
    &&& forall|doc: Seq<u8>| #[trigger]
        w.agrees(doc) ==> match r {
            Ok(Some(k)) => was.answer(doc) == Ok::<int, u64>(k as int) && k < doc.len()
                && w.resident(was.offset as int, k + 1),
            Ok(None) => was.answer(doc) == Err::<int, u64>(now.offset),
            Err(miss) => now.answer(doc) == was.answer(doc) && w.resident(
                was.offset as int,
                miss.0 as int,
            ),
        }
}

impl<'a> Walker<'a> {
    /// Find the offset of the closing `"` for the string whose interior begins at
    /// `interior` (one past the opening quote). Non-resumable wrapper around
    /// [`Walker::next_string_close_step`] seeded with [`inside_string`]: a chunk
    /// fault loses progress, so callers re-run from `interior`. Used for object
    /// keys, which are short; resumable string *values* use the step directly.
    pub fn next_string_close(&mut self, interior: u64) -> (r: Result<Option<u64>, ChunkMiss>)
        requires
            old(self).wf(),
        ensures
            final(self).wf(),
            final(self).window() == old(self).window(),
            r matches Err(miss) ==> old(self).window().lacks(interior as int, miss.0),
            r matches Ok(Some(k)) ==> interior <= k < u64::MAX,
            forall|doc: Seq<u8>| #[trigger]
                old(self).window().agrees(doc) ==> match r {
                    Ok(Some(k)) => string_answer(doc, interior as int, inside()) == Ok::<int, u64>(
                        k as int,
                    ) && k < doc.len() && old(self).window().resident(interior as int, k + 1),
                    Ok(None) => string_answer(doc, interior as int, inside()) is Err,
                    Err(miss) => {
                        &&& old(self).window().resident(interior as int, miss.0 as int)
                        &&& match string_answer(doc, interior as int, inside()) {
                            Ok(k) => miss.0 < k + 64,
                            Err(_) => miss.0 <= end_past(doc, interior as int),
                        }
                    },
                },
    {
        let ghost w = self.window();
        let mut scan = StringScan { offset: interior, carry: inside_string() };
        let r = self.next_string_close_step(&mut scan);
        proof {
            assert forall|doc: Seq<u8>| #[trigger] w.agrees(doc) implies (string_answer(
                doc,
                scan.offset as int,
                scan.carry@,
            ) matches Ok(k) ==> scan.offset <= k) by {
                crate::resolve::lemma_string_answer(doc, scan.offset as int, scan.carry@);
            }
            if let Err(miss) = r {
                assert forall|doc: Seq<u8>| #[trigger] w.agrees(doc) implies miss.0 <= end_past(
                    doc,
                    interior as int,
                ) by {
                    lemma_miss_inside(w, doc, interior as int, miss.0);
                }
            }
        }
        r
    }

    /// Drive a [`StringScan`] forward: scan blocks from `scan.offset`, threading
    /// the carry, until `in_string` first goes 0 (the closing quote) or
    /// end-of-source. Commits `(offset, carry)` at each block boundary, so a
    /// `ChunkMiss` resumes mid-string without rescanning or losing the carry.
    pub fn next_string_close_step(&mut self, scan: &mut StringScan) -> (r: Result<
        Option<u64>,
        ChunkMiss,
    >)
        requires
            old(self).wf(),
            old(scan).carry.wf(),
        ensures
            final(self).wf(),
            final(self).window() == old(self).window(),
            string_scanned(old(self).window(), *old(scan), *final(scan), r),
    {
        let source_size: u64 = self.source_size();
        let ghost w = self.window();
        let ghost was = *scan;
        while scan.offset < source_size
            invariant
                self.wf(),
                self.window() == w,
                w == old(self).window(),
                source_size == w.bound(),
                was == *old(scan),
                scan.carry.wf(),
                was.offset <= scan.offset,
                forall|doc: Seq<u8>| #[trigger]
                    w.agrees(doc) ==> scan.answer(doc) == was.answer(doc) && w.resident(
                        was.offset as int,
                        least(scan.offset as int, source_size as int),
                    ),
            decreases u64::MAX - scan.offset,
        {
            let block: [u8; BLOCK_BYTES] = match self.block_at(scan.offset) {
                Ok(block) => block,
                Err(miss) => return Err(miss),
            };
            let (in_string, next): (u64, ScanCarry) = scan_block(&block, scan.carry);
            // Bytes past end-of-source are space-padded (in_string 0); mask them off
            // so a phantom "close" past the real data isn't returned.
            let left: u64 = source_size - scan.offset;
            let valid: u64 = if left < BLOCK_BYTES as u64 {
                left
            } else {
                BLOCK_BYTES as u64
            };
            let mask: u64 = low_bits(valid);
            let m: u64 = !in_string & mask;
            proof {
                assert forall|i: int| 0 <= i < 64 implies #[trigger] bit(m, i) == (!bit(
                    in_string,
                    i,
                ) && i < valid) by {
                    lemma_bit_ops(!in_string, mask, i);
                    lemma_bit_ops(in_string, in_string, i);
                }
                lemma_zero_word(m);
            }
            let ghost s = scan.carry@;
            let ghost at = scan.offset;
            if m != 0 {
                let k: u32 = m.trailing_zeros();
                proof {
                    lemma_trailing_zeros(m);
                    assert forall|i: int| 0 <= i < k implies #[trigger] lex(
                        block@,
                        0,
                        i + 1,
                        s,
                    ).inside by {
                        assert(!bit(m, i));
                    }
                    lemma_string_quiet(block@, 0, k as int, valid as int, s);
                    assert(bit(m, k as int));
                    assert(!lex(block@, 0, k + 1, s).inside);
                    assert(string_run(block@, 0, valid as int, s) == StringRun::Closed(k as int));
                    assert forall|doc: Seq<u8>| #[trigger] w.agrees(doc) implies was.answer(doc)
                        == Ok::<int, u64>(at + k) && at + k < doc.len() && w.resident(
                        was.offset as int,
                        at + k + 1,
                    ) by {
                        lemma_string_block(w, doc, at, block@, s);
                    }
                }
                return Ok(Some(scan.offset + k as u64));
            }
            scan.offset = scan.offset.saturating_add(BLOCK_BYTES as u64);
            scan.carry = next;
            proof {
                assert forall|i: int| 0 <= i < valid implies #[trigger] lex(
                    block@,
                    0,
                    i + 1,
                    s,
                ).inside by {
                    assert(!bit(m, i));
                }
                lemma_string_quiet(block@, 0, valid as int, valid as int, s);
                assert forall|doc: Seq<u8>| #[trigger] w.agrees(doc) implies scan.answer(doc)
                    == was.answer(doc) && w.resident(
                    was.offset as int,
                    least(scan.offset as int, source_size as int),
                ) by {
                    lemma_string_block(w, doc, at, block@, s);
                }
            }
        }
        proof {
            assert forall|doc: Seq<u8>| #[trigger] w.agrees(doc) implies was.answer(doc) == Err::<
                int,
                u64,
            >(scan.offset) by {
                assert(scan.offset >= doc.len());
            }
        }
        Ok(None)
    }
}

/// Resumable state for skipping a JSON container: the `(offset, depth)` of the
/// scan, plus the threaded `carry`. A level of nesting costs a byte, so the
/// depth never exceeds the offset.
#[derive(Debug, Clone, Copy)]
pub struct ContainerSkipState {
    pub offset: u64,
    pub depth: u64,
    pub carry: ScanCarry,
    pub open: StructuralByte,
    pub close: StructuralByte,
}

impl ContainerSkipState {
    pub open spec fn wf(self) -> bool {
        &&& self.carry.wf()
        &&& 0 < self.depth <= self.offset
        &&& self.open != self.close
    }

    pub open spec fn nest(self) -> Nest {
        Nest { lex: self.carry@, depth: self.depth as nat }
    }

    /// What the scan finds in `doc`, from where it stands.
    pub open spec fn answer(self, doc: Seq<u8>) -> Result<u64, TraverseError> {
        nest_answer(
            doc,
            self.offset as int,
            self.nest(),
            self.open.spec_byte(),
            self.close.spec_byte(),
        )
    }
}

/// Scan one block for the end of a container: the offset just past it in the
/// block, or `None`; then the depth at the end of the block and the carry into
/// the next one. The first `valid` bytes are the document's.
fn close_in_block(
    block: &[u8; BLOCK_BYTES],
    carry: ScanCarry,
    depth: u64,
    open: StructuralByte,
    close: StructuralByte,
    Ghost(valid): Ghost<int>,
) -> (r: (Option<u64>, u64, ScanCarry))
    requires
        carry.wf(),
        open != close,
        0 < depth,
        0 < valid <= 64,
        depth + valid <= u64::MAX,
        forall|i: int| valid <= i < 64 ==> #[trigger] block@[i] == SPACE,
    ensures
        r.2.wf(),
        r.2@ == lex(block@, 0, 64, carry@),
        ({
            let run = nest_run(
                block@,
                0,
                valid,
                Nest { lex: carry@, depth: depth as nat },
                open.spec_byte(),
                close.spec_byte(),
            );
            match r.0 {
                Some(k) => run == NestRun::Closed(k as int) && 0 < k <= valid,
                None => run == NestRun::Open(
                    Nest { lex: lex(block@, 0, valid, carry@), depth: r.1 as nat },
                ) && 0 < r.1 <= depth + valid,
            }
        }),
{
    let (in_string, next): (u64, ScanCarry) = scan_block(block, carry);
    let opens: u64 = structural_word(block, in_string, open);
    let closes: u64 = structural_word(block, in_string, close);
    let ghost ob = open.spec_byte();
    let ghost cb = close.spec_byte();
    let ghost s0 = Nest { lex: carry@, depth: depth as nat };
    proof {
        assert forall|k: int| 0 <= k < 64 implies bit(opens, k) == (#[trigger] block@[k] == ob
            && !lex(block@, 0, k + 1, carry@).inside) by {
            assert(bit(in_string, k) == lex(block@, 0, k + 1, carry@).inside);
        }
        assert forall|k: int| 0 <= k < 64 implies bit(closes, k) == (#[trigger] block@[k] == cb
            && !lex(block@, 0, k + 1, carry@).inside) by {
            assert(bit(in_string, k) == lex(block@, 0, k + 1, carry@).inside);
        }
        assert forall|k: int| valid <= k < 64 implies !bit(opens, k) && !bit(closes, k) by {
            assert(block@[k] == SPACE);
        }
        lemma_ones_bound(opens, valid);
        lemma_ones_bound(closes, valid);
        assert(lex(block@, 0, 0, carry@) == carry@);
    }
    let c: u32 = closes.count_ones();
    // Net-popcount fast path: if this block's closes can't exhaust the current
    // depth even stacked first, depth can't hit zero here - bulk-update.
    if (c as u64) < depth {
        proof {
            lemma_nest_bulk(block@, 0, valid, carry@, depth as nat, opens, closes, ob, cb);
        }
        return (None, depth + opens.count_ones() as u64 - c as u64, next);
    }
    let mut now: u64 = depth;
    let mut bits: u64 = opens | closes;
    let ghost mut p: int = 0;
    proof {
        assert forall|k: int| 0 <= k < 64 implies #[trigger] bit(bits, k) == (p <= k && (bit(
            opens,
            k,
        ) || bit(closes, k))) by {
            lemma_bit_ops(opens, closes, k);
        }
    }
    while bits != 0
        invariant
            next.wf(),
            next@ == lex(block@, 0, 64, carry@),
            0 <= p <= valid <= 64,
            0 < now <= depth + p,
            depth + valid <= u64::MAX,
            ob == open.spec_byte(),
            cb == close.spec_byte(),
            ob != cb,
            forall|k: int|
                0 <= k < 64 ==> #[trigger] bit(bits, k) == (p <= k && (bit(opens, k) || bit(
                    closes,
                    k,
                ))),
            forall|k: int|
                0 <= k < 64 ==> bit(opens, k) == (#[trigger] block@[k] == ob && !lex(
                    block@,
                    0,
                    k + 1,
                    carry@,
                ).inside),
            forall|k: int|
                0 <= k < 64 ==> bit(closes, k) == (#[trigger] block@[k] == cb && !lex(
                    block@,
                    0,
                    k + 1,
                    carry@,
                ).inside),
            forall|k: int| valid <= k < 64 ==> !bit(opens, k) && !bit(closes, k),
            s0 == (Nest { lex: carry@, depth: depth as nat }),
            nest_run(block@, 0, valid, s0, ob, cb) == nest_run(
                block@,
                p,
                valid,
                Nest { lex: lex(block@, 0, p, carry@), depth: now as nat },
                ob,
                cb,
            ),
        decreases valid - p,
    {
        let t: u32 = bits.trailing_zeros();
        proof {
            lemma_trailing_zeros(bits);
            assert(bit(bits, t as int));
            assert(!(valid <= t));
            lemma_nest_gap(block@, p, t as int, valid, carry@, now as nat, ob, cb, opens, closes, bits);
            assert(lex(block@, 0, t + 1, carry@) == lex_step(
                lex(block@, 0, t as int, carry@),
                block@[t as int],
            ));
        }
        if has_bit(opens, t) {
            now = now + 1;
        } else {
            now = now - 1;
            if now == 0 {
                return (Some(t as u64 + 1), 0, next);
            }
        }
        proof {
            assert forall|k: int| 0 <= k < 64 implies #[trigger] bit(
                bits & (bits - 1) as u64,
                k,
            ) == (t + 1 <= k && (bit(opens, k) || bit(closes, k))) by {
                lemma_clear_lowest(bits, k);
                if k < t {
                    assert(!bit(bits, k));
                }
            }
            p = t + 1;
        }
        bits = bits & (bits - 1);
    }
    proof {
        lemma_zero_word(bits);
        lemma_nest_gap(block@, p, valid, valid, carry@, now as nat, ob, cb, opens, closes, bits);
    }
    (None, now, next)
}

/// Between two structural bytes of a block nothing opens or closes.
proof fn lemma_nest_gap(
    block: Seq<u8>,
    p: int,
    t: int,
    valid: int,
    entry: Lex,
    depth: nat,
    ob: u8,
    cb: u8,
    opens: u64,
    closes: u64,
    bits: u64,
)
    requires
        0 <= p <= t <= valid <= 64,
        forall|k: int| p <= k < t ==> !bit(bits, k),
        forall|k: int|
            0 <= k < 64 ==> #[trigger] bit(bits, k) == (p <= k && (bit(opens, k) || bit(closes, k))),
        forall|k: int|
            0 <= k < 64 ==> bit(opens, k) == (#[trigger] block[k] == ob && !lex(
                block,
                0,
                k + 1,
                entry,
            ).inside),
        forall|k: int|
            0 <= k < 64 ==> bit(closes, k) == (#[trigger] block[k] == cb && !lex(
                block,
                0,
                k + 1,
                entry,
            ).inside),
    ensures
        nest_run(block, p, valid, Nest { lex: lex(block, 0, p, entry), depth }, ob, cb) == nest_run(
            block,
            t,
            valid,
            Nest { lex: lex(block, 0, t, entry), depth },
            ob,
            cb,
        ),
{
    let s = lex(block, 0, p, entry);
    assert forall|i: int| p <= i < t implies lex(block, p, i + 1, s).inside || (#[trigger] block[i]
        != ob && block[i] != cb) by {
        lemma_lex_split(block, 0, p, i + 1, entry);
        assert(!bit(bits, i));
    }
    lemma_lex_split(block, 0, p, t, entry);
    lemma_nest_quiet(block, p, t, valid, Nest { lex: s, depth }, ob, cb);
}

/// A word whose bits are clear from `n` on has at most `n` bits set.
proof fn lemma_ones_bound(w: u64, n: int)
    requires
        0 <= n <= 64,
        forall|k: int| n <= k < 64 ==> !bit(w, k),
    ensures
        ones_from(w, 0) <= n,
{
    lemma_ones_bound_from(w, 0, n);
}

proof fn lemma_ones_bound_from(w: u64, i: int, n: int)
    requires
        0 <= i <= n <= 64,
        forall|k: int| n <= k < 64 ==> !bit(w, k),
    ensures
        ones_from(w, i) <= n - i,
    decreases n - i,
{
    if i == n {
        lemma_ones_from_zero(w, i);
    } else {
        lemma_ones_bound_from(w, i + 1, n);
    }
}

/// Resumable state for [`skip_value_step`]. Persisted across `ChunkMiss`
/// retries so a long skip survives chunk faults without restarting from the
/// value's first byte.
#[derive(Debug, Clone, Copy)]
pub enum SkipState {
    /// Need the opening byte at `from` to pick a kind.
    Pending { from: u64 },
    String(StringScan),
    Primitive { offset: u64 },
    Container(ContainerSkipState),
}

/// The offset just past the value whose first byte is at `from`: past the
/// closing quote of a string, past the byte that balances the opening byte of a
/// container, past the run of primitive bytes otherwise.
pub open spec fn value_end(doc: Seq<u8>, from: int) -> Result<u64, TraverseError> {
    if from >= doc.len() {
        Err(TraverseError::UnexpectedEof(from as u64))
    } else if doc[from] == QUOTE {
        match string_answer(doc, from + 1, inside()) {
            Ok(k) => Ok((k + 1) as u64),
            Err(at) => Err(TraverseError::UnexpectedEof(at)),
        }
    } else if doc[from] == LBRACE {
        nest_answer(doc, from + 1, Nest { lex: outside(), depth: 1 }, LBRACE, RBRACE)
    } else if doc[from] == LBRACKET {
        nest_answer(doc, from + 1, Nest { lex: outside(), depth: 1 }, LBRACKET, RBRACKET)
    } else {
        Ok(run_end(doc, from, ByteClass::Primitive) as u64)
    }
}

impl SkipState {
    pub open spec fn wf(self) -> bool {
        match self {
            SkipState::String(s) => s.carry.wf(),
            SkipState::Container(c) => c.wf(),
            _ => true,
        }
    }

    /// Lowest offset a resumed step might still read.
    pub open spec fn spec_min_reachable(self) -> u64 {
        match self {
            SkipState::Pending { from } => from,
            SkipState::String(s) => s.offset,
            SkipState::Primitive { offset } => offset,
            SkipState::Container(c) => c.offset,
        }
    }

    /// The offset just past the value in `doc`, from where the skip stands.
    pub open spec fn answer(self, doc: Seq<u8>) -> Result<u64, TraverseError> {
        match self {
            SkipState::Pending { from } => value_end(doc, from as int),
            SkipState::String(s) => match s.answer(doc) {
                Ok(k) => Ok((k + 1) as u64),
                Err(at) => Err(TraverseError::UnexpectedEof(at)),
            },
            SkipState::Primitive { offset } => Ok(
                run_end(doc, offset as int, ByteClass::Primitive) as u64,
            ),
            SkipState::Container(c) => c.answer(doc),
        }
    }

    pub fn start(from: u64) -> (s: Self)
        ensures
            s == (SkipState::Pending { from }),
    {
        SkipState::Pending { from }
    }

    /// Lowest offset a resumed step might still read. The retention bound for the
    /// byte window; nothing below this is reachable again.
    pub fn min_reachable(&self) -> (at: u64)
        ensures
            at == self.spec_min_reachable(),
    {
        match self {
            SkipState::Pending { from } => *from,
            SkipState::String(s) => s.offset,
            SkipState::Primitive { offset } => *offset,
            SkipState::Container(c) => c.offset,
        }
    }
}

/// A value ends at or past where its skip stands.
proof fn lemma_skip_ends_ahead(doc: Seq<u8>, state: SkipState)
    requires
        doc.len() <= u64::MAX,
    ensures
        state.answer(doc) matches Ok(end) ==> state.spec_min_reachable() <= end,
{
    match state {
        SkipState::Pending { from } => {
            crate::resolve::lemma_value_end(doc, from as int);
        },
        SkipState::String(scan) => {
            crate::resolve::lemma_string_answer(doc, scan.offset as int, scan.carry@);
        },
        SkipState::Primitive { offset } => {
            crate::scan::lemma_run_end(doc, offset as int, ByteClass::Primitive);
        },
        SkipState::Container(c) => {
            crate::resolve::lemma_nest_run_bounds(
                doc,
                c.offset as int,
                doc.len() as int,
                c.nest(),
                c.open.spec_byte(),
                c.close.spec_byte(),
            );
        },
    }
}

/// What a skip that stood at `was` gives: the end of the value or the error, in
/// every document that the window shows, or the first absent chunk from `now`
/// on, where the skip still gives what it would have given. Progress is kept: every
/// block before the absent chunk is behind `now`, except in a number or a literal,
/// which is gone through anew. No chunk is asked for that starts more than a block past
/// the value.
pub open spec fn value_skipped(
    w: WindowView,
    was: SkipState,
    now: SkipState,
    r: Result<u64, TraverseError>,
) -> bool {
    &&& now.wf()
    &&& was.spec_min_reachable() <= now.spec_min_reachable()
    &&& r matches Err(TraverseError::Pending(miss)) ==> {
        &&& w.lacks(now.spec_min_reachable() as int, miss.0)
        &&& !(now is Primitive) ==> miss.0 < now.spec_min_reachable() + 64
    }
    &&& r matches Ok(end) ==> was.spec_min_reachable() <= end
    &&& forall|doc: Seq<u8>| #[trigger]
        w.agrees(doc) ==> match r {
            Err(TraverseError::Pending(miss)) => {
                &&& now.answer(doc) == was.answer(doc)
                &&& w.resident(was.spec_min_reachable() as int, miss.0 as int)
                &&& was.answer(doc) matches Ok(end) ==> miss.0 < end + 64
            },
            Ok(end) => was.answer(doc) == r && w.resident(
                was.spec_min_reachable() as int,
                end as int,
            ),
            Err(_) => was.answer(doc) == r,
        }
}

impl<'a> Walker<'a> {
    fn skip_container_step(&mut self, state: &mut ContainerSkipState) -> (r: Result<
        u64,
        TraverseError,
    >)
        requires
            old(self).wf(),
            old(state).wf(),
        ensures
            final(self).wf(),
            final(self).window() == old(self).window(),
            value_skipped(
                old(self).window(),
                SkipState::Container(*old(state)),
                SkipState::Container(*final(state)),
                r,
            ),
    {
        let open: StructuralByte = state.open;
        let close: StructuralByte = state.close;
        let source_size: u64 = self.source_size();
        let ghost w = self.window();
        let ghost was = *state;
        while state.offset < source_size
            invariant
                self.wf(),
                self.window() == w,
                w == old(self).window(),
                source_size == w.bound(),
                was == *old(state),
                state.wf(),
                state.open == open,
                state.close == close,
                was.open == open,
                was.close == close,
                was.offset <= state.offset,
                forall|doc: Seq<u8>| #[trigger]
                    w.agrees(doc) ==> state.answer(doc) == was.answer(doc) && w.resident(
                        was.offset as int,
                        least(state.offset as int, source_size as int),
                    ),
            decreases u64::MAX - state.offset,
        {
            // A miss leaves `state` at the last committed block boundary, so it
            // propagates without losing progress or the carry.
            let block: [u8; BLOCK_BYTES] = match self.block_at(state.offset) {
                Ok(block) => block,
                Err(miss) => {
                    proof {
                        let at = SkipState::Container(*state);
                        assert forall|doc: Seq<u8>| #[trigger] w.agrees(doc) implies (at.answer(
                            doc,
                        ) matches Ok(end) ==> at.spec_min_reachable() <= end) by {
                            lemma_skip_ends_ahead(doc, at);
                        }
                    }
                    return Err(TraverseError::Pending(miss));
                },
            };
            let left: u64 = source_size - state.offset;
            let ghost valid = least(64, left as int);
            let (closed, depth, next): (Option<u64>, u64, ScanCarry) = close_in_block(
                &block,
                state.carry,
                state.depth,
                open,
                close,
                Ghost(valid),
            );
            let ghost at = *state;
            if let Some(k) = closed {
                proof {
                    assert forall|doc: Seq<u8>| #[trigger] w.agrees(doc) implies was.answer(doc)
                        == Ok::<u64, TraverseError>((at.offset + k) as u64) && w.resident(
                        was.offset as int,
                        at.offset + k,
                    ) by {
                        lemma_nest_block(
                            w,
                            doc,
                            at.offset,
                            block@,
                            at.nest(),
                            open.spec_byte(),
                            close.spec_byte(),
                        );
                    }
                }
                return Ok(state.offset + k);
            }
            state.offset = state.offset.saturating_add(BLOCK_BYTES as u64);
            state.depth = depth;
            state.carry = next;
            proof {
                assert forall|doc: Seq<u8>| #[trigger] w.agrees(doc) implies state.answer(doc)
                    == was.answer(doc) && w.resident(
                    was.offset as int,
                    least(state.offset as int, source_size as int),
                ) by {
                    lemma_nest_block(
                        w,
                        doc,
                        at.offset,
                        block@,
                        at.nest(),
                        open.spec_byte(),
                        close.spec_byte(),
                    );
                }
            }
        }
        proof {
            assert forall|doc: Seq<u8>| #[trigger] w.agrees(doc) implies was.answer(doc) == Err::<
                u64,
                TraverseError,
            >(TraverseError::UnexpectedEof(state.offset)) by {
                assert(state.offset >= doc.len());
            }
        }
        Err(TraverseError::UnexpectedEof(state.offset))
    }

    /// Skip past a JSON value whose first byte is at `from` (whitespace already
    /// consumed), returning the offset immediately after it.
    pub fn skip_value(&mut self, from: u64) -> (r: Result<u64, TraverseError>)
        requires
            old(self).wf(),
        ensures
            final(self).wf(),
            final(self).window() == old(self).window(),
            r matches Ok(end) ==> from <= end,
            r matches Err(TraverseError::Pending(miss)) ==> old(self).window().lacks(
                from as int,
                miss.0,
            ),
            forall|doc: Seq<u8>| #[trigger]
                old(self).window().agrees(doc) ==> match r {
                    Err(TraverseError::Pending(miss)) => {
                        &&& old(self).window().resident(from as int, miss.0 as int)
                        &&& match value_end(doc, from as int) {
                            Ok(end) => miss.0 < end + 64,
                            Err(_) => miss.0 <= end_past(doc, from as int),
                        }
                    },
                    Ok(end) => r == value_end(doc, from as int) && old(self).window().resident(
                        from as int,
                        end as int,
                    ),
                    Err(_) => r == value_end(doc, from as int),
                },
    {
        let ghost w = self.window();
        let mut state = SkipState::start(from);
        let r = skip_value_step(self, &mut state);
        proof {
            if let Err(TraverseError::Pending(miss)) = r {
                assert forall|doc: Seq<u8>| #[trigger] w.agrees(doc) implies miss.0 <= end_past(
                    doc,
                    from as int,
                ) by {
                    lemma_miss_inside(w, doc, from as int, miss.0);
                }
            }
        }
        r
    }
}

/// Drive a [`SkipState`] forward against the current window. Returns the offset
/// immediately after the value, or the chunk that is missing, with `state`
/// committed so the next call resumes.
pub fn skip_value_step(walker: &mut Walker, state: &mut SkipState) -> (r: Result<
    u64,
    TraverseError,
>)
    requires
        old(walker).wf(),
        old(state).wf(),
    ensures
        final(walker).wf(),
        final(walker).window() == old(walker).window(),
        value_skipped(old(walker).window(), *old(state), *final(state), r),
{
    let ghost w = walker.window();
    let ghost was = *state;
    proof {
        assert forall|doc: Seq<u8>, at: SkipState|
            w.agrees(doc) && #[trigger] at.answer(doc) is Ok implies at.spec_min_reachable()
            <= at.answer(doc)->Ok_0 by {
            lemma_skip_ends_ahead(doc, at);
        }
    }
    if let SkipState::Pending { from } = *state {
        let byte: u8 = match walker.byte_at(from) {
            Err(miss) => return Err(TraverseError::Pending(miss)),
            Ok(None) => return Err(TraverseError::UnexpectedEof(from)),
            Ok(Some(b)) => b,
        };
        *state = if byte == QUOTE {
            SkipState::String(StringScan { offset: from + 1, carry: inside_string() })
        } else if byte == LBRACE {
            SkipState::Container(
                ContainerSkipState {
                    offset: from + 1,
                    depth: 1,
                    carry: ScanCarry::default(),
                    open: StructuralByte::LBrace,
                    close: StructuralByte::RBrace,
                },
            )
        } else if byte == LBRACKET {
            SkipState::Container(
                ContainerSkipState {
                    offset: from + 1,
                    depth: 1,
                    carry: ScanCarry::default(),
                    open: StructuralByte::LBracket,
                    close: StructuralByte::RBracket,
                },
            )
        } else {
            SkipState::Primitive { offset: from }
        };
        assert(forall|doc: Seq<u8>| #[trigger]
            w.agrees(doc) ==> state.answer(doc) == was.answer(doc));
        assert(w.resident(from as int, state.spec_min_reachable() as int));
    }
    let ghost mid = *state;
    assert(mid.wf());
    assert(forall|doc: Seq<u8>| #[trigger] w.agrees(doc) ==> mid.answer(doc) == was.answer(doc));
    assert(w.resident(was.spec_min_reachable() as int, mid.spec_min_reachable() as int));
    match *state {
        SkipState::Pending { from } => Err(TraverseError::UnexpectedEof(from)),
        SkipState::String(scan0) => {
            let mut scan: StringScan = scan0;
            let r = walker.next_string_close_step(&mut scan);
            *state = SkipState::String(scan);
            match r {
                Err(miss) => Err(TraverseError::Pending(miss)),
                Ok(None) => Err(TraverseError::UnexpectedEof(scan.offset)),
                Ok(Some(close)) => Ok(close + 1),
            }
        },
        SkipState::Primitive { offset } => match walker.skip_primitive(offset) {
            Err(miss) => {
                proof {
                    assert forall|doc: Seq<u8>| #[trigger] w.agrees(doc) implies run_end(
                        doc,
                        offset as int,
                        ByteClass::Primitive,
                    ) <= u64::MAX by {
                        crate::scan::lemma_run_end(doc, offset as int, ByteClass::Primitive);
                    }
                }
                Err(TraverseError::Pending(miss))
            },
            Ok(end) => Ok(end),
        },
        SkipState::Container(c0) => {
            let mut c: ContainerSkipState = c0;
            let r = walker.skip_container_step(&mut c);
            *state = SkipState::Container(c);
            r
        },
    }
}

/// What a scan for the separators of an array finds.
pub enum CommaAnswer {
    /// The offset just past the last separator to be passed.
    Found(int),
    /// The array ended with this many separators still to be passed.
    Closed(nat),
    /// The document ended; where the scan then stands.
    Eof(u64),
}

pub open spec fn comma_answer(doc: Seq<u8>, at: int, s: Commas) -> CommaAnswer {
    match comma_run(doc, at, doc.len() as int, s) {
        CommaRun::Found(k) => CommaAnswer::Found(k),
        CommaRun::Closed(n) => CommaAnswer::Closed(n),
        CommaRun::Open(_) => CommaAnswer::Eof(eof_offset(at, doc.len() as int)),
    }
}

/// The sampled elements that the scan enters in `doc`.
pub open spec fn doc_marks(doc: Seq<u8>, at: int, s: Commas, index: int, stride: int) -> Seq<
    (usize, u64),
> {
    comma_marks(doc, at, doc.len() as int, s, index, stride, 0)
}

/// Outcome of [`Walker::advance_top_level_commas`].
#[derive(Debug, Clone, Copy, PartialEq, Eq, Structural)]
pub enum CommaStop {
    /// Target reached: `consumed == needed`, `offset_after_comma` is the first
    /// byte of the target element (before whitespace).
    Found { offset_after_comma: u64, consumed: usize },
    /// Array's terminating `]` reached before consuming `needed` commas.
    ArrayClosed { consumed: usize },
    /// Block-boundary commit; caller resumes with these values (carry included)
    /// once the next chunk is loaded.
    Partial { offset: u64, depth: u64, consumed: usize, carry: ScanCarry },
}

/// How a scan for separators left a block.
enum BlockCommas {
    /// The last separator to be passed was met; the offset just past it in the
    /// block.
    Found(u64),
    /// The array ended with this many separators still to be passed.
    Closed(usize),
    /// The block is passed; the depth and the separators still to be passed.
    Open(u64, usize),
}

/// Scan one block for the separators of an array, noting in `out` the elements
/// at multiples of `stride` that are entered. The first `valid` bytes are the
/// document's.
fn commas_in_block(
    block: &[u8; BLOCK_BYTES],
    carry: ScanCarry,
    depth: u64,
    left: usize,
    offset: u64,
    index: usize,
    stride: usize,
    out: &mut Vec<(usize, u64)>,
    Ghost(valid): Ghost<int>,
) -> (r: (BlockCommas, ScanCarry))
    requires
        carry.wf(),
        0 < left,
        index + left <= usize::MAX,
        0 < valid <= 64,
        depth + valid <= u64::MAX,
        offset + valid <= u64::MAX,
        forall|i: int| valid <= i < 64 ==> #[trigger] block@[i] == SPACE,
    ensures
        r.1.wf(),
        r.1@ == lex(block@, 0, 64, carry@),
        ({
            let s0 = Commas { lex: carry@, depth: depth as nat, left: left as nat };
            let run = comma_run(block@, 0, valid, s0);
            &&& match r.0 {
                BlockCommas::Found(k) => run == CommaRun::Found(k as int) && 0 < k <= valid,
                BlockCommas::Closed(n) => run == CommaRun::Closed(n as nat) && 0 < n <= left,
                BlockCommas::Open(d, n) => run == CommaRun::Open(
                    Commas {
                        lex: lex(block@, 0, valid, carry@),
                        depth: d as nat,
                        left: n as nat,
                    },
                ) && 0 < n <= left && d <= depth + valid,
            }
            &&& final(out)@ == old(out)@ + comma_marks(
                block@,
                0,
                valid,
                s0,
                index as int,
                stride as int,
                offset as int,
            )
        }),
{
    let (in_string, next): (u64, ScanCarry) = scan_block(block, carry);
    let lbrace: u64 = structural_word(block, in_string, StructuralByte::LBrace);
    let rbrace: u64 = structural_word(block, in_string, StructuralByte::RBrace);
    let lbracket: u64 = structural_word(block, in_string, StructuralByte::LBracket);
    let rbracket: u64 = structural_word(block, in_string, StructuralByte::RBracket);
    let commas: u64 = structural_word(block, in_string, StructuralByte::Comma);
    let opens: u64 = lbrace | lbracket;
    let closes: u64 = rbrace | rbracket;
    let ghost s0 = Commas { lex: carry@, depth: depth as nat, left: left as nat };
    proof {
        assert forall|k: int| 0 <= k < 64 implies bit(opens, k) == (is_opener(#[trigger] block@[k])
            && !lex(block@, 0, k + 1, carry@).inside) by {
            assert(bit(in_string, k) == lex(block@, 0, k + 1, carry@).inside);
            lemma_bit_ops(lbrace, lbracket, k);
        }
        assert forall|k: int| 0 <= k < 64 implies bit(closes, k) == (is_closer(
            #[trigger] block@[k],
        ) && !lex(block@, 0, k + 1, carry@).inside) by {
            assert(bit(in_string, k) == lex(block@, 0, k + 1, carry@).inside);
            lemma_bit_ops(rbrace, rbracket, k);
        }
        assert forall|k: int| 0 <= k < 64 implies bit(commas, k) == (#[trigger] block@[k] == COMMA
            && !lex(block@, 0, k + 1, carry@).inside) by {
            assert(bit(in_string, k) == lex(block@, 0, k + 1, carry@).inside);
        }
        assert forall|k: int| valid <= k < 64 implies !bit(opens, k) && !bit(closes, k) && !bit(
            commas,
            k,
        ) by {
            assert(block@[k] == SPACE);
        }
        assert(lex(block@, 0, 0, carry@) == carry@);
    }
    if stride == 0 && depth == 0 && opens == 0 && closes == 0 {
        // Depth-0 fast path: every comma is an element boundary.
        let c: u32 = commas.count_ones();
        if (c as u64) < left as u64 {
            proof {
                lemma_ones_bound(commas, valid);
                lemma_zero_word(opens);
                lemma_zero_word(closes);
                assert forall|k: int| 0 <= k < 64 implies lex(block@, 0, k + 1, carry@).inside
                    || !(is_opener(#[trigger] block@[k]) || is_closer(block@[k])) by {
                    assert(!bit(opens, k));
                    assert(!bit(closes, k));
                }
                lemma_comma_bulk(block@, 0, valid, carry@, left as nat, commas);
                assert(out@ =~= old(out)@ + comma_marks(
                    block@,
                    0,
                    valid,
                    s0,
                    index as int,
                    stride as int,
                    offset as int,
                ));
            }
            return (BlockCommas::Open(0, left - c as usize), next);
        }
    }
    let mut now: u64 = depth;
    let mut more: usize = left;
    let mut bits: u64 = opens | closes | commas;
    let ghost mut p: int = 0;
    proof {
        assert forall|k: int| 0 <= k < 64 implies #[trigger] bit(bits, k) == (p <= k && (bit(
            opens,
            k,
        ) || bit(closes, k) || bit(commas, k))) by {
            lemma_bit_ops(opens, closes, k);
            lemma_bit_ops(opens | closes, commas, k);
        }
    }
    while bits != 0
        invariant
            next.wf(),
            next@ == lex(block@, 0, 64, carry@),
            0 <= p <= valid <= 64,
            now <= depth + p,
            0 < more <= left,
            index + left <= usize::MAX,
            depth + valid <= u64::MAX,
            offset + valid <= u64::MAX,
            forall|k: int|
                0 <= k < 64 ==> #[trigger] bit(bits, k) == (p <= k && (bit(opens, k) || bit(
                    closes,
                    k,
                ) || bit(commas, k))),
            forall|k: int|
                0 <= k < 64 ==> bit(opens, k) == (is_opener(#[trigger] block@[k]) && !lex(
                    block@,
                    0,
                    k + 1,
                    carry@,
                ).inside),
            forall|k: int|
                0 <= k < 64 ==> bit(closes, k) == (is_closer(#[trigger] block@[k]) && !lex(
                    block@,
                    0,
                    k + 1,
                    carry@,
                ).inside),
            forall|k: int|
                0 <= k < 64 ==> bit(commas, k) == (#[trigger] block@[k] == COMMA && !lex(
                    block@,
                    0,
                    k + 1,
                    carry@,
                ).inside),
            forall|k: int|
                valid <= k < 64 ==> !bit(opens, k) && !bit(closes, k) && !bit(commas, k),
            s0 == (Commas { lex: carry@, depth: depth as nat, left: left as nat }),
            comma_run(block@, 0, valid, s0) == comma_run(
                block@,
                p,
                valid,
                Commas { lex: lex(block@, 0, p, carry@), depth: now as nat, left: more as nat },
            ),
            out@ + comma_marks(
                block@,
                p,
                valid,
                Commas { lex: lex(block@, 0, p, carry@), depth: now as nat, left: more as nat },
                index + left - more,
                stride as int,
                offset as int,
            ) == old(out)@ + comma_marks(
                block@,
                0,
                valid,
                s0,
                index as int,
                stride as int,
                offset as int,
            ),
        decreases valid - p,
    {
        let t: u32 = bits.trailing_zeros();
        let ghost s = Commas {
            lex: lex(block@, 0, t as int, carry@),
            depth: now as nat,
            left: more as nat,
        };
        let ghost at_index = index + left - more;
        let ghost before = out@;
        proof {
            lemma_trailing_zeros(bits);
            assert(bit(bits, t as int));
            assert(!(valid <= t));
            lemma_comma_gap(
                block@,
                p,
                t as int,
                valid,
                carry@,
                now as nat,
                more as nat,
                opens,
                closes,
                commas,
                bits,
                at_index,
                stride as int,
                offset as int,
            );
            assert(lex(block@, 0, t + 1, carry@) == lex_step(s.lex, block@[t as int]));
        }
        if has_bit(opens, t) {
            now = now + 1;
        } else if has_bit(closes, t) {
            if now == 0 {
                proof {
                    assert(comma_marks(
                        block@,
                        t as int,
                        valid,
                        s,
                        at_index,
                        stride as int,
                        offset as int,
                    ) =~= Seq::empty());
                    assert(out@ + Seq::<(usize, u64)>::empty() =~= out@);
                }
                return (BlockCommas::Closed(more), next);
            }
            now = now - 1;
        } else if now == 0 {
            let entered: usize = index + (left - more) + 1;
            if stride > 0 && entered % stride == 0 {
                out.push((entered, offset + t as u64 + 1));
            }
            more = more - 1;
            if more == 0 {
                proof {
                    assert(out@ =~= before + comma_marks(
                        block@,
                        t as int,
                        valid,
                        s,
                        at_index,
                        stride as int,
                        offset as int,
                    ));
                }
                return (BlockCommas::Found(t as u64 + 1), next);
            }
        }
        proof {
            let n = comma_step(s, block@[t as int]);
            assert(n == (Commas {
                lex: lex(block@, 0, t + 1, carry@),
                depth: now as nat,
                left: more as nat,
            }));
            assert(before + comma_marks(
                block@,
                t as int,
                valid,
                s,
                at_index,
                stride as int,
                offset as int,
            ) =~= out@ + comma_marks(
                block@,
                t + 1,
                valid,
                n,
                index + left - more,
                stride as int,
                offset as int,
            ));
            assert forall|k: int| 0 <= k < 64 implies #[trigger] bit(
                bits & (bits - 1) as u64,
                k,
            ) == (t + 1 <= k && (bit(opens, k) || bit(closes, k) || bit(commas, k))) by {
                lemma_clear_lowest(bits, k);
                if k < t {
                    assert(!bit(bits, k));
                }
            }
            p = t + 1;
        }
        bits = bits & (bits - 1);
    }
    proof {
        lemma_zero_word(bits);
        lemma_comma_gap(
            block@,
            p,
            valid,
            valid,
            carry@,
            now as nat,
            more as nat,
            opens,
            closes,
            commas,
            bits,
            index + left - more,
            stride as int,
            offset as int,
        );
        assert(out@ + Seq::<(usize, u64)>::empty() =~= out@);
    }
    (BlockCommas::Open(now, more), next)
}

/// Between two structural bytes of a block nothing happens to the array.
proof fn lemma_comma_gap(
    block: Seq<u8>,
    p: int,
    t: int,
    valid: int,
    entry: Lex,
    depth: nat,
    left: nat,
    opens: u64,
    closes: u64,
    commas: u64,
    bits: u64,
    index: int,
    stride: int,
    base: int,
)
    requires
        0 <= p <= t <= valid <= 64,
        forall|k: int| p <= k < t ==> !bit(bits, k),
        forall|k: int|
            0 <= k < 64 ==> #[trigger] bit(bits, k) == (p <= k && (bit(opens, k) || bit(closes, k)
                || bit(commas, k))),
        forall|k: int|
            0 <= k < 64 ==> bit(opens, k) == (is_opener(#[trigger] block[k]) && !lex(
                block,
                0,
                k + 1,
                entry,
            ).inside),
        forall|k: int|
            0 <= k < 64 ==> bit(closes, k) == (is_closer(#[trigger] block[k]) && !lex(
                block,
                0,
                k + 1,
                entry,
            ).inside),
        forall|k: int|
            0 <= k < 64 ==> bit(commas, k) == (#[trigger] block[k] == COMMA && !lex(
                block,
                0,
                k + 1,
                entry,
            ).inside),
    ensures
        ({
            let a = Commas { lex: lex(block, 0, p, entry), depth, left };
            let b = Commas { lex: lex(block, 0, t, entry), depth, left };
            &&& comma_run(block, p, valid, a) == comma_run(block, t, valid, b)
            &&& comma_marks(block, p, valid, a, index, stride, base) == comma_marks(
                block,
                t,
                valid,
                b,
                index,
                stride,
                base,
            )
        }),
{
    let s = Commas { lex: lex(block, 0, p, entry), depth, left };
    assert forall|i: int| p <= i < t implies lex(block, p, i + 1, s.lex).inside
        || !is_array_structural(#[trigger] block[i]) by {
        lemma_lex_split(block, 0, p, i + 1, entry);
        assert(!bit(bits, i));
    }
    lemma_lex_split(block, 0, p, t, entry);
    lemma_comma_quiet(block, p, t, valid, s, index, stride, base);
}

/// One block of a scan for separators, left with the carry of the next block.
proof fn lemma_comma_block(
    w: WindowView,
    doc: Seq<u8>,
    offset: u64,
    block: Seq<u8>,
    s: Commas,
    index: int,
    stride: int,
)
    requires
        block_read(w, doc, offset as int, block),
        offset < w.bound(),
        doc.len() <= u64::MAX,
        s.left > 0,
        comma_run(block, 0, valid_bytes(offset as int, w.bound() as int), s) matches CommaRun::Open(
            m,
        ) ==> m.lex == lex(block, 0, valid_bytes(offset as int, w.bound() as int), s.lex),
    ensures
        ({
            let valid = valid_bytes(offset as int, w.bound() as int);
            let marks = comma_marks(block, 0, valid, s, index, stride, offset as int);
            match comma_run(block, 0, valid, s) {
                CommaRun::Found(k) => {
                    &&& comma_answer(doc, offset as int, s) == CommaAnswer::Found(offset + k)
                    &&& doc_marks(doc, offset as int, s, index, stride) == marks
                },
                CommaRun::Closed(n) => {
                    &&& comma_answer(doc, offset as int, s) == CommaAnswer::Closed(n)
                    &&& doc_marks(doc, offset as int, s, index, stride) == marks
                },
                CommaRun::Open(m) => {
                    let n = Commas { lex: lex(block, 0, 64, s.lex), ..m };
                    &&& comma_answer(doc, offset as int, s) == comma_answer(
                        doc,
                        next_block(offset as int),
                        n,
                    )
                    &&& closes_at(doc, offset as int, s.lex, s.depth) == closes_at(
                        doc,
                        next_block(offset as int),
                        n.lex,
                        n.depth,
                    )
                    &&& doc_marks(doc, offset as int, s, index, stride) == marks + doc_marks(
                        doc,
                        next_block(offset as int),
                        n,
                        index + s.left - m.left,
                        stride,
                    )
                },
            }
        }),
{
    let valid = valid_bytes(offset as int, w.bound() as int);
    let len = doc.len() as int;
    let mid = offset + valid;
    assert forall|i: int| 0 <= i < valid implies #[trigger] block[i] == doc[i + offset] by {}
    lemma_comma_shift(block, doc, 0, valid, offset as int, s, index, stride);
    lemma_comma_split(doc, offset as int, mid, len, s);
    lemma_closes_at(doc, offset as int, mid, s);
    lemma_marks_split(doc, offset as int, mid, len, s, index, stride, 0);
    lemma_eof_next(offset as int, len);
    let marks = comma_marks(block, 0, valid, s, index, stride, offset as int);
    assert(marks + Seq::<(usize, u64)>::empty() =~= marks);
}

/// What a scan for separators from `from` gives, in every document that the
/// window shows: the offset past the last of them, the end of the array, the end
/// of the document, a block boundary from which the scan finds what it would
/// have found, or the first absent chunk. A chunk is reported absent only where no
/// block could be scanned. The sampled elements that were entered are added to those
/// that `was` held. Where no separator is asked for, nothing is read.
pub open spec fn commas_passed(
    w: WindowView,
    from: u64,
    s: Commas,
    index: int,
    stride: int,
    was: Seq<(usize, u64)>,
    now: Seq<(usize, u64)>,
    r: Result<CommaStop, TraverseError>,
) -> bool {
    &&& s.left == 0 ==> r == Ok::<CommaStop, TraverseError>(
        CommaStop::Found { offset_after_comma: from, consumed: 0 },
    )
    &&& match r {
        Ok(CommaStop::Found { offset_after_comma, consumed }) => consumed == s.left && from
            + consumed <= offset_after_comma,
        Ok(CommaStop::ArrayClosed { consumed }) => consumed < s.left && from + consumed < u64::MAX,
        Ok(CommaStop::Partial { offset, depth, consumed, carry }) => {
            &&& from < offset
            &&& from + consumed <= offset
            &&& consumed < s.left
            &&& carry.wf()
            &&& depth <= offset
            &&& exists|m: u64| #[trigger] w.lacks(offset as int, m) && m < offset + 64
        },
        Err(TraverseError::Pending(miss)) => {
            &&& now == was
            &&& w.lacks(from as int, miss.0)
            &&& miss.0 < from + 64
        },
        Err(TraverseError::UnexpectedEof(_)) => true,
        Err(TraverseError::Malformed(_)) => false,
    }
    &&& forall|doc: Seq<u8>| #[trigger]
        w.agrees(doc) ==> match r {
            Ok(CommaStop::Found { offset_after_comma, consumed }) => {
                if s.left == 0 {
                    offset_after_comma == from && now == was
                } else {
                    &&& comma_answer(doc, from as int, s) == CommaAnswer::Found(
                        offset_after_comma as int,
                    )
                    &&& now == was + doc_marks(doc, from as int, s, index, stride)
                    &&& w.resident(from as int, offset_after_comma as int)
                }
            },
            Ok(CommaStop::ArrayClosed { consumed }) => {
                &&& comma_answer(doc, from as int, s) == CommaAnswer::Closed(
                    (s.left - consumed) as nat,
                )
                &&& now == was + doc_marks(doc, from as int, s, index, stride)
            },
            Ok(CommaStop::Partial { offset, depth, consumed, carry }) => {
                let n = Commas {
                    lex: carry@,
                    depth: depth as nat,
                    left: (s.left - consumed) as nat,
                };
                &&& comma_answer(doc, offset as int, n) == comma_answer(doc, from as int, s)
                &&& closes_at(doc, offset as int, n.lex, n.depth) == closes_at(
                    doc,
                    from as int,
                    s.lex,
                    s.depth,
                )
                &&& now + doc_marks(doc, offset as int, n, index + consumed, stride) == was
                    + doc_marks(doc, from as int, s, index, stride)
                &&& w.resident(from as int, offset as int)
            },
            Err(TraverseError::Pending(miss)) => w.resident(from as int, miss.0 as int),
            Err(TraverseError::UnexpectedEof(at)) => {
                &&& comma_answer(doc, from as int, s) == CommaAnswer::Eof(at)
                &&& now == was + doc_marks(doc, from as int, s, index, stride)
            },
            Err(TraverseError::Malformed(_)) => false,
        }
}

/// One call in a series that scans for separators: what it was given, and what it gave.
pub struct CommaCall {
    pub window: WindowView,
    pub from: u64,
    pub s: Commas,
    pub index: int,
    pub was: Seq<(usize, u64)>,
    pub now: Seq<(usize, u64)>,
    pub r: Result<CommaStop, TraverseError>,
}

/// A call goes on from where the one before it stopped.
pub open spec fn goes_on(a: CommaCall, b: CommaCall) -> bool {
    &&& b.was == a.now
    &&& match a.r {
        Ok(CommaStop::Partial { offset, depth, consumed, carry }) => {
            &&& b.from == offset
            &&& b.s == (Commas {
                lex: carry@,
                depth: depth as nat,
                left: (a.s.left - consumed) as nat,
            })
            &&& b.index == a.index + consumed
        },
        Err(TraverseError::Pending(_)) => b.from == a.from && b.s == a.s && b.index == a.index,
        _ => false,
    }
}

/// A series of calls over a document that arrives bit by bit, each going on from where
/// the one before it stopped.
pub open spec fn comma_series(doc: Seq<u8>, stride: int, calls: Seq<CommaCall>) -> bool {
    &&& forall|i: int|
        0 <= i < calls.len() ==> {
            let c = #[trigger] calls[i];
            &&& c.window.agrees(doc)
            &&& commas_passed(c.window, c.from, c.s, c.index, stride, c.was, c.now, c.r)
        }
    &&& forall|i: int, j: int|
        0 <= i && j == i + 1 && j < calls.len() ==> goes_on(#[trigger] calls[i], #[trigger] calls[j])
}

/// However a document arrives, a series of calls ends as one call over the whole of it:
/// with the same separator, or the same number of them passed at the end of the array, or
/// the end of the document at the same offset, and with the same elements noted. No
/// separator is lost or counted twice. Where none is asked for, the first call finds the
/// place at once.
pub proof fn law_a_series_ends_as_one_call(doc: Seq<u8>, stride: int, calls: Seq<CommaCall>)
    requires
        calls.len() > 0,
        comma_series(doc, stride, calls),
    ensures
        calls[0].s.left == 0 ==> {
            &&& calls.len() == 1
            &&& calls[0].r == Ok::<CommaStop, TraverseError>(
                CommaStop::Found { offset_after_comma: calls[0].from, consumed: 0 },
            )
            &&& calls[0].now == calls[0].was
        },
        calls[0].s.left > 0 ==> ({
            let first = calls[0];
            let last = calls.last();
            let answer = comma_answer(doc, first.from as int, first.s);
            let marks = first.was + doc_marks(doc, first.from as int, first.s, first.index, stride);
            match last.r {
                Ok(CommaStop::Found { offset_after_comma, consumed }) => {
                    &&& answer == CommaAnswer::Found(offset_after_comma as int)
                    &&& last.index - first.index + consumed == first.s.left
                    &&& last.now == marks
                },
                Ok(CommaStop::ArrayClosed { consumed }) => {
                    &&& answer == CommaAnswer::Closed(
                        (first.s.left - (last.index - first.index + consumed)) as nat,
                    )
                    &&& last.now == marks
                },
                Err(TraverseError::UnexpectedEof(at)) => {
                    &&& answer == CommaAnswer::Eof(at)
                    &&& last.now == marks
                },
                Err(TraverseError::Malformed(_)) => false,
                _ => true,
            }
        }),
{
    let first = calls[0];
    assert(commas_passed(
        first.window,
        first.from,
        first.s,
        first.index,
        stride,
        first.was,
        first.now,
        first.r,
    ));
    assert(first.window.agrees(doc));
    if first.s.left > 0 {
        lemma_comma_series(doc, stride, calls, calls.len() - 1);
    } else if calls.len() > 1 {
        assert(goes_on(first, calls[1]));
    }
}

/// Every call of a series looks for what the first did.
proof fn lemma_comma_series(doc: Seq<u8>, stride: int, calls: Seq<CommaCall>, j: int)
    requires
        0 <= j < calls.len(),
        calls[0].s.left > 0,
        comma_series(doc, stride, calls),
    ensures
        ({
            let a = calls[0];
            let b = calls[j];
            &&& b.s.left > 0
            &&& b.index + b.s.left == a.index + a.s.left
            &&& comma_answer(doc, b.from as int, b.s) == comma_answer(doc, a.from as int, a.s)
            &&& b.was + doc_marks(doc, b.from as int, b.s, b.index, stride) == a.was + doc_marks(
                doc,
                a.from as int,
                a.s,
                a.index,
                stride,
            )
        }),
    decreases j,
{
    if j > 0 {
        lemma_comma_series(doc, stride, calls, j - 1);
        let a = calls[j - 1];
        assert(goes_on(a, calls[j]));
        assert(commas_passed(a.window, a.from, a.s, a.index, stride, a.was, a.now, a.r));
        assert(a.window.agrees(doc));
    }
}

impl<'a> Walker<'a> {
    /// Advance past `needed` depth-0 commas of the array currently being scanned,
    /// returning the offset one byte past the last consumed comma (the next
    /// element's first byte). `from` is the current element position; `entry_carry`
    /// is the string-scan carry at `from` (default at element boundaries, or the
    /// committed carry from a prior [`CommaStop::Partial`]).
    ///
    /// Depth-0 commas are element boundaries; a block with no nesting transitions
    /// takes the popcount fast path instead of walking bit-by-bit.
    pub fn advance_top_level_commas(
        &mut self,
        from: u64,
        initial_depth: u64,
        needed: usize,
        entry_carry: ScanCarry,
    ) -> (r: Result<CommaStop, TraverseError>)
        requires
            old(self).wf(),
            entry_carry.wf(),
            initial_depth <= from,
        ensures
            final(self).wf(),
            final(self).window() == old(self).window(),
            commas_passed(
                old(self).window(),
                from,
                Commas { lex: entry_carry@, depth: initial_depth as nat, left: needed as nat },
                0,
                0,
                Seq::empty(),
                Seq::empty(),
                r,
            ),
    {
        let mut out: Vec<(usize, u64)> = Vec::new();
        let r = self.advance_sampling(from, initial_depth, needed, entry_carry, 0, 0, &mut out);
        proof {
            let s = Commas {
                lex: entry_carry@,
                depth: initial_depth as nat,
                left: needed as nat,
            };
            assert forall|doc: Seq<u8>, at: int, n: Commas, index: int| #[trigger]
                doc_marks(doc, at, n, index, 0) =~= Seq::<(usize, u64)>::empty() by {}
            assert(Seq::<(usize, u64)>::empty() + Seq::<(usize, u64)>::empty() =~= Seq::<
                (usize, u64),
            >::empty());
            assert(out@ + Seq::<(usize, u64)>::empty() =~= out@);
        }
        r
    }

    /// [`Self::advance_top_level_commas`] from element `index` on, which also
    /// notes in `out` each element at a multiple of `stride` that it enters, with
    /// the offset just past the comma before it. A `stride` of 0 notes nothing.
    pub fn advance_sampling(
        &mut self,
        from: u64,
        initial_depth: u64,
        needed: usize,
        entry_carry: ScanCarry,
        index: usize,
        stride: usize,
        out: &mut Vec<(usize, u64)>,
    ) -> (r: Result<CommaStop, TraverseError>)
        requires
            old(self).wf(),
            entry_carry.wf(),
            initial_depth <= from,
            index + needed <= usize::MAX,
        ensures
            final(self).wf(),
            final(self).window() == old(self).window(),
            commas_passed(
                old(self).window(),
                from,
                Commas { lex: entry_carry@, depth: initial_depth as nat, left: needed as nat },
                index as int,
                stride as int,
                old(out)@,
                final(out)@,
                r,
            ),
    {
        if needed == 0 {
            return Ok(CommaStop::Found { offset_after_comma: from, consumed: 0 });
        }
        let source_size: u64 = self.source_size();
        let ghost w = self.window();
        let ghost s0 = Commas {
            lex: entry_carry@,
            depth: initial_depth as nat,
            left: needed as nat,
        };
        let mut depth: u64 = initial_depth;
        let mut remaining: usize = needed;
        let mut offset: u64 = from;
        let mut carry: ScanCarry = entry_carry;
        while offset < source_size
            invariant
                self.wf(),
                self.window() == w,
                w == old(self).window(),
                source_size == w.bound(),
                carry.wf(),
                0 < remaining <= needed,
                index + needed <= usize::MAX,
                from <= offset,
                from + (needed - remaining) <= offset,
                depth <= offset,
                s0 == (Commas {
                    lex: entry_carry@,
                    depth: initial_depth as nat,
                    left: needed as nat,
                }),
                offset == from ==> out@ == old(out)@ && carry == entry_carry && depth
                    == initial_depth && remaining == needed,
                forall|doc: Seq<u8>| #[trigger]
                    w.agrees(doc) ==> {
                        let n = Commas {
                            lex: carry@,
                            depth: depth as nat,
                            left: remaining as nat,
                        };
                        &&& comma_answer(doc, offset as int, n) == comma_answer(
                            doc,
                            from as int,
                            s0,
                        )
                        &&& closes_at(doc, offset as int, n.lex, n.depth) == closes_at(
                            doc,
                            from as int,
                            s0.lex,
                            s0.depth,
                        )
                        &&& out@ + doc_marks(
                            doc,
                            offset as int,
                            n,
                            index + needed - remaining,
                            stride as int,
                        ) == old(out)@ + doc_marks(
                            doc,
                            from as int,
                            s0,
                            index as int,
                            stride as int,
                        )
                        &&& w.resident(from as int, least(offset as int, source_size as int))
                    },
            decreases u64::MAX - offset,
        {
            let block: [u8; BLOCK_BYTES] = match self.block_at(offset) {
                Ok(block) => block,
                // First block of this call (no progress yet): propagate the miss so
                // the driver fetches and retries with the caller's state unchanged.
                // After progress, commit the block boundary via `Partial` (carry
                // included) so accumulated comma counts survive the fault - the
                // caller advances to `offset` and the next call faults cleanly on
                // its first block.
                Err(miss) => {
                    if offset == from {
                        return Err(TraverseError::Pending(miss));
                    }
                    assert(w.lacks(offset as int, miss.0));
                    return Ok(
                        CommaStop::Partial {
                            offset,
                            depth,
                            consumed: needed - remaining,
                            carry,
                        },
                    );
                },
            };
            let left: u64 = source_size - offset;
            let ghost valid = least(64, left as int);
            let ghost n = Commas { lex: carry@, depth: depth as nat, left: remaining as nat };
            let ghost at_index = index + needed - remaining;
            let ghost at = offset;
            let ghost before = out@;
            let (stop, next): (BlockCommas, ScanCarry) = commas_in_block(
                &block,
                carry,
                depth,
                remaining,
                offset,
                index + (needed - remaining),
                stride,
                out,
                Ghost(valid),
            );
            let ghost marks = comma_marks(
                block@,
                0,
                valid,
                n,
                at_index,
                stride as int,
                at as int,
            );
            proof {
                lemma_comma_left(block@, 0, valid, n);
            }
            match stop {
                BlockCommas::Found(k) => {
                    proof {
                        assert forall|doc: Seq<u8>| #[trigger] w.agrees(doc) implies {
                            &&& comma_answer(doc, from as int, s0) == CommaAnswer::Found(at + k)
                            &&& out@ == old(out)@ + doc_marks(
                                doc,
                                from as int,
                                s0,
                                index as int,
                                stride as int,
                            )
                            &&& w.resident(from as int, at + k)
                        } by {
                            lemma_comma_block(w, doc, at, block@, n, at_index, stride as int);
                        }
                    }
                    return Ok(
                        CommaStop::Found { offset_after_comma: offset + k, consumed: needed },
                    );
                },
                BlockCommas::Closed(more) => {
                    proof {
                        assert forall|doc: Seq<u8>| #[trigger] w.agrees(doc) implies {
                            &&& comma_answer(doc, from as int, s0) == CommaAnswer::Closed(
                                more as nat,
                            )
                            &&& out@ == old(out)@ + doc_marks(
                                doc,
                                from as int,
                                s0,
                                index as int,
                                stride as int,
                            )
                        } by {
                            lemma_comma_block(w, doc, at, block@, n, at_index, stride as int);
                        }
                    }
                    return Ok(CommaStop::ArrayClosed { consumed: needed - more });
                },
                BlockCommas::Open(d, more) => {
                    depth = d;
                    remaining = more;
                },
            }
            offset = offset.saturating_add(BLOCK_BYTES as u64);
            carry = next;
            proof {
                let m = Commas { lex: carry@, depth: depth as nat, left: remaining as nat };
                assert forall|doc: Seq<u8>| #[trigger] w.agrees(doc) implies {
                    &&& comma_answer(doc, offset as int, m) == comma_answer(doc, from as int, s0)
                    &&& closes_at(doc, offset as int, m.lex, m.depth) == closes_at(
                        doc,
                        from as int,
                        s0.lex,
                        s0.depth,
                    )
                    &&& out@ + doc_marks(
                        doc,
                        offset as int,
                        m,
                        index + needed - remaining,
                        stride as int,
                    ) == old(out)@ + doc_marks(doc, from as int, s0, index as int, stride as int)
                    &&& w.resident(from as int, least(offset as int, source_size as int))
                } by {
                    lemma_comma_block(w, doc, at, block@, n, at_index, stride as int);
                    let rest = doc_marks(
                        doc,
                        offset as int,
                        m,
                        index + needed - remaining,
                        stride as int,
                    );
                    assert((before + marks) + rest =~= before + (marks + rest));
                }
            }
        }
        proof {
            assert forall|doc: Seq<u8>| #[trigger] w.agrees(doc) implies {
                &&& comma_answer(doc, from as int, s0) == CommaAnswer::Eof(offset)
                &&& out@ == old(out)@ + doc_marks(
                    doc,
                    from as int,
                    s0,
                    index as int,
                    stride as int,
                )
            } by {
                assert(offset >= doc.len());
                let n = Commas { lex: carry@, depth: depth as nat, left: remaining as nat };
                assert(doc_marks(
                    doc,
                    offset as int,
                    n,
                    index + needed - remaining,
                    stride as int,
                ) =~= Seq::empty());
                assert(out@ + Seq::<(usize, u64)>::empty() =~= out@);
            }
        }
        Err(TraverseError::UnexpectedEof(offset))
    }
}

} // verus!
