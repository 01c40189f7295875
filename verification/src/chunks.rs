//! Transient chunk I/O: the only source-data storage in the walk.

use std::collections::HashMap;

use bytes::Bytes;
use vstd::prelude::*;
use vstd::std_specs::hash::group_hash_axioms;
use vstd::string::StringExecFns;

use crate::source::{bytes_of, content, copied, is_read_of, ReadOutcome, SourceError};
use crate::text::{decimal, numbered};

verus! {

broadcast use group_hash_axioms;

/// Primitive needed a non-resident chunk; the driver reads the chunk at
/// this offset and retries.
#[derive(Debug, Clone, Copy, PartialEq, Eq, Structural)]
pub struct ChunkMiss(pub u64);

impl ChunkMiss {
    /// The miss in words.
    pub fn message(&self) -> (s: String)
        ensures
            s@ == "chunk at offset "@ + decimal(self.0 as nat) + " not loaded"@,
    {
        numbered("chunk at offset ", self.0, " not loaded")
    }
}

/// What a window holds: the chunk size, the source's size once it is known, and
/// the resident chunks by their offset. `peak` is the largest number of chunks
/// that were resident at once.
#[verifier::ext_equal]
pub struct WindowView {
    pub chunk_bytes: int,
    pub size: Option<u64>,
    pub chunks: Map<u64, Seq<u8>>,
    pub peak: int,
}

/// Offset of the chunk that holds `offset`, for chunks of `cs` bytes.
pub open spec fn chunk_start(cs: int, offset: int) -> int {
    (offset / cs) * cs
}

/// The lesser of two offsets.
pub open spec fn least(a: int, b: int) -> int {
    if a <= b {
        a
    } else {
        b
    }
}

/// `bytes` is the chunk of `doc` at `start`, for chunks of `cs` bytes. The last
/// one may be shorter.
pub open spec fn is_chunk_of(doc: Seq<u8>, cs: int, start: u64, bytes: Seq<u8>) -> bool {
    &&& start as int % cs == 0
    &&& start < doc.len()
    &&& bytes == doc.subrange(start as int, least(start + cs, doc.len() as int))
}

impl WindowView {
    /// Bound of a scan: the known size, or the largest offset while it is not
    /// known, so that loops run until a missing chunk discovers the end.
    pub open spec fn bound(self) -> u64 {
        match self.size {
            Some(n) => n,
            None => u64::MAX,
        }
    }

    /// The window shows `doc`: each resident chunk is the chunk of `doc` at its
    /// offset, and the size, once known, is that of `doc`. While the size is
    /// unknown every resident chunk is full.
    pub open spec fn agrees(self, doc: Seq<u8>) -> bool {
        &&& doc.len() <= u64::MAX
        &&& self.size matches Some(n) ==> n == doc.len()
        &&& forall|k: u64| #[trigger]
            self.chunks.contains_key(k) ==> {
                &&& is_chunk_of(doc, self.chunk_bytes, k, self.chunks[k])
                &&& self.size is None ==> k + self.chunk_bytes <= doc.len()
            }
    }

    /// Every chunk that holds one of the offsets `from..to` is resident.
    pub open spec fn resident(self, from: int, to: int) -> bool {
        from < to ==> forall|k: u64|
            k as int % self.chunk_bytes == 0 && from < k + self.chunk_bytes && k < to
                ==> #[trigger] self.chunks.contains_key(k)
    }

    /// The chunk at `start` is one that a scan from `at` on cannot read: it is
    /// absent, starts inside the source as far as its size is known, and does
    /// not end at or before `at`.
    pub open spec fn lacks(self, at: int, start: u64) -> bool {
        &&& !self.chunks.contains_key(start)
        &&& start as int % self.chunk_bytes == 0
        &&& start < self.bound()
        &&& at < start + self.chunk_bytes
    }

    /// The byte at `offset`, `None` at the end of the data, or the chunk that is
    /// missing.
    pub open spec fn byte_at(self, offset: u64) -> Result<Option<u8>, ChunkMiss> {
        let k = chunk_start(self.chunk_bytes, offset as int) as u64;
        if offset >= self.bound() {
            Ok(None)
        } else if !self.chunks.contains_key(k) {
            Err(ChunkMiss(k))
        } else if offset - k < self.chunks[k].len() {
            Ok(Some(self.chunks[k][offset - k]))
        } else {
            Ok(None)
        }
    }
}

/// The byte of `doc` at `offset`, or `None` past its end.
pub open spec fn doc_byte(doc: Seq<u8>, offset: int) -> Option<u8> {
    if 0 <= offset < doc.len() {
        Some(doc[offset])
    } else {
        None
    }
}

/// Where the document ends, or `from` where that lies past it.
pub open spec fn end_past(doc: Seq<u8>, from: int) -> int {
    if doc.len() >= from {
        doc.len() as int
    } else {
        from
    }
}

/// The first absent chunk does not start past the end of the document.
pub proof fn lemma_miss_inside(w: WindowView, doc: Seq<u8>, from: int, miss: u64)
    requires
        w.agrees(doc),
        w.chunk_bytes > 0,
        0 <= from,
        w.lacks(from, miss),
        w.resident(from, miss as int),
    ensures
        miss <= end_past(doc, from),
{
    let cs = w.chunk_bytes;
    if w.size is None && from < miss {
        vstd::arithmetic::div_mod::lemma_small_mod(0, cs as nat);
        lemma_next_multiple(0, miss as int, cs);
        let k = (miss - cs) as u64;
        vstd::arithmetic::div_mod::lemma_mod_sub_multiples_vanish(miss as int, cs);
        assert(w.chunks.contains_key(k));
    }
}

/// A window that holds a byte holds it as the document does.
pub proof fn law_byte_of_document(w: WindowView, doc: Seq<u8>, offset: u64)
    requires
        w.agrees(doc),
        w.chunk_bytes > 0,
    ensures
        w.byte_at(offset) matches Ok(b) ==> b == doc_byte(doc, offset as int),
        w.byte_at(offset) is Ok && offset < w.bound() ==> offset < doc.len() && w.resident(
            offset as int,
            offset + 1,
        ),
        w.byte_at(offset) matches Err(miss) ==> w.lacks(offset as int, miss.0) && w.resident(
            offset as int,
            miss.0 as int,
        ),
{
    lemma_chunk_start(w.chunk_bytes, offset as int);
    lemma_byte_residency(w, offset);
}

/// Where a byte is found its chunk is resident; where it is not, its chunk
/// lacks.
pub proof fn lemma_byte_residency(w: WindowView, offset: u64)
    requires
        w.chunk_bytes > 0,
    ensures
        w.byte_at(offset) is Ok && offset < w.bound() ==> w.resident(offset as int, offset + 1),
        w.byte_at(offset) matches Err(miss) ==> w.lacks(offset as int, miss.0) && w.resident(
            offset as int,
            miss.0 as int,
        ),
{
    let cs = w.chunk_bytes;
    lemma_chunk_start(cs, offset as int);
    let k0 = chunk_start(cs, offset as int) as u64;
    assert forall|k: u64|
        k as int % cs == 0 && offset < k + cs && k < offset + 1 && w.chunks.contains_key(
            k0,
        ) implies #[trigger] w.chunks.contains_key(k) by {
        lemma_same_chunk(cs, offset as int, k as int);
    }
}

/// The chunk of an offset is the only aligned one around it.
pub proof fn lemma_same_chunk(cs: int, offset: int, k: int)
    requires
        cs > 0,
        0 <= k <= offset < k + cs,
        k % cs == 0,
    ensures
        k == chunk_start(cs, offset),
{
    lemma_chunk_start(cs, offset);
    let c = chunk_start(cs, offset);
    if k < c {
        lemma_next_multiple(k, c, cs);
    } else if c < k {
        lemma_next_multiple(c, k, cs);
    }
}

pub struct ChunkWindow {
    peak_len: usize,
    chunk_bytes: u64,
    source_size: Option<u64>,
    chunks: HashMap<u64, Bytes>,
}

impl View for ChunkWindow {
    type V = WindowView;

    closed spec fn view(&self) -> WindowView {
        WindowView {
            chunk_bytes: self.chunk_bytes as int,
            size: self.source_size,
            chunks: self.chunks@.map_values(|b: Bytes| content(b)),
            peak: self.peak_len as int,
        }
    }
}

impl ChunkWindow {
    /// The window can be asked: chunks are not empty.
    pub open spec fn wf(self) -> bool {
        0 < self@.chunk_bytes <= u64::MAX
    }

    /// Window over a source of known size.
    pub fn new(chunk_bytes: u64, source_size: u64) -> (w: Self)
        requires
            chunk_bytes > 0,
        ensures
            w.wf(),
            w@ == (WindowView {
                chunk_bytes: chunk_bytes as int,
                size: Some(source_size),
                chunks: Map::empty(),
                peak: 0,
            }),
    {
        Self::with_size(chunk_bytes, Some(source_size))
    }

    /// Window over a forward source whose size isn't known until
    /// [`Self::set_source_size`].
    pub fn new_unsized(chunk_bytes: u64) -> (w: Self)
        requires
            chunk_bytes > 0,
        ensures
            w.wf(),
            w@ == (WindowView {
                chunk_bytes: chunk_bytes as int,
                size: None,
                chunks: Map::empty(),
                peak: 0,
            }),
    {
        Self::with_size(chunk_bytes, None)
    }

    /// Window over a source whose size may be known.
    pub fn with_size(chunk_bytes: u64, source_size: Option<u64>) -> (w: Self)
        requires
            chunk_bytes > 0,
        ensures
            w.wf(),
            w@ == (WindowView {
                chunk_bytes: chunk_bytes as int,
                size: source_size,
                chunks: Map::empty(),
                peak: 0,
            }),
    {
        let w = ChunkWindow { peak_len: 0, chunk_bytes, source_size, chunks: HashMap::new() };
        assert(w@.chunks =~= Map::empty());
        w
    }

    /// Source size as a scan bound: the known size, or `u64::MAX` while still
    /// unknown so loops run until a chunk fault discovers the end.
    pub fn source_size(&self) -> (n: u64)
        ensures
            n == self@.bound(),
    {
        match self.source_size {
            Some(n) => n,
            None => u64::MAX,
        }
    }

    /// The known size, or `None` for a forward source whose end isn't found yet.
    pub fn known_size(&self) -> (n: Option<u64>)
        ensures
            n == self@.size,
    {
        self.source_size
    }

    pub fn chunk_bytes(&self) -> (n: u64)
        ensures
            n == self@.chunk_bytes,
    {
        self.chunk_bytes
    }

    /// Record the end discovered from a `read`'s eof. First write wins; a known
    /// size never moves.
    pub fn set_source_size(&mut self, end: u64)
        ensures
            final(self)@ == (WindowView {
                size: Some(
                    match old(self)@.size {
                        Some(n) => n,
                        None => end,
                    },
                ),
                ..old(self)@
            }),
    {
        if self.source_size.is_none() {
            self.source_size = Some(end);
        }
        assert(self@.chunks =~= old(self)@.chunks);
    }

    fn chunk_start_of(&self, offset: u64) -> (start: u64)
        requires
            self.wf(),
        ensures
            start == chunk_start(self@.chunk_bytes, offset as int),
            start <= offset,
    {
        proof {
            lemma_chunk_start(self@.chunk_bytes, offset as int);
        }
        (offset / self.chunk_bytes) * self.chunk_bytes
    }

    pub fn clear(&mut self)
        ensures
            final(self)@ == (WindowView { chunks: Map::empty(), ..old(self)@ }),
    {
        self.chunks.clear();
        assert(self@.chunks =~= Map::empty());
    }

    pub fn insert(&mut self, chunk_start: u64, bytes: Bytes)
        ensures
            final(self)@.chunk_bytes == old(self)@.chunk_bytes,
            final(self)@.size == old(self)@.size,
            final(self)@.chunks == old(self)@.chunks.insert(chunk_start, content(bytes)),
            final(self)@.peak == (if old(self)@.peak >= final(self)@.chunks.len() {
                old(self)@.peak
            } else {
                final(self)@.chunks.len() as int
            }),
    {
        self.chunks.insert(chunk_start, bytes);
        assert(self@.chunks =~= old(self)@.chunks.insert(chunk_start, content(bytes)));
        assert(self@.chunks.dom() =~= self.chunks@.dom());
        let n: usize = self.chunks.len();
        if n > self.peak_len {
            self.peak_len = n;
        }
    }

    /// Drop every chunk below the one containing `min_reachable`. Forward-only
    /// traversal never revisits bytes below the committed position, so this keeps
    /// the window bounded as the scan advances.
    pub fn drop_below(&mut self, min_reachable: u64)
        requires
            old(self).wf(),
        ensures
            final(self)@ == (WindowView {
                chunks: kept_from(
                    old(self)@.chunks,
                    chunk_start(old(self)@.chunk_bytes, min_reachable as int),
                ),
                ..old(self)@
            }),
    {
        let fc: u64 = self.chunk_start_of(min_reachable);
        let mut stale: Vec<u64> = Vec::new();
        let ghost all = self.chunks@;
        let keys = self.chunks.keys();
        let ghost ks = vstd::std_specs::iter::IteratorSpec::remaining(&keys);
        for k in it: keys
            invariant
                it.seq() == ks,
                forall|i: int|
                    0 <= i < it.index() && *(#[trigger] ks[i]) < fc ==> stale@.contains(*ks[i]),
                forall|j: int| 0 <= j < stale@.len() ==> #[trigger] stale@[j] < fc,
        {
            let ghost before = stale@;
            if *k < fc {
                stale.push(*k);
                assert(stale@[before.len() as int] == *k);
                assert forall|x: u64| before.contains(x) implies stale@.contains(x) by {
                    let j = choose|j: int| 0 <= j < before.len() && before[j] == x;
                    assert(stale@[j] == x);
                }
            }
        }
        assert forall|k: u64| all.contains_key(k) && k < fc implies stale@.contains(k) by {
            assert(ks.unref().to_set().contains(k));
            let i = choose|i: int| 0 <= i < ks.unref().len() && ks.unref()[i] == k;
            assert(*ks[i] == k);
        }
        let mut n: usize = 0;
        while n < stale.len()
            invariant
                n <= stale@.len(),
                self.chunk_bytes == old(self).chunk_bytes,
                self.source_size == old(self).source_size,
                self.peak_len == old(self).peak_len,
                all == old(self).chunks@,
                forall|k: u64| #[trigger]
                    self.chunks@.contains_key(k) ==> all.contains_key(k) && self.chunks@[k]
                        == all[k],
                forall|k: u64|
                    all.contains_key(k) && k >= fc ==> #[trigger] self.chunks@.contains_key(k),
                forall|j: int|
                    0 <= j < n ==> !self.chunks@.contains_key(#[trigger] stale@[j]),
                forall|j: int| 0 <= j < stale@.len() ==> #[trigger] stale@[j] < fc,
            decreases stale@.len() - n,
        {
            self.chunks.remove(&stale[n]);
            n = n + 1;
        }
        assert(self@.chunks =~= kept_from(old(self)@.chunks, fc as int)) by {
            assert forall|k: u64| self.chunks@.contains_key(k) implies k >= fc by {
                if k < fc {
                    assert(stale@.contains(k));
                    let j = choose|j: int| 0 <= j < stale@.len() && stale@[j] == k;
                    assert(!self.chunks@.contains_key(stale@[j]));
                }
            }
        }
    }

    /// Resident-chunk count.
    pub fn len(&self) -> (n: usize)
        ensures
            n == self@.chunks.len(),
    {
        assert(self@.chunks.dom() =~= self.chunks@.dom());
        self.chunks.len()
    }

    pub fn is_empty(&self) -> (b: bool)
        ensures
            b == (self@.chunks.len() == 0),
    {
        self.len() == 0
    }

    pub fn contains(&self, chunk_start: u64) -> (b: bool)
        ensures
            b == self@.chunks.contains_key(chunk_start),
    {
        self.chunks.contains_key(&chunk_start)
    }

    /// Bytes of the chunk at chunk-aligned `chunk_start`, or `ChunkMiss` if not
    /// resident.
    pub fn chunk_for(&self, chunk_start: u64) -> (r: Result<&[u8], ChunkMiss>)
        ensures
            match r {
                Ok(data) => self@.chunks.contains_key(chunk_start) && data@
                    == self@.chunks[chunk_start],
                Err(miss) => !self@.chunks.contains_key(chunk_start) && miss == ChunkMiss(
                    chunk_start,
                ),
            },
    {
        match self.chunks.get(&chunk_start) {
            Some(b) => Ok(bytes_of(b)),
            None => Err(ChunkMiss(chunk_start)),
        }
    }

    /// Highest `len()` ever reached, including the transient peak mid-fault before
    /// a prune.
    pub fn peak_len(&self) -> (n: usize)
        ensures
            n == self@.peak,
    {
        self.peak_len
    }
}

/// The chunks at or above `from`.
pub open spec fn kept_from(chunks: Map<u64, Seq<u8>>, from: int) -> Map<u64, Seq<u8>> {
    chunks.restrict(Set::new(|k: u64| k >= from))
}

/// A chunk starts at or below each of its offsets, less than a chunk before it,
/// on a multiple of the chunk size.
pub proof fn lemma_chunk_start(cs: int, offset: int)
    requires
        cs > 0,
        offset >= 0,
    ensures
        0 <= chunk_start(cs, offset) <= offset < chunk_start(cs, offset) + cs,
        chunk_start(cs, offset) % cs == 0,
{
    assert(offset / cs * cs + offset % cs == offset && 0 <= offset % cs < cs && offset / cs >= 0
        && (offset / cs * cs) % cs == 0) by (nonlinear_arith)
        requires
            cs > 0,
            offset >= 0,
    ;
}

pub const MIN_CHUNK_BYTES: usize = 64;

/// Upper bound on a single coalesced read: a larger burst splits into several
/// reads so the transient buffer stays bounded, independent of the burst's chunk
/// count.
pub const MAX_COALESCED_READ_BYTES: usize = 0x40_0000;

#[derive(Debug)]
pub enum ReaderError {
    ByteStream(SourceError),
    InvalidChunkSize(usize),
}

impl ReaderError {
    /// The text of [`ReaderError::message`].
    pub open spec fn spec_message(self) -> Seq<char> {
        match self {
            ReaderError::ByteStream(e) => e.spec_message(),
            ReaderError::InvalidChunkSize(n) =>
                "chunk size must be a non-zero multiple of 64, got "@ + decimal(n as nat) + ""@,
        }
    }

    /// The error in words.
    pub fn message(&self) -> (s: String)
        ensures
            s@ == self.spec_message(),
    {
        match self {
            ReaderError::ByteStream(e) => e.message(),
            ReaderError::InvalidChunkSize(n) => numbered(
                "chunk size must be a non-zero multiple of 64, got ",
                *n as u64,
                "",
            ),
        }
    }
}

/// Plans the reads that bring a run of chunks.
#[derive(Debug, Clone, Copy)]
pub struct ChunkReader {
    chunk_bytes: u64,
}

/// How many bytes one read asks for at most: as many whole chunks as fit in
/// [`MAX_COALESCED_READ_BYTES`], and at least one.
pub open spec fn read_limit(cs: int) -> int {
    if cs <= MAX_COALESCED_READ_BYTES {
        (MAX_COALESCED_READ_BYTES as int / cs) * cs
    } else {
        cs
    }
}

/// `n * cs` bytes past `start`, or the largest offset where that is out of range.
pub open spec fn span_end(start: u64, n: u64, cs: int) -> u64 {
    if start + n * cs <= u64::MAX {
        (start + n * cs) as u64
    } else {
        u64::MAX
    }
}

/// The chunks that a read of `buf` at `base` brings, from `rel` bytes into it,
/// as far as the `asked` bytes reach: one per chunk, in ascending order, each
/// with its offset.
pub open spec fn pieces(buf: Seq<u8>, base: int, rel: int, asked: int, cs: int) -> Seq<
    (u64, Seq<u8>),
>
    decreases
            if rel < asked {
                asked - rel
            } else {
                0
            },
{
    if cs <= 0 || rel >= asked || rel >= buf.len() {
        Seq::empty()
    } else {
        seq![
            ((base + rel) as u64, buf.subrange(rel, least(rel + cs, buf.len() as int))),
        ] + pieces(buf, base, rel + cs, asked, cs)
    }
}

/// The chunks of a burst, each with its offset and its bytes.
pub open spec fn chunk_list(chunks: Seq<(u64, Bytes)>) -> Seq<(u64, Seq<u8>)> {
    chunks.map_values(|c: (u64, Bytes)| (c.0, content(c.1)))
}

/// What a burst of reads of the bytes `cur..to` brings from a source that holds
/// `doc`: its chunks, read by read, and the end of the source where a read meets it.
pub open spec fn burst_of(doc: Seq<u8>, cs: int, cur: int, to: int) -> (
    Seq<(u64, Seq<u8>)>,
    Option<u64>,
)
    decreases to - cur,
{
    let asked = least(read_limit(cs), to - cur);
    let end = least(cur + asked, doc.len() as int);
    let got = pieces(doc.subrange(cur, end), cur, 0, asked, cs);
    if cur >= to || asked <= 0 {
        (Seq::empty(), None)
    } else if end == doc.len() {
        (got, Some(end as u64))
    } else {
        let (rest, found) = burst_of(doc, cs, cur + asked, to);
        (got + rest, found)
    }
}

/// A burst of reads under way: where the next read starts, where the burst ends,
/// the chunks that came so far, and the end of the source once a read met it.
pub struct BurstRead {
    chunk_bytes: u64,
    cur: u64,
    span_end: u64,
    chunks: Vec<(u64, Bytes)>,
    discovered_end: Option<u64>,
}

impl ChunkReader {
    pub closed spec fn spec_chunk_bytes(&self) -> int {
        self.chunk_bytes as int
    }

    /// Chunks are a non-zero multiple of 64 bytes.
    pub open spec fn wf(self) -> bool {
        &&& 0 < self.spec_chunk_bytes() <= usize::MAX
        &&& self.spec_chunk_bytes() % 64 == 0
    }

    /// A reader of chunks of `chunk_bytes`, refused unless that is a non-zero
    /// multiple of 64.
    pub fn new(chunk_bytes: usize) -> (r: Result<Self, ReaderError>)
        ensures
            match r {
                Ok(reader) => chunk_bytes != 0 && chunk_bytes % 64 == 0 && reader.wf()
                    && reader.spec_chunk_bytes() == chunk_bytes,
                Err(e) => (chunk_bytes == 0 || chunk_bytes % 64 != 0) && e
                    == ReaderError::InvalidChunkSize(chunk_bytes),
            },
    {
        if chunk_bytes == 0 || chunk_bytes % MIN_CHUNK_BYTES != 0 {
            return Err(ReaderError::InvalidChunkSize(chunk_bytes));
        }
        Ok(ChunkReader { chunk_bytes: chunk_bytes as u64 })
    }

    pub fn chunk_bytes(&self) -> (n: u64)
        ensures
            n == self.spec_chunk_bytes(),
    {
        self.chunk_bytes
    }

    /// Begin reading `n` chunks from chunk-aligned `start` (ascending), coalescing
    /// contiguous chunks into reads of at most [`MAX_COALESCED_READ_BYTES`] and
    /// splitting each back into per-chunk `Bytes` so dropping one frees its bytes
    /// without retaining the whole coalesced buffer. The final chunk may be a
    /// partial tail.
    ///
    /// `n` bounds the request, the source's `eof` bounds reality - so no size
    /// clamp is needed (a sized source clamps its own reads). When a read reports
    /// eof, [`BurstRead::finish`] gives the discovered end-of-source offset.
    pub fn read_chunks(&self, start: u64, n: u64) -> (b: BurstRead)
        requires
            self.wf(),
        ensures
            b.wf(),
            b.spec_chunk_bytes() == self.spec_chunk_bytes(),
            b.cur() == start,
            b.span_end() == span_end(start, n, self.spec_chunk_bytes()),
            b.chunks() == Seq::<(u64, Seq<u8>)>::empty(),
            b.end() is None,
    {
        let cs: u64 = self.chunk_bytes;
        proof {
            assert(n * cs >= 0) by (nonlinear_arith)
                requires
                    n >= 0,
                    cs >= 0,
            ;
        }
        let span_end: u64 = match n.checked_mul(cs) {
            Some(span) => start.saturating_add(span),
            None => u64::MAX,
        };
        let b = BurstRead {
            chunk_bytes: cs,
            cur: start,
            span_end,
            chunks: Vec::new(),
            discovered_end: None,
        };
        assert(b.chunks() =~= Seq::<(u64, Seq<u8>)>::empty());
        b
    }
}

impl BurstRead {
    pub closed spec fn spec_chunk_bytes(&self) -> int {
        self.chunk_bytes as int
    }

    /// Where the next read starts.
    pub closed spec fn cur(&self) -> u64 {
        self.cur
    }

    /// Where the burst ends.
    pub closed spec fn span_end(&self) -> u64 {
        self.span_end
    }

    /// The chunks that came so far.
    pub closed spec fn chunks(&self) -> Seq<(u64, Seq<u8>)> {
        chunk_list(self.chunks@)
    }

    /// The end of the source, once a read met it.
    pub closed spec fn end(&self) -> Option<u64> {
        self.discovered_end
    }

    pub open spec fn wf(self) -> bool {
        &&& 0 < self.spec_chunk_bytes() <= usize::MAX
        &&& self.spec_chunk_bytes() % 64 == 0
    }

    /// What the burst comes to over a source that holds `doc`.
    pub open spec fn comes_to(self, doc: Seq<u8>) -> (Seq<(u64, Seq<u8>)>, Option<u64>) {
        if self.end() is Some {
            (self.chunks(), self.end())
        } else {
            let (rest, end) = burst_of(
                doc,
                self.spec_chunk_bytes(),
                self.cur() as int,
                self.span_end() as int,
            );
            (self.chunks() + rest, end)
        }
    }

    /// How many bytes the next read asks for.
    pub open spec fn asked(self) -> int {
        least(read_limit(self.spec_chunk_bytes()), self.span_end() - self.cur())
    }

    /// The next read, as an offset and a length, or `None` once the burst is
    /// done: all of it was read, or a read met the end of the source.
    pub fn next_request(&self) -> (r: Option<(u64, usize)>)
        requires
            self.wf(),
        ensures
            r is None <==> self.end() is Some || self.cur() >= self.span_end(),
            r matches Some((offset, length)) ==> offset == self.cur() && length == self.asked()
                && 0 < length && (length <= MAX_COALESCED_READ_BYTES || length
                <= self.spec_chunk_bytes()),
    {
        if self.discovered_end.is_some() || self.cur >= self.span_end {
            return None;
        }
        Some((self.cur, self.request_length()))
    }

    fn request_length(&self) -> (length: usize)
        requires
            self.wf(),
            self.cur() < self.span_end(),
        ensures
            length == self.asked(),
            0 < length,
            length <= MAX_COALESCED_READ_BYTES || length <= self.spec_chunk_bytes(),
    {
        let cs: u64 = self.chunk_bytes;
        let max: u64 = MAX_COALESCED_READ_BYTES as u64;
        let limit: u64 = if cs <= max {
            proof {
                assert(max as int / cs as int * cs as int <= max && max as int / cs as int * cs as int
                    >= cs) by (nonlinear_arith)
                    requires
                        0 < cs <= max,
                ;
            }
            (max / cs) * cs
        } else {
            cs
        };
        let left: u64 = self.span_end - self.cur;
        let length: u64 = if limit <= left {
            limit
        } else {
            left
        };
        length as usize
    }

    /// Take what the read of [`Self::next_request`] brought: split it into
    /// chunks, note the end if it was met, and move on.
    pub fn absorb(&mut self, outcome: ReadOutcome)
        requires
            old(self).wf(),
            old(self).cur() < old(self).span_end(),
        ensures
            final(self).wf(),
            final(self).spec_chunk_bytes() == old(self).spec_chunk_bytes(),
            final(self).span_end() == old(self).span_end(),
            final(self).cur() == old(self).cur() + old(self).asked(),
            final(self).chunks() == old(self).chunks() + pieces(
                content(outcome.bytes),
                old(self).cur() as int,
                0,
                old(self).asked(),
                old(self).spec_chunk_bytes(),
            ),
            final(self).end() == (if outcome.eof {
                Some(least(old(self).cur() + content(outcome.bytes).len(), u64::MAX as int) as u64)
            } else {
                old(self).end()
            }),
            forall|doc: Seq<u8>|
                old(self).end() is None && old(self).cur() <= doc.len() <= u64::MAX && #[trigger]
                    is_read_of(
                    doc,
                    old(self).cur(),
                    old(self).asked() as usize,
                    Ok(outcome),
                ) ==> final(self).comes_to(doc) == old(self).comes_to(doc),
    {
        let asked: usize = self.request_length();
        let buf: &[u8] = bytes_of(&outcome.bytes);
        let cs: usize = self.chunk_bytes as usize;
        let mut rel: usize = 0;
        let mut more: bool = true;
        while more && rel < asked && rel < buf.len()
            invariant
                self.chunk_bytes == old(self).chunk_bytes,
                self.cur == old(self).cur,
                self.span_end == old(self).span_end,
                self.discovered_end == old(self).discovered_end,
                self.wf(),
                cs == self.chunk_bytes,
                cs > 0,
                buf@ == content(outcome.bytes),
                asked == old(self).asked(),
                asked <= old(self).span_end - old(self).cur,
                chunk_list(self.chunks@) + (if more {
                    pieces(buf@, self.cur as int, rel as int, asked as int, cs as int)
                } else {
                    Seq::empty()
                }) == chunk_list(old(self).chunks@) + pieces(
                    buf@,
                    self.cur as int,
                    0,
                    asked as int,
                    cs as int,
                ),
            decreases
                    if more {
                        buf@.len() - rel + 1
                    } else {
                        0
                    },
        {
            let ghost before = self.chunks@;
            let ghost all = pieces(buf@, self.cur as int, rel as int, asked as int, cs as int);
            let end: usize = if cs <= buf.len() - rel {
                rel + cs
            } else {
                buf.len()
            };
            let piece: Bytes = copied(&buf[rel..end]);
            let off: u64 = self.cur + rel as u64;
            self.chunks.push((off, piece));
            proof {
                let head = (off, buf@.subrange(rel as int, end as int));
                assert(chunk_list(self.chunks@) =~= chunk_list(before).push(head));
                assert(all == seq![head] + pieces(
                    buf@,
                    self.cur as int,
                    rel + cs,
                    asked as int,
                    cs as int,
                ));
                assert(chunk_list(before) + all =~= chunk_list(self.chunks@) + pieces(
                    buf@,
                    self.cur as int,
                    rel + cs,
                    asked as int,
                    cs as int,
                ));
            }
            if cs <= buf.len() - rel {
                rel = rel + cs;
            } else {
                more = false;
            }
            assert(chunk_list(self.chunks@) + Seq::empty() =~= chunk_list(self.chunks@));
        }
        assert(chunk_list(self.chunks@) + Seq::empty() =~= chunk_list(self.chunks@));
        if outcome.eof {
            self.discovered_end = Some(self.cur.saturating_add(buf.len() as u64));
        }
        self.cur = self.cur + asked as u64;
        assert forall|doc: Seq<u8>|
            old(self).end() is None && old(self).cur() <= doc.len() <= u64::MAX && #[trigger]
                is_read_of(
                doc,
                old(self).cur(),
                old(self).asked() as usize,
                Ok(outcome),
            ) implies self.comes_to(doc) == old(self).comes_to(doc) by {
            let was = *old(self);
            let end = least(was.cur() + was.asked(), doc.len() as int);
            let got = pieces(
                doc.subrange(was.cur() as int, end),
                was.cur() as int,
                0,
                was.asked(),
                was.spec_chunk_bytes(),
            );
            assert(self.chunks() == was.chunks() + got);
            if end < doc.len() {
                let (rest, found) = burst_of(
                    doc,
                    was.spec_chunk_bytes(),
                    self.cur() as int,
                    was.span_end() as int,
                );
                assert(was.chunks() + (got + rest) =~= self.chunks() + rest);
            }
        }
    }

    /// The chunks of the burst, and the end of the source where a read met it.
    pub fn finish(self) -> (r: (Vec<(u64, Bytes)>, Option<u64>))
        ensures
            chunk_list(r.0@) == self.chunks(),
            r.1 == self.end(),
            self.end() is Some || self.cur() >= self.span_end() ==> forall|doc: Seq<u8>|
                #[trigger] self.comes_to(doc) == (chunk_list(r.0@), r.1),
    {
        assert(self.chunks() + Seq::empty() =~= self.chunks());
        (self.chunks, self.discovered_end)
    }
}

/// A chunk that arrives as it stands in the document keeps the window in
/// agreement with it.
pub proof fn law_insert_agrees(w: WindowView, doc: Seq<u8>, start: u64, bytes: Seq<u8>)
    requires
        w.agrees(doc),
        is_chunk_of(doc, w.chunk_bytes, start, bytes),
        w.size is None ==> start + w.chunk_bytes <= doc.len(),
    ensures
        (WindowView { chunks: w.chunks.insert(start, bytes), ..w }).agrees(doc),
{
}

/// Dropping chunks, few or all, never changes which document a window shows.
pub proof fn law_drop_agrees(w: WindowView, doc: Seq<u8>, from: int)
    requires
        w.agrees(doc),
    ensures
        (WindowView { chunks: kept_from(w.chunks, from), ..w }).agrees(doc),
        (WindowView { chunks: Map::empty(), ..w }).agrees(doc),
{
}

/// Dropping below an offset keeps every chunk that a read at or above the offset
/// needs.
pub proof fn law_drop_keeps_reachable(w: WindowView, min_reachable: u64, offset: u64, k: u64)
    requires
        w.chunk_bytes > 0,
        min_reachable <= offset,
        k == chunk_start(w.chunk_bytes, offset as int),
        w.chunks.contains_key(k),
    ensures
        kept_from(
            w.chunks,
            chunk_start(w.chunk_bytes, min_reachable as int),
        ).contains_key(k),
        kept_from(w.chunks, chunk_start(w.chunk_bytes, min_reachable as int))[k] == w.chunks[k],
{
    let cs = w.chunk_bytes;
    assert(min_reachable as int / cs * cs <= offset as int / cs * cs) by {
        vstd::arithmetic::div_mod::lemma_div_is_ordered(min_reachable as int, offset as int, cs);
        vstd::arithmetic::mul::lemma_mul_inequality(
            min_reachable as int / cs,
            offset as int / cs,
            cs,
        );
    }
}

/// A read that brought the document's own bytes splits into the document's own
/// chunks, so none of them can put the window out of agreement. Where the read
/// was not cut short, each of them is full.
pub proof fn law_pieces_are_chunks(
    doc: Seq<u8>,
    cs: int,
    base: u64,
    asked: int,
    rel: int,
    i: int,
)
    requires
        cs > 0,
        0 <= rel,
        rel % cs == 0,
        base as int % cs == 0,
        base + asked <= u64::MAX,
        base <= doc.len() <= u64::MAX,
        0 <= i < pieces(
            doc.subrange(base as int, least(base + asked, doc.len() as int)),
            base as int,
            rel,
            asked,
            cs,
        ).len(),
        0 <= asked,
        asked % cs == 0 || doc.len() <= base + asked,
    ensures
        ({
            let buf = doc.subrange(base as int, least(base + asked, doc.len() as int));
            let piece = pieces(buf, base as int, rel, asked, cs)[i];
            &&& is_chunk_of(doc, cs, piece.0, piece.1)
            &&& buf.len() == asked && asked % cs == 0 ==> piece.0 + cs <= doc.len()
        }),
    decreases i,
{
    let buf = doc.subrange(base as int, least(base + asked, doc.len() as int));
    let tail = pieces(buf, base as int, rel + cs, asked, cs);
    if i == 0 {
        let end = least(rel + cs, buf.len() as int);
        vstd::arithmetic::div_mod::lemma_mod_adds(base as int, rel, cs);
        lemma_multiples(base as int, rel, cs);
        if asked % cs == 0 {
            lemma_next_multiple(rel, asked, cs);
        }
        assert(buf.subrange(rel, end) =~= doc.subrange(
            base + rel,
            least(base + rel + cs, doc.len() as int),
        ));
    } else {
        lemma_multiples(rel, cs, cs);
        assert(pieces(buf, base as int, rel, asked, cs)[i] == tail[i - 1]);
        law_pieces_are_chunks(doc, cs, base, asked, rel + cs, i - 1);
    }
}

/// A burst over a source that holds a document brings chunks of the document, the
/// one it starts at first, and the end that it finds is the document's. A burst that
/// does not meet the end brings whole chunks alone.
pub proof fn law_bursts_bring_the_document(doc: Seq<u8>, cs: int, cur: u64, to: u64)
    requires
        cs > 0,
        cur as int % cs == 0,
        to as int % cs == 0 || doc.len() <= to,
        cur <= doc.len() <= u64::MAX,
    ensures
        ({
            let (list, end) = burst_of(doc, cs, cur as int, to as int);
            &&& forall|i: int|
                0 <= i < list.len() ==> is_chunk_of(doc, cs, (#[trigger] list[i]).0, list[i].1)
            &&& end matches Some(n) ==> n == doc.len()
            &&& end is None ==> forall|i: int|
                0 <= i < list.len() ==> (#[trigger] list[i]).0 + cs <= doc.len()
            &&& cur < to && cur < doc.len() ==> list.len() > 0 && list[0].0 == cur
            &&& cur < to && cur == doc.len() ==> end is Some
        }),
    decreases to - cur,
{
    let asked = least(read_limit(cs), to - cur);
    let end = least(cur + asked, doc.len() as int);
    let buf = doc.subrange(cur as int, end);
    let got = pieces(buf, cur as int, 0, asked, cs);
    if cur < to {
        lemma_read_limit(cs);
        vstd::arithmetic::div_mod::lemma_sub_mod_noop(to as int, cur as int, cs);
        vstd::arithmetic::div_mod::lemma_small_mod(0, cs as nat);
        assert(asked % cs == 0 || doc.len() <= cur + asked);
        assert forall|i: int| 0 <= i < got.len() implies is_chunk_of(
            doc,
            cs,
            (#[trigger] got[i]).0,
            got[i].1,
        ) && (end < doc.len() ==> got[i].0 + cs <= doc.len()) by {
            law_pieces_are_chunks(doc, cs, cur, asked, 0, i);
        }
        if end < doc.len() {
            lemma_multiples(cur as int, asked, cs);
            law_bursts_bring_the_document(doc, cs, (cur + asked) as u64, to);
            let (rest, found) = burst_of(doc, cs, cur + asked, to as int);
            let list = got + rest;
            assert(burst_of(doc, cs, cur as int, to as int) == (list, found));
            assert forall|i: int| 0 <= i < list.len() implies is_chunk_of(
                doc,
                cs,
                (#[trigger] list[i]).0,
                list[i].1,
            ) && (found is None ==> list[i].0 + cs <= doc.len()) by {
                if i < got.len() {
                    assert(list[i] == got[i]);
                } else {
                    assert(list[i] == rest[i - got.len()]);
                }
            }
        }
    }
}

/// A burst brings every chunk of the document that starts among the bytes that it
/// reads.
pub proof fn law_bursts_leave_no_gap(doc: Seq<u8>, cs: int, cur: u64, to: u64, k: u64)
    requires
        cs > 0,
        cur as int % cs == 0,
        k as int % cs == 0,
        cur <= k < to,
        k < doc.len() <= u64::MAX,
    ensures
        exists|i: int|
            0 <= i < burst_of(doc, cs, cur as int, to as int).0.len() && (#[trigger] burst_of(
                doc,
                cs,
                cur as int,
                to as int,
            ).0[i]).0 == k,
    decreases to - cur,
{
    let asked = least(read_limit(cs), to - cur);
    let end = least(cur + asked, doc.len() as int);
    let buf = doc.subrange(cur as int, end);
    let got = pieces(buf, cur as int, 0, asked, cs);
    let list = burst_of(doc, cs, cur as int, to as int).0;
    lemma_read_limit(cs);
    if k < cur + asked {
        vstd::arithmetic::div_mod::lemma_sub_mod_noop(k as int, cur as int, cs);
        vstd::arithmetic::div_mod::lemma_small_mod(0, cs as nat);
        lemma_pieces_reach(buf, cur as int, 0, asked, cs, k - cur);
        let i = choose|i: int| 0 <= i < got.len() && (#[trigger] got[i]).0 == k;
        assert(list[i] == got[i]);
    } else {
        lemma_multiples(cur as int, asked, cs);
        law_bursts_leave_no_gap(doc, cs, (cur + asked) as u64, to, k);
        let rest = burst_of(doc, cs, cur + asked, to as int).0;
        let i = choose|i: int| 0 <= i < rest.len() && (#[trigger] rest[i]).0 == k;
        assert(list == got + rest);
        assert(list[got.len() + i] == rest[i]);
    }
}

proof fn lemma_pieces_reach(buf: Seq<u8>, base: int, rel: int, asked: int, cs: int, at: int)
    requires
        cs > 0,
        0 <= base,
        0 <= rel <= at,
        rel % cs == 0,
        at % cs == 0,
        at < asked,
        at < buf.len(),
        base + asked <= u64::MAX,
    ensures
        exists|i: int|
            0 <= i < pieces(buf, base, rel, asked, cs).len() && (#[trigger] pieces(
                buf,
                base,
                rel,
                asked,
                cs,
            )[i]).0 == base + at,
    decreases asked - rel,
{
    let all = pieces(buf, base, rel, asked, cs);
    if rel == at {
        assert(all[0].0 == base + at);
    } else {
        let tail = pieces(buf, base, rel + cs, asked, cs);
        lemma_next_multiple(rel, at, cs);
        lemma_multiples(rel, cs, cs);
        lemma_pieces_reach(buf, base, rel + cs, asked, cs, at);
        let i = choose|i: int| 0 <= i < tail.len() && (#[trigger] tail[i]).0 == base + at;
        assert(all[i + 1] == tail[i]);
    }
}

/// A burst brings no chunk outside the bytes that it reads.
pub proof fn law_burst_stays_inside(doc: Seq<u8>, cs: int, cur: u64, to: u64)
    requires
        cs > 0,
        cur <= doc.len(),
    ensures
        forall|i: int|
            0 <= i < burst_of(doc, cs, cur as int, to as int).0.len() ==> cur <= (#[trigger] burst_of(
                doc,
                cs,
                cur as int,
                to as int,
            ).0[i]).0 < to,
    decreases to - cur,
{
    let asked = least(read_limit(cs), to - cur);
    let end = least(cur + asked, doc.len() as int);
    let got = pieces(doc.subrange(cur as int, end), cur as int, 0, asked, cs);
    if cur < to {
        lemma_read_limit(cs);
        lemma_pieces_inside(doc.subrange(cur as int, end), cur as int, 0, asked, cs);
        if end < doc.len() {
            law_burst_stays_inside(doc, cs, (cur + asked) as u64, to);
            let rest = burst_of(doc, cs, cur + asked, to as int).0;
            let list = got + rest;
            assert forall|i: int| 0 <= i < list.len() implies cur <= (#[trigger] list[i]).0 < to by {
                if i < got.len() {
                    assert(list[i] == got[i]);
                } else {
                    assert(list[i] == rest[i - got.len()]);
                }
            }
        }
    }
}

proof fn lemma_pieces_inside(buf: Seq<u8>, base: int, rel: int, asked: int, cs: int)
    requires
        0 <= base,
        0 <= rel,
        base + asked <= u64::MAX,
    ensures
        forall|i: int|
            0 <= i < pieces(buf, base, rel, asked, cs).len() ==> base <= (#[trigger] pieces(
                buf,
                base,
                rel,
                asked,
                cs,
            )[i]).0 < base + asked,
    decreases
            if rel < asked {
                asked - rel
            } else {
                0
            },
{
    if cs > 0 && rel < asked && rel < buf.len() {
        let tail = pieces(buf, base, rel + cs, asked, cs);
        lemma_pieces_inside(buf, base, rel + cs, asked, cs);
        assert forall|i: int| 0 <= i < pieces(buf, base, rel, asked, cs).len() implies base <= (
        #[trigger] pieces(buf, base, rel, asked, cs)[i]).0 < base + asked by {
            if i > 0 {
                assert(pieces(buf, base, rel, asked, cs)[i] == tail[i - 1]);
            }
        }
    }
}

/// A read asks for whole chunks.
proof fn lemma_read_limit(cs: int)
    requires
        cs > 0,
    ensures
        read_limit(cs) >= cs,
        read_limit(cs) % cs == 0,
{
    vstd::arithmetic::div_mod::lemma_mod_self_0(cs);
    if cs <= MAX_COALESCED_READ_BYTES {
        let max = MAX_COALESCED_READ_BYTES as int;
        vstd::arithmetic::div_mod::lemma_mod_multiples_basic(max / cs, cs);
        vstd::arithmetic::div_mod::lemma_div_non_zero(max, cs);
        assert((max / cs) * cs >= cs) by (nonlinear_arith)
            requires
                max / cs >= 1,
                cs > 0,
        ;
    }
}

proof fn lemma_multiples(a: int, b: int, cs: int)
    requires
        cs > 0,
        a % cs == 0,
        b % cs == 0 || b == cs,
    ensures
        (a + b) % cs == 0,
{
    vstd::arithmetic::div_mod::lemma_mod_self_0(cs);
    vstd::arithmetic::div_mod::lemma_add_mod_noop(a, b, cs);
    vstd::arithmetic::div_mod::lemma_small_mod(0, cs as nat);
}

/// Two multiples are at least one step apart.
pub proof fn lemma_next_multiple(a: int, b: int, cs: int)
    requires
        cs > 0,
        a % cs == 0,
        b % cs == 0,
        a < b,
    ensures
        a + cs <= b,
{
    vstd::arithmetic::div_mod::lemma_fundamental_div_mod(a, cs);
    vstd::arithmetic::div_mod::lemma_fundamental_div_mod(b, cs);
    let x = a / cs;
    let y = b / cs;
    assert(x < y) by (nonlinear_arith)
        requires
            cs > 0,
            a == cs * x,
            b == cs * y,
            a < b,
    ;
    assert(cs * (x + 1) <= cs * y) by (nonlinear_arith)
        requires
            cs > 0,
            x + 1 <= y,
    ;
    assert(cs * (x + 1) == cs * x + cs) by (nonlinear_arith);
}

} // verus!
