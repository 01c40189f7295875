//! A session glues the walker to the source: it plans the reads, keeps the
//! structural index, and turns a query into restartable steps over a window.
//!
//! A query is stepped against the chunks that its [`ChunkWindow`] holds. A step
//! that meets an absent chunk ends in [`TraverseError::Pending`]; whoever drives it
//! reads a burst of chunks, hands them to [`absorb`], and steps again. The window is
//! owned by the query or the stream and is dropped or pruned to the scan position
//! as the walk advances, so resident source memory stays bounded by the burst
//! window regardless of document size: a container that is counted, an array whose
//! elements are counted, and a string or a container that is measured never take up
//! more than the last burst and one chunk. What is gone through in one piece is held
//! besides: the value that is read out, and a member or a number that is passed over.

use bytes::Bytes;
use vstd::prelude::*;
use vstd::string::StringExecFns;

use crate::cache::{
    lemma_hopped_keeps_config, lemma_record_keeps_config, lookup, IndexView, KeyView,
    StructuralIndex,
};
use crate::chunks::{
    burst_of, chunk_list, chunk_start, is_chunk_of, kept_from, law_burst_stays_inside,
    law_bursts_bring_the_document, law_bursts_leave_no_gap, span_end, ChunkMiss, ChunkReader,
    ChunkWindow, ReaderError, WindowView,
};
use crate::count::{count_stepped, CountState};
use crate::path::{steps, Segment, Step};
use crate::resolve::{
    resolve_stepped, ContainerKind, ContainerNotes, PathFault, ResolveState, ResolveView,
    ResumePoint, ValueLocation,
};
use crate::select::SelectError;
use crate::soundness::seeded_query;
use crate::source::content;
use crate::walker::{value_skipped, SkipState, TraverseError};

verus! {

/// Default `indexCacheEntries`: one slot per node + one per tabled member. `0`
/// disables.
pub const DEFAULT_INDEX_CACHE_ENTRIES: usize = 1024;

/// Default `objectMemberCap`: unbounded.
pub const DEFAULT_OBJECT_MEMBER_CAP: usize = usize::MAX;

/// Default `arrayIndexInterval`: array-member element stride.
pub const DEFAULT_ARRAY_INDEX_INTERVAL: usize = 16;

#[derive(Debug)]
pub enum SessionError {
    Traverse(TraverseError),
    Reader(ReaderError),
    Path(PathFault),
    Select(SelectError),
}

impl SessionError {
    /// The text of [`SessionError::message`].
    pub open spec fn spec_message(self) -> Seq<char> {
        match self {
            SessionError::Traverse(e) => "traversal error: "@ + e.spec_message(),
            SessionError::Reader(e) => e.spec_message(),
            SessionError::Path(fault) => fault.spec_code(),
            SessionError::Select(e) => e.spec_message(),
        }
    }

    /// The error in words.
    pub fn message(&self) -> (s: String)
        ensures
            s@ == self.spec_message(),
    {
        match self {
            SessionError::Traverse(e) => {
                let mut s: String = String::new();
                s.append("traversal error: ");
                s.append(e.message().as_str());
                assert(s@ =~= self.spec_message());
                s
            },
            SessionError::Reader(e) => e.message(),
            SessionError::Path(fault) => fault.code(),
            SessionError::Select(e) => e.message(),
        }
    }
}

// ---- how much to read

/// Cap on the adaptive doubling burst. Doubling (1, 2, 4, ..., capped here) lets
/// short queries avoid over-fetch and long ones converge to few reads. Also the
/// dominant bound on resident source memory: the window holds at most ~one burst
/// between prunes.
pub const MAX_BURST: u64 = 256;

/// Adaptive doubling burst for scans that don't know the value's extent up front.
#[derive(Debug, Clone, Copy, PartialEq, Eq, Structural)]
pub struct DoublingBurst {
    next: u64,
}

/// The size of the burst after one of `n` chunks.
pub open spec fn doubled(n: u64) -> u64 {
    if 2 * n <= MAX_BURST {
        (2 * n) as u64
    } else {
        MAX_BURST
    }
}

/// The size of the `k`th burst, counting from 0.
pub open spec fn burst_schedule(k: nat) -> u64
    decreases k,
{
    if k == 0 {
        1
    } else {
        doubled(burst_schedule((k - 1) as nat))
    }
}

impl DoublingBurst {
    /// The size of the next burst.
    pub closed spec fn upcoming(self) -> u64 {
        self.next
    }

    /// A burst is neither empty nor larger than the cap.
    #[verifier::type_invariant]
    spec fn within_cap(self) -> bool {
        1 <= self.next <= MAX_BURST
    }

    /// How many chunks to read now.
    pub fn size(&mut self, _offset: u64) -> (n: u64)
        ensures
            n == old(self).upcoming(),
            1 <= n <= MAX_BURST,
            final(self).upcoming() == doubled(old(self).upcoming()),
    {
        proof {
            use_type_invariant(&*self);
        }
        let n: u64 = self.next;
        self.next = if n <= MAX_BURST / 2 {
            2 * n
        } else {
            MAX_BURST
        };
        n
    }
}

pub fn doubling_burst() -> (b: DoublingBurst)
    ensures
        b.upcoming() == burst_schedule(0),
{
    DoublingBurst { next: 1 }
}

/// The bursts double from 1 up to the cap, and stay there.
pub proof fn law_bursts_double_up_to_the_cap(k: nat)
    ensures
        burst_schedule(k) == (if k <= 8 {
            vstd::arithmetic::power2::pow2(k) as u64
        } else {
            MAX_BURST
        }),
        k >= 8 ==> burst_schedule(k) == MAX_BURST,
    decreases k,
{
    vstd::arithmetic::power2::lemma2_to64();
    if k > 0 {
        law_bursts_double_up_to_the_cap((k - 1) as nat);
        if k <= 8 {
            vstd::arithmetic::power2::lemma_pow2_unfold(k);
        }
    }
}

/// How many chunks cover the bytes `from..to`, one at least.
pub open spec fn chunks_to_cover(from: u64, to: u64, cs: int) -> u64 {
    if from >= to {
        1
    } else {
        ((to - from + cs - 1) / cs) as u64
    }
}

/// How many chunks to read for a range up to `to` of which the chunk at `off` is
/// missing: the rest of it in one shot.
pub fn range_burst(off: u64, to: u64, chunk_bytes: u64) -> (n: u64)
    requires
        chunk_bytes > 0,
    ensures
        n == chunks_to_cover(off, to, chunk_bytes as int),
        n >= 1,
{
    let left: u64 = to.saturating_sub(off);
    if left == 0 {
        return 1;
    }
    let whole: u64 = left / chunk_bytes;
    let rest: u64 = left % chunk_bytes;
    proof {
        let l = left as int;
        let c = chunk_bytes as int;
        let w = whole as int;
        vstd::arithmetic::div_mod::lemma_fundamental_div_mod(l, c);
        assert(c * w == w * c) by (nonlinear_arith);
        if rest == 0 {
            vstd::arithmetic::div_mod::lemma_fundamental_div_mod_converse(l + c - 1, c, w, c - 1);
            assert(w >= 1) by (nonlinear_arith)
                requires
                    w * c > 0,
                    c > 0,
            ;
        } else {
            assert((w + 1) * c == w * c + c) by (nonlinear_arith);
            vstd::arithmetic::div_mod::lemma_fundamental_div_mod_converse(
                l + c - 1,
                c,
                w + 1,
                rest - 1,
            );
            assert(w <= w * c) by (nonlinear_arith)
                requires
                    w >= 0,
                    c >= 1,
            ;
        }
    }
    if rest == 0 {
        whole
    } else {
        whole + 1
    }
}

// ---- taking in what was read

/// A window with one chunk more.
pub open spec fn with_chunk(w: WindowView, start: u64, bytes: Seq<u8>) -> WindowView {
    let chunks = w.chunks.insert(start, bytes);
    WindowView {
        chunks,
        peak: if w.peak >= chunks.len() {
            w.peak
        } else {
            chunks.len() as int
        },
        ..w
    }
}

/// A window with the chunks of a list, put in one after the other.
pub open spec fn with_chunks(w: WindowView, list: Seq<(u64, Seq<u8>)>) -> WindowView
    decreases list.len(),
{
    if list.len() == 0 {
        w
    } else {
        let rest = with_chunks(w, list.drop_last());
        with_chunk(rest, list.last().0, list.last().1)
    }
}

/// A window whose size is known once `end` is. A known size never moves.
pub open spec fn with_end(w: WindowView, end: Option<u64>) -> WindowView {
    WindowView {
        size: match w.size {
            Some(n) => Some(n),
            None => end,
        },
        ..w
    }
}

/// A window without the chunks below the one that holds `keep_from`.
pub open spec fn pruned(w: WindowView, keep_from: u64) -> WindowView {
    WindowView {
        chunks: kept_from(w.chunks, chunk_start(w.chunk_bytes, keep_from as int)),
        ..w
    }
}

/// Take in the chunks that a burst brought, and the end of the source if the burst
/// found it; then drop everything below `keep_from`, the lowest offset that the
/// query might still read. Dropping below it keeps the window bounded without
/// evicting a chunk that a read behind the frontier (object keys) still needs.
pub fn absorb(
    window: &mut ChunkWindow,
    chunks: Vec<(u64, Bytes)>,
    end: Option<u64>,
    keep_from: u64,
)
    requires
        old(window).wf(),
    ensures
        final(window).wf(),
        final(window)@ == pruned(
            with_end(with_chunks(old(window)@, chunk_list(chunks@)), end),
            keep_from,
        ),
{
    let ghost list = chunk_list(chunks@);
    let ghost before = window@;
    let ghost all = chunks@;
    for chunk in it: chunks
        invariant
            window.wf(),
            window@.chunk_bytes == before.chunk_bytes,
            it.seq() == all,
            list == chunk_list(all),
            window@ == with_chunks(before, list.take(it.index())),
    {
        let ghost n = it.index();
        proof {
            assert((chunk.0, content(chunk.1)) == list[n]);
            assert(list.take(n + 1).drop_last() =~= list.take(n));
            assert(list.take(n + 1).last() == list[n]);
        }
        window.insert(chunk.0, chunk.1);
        assert(window@ =~= with_chunks(before, list.take(n + 1)));
    }
    assert(list.take(list.len() as int) =~= list);
    if let Some(at) = end {
        window.set_source_size(at);
    }
    assert(window@ =~= with_end(with_chunks(before, list), end));
    window.drop_below(keep_from);
}

/// Putting in chunks keeps those that are there and adds those of the list; the
/// chunk size and the size of the source stay.
proof fn lemma_with_chunks(w: WindowView, list: Seq<(u64, Seq<u8>)>)
    ensures
        with_chunks(w, list).chunk_bytes == w.chunk_bytes,
        with_chunks(w, list).size == w.size,
        forall|k: u64| #[trigger]
            w.chunks.contains_key(k) ==> with_chunks(w, list).chunks.contains_key(k),
        forall|i: int|
            0 <= i < list.len() ==> with_chunks(w, list).chunks.contains_key(
                (#[trigger] list[i]).0,
            ),
        forall|k: u64| #[trigger]
            with_chunks(w, list).chunks.contains_key(k) ==> {
                ||| exists|i: int|
                    0 <= i < list.len() && #[trigger] list[i] == (
                        k,
                        with_chunks(w, list).chunks[k],
                    )
                ||| w.chunks.contains_key(k) && with_chunks(w, list).chunks[k] == w.chunks[k]
            },
    decreases list.len(),
{
    if list.len() > 0 {
        let head = list.drop_last();
        let rest = with_chunks(w, head);
        let out = with_chunks(w, list);
        lemma_with_chunks(w, head);
        assert forall|i: int| 0 <= i < list.len() implies out.chunks.contains_key(
            (#[trigger] list[i]).0,
        ) by {
            if i < head.len() {
                assert(head[i] == list[i]);
            }
        }
        assert forall|k: u64| #[trigger] out.chunks.contains_key(k) implies {
            ||| exists|i: int| 0 <= i < list.len() && #[trigger] list[i] == (k, out.chunks[k])
            ||| w.chunks.contains_key(k) && out.chunks[k] == w.chunks[k]
        } by {
            if k == list.last().0 {
                assert(list[list.len() - 1] == (k, out.chunks[k]));
            } else {
                assert(rest.chunks.contains_key(k));
                if exists|i: int| 0 <= i < head.len() && #[trigger] head[i] == (k, rest.chunks[k]) {
                    let i = choose|i: int|
                        0 <= i < head.len() && #[trigger] head[i] == (k, rest.chunks[k]);
                    assert(list[i] == (k, out.chunks[k]));
                }
            }
        }
    }
}

/// A window that shows a document still shows it once it has taken in chunks of
/// it. While the size of the source is unknown the chunks are full, unless its end
/// comes with them.
pub proof fn law_absorbing_agrees(
    w: WindowView,
    doc: Seq<u8>,
    list: Seq<(u64, Seq<u8>)>,
    end: Option<u64>,
    keep_from: u64,
)
    requires
        w.agrees(doc),
        forall|i: int|
            0 <= i < list.len() ==> is_chunk_of(
                doc,
                w.chunk_bytes,
                (#[trigger] list[i]).0,
                list[i].1,
            ),
        end matches Some(n) ==> n == doc.len(),
        w.size is None && end is None ==> forall|i: int|
            0 <= i < list.len() ==> (#[trigger] list[i]).0 + w.chunk_bytes <= doc.len(),
    ensures
        pruned(with_end(with_chunks(w, list), end), keep_from).agrees(doc),
{
    lemma_with_chunks(w, list);
}

/// A chunk that a burst brought is resident afterwards, if it is not below what is
/// to be kept: the step that missed it gets further.
pub proof fn law_absorbing_brings(
    w: WindowView,
    list: Seq<(u64, Seq<u8>)>,
    end: Option<u64>,
    keep_from: u64,
    i: int,
)
    requires
        w.chunk_bytes > 0,
        0 <= i < list.len(),
        keep_from < list[i].0 + w.chunk_bytes,
        list[i].0 as int % w.chunk_bytes == 0,
    ensures
        pruned(with_end(with_chunks(w, list), end), keep_from).chunks.contains_key(list[i].0),
{
    lemma_with_chunks(w, list);
    let k = list[i].0;
    crate::chunks::lemma_chunk_start(w.chunk_bytes, keep_from as int);
    let c = chunk_start(w.chunk_bytes, keep_from as int);
    if k < c {
        crate::chunks::lemma_next_multiple(k as int, c, w.chunk_bytes);
    }
}

// ---- the session

/// A step that misses a chunk gets further once a burst has brought it: the window
/// still shows the document, and the chunk is there, or the source is known to end
/// where it would start.
pub proof fn law_a_burst_makes_progress(
    w: WindowView,
    doc: Seq<u8>,
    start: u64,
    n: u64,
    keep_from: u64,
)
    requires
        w.agrees(doc),
        w.chunk_bytes > 0,
        w.lacks(keep_from as int, start),
        start <= doc.len(),
        n > 0,
    ensures
        ({
            let to = span_end(start, n, w.chunk_bytes);
            let (list, end) = burst_of(doc, w.chunk_bytes, start as int, to as int);
            let next = pruned(with_end(with_chunks(w, list), end), keep_from);
            &&& next.agrees(doc)
            &&& !next.lacks(keep_from as int, start)
        }),
{
    let cs = w.chunk_bytes;
    let to = span_end(start, n, cs);
    let (list, end) = burst_of(doc, cs, start as int, to as int);
    lemma_span_end(start, n, cs);
    law_bursts_bring_the_document(doc, cs, start, to);
    law_absorbing_agrees(w, doc, list, end, keep_from);
    lemma_with_chunks(w, list);
    if start < doc.len() {
        law_absorbing_brings(w, list, end, keep_from, 0);
    }
}

/// A burst ends on a chunk boundary, unless it reaches the largest offset.
proof fn lemma_span_end(start: u64, n: u64, cs: int)
    requires
        cs > 0,
        n > 0,
        start as int % cs == 0,
        start < u64::MAX,
    ensures
        start < span_end(start, n, cs),
        span_end(start, n, cs) as int % cs == 0 || span_end(start, n, cs) == u64::MAX,
{
    assert(n * cs >= cs) by (nonlinear_arith)
        requires
            n > 0,
            cs > 0,
    ;
    vstd::arithmetic::div_mod::lemma_mod_multiples_vanish(n as int, start as int, cs);
    assert(cs * n as int + start == start + n * cs) by (nonlinear_arith);
}

/// Chunks that lie between two offsets are no more than fit there.
proof fn lemma_chunks_fit(chunks: Map<u64, Seq<u8>>, cs: int, from: int, to: int)
    requires
        cs > 0,
        from % cs == 0,
        from <= to,
        chunks.dom().finite(),
        forall|k: u64| #[trigger]
            chunks.contains_key(k) ==> k as int % cs == 0 && from <= k < to,
    ensures
        chunks.len() <= (to - from + cs - 1) / cs,
{
    let f = |k: u64| k as int / cs;
    let places = chunks.dom().map(f);
    let lo = from / cs;
    let hi = lo + (to - from + cs - 1) / cs;
    vstd::arithmetic::div_mod::lemma_fundamental_div_mod(from, cs);
    vstd::arithmetic::div_mod::lemma_fundamental_div_mod(to - from + cs - 1, cs);
    vstd::arithmetic::div_mod::lemma_div_pos_is_pos(to - from + cs - 1, cs);
    assert forall|a: u64, b: u64|
        chunks.dom().contains(a) && chunks.dom().contains(b) && #[trigger] f(a) == #[trigger] f(
            b,
        ) implies a == b by {
        assert(chunks.contains_key(a) && chunks.contains_key(b));
        vstd::arithmetic::div_mod::lemma_fundamental_div_mod(a as int, cs);
        vstd::arithmetic::div_mod::lemma_fundamental_div_mod(b as int, cs);
    }
    vstd::set_lib::lemma_map_size(chunks.dom(), places, f);
    vstd::set_lib::lemma_int_range(lo, hi);
    assert forall|p: int| places.contains(p) implies vstd::set_lib::set_int_range(
        lo,
        hi,
    ).contains(p) by {
        let k = choose|k: u64| chunks.dom().contains(k) && f(k) == p;
        assert(chunks.contains_key(k));
        vstd::arithmetic::div_mod::lemma_fundamental_div_mod(k as int, cs);
        let x = (to - from + cs - 1) / cs;
        let y = (to - from + cs - 1) % cs;
        assert(lo <= p < lo + x) by (nonlinear_arith)
            requires
                cs > 0,
                from == cs * lo,
                k as int == cs * p,
                to - from + cs - 1 == cs * x + y,
                0 <= y < cs,
                from <= k < to,
        ;
    }
    vstd::set_lib::lemma_len_subset(places, vstd::set_lib::set_int_range(lo, hi));
}

/// Resident memory is bounded by the span of the scan and not by the document: after
/// a burst up to `to` the window holds no more chunks than lie between the lowest
/// offset that may still be read and the end of the burst.
pub proof fn law_the_window_is_bounded(
    w: WindowView,
    doc: Seq<u8>,
    start: u64,
    n: u64,
    keep_from: u64,
)
    requires
        w.agrees(doc),
        w.chunk_bytes > 0,
        w.chunks.dom().finite(),
        w.lacks(keep_from as int, start),
        start <= doc.len(),
        n > 0,
        forall|k: u64| #[trigger]
            w.chunks.contains_key(k) ==> k < span_end(start, n, w.chunk_bytes),
    ensures
        ({
            let cs = w.chunk_bytes;
            let to = span_end(start, n, cs);
            let (list, end) = burst_of(doc, cs, start as int, to as int);
            let next = pruned(with_end(with_chunks(w, list), end), keep_from);
            next.chunks.len() <= (to - chunk_start(cs, keep_from as int) + cs - 1) / cs
        }),
{
    let cs = w.chunk_bytes;
    let to = span_end(start, n, cs);
    let from = chunk_start(cs, keep_from as int);
    let (list, end) = burst_of(doc, cs, start as int, to as int);
    let all = with_chunks(w, list);
    let next = pruned(with_end(all, end), keep_from);
    lemma_span_end(start, n, cs);
    crate::chunks::lemma_chunk_start(cs, keep_from as int);
    law_bursts_bring_the_document(doc, cs, start, to);
    law_burst_stays_inside(doc, cs, start, to);
    lemma_with_chunks(w, list);
    lemma_with_chunks_finite(w, list);
    assert forall|k: u64| #[trigger] next.chunks.contains_key(k) implies k as int % cs == 0 && from
        <= k < to by {
        assert(all.chunks.contains_key(k));
        if exists|i: int| 0 <= i < list.len() && #[trigger] list[i] == (k, all.chunks[k]) {
            let i = choose|i: int| 0 <= i < list.len() && #[trigger] list[i] == (k, all.chunks[k]);
            assert(is_chunk_of(doc, cs, list[i].0, list[i].1));
        } else {
            assert(w.chunks.contains_key(k));
        }
    }
    if from > start {
        crate::chunks::lemma_next_multiple(start as int, from, cs);
    }
    vstd::set_lib::lemma_len_subset(next.chunks.dom(), all.chunks.dom());
    lemma_chunks_fit(next.chunks, cs, from, to as int);
}

/// A window holds just the chunks of a document that start at `from..to`.
pub open spec fn holds_span(w: WindowView, doc: Seq<u8>, from: int, to: int) -> bool {
    &&& w.agrees(doc)
    &&& w.chunk_bytes >= 64
    &&& w.chunks.dom().finite()
    &&& forall|k: u64| #[trigger]
        w.chunks.contains_key(k) <==> k as int % w.chunk_bytes == 0 && from <= k < to && k
            < doc.len()
}

/// A scan that keeps its progress block by block, and never goes back, has no more in
/// memory than the burst that it read last and one chunk besides, however long the
/// document is: where its window held a span of chunks, it does so again after a burst,
/// and a burst of `n` chunks leaves `n + 1` at most.
///
/// `start` is the chunk that the scan misses and `keep_from` the lowest offset that it
/// might still read. While a container is counted, a string or a container is skipped,
/// or the elements of an array are counted, the chunk lies within a block of that
/// offset.
pub proof fn law_the_window_is_bounded_by_the_burst(
    w: WindowView,
    doc: Seq<u8>,
    from: int,
    to: int,
    start: u64,
    n: u64,
    keep_from: u64,
)
    requires
        holds_span(w, doc, from, to),
        from <= chunk_start(w.chunk_bytes, keep_from as int),
        w.lacks(keep_from as int, start),
        w.resident(keep_from as int, start as int),
        start < keep_from + 64,
        start <= doc.len(),
        n > 0,
    ensures
        ({
            let cs = w.chunk_bytes;
            let end_of_burst = span_end(start, n, cs);
            let (list, end) = burst_of(doc, cs, start as int, end_of_burst as int);
            let next = pruned(with_end(with_chunks(w, list), end), keep_from);
            &&& holds_span(
                next,
                doc,
                chunk_start(cs, keep_from as int),
                end_of_burst as int,
            )
            &&& next.chunk_bytes == cs
            &&& next.chunks.len() <= n + 1
            &&& with_chunks(w, list).chunks.len() <= w.chunks.len() + n
        }),
{
    let cs = w.chunk_bytes;
    let top = span_end(start, n, cs);
    let lo = chunk_start(cs, keep_from as int);
    let (list, end) = burst_of(doc, cs, start as int, top as int);
    let all = with_chunks(w, list);
    let next = pruned(with_end(all, end), keep_from);
    lemma_span_end(start, n, cs);
    crate::chunks::lemma_chunk_start(cs, keep_from as int);
    law_a_burst_makes_progress(w, doc, start, n, keep_from);
    law_bursts_bring_the_document(doc, cs, start, top);
    law_burst_stays_inside(doc, cs, start, top);
    lemma_with_chunks(w, list);
    lemma_with_chunks_finite(w, list);
    vstd::set_lib::lemma_len_subset(next.chunks.dom(), all.chunks.dom());
    // The missing chunk is the one that holds the frontier, or the one after it.
    if start < lo {
        crate::chunks::lemma_next_multiple(start as int, lo, cs);
    }
    assert(start <= lo + cs) by {
        if start > lo + cs {
            vstd::arithmetic::div_mod::lemma_add_mod_noop(lo, cs, cs);
            vstd::arithmetic::div_mod::lemma_mod_self_0(cs);
            vstd::arithmetic::div_mod::lemma_small_mod(0, cs as nat);
            crate::chunks::lemma_next_multiple(lo + cs, start as int, cs);
        }
    }
    assert forall|k: u64| #[trigger] next.chunks.contains_key(k) <==> k as int % cs == 0 && lo <= k
        < top && k < doc.len() by {
        if next.chunks.contains_key(k) {
            assert(all.chunks.contains_key(k));
            if exists|i: int| 0 <= i < list.len() && #[trigger] list[i] == (k, all.chunks[k]) {
                let i = choose|i: int|
                    0 <= i < list.len() && #[trigger] list[i] == (k, all.chunks[k]);
                assert(is_chunk_of(doc, cs, list[i].0, list[i].1));
            } else {
                assert(w.chunks.contains_key(k));
                if k > start {
                    assert(w.chunks.contains_key(start));
                }
            }
        }
        if k as int % cs == 0 && lo <= k < top && k < doc.len() {
            if k >= start {
                law_bursts_leave_no_gap(doc, cs, start, top, k);
                let i = choose|i: int| 0 <= i < list.len() && (#[trigger] list[i]).0 == k;
                assert(all.chunks.contains_key(list[i].0));
            } else {
                crate::chunks::lemma_next_multiple(lo, start as int, cs);
                assert(w.chunks.contains_key(k));
            }
        }
    }
    lemma_chunks_fit(next.chunks, cs, lo, top as int);
    lemma_fits(n as int, cs, lo, start as int, top as int);
    lemma_brought_fit(w, doc, list, start, n);
}

/// A chunk that a scan misses, the lowest offset that the scan might still read, and how
/// many chunks are read for it.
pub struct Fault {
    pub keep_from: u64,
    pub start: u64,
    pub n: u64,
}

/// The window after a burst for a fault, pruned to what the scan might still read.
pub open spec fn served(doc: Seq<u8>, w: WindowView, fault: Fault) -> WindowView {
    let cs = w.chunk_bytes;
    let (list, end) = burst_of(
        doc,
        cs,
        fault.start as int,
        span_end(fault.start, fault.n, cs) as int,
    );
    pruned(with_end(with_chunks(w, list), end), fault.keep_from)
}

/// The window after one fault after the other.
pub open spec fn served_all(doc: Seq<u8>, w: WindowView, faults: Seq<Fault>) -> WindowView
    decreases faults.len(),
{
    if faults.len() == 0 {
        w
    } else {
        served_all(doc, served(doc, w, faults[0]), faults.drop_first())
    }
}

/// The faults of a scan that keeps its progress block by block and never goes back
/// behind `low`.
pub open spec fn scan_faults(doc: Seq<u8>, w: WindowView, low: u64, faults: Seq<Fault>) -> bool
    decreases faults.len(),
{
    faults.len() > 0 ==> {
        let f = faults[0];
        &&& low <= f.keep_from
        &&& w.lacks(f.keep_from as int, f.start)
        &&& w.resident(f.keep_from as int, f.start as int)
        &&& f.start < f.keep_from + 64
        &&& f.start <= doc.len()
        &&& 0 < f.n <= MAX_BURST
        &&& scan_faults(doc, served(doc, w, f), f.keep_from, faults.drop_first())
    }
}

/// A window that is served a burst of `n` chunks for a scan that goes on from `keep_from`
/// holds the span from there to the end of the burst: `n + 1` chunks at most.
pub open spec fn holds_one_burst(doc: Seq<u8>, next: WindowView, fault: Fault) -> bool {
    &&& holds_span(
        next,
        doc,
        chunk_start(next.chunk_bytes, fault.keep_from as int),
        span_end(fault.start, fault.n, next.chunk_bytes) as int,
    )
    &&& next.chunks.len() <= fault.n + 1
}

proof fn lemma_served(w: WindowView, doc: Seq<u8>, low: u64, to: int, fault: Fault)
    requires
        holds_span(w, doc, chunk_start(w.chunk_bytes, low as int), to),
        low <= fault.keep_from,
        w.lacks(fault.keep_from as int, fault.start),
        w.resident(fault.keep_from as int, fault.start as int),
        fault.start < fault.keep_from + 64,
        fault.start <= doc.len(),
        fault.n > 0,
    ensures
        holds_one_burst(doc, served(doc, w, fault), fault),
{
    let cs = w.chunk_bytes;
    let keep_from = fault.keep_from;
    vstd::arithmetic::div_mod::lemma_div_is_ordered(low as int, keep_from as int, cs);
    vstd::arithmetic::mul::lemma_mul_inequality(low as int / cs, keep_from as int / cs, cs);
    law_the_window_is_bounded_by_the_burst(
        w,
        doc,
        chunk_start(cs, low as int),
        to,
        fault.start,
        fault.n,
        keep_from,
    );
}

/// However long the document, and however many chunks a scan has missed, its window
/// holds one chunk more than the last burst at most, and so never more than the longest
/// burst and one chunk. A scan starts with an empty window.
pub proof fn law_a_scan_holds_one_burst(
    w: WindowView,
    doc: Seq<u8>,
    low: u64,
    to: int,
    faults: Seq<Fault>,
)
    requires
        holds_span(w, doc, chunk_start(w.chunk_bytes, low as int), to),
        scan_faults(doc, w, low, faults),
        faults.len() > 0,
    ensures
        served_all(doc, w, faults).chunks.len() <= faults.last().n + 1,
        served_all(doc, w, faults).chunks.len() <= MAX_BURST + 1,
    decreases faults.len(),
{
    let f = faults[0];
    let next = served(doc, w, f);
    lemma_served(w, doc, low, to, f);
    if faults.len() > 1 {
        law_a_scan_holds_one_burst(
            next,
            doc,
            f.keep_from,
            span_end(f.start, f.n, next.chunk_bytes) as int,
            faults.drop_first(),
        );
        assert(faults.drop_first().last() == faults.last());
    } else {
        assert(faults.drop_first().len() == 0);
        assert(served_all(doc, next, faults.drop_first()) == next);
        assert(faults.last() == f);
    }
}

/// A count holds one burst and a chunk besides, once it has found a child: from one
/// missing chunk to the next, the window goes on from where the count does.
pub proof fn law_a_count_holds_one_burst(
    w: WindowView,
    doc: Seq<u8>,
    to: int,
    was: CountState,
    now: CountState,
    miss: ChunkMiss,
    n: u64,
)
    requires
        holds_span(w, doc, chunk_start(w.chunk_bytes, was.offset as int), to),
        count_stepped(w, was, now, Err(TraverseError::Pending(miss))),
        now.peeked,
        miss.0 <= doc.len(),
        n > 0,
    ensures
        ({
            let fault = Fault { keep_from: now.offset, start: miss.0, n };
            holds_one_burst(doc, served(doc, w, fault), fault)
        }),
{
    lemma_served(w, doc, was.offset, to, Fault { keep_from: now.offset, start: miss.0, n });
}

/// The skip of a string or a container holds one burst and a chunk besides.
pub proof fn law_a_skip_holds_one_burst(
    w: WindowView,
    doc: Seq<u8>,
    to: int,
    was: SkipState,
    now: SkipState,
    miss: ChunkMiss,
    n: u64,
)
    requires
        holds_span(w, doc, chunk_start(w.chunk_bytes, was.spec_min_reachable() as int), to),
        value_skipped(w, was, now, Err(TraverseError::Pending(miss))),
        !(now is Primitive),
        miss.0 <= doc.len(),
        n > 0,
    ensures
        ({
            let fault = Fault { keep_from: now.spec_min_reachable(), start: miss.0, n };
            holds_one_burst(doc, served(doc, w, fault), fault)
        }),
{
    let fault = Fault { keep_from: now.spec_min_reachable(), start: miss.0, n };
    assert(w.resident(was.spec_min_reachable() as int, miss.0 as int));
    assert(w.resident(fault.keep_from as int, miss.0 as int));
    lemma_served(w, doc, was.spec_min_reachable(), to, fault);
}

/// A lookup of an element holds one burst and a chunk besides, while it counts the
/// elements before it.
pub proof fn law_an_element_lookup_holds_one_burst(
    w: WindowView,
    doc: Seq<u8>,
    to: int,
    path: Seq<Step>,
    was: ResolveView,
    now: ResolveView,
    miss: ChunkMiss,
    n: u64,
)
    requires
        holds_span(w, doc, chunk_start(w.chunk_bytes, was.spec_min_reachable() as int), to),
        was.seed_ahead(),
        resolve_stepped(w, path, was, now, Err(TraverseError::Pending(miss))),
        now.counts_elements(path),
        miss.0 <= doc.len(),
        n > 0,
    ensures
        now.seed_ahead(),
        ({
            let fault = Fault { keep_from: now.spec_min_reachable(), start: miss.0, n };
            holds_one_burst(doc, served(doc, w, fault), fault)
        }),
{
    let fault = Fault { keep_from: now.spec_min_reachable(), start: miss.0, n };
    lemma_served(w, doc, was.spec_min_reachable(), to, fault);
}

/// An empty window holds no chunk of a document: a scan can start from it anywhere.
pub proof fn law_an_empty_window_holds_nothing(w: WindowView, doc: Seq<u8>, low: u64)
    requires
        w.agrees(doc),
        w.chunk_bytes >= 64,
        w.chunks == Map::<u64, Seq<u8>>::empty(),
    ensures
        holds_span(
            w,
            doc,
            chunk_start(w.chunk_bytes, low as int),
            chunk_start(w.chunk_bytes, low as int),
        ),
{
}

/// A span that starts at the burst or one chunk before it holds one chunk more than the
/// burst at most.
proof fn lemma_fits(n: int, cs: int, lo: int, start: int, top: int)
    requires
        cs > 0,
        n > 0,
        lo <= start <= lo + cs,
        start <= top <= start + n * cs,
    ensures
        (top - lo + cs - 1) / cs <= n + 1,
        (top - start + cs - 1) / cs <= n,
{
    assert((top - lo + cs - 1) / cs <= n + 1 && (top - start + cs - 1) / cs <= n) by {
        vstd::arithmetic::div_mod::lemma_fundamental_div_mod(top - lo + cs - 1, cs);
        vstd::arithmetic::div_mod::lemma_fundamental_div_mod(top - start + cs - 1, cs);
        let x = (top - lo + cs - 1) / cs;
        let y = (top - start + cs - 1) / cs;
        assert(x <= n + 1) by (nonlinear_arith)
            requires
                cs > 0,
                cs * x <= top - lo + cs - 1,
                top - lo <= n * cs + cs,
        ;
        assert(y <= n) by (nonlinear_arith)
            requires
                cs > 0,
                cs * y <= top - start + cs - 1,
                top - start <= n * cs,
        ;
    }
}

/// A burst adds no more chunks than it asked for.
proof fn lemma_brought_fit(
    w: WindowView,
    doc: Seq<u8>,
    list: Seq<(u64, Seq<u8>)>,
    start: u64,
    n: u64,
)
    requires
        w.chunk_bytes > 0,
        w.chunks.dom().finite(),
        start as int % w.chunk_bytes == 0,
        start < u64::MAX,
        n > 0,
        forall|i: int|
            0 <= i < list.len() ==> is_chunk_of(
                doc,
                w.chunk_bytes,
                (#[trigger] list[i]).0,
                list[i].1,
            ),
        forall|i: int|
            0 <= i < list.len() ==> start <= (#[trigger] list[i]).0 < span_end(
                start,
                n,
                w.chunk_bytes,
            ),
    ensures
        with_chunks(w, list).chunks.len() <= w.chunks.len() + n,
{
    let cs = w.chunk_bytes;
    let top = span_end(start, n, cs);
    let all = with_chunks(w, list).chunks;
    let old = w.chunks.dom();
    let added = all.remove_keys(old);
    lemma_with_chunks(w, list);
    lemma_with_chunks_finite(w, list);
    lemma_span_end(start, n, cs);
    vstd::set_lib::lemma_len_subset(added.dom(), all.dom());
    assert forall|k: u64| #[trigger] added.contains_key(k) implies k as int % cs == 0 && start <= k
        < top by {
        assert(with_chunks(w, list).chunks.contains_key(k));
        let i = choose|i: int| 0 <= i < list.len() && #[trigger] list[i] == (k, all[k]);
        assert(is_chunk_of(doc, cs, list[i].0, list[i].1));
    }
    lemma_chunks_fit(added, cs, start as int, top as int);
    assert(n * cs >= 0) by (nonlinear_arith)
        requires
            n > 0,
            cs > 0,
    ;
    lemma_fits(n as int, cs, start as int, start as int, top as int);
    vstd::set_lib::lemma_len_union(added.dom(), old);
    assert(all.dom().subset_of(added.dom().union(old)));
    vstd::set_lib::lemma_len_subset(all.dom(), added.dom().union(old));
}

proof fn lemma_with_chunks_finite(w: WindowView, list: Seq<(u64, Seq<u8>)>)
    requires
        w.chunks.dom().finite(),
    ensures
        with_chunks(w, list).chunks.dom().finite(),
    decreases list.len(),
{
    if list.len() > 0 {
        lemma_with_chunks_finite(w, list.drop_last());
    }
}

/// What a [`Session`] holds.
pub struct SessionView {
    /// The size of the source, if it is known from the start.
    pub size: Option<u64>,
    pub chunk_bytes: int,
    pub index: IndexView,
}

impl SessionView {
    /// A query of `path` from `anchor`, started from what the index knows.
    pub open spec fn query(self, anchor: u64, path: Seq<Step>) -> ResolveView {
        seeded_query(
            self.index,
            anchor,
            path,
            self.index.cap > 0,
            self.index.interval as int,
        )
    }

    /// The session with another index.
    pub open spec fn with_index(self, index: IndexView) -> SessionView {
        SessionView { index, ..self }
    }

    /// The session once a query has left the nodes that it used touched.
    pub open spec fn asked(self, anchor: u64, path: Seq<Step>) -> SessionView {
        self.with_index(self.index.hopped(anchor, path, 0))
    }

    /// The session once the containers of a record are written back.
    pub open spec fn recorded(
        self,
        base_depth: u32,
        key: KeyView,
        record: Option<Seq<ContainerNotes>>,
    ) -> SessionView {
        match record {
            Some(r) => self.with_index(self.index.with_record(base_depth, key.0, key.1, r)),
            None => self,
        }
    }

    /// The location of a container whose close is known.
    pub open spec fn cached_location(self, key: KeyView) -> Option<ValueLocation> {
        match lookup(self.index.nodes, key) {
            Some(node) => match node.close {
                Some(end) => Some(ValueLocation { start: node.value_start, end }),
                None => None,
            },
            None => None,
        }
    }

    /// The stride at which a stream notes array elements.
    pub open spec fn sampling_interval(self) -> nat {
        if self.index.enabled() {
            self.index.interval
        } else {
            0
        }
    }

    /// The child count of a container, if it is known.
    pub open spec fn cached_child_count(self, key: KeyView) -> Option<u64> {
        match lookup(self.index.nodes, key) {
            Some(node) => node.child_count,
            None => None,
        }
    }
}

/// The source's metadata, the plan of its reads, and the structural index that
/// every query over it shares.
pub struct Session {
    source_size: Option<u64>,
    reader: ChunkReader,
    cache: StructuralIndex,
    /// Object members are recorded only when `> 0`.
    object_member_cap: usize,
    array_interval: usize,
}

impl View for Session {
    type V = SessionView;

    closed spec fn view(&self) -> SessionView {
        SessionView {
            size: self.source_size,
            chunk_bytes: self.reader.spec_chunk_bytes(),
            index: self.cache@,
        }
    }
}

impl Session {
    pub closed spec fn wf(&self) -> bool {
        &&& self.reader.wf()
        &&& self.cache.wf()
        &&& self.cache@.cap == self.object_member_cap
        &&& self.cache@.interval == self.array_interval
    }

    /// The index of a well-formed session is well-formed.
    pub proof fn lemma_wf(&self)
        requires
            self.wf(),
        ensures
            self@.index.wf(),
            self@.index.tick <= u64::MAX,
    {
        self.cache.lemma_wf();
    }

    /// The recency clock of the index can tick `n` times more.
    pub open spec fn has_room(&self, n: int) -> bool {
        self@.index.tick + n <= u64::MAX
    }

    /// A session over a source of that size, if it is known, read in chunks of
    /// `chunk_bytes`.
    pub fn new(
        source_size: Option<u64>,
        chunk_bytes: usize,
        index_cache_budget: usize,
        object_member_cap: usize,
        array_interval: usize,
    ) -> (r: Result<Self, SessionError>)
        ensures
            match r {
                Ok(s) => {
                    &&& chunk_bytes > 0 && chunk_bytes % 64 == 0
                    &&& s.wf()
                    &&& s@ == (SessionView {
                        size: source_size,
                        chunk_bytes: chunk_bytes as int,
                        index: IndexView {
                            budget: index_cache_budget as nat,
                            cap: object_member_cap as nat,
                            interval: array_interval as nat,
                            tick: 0,
                            nodes: Seq::empty(),
                        },
                    })
                },
                Err(e) => {
                    &&& chunk_bytes == 0 || chunk_bytes % 64 != 0
                    &&& e == SessionError::Reader(ReaderError::InvalidChunkSize(chunk_bytes))
                },
            },
    {
        let reader: ChunkReader = match ChunkReader::new(chunk_bytes) {
            Ok(reader) => reader,
            Err(e) => return Err(SessionError::Reader(e)),
        };
        let cache = StructuralIndex::new(index_cache_budget, object_member_cap, array_interval);
        Ok(Session { source_size, reader, cache, object_member_cap, array_interval })
    }

    pub fn source_size(&self) -> (n: Option<u64>)
        ensures
            n == self@.size,
    {
        self.source_size
    }

    pub fn chunk_bytes(&self) -> (n: u64)
        requires
            self.wf(),
        ensures
            n == self@.chunk_bytes,
            n > 0,
    {
        self.reader.chunk_bytes()
    }

    /// The plan of the session's reads.
    pub fn reader(&self) -> (r: ChunkReader)
        requires
            self.wf(),
        ensures
            r.wf(),
            r.spec_chunk_bytes() == self@.chunk_bytes,
    {
        self.reader
    }

    /// The structural index.
    pub fn cache(&self) -> (c: &StructuralIndex)
        requires
            self.wf(),
        ensures
            c.wf(),
            c@ == self@.index,
    {
        &self.cache
    }

    pub fn cache_enabled(&self) -> (r: bool)
        ensures
            r == self@.index.enabled(),
    {
        self.cache.is_enabled()
    }

    /// Whether the recency clock of the index can tick `n` times more.
    pub fn clock_allows(&self, n: u64) -> (r: bool)
        ensures
            r == self.has_room(n as int),
    {
        u64::MAX - self.cache.clock() >= n
    }

    pub fn new_window(&self) -> (w: ChunkWindow)
        requires
            self.wf(),
        ensures
            w.wf(),
            w@ == (WindowView {
                chunk_bytes: self@.chunk_bytes,
                size: self@.size,
                chunks: Map::empty(),
                peak: 0,
            }),
    {
        ChunkWindow::with_size(self.reader.chunk_bytes(), self.source_size)
    }

    /// Start a query of `path` from `anchor`: cached container hops start the scan
    /// as deep as possible (an all-hit needs no chunk at all), and the first
    /// uncached level resumes from the nearest place that is known in it.
    pub fn begin_locate(&mut self, path: &[Segment], anchor: u64) -> (state: ResolveState)
        requires
            old(self).wf(),
            old(self).has_room(path@.len() as int),
        ensures
            final(self).wf(),
            final(self)@ == old(self)@.asked(anchor, steps(path@)),
            final(self)@.index.tick <= old(self)@.index.tick + path@.len(),
            state@.wf(),
            state@ == old(self)@.query(anchor, steps(path@)),
            state@.seg <= path@.len(),
    {
        let (start, seg, hint): (u64, usize, Option<ResumePoint>) = self.cache.chain_hops(
            anchor,
            path,
        );
        proof {
            lemma_hopped_keeps_config(old(self)@.index, anchor, steps(path@), 0);
        }
        ResolveState::resume(start, seg, hint, self.object_member_cap > 0, self.array_interval)
    }

    /// Write back the child offsets that a query collected.
    pub fn finish_locate(
        &mut self,
        base_depth: u32,
        anchor: u64,
        path: &[Segment],
        state: &ResolveState,
    )
        requires
            old(self).wf(),
            old(self).has_room(path@.len() as int + 1),
            base_depth + path@.len() <= u32::MAX,
            state@.wf(),
            state@.seg <= path@.len(),
        ensures
            final(self).wf(),
            final(self)@ == old(self)@.recorded(base_depth, (anchor, steps(path@)), state@.record),
            final(self)@.index.tick <= old(self)@.index.tick + path@.len() + 1,
    {
        if let Some(record) = state.scan_record() {
            self.cache.apply_scan_record(base_depth, anchor, path, record);
            proof {
                lemma_record_keeps_config(
                    old(self)@.index,
                    base_depth,
                    anchor,
                    steps(path@),
                    record@,
                );
            }
        }
    }

    /// The full `[start, end)` of the container at `(anchor, path)`, if its close is
    /// known.
    pub fn cached_location(&self, anchor: u64, path: &[Segment]) -> (r: Option<ValueLocation>)
        requires
            self.wf(),
        ensures
            r == self@.cached_location((anchor, steps(path@))),
    {
        match self.cache.get(anchor, path) {
            Some(node) => node.location(),
            None => None,
        }
    }

    /// Cached child count for `(anchor, path)` if a prior count or stream learned it
    /// - lets a repeat count skip the scan.
    pub fn cached_child_count(&self, anchor: u64, path: &[Segment]) -> (r: Option<u64>)
        requires
            self.wf(),
        ensures
            r == self@.cached_child_count((anchor, steps(path@))),
    {
        match self.cache.get(anchor, path) {
            Some(node) => node.child_count(),
            None => None,
        }
    }

    /// Record the child count of the container at `(anchor, path)`.
    pub fn store_child_count(
        &mut self,
        base_depth: u32,
        anchor: u64,
        path: &[Segment],
        kind: ContainerKind,
        value_start: u64,
        count: u64,
    )
        requires
            old(self).wf(),
            old(self).has_room(1),
            base_depth + path@.len() <= u32::MAX,
        ensures
            final(self).wf(),
            final(self)@ == old(self)@.with_index(
                old(self)@.index.with_child_count(
                    base_depth,
                    (anchor, steps(path@)),
                    kind,
                    value_start,
                    count,
                ),
            ),
            final(self)@.index.tick <= old(self)@.index.tick + 1,
    {
        self.cache.store_child_count(base_depth, anchor, path, kind, value_start, count);
    }

    /// Record the close offset (`}`/`]` + 1) of the container at `(anchor, path)`.
    pub fn store_close(
        &mut self,
        base_depth: u32,
        anchor: u64,
        path: &[Segment],
        kind: ContainerKind,
        value_start: u64,
        close: u64,
    )
        requires
            old(self).wf(),
            old(self).has_room(1),
            base_depth + path@.len() <= u32::MAX,
        ensures
            final(self).wf(),
            final(self)@ == old(self)@.with_index(
                old(self)@.index.with_close(
                    base_depth,
                    (anchor, steps(path@)),
                    kind,
                    value_start,
                    close,
                ),
            ),
            final(self)@.index.tick <= old(self)@.index.tick + 1,
    {
        self.cache.store_close(base_depth, anchor, path, kind, value_start, close);
    }

    /// Record array members `(index, offset)` so a later random index resumes near
    /// them.
    pub fn store_array_members(
        &mut self,
        base_depth: u32,
        anchor: u64,
        path: &[Segment],
        value_start: u64,
        members: &[(usize, u64)],
    )
        requires
            old(self).wf(),
            old(self).has_room(1),
            base_depth + path@.len() <= u32::MAX,
        ensures
            final(self).wf(),
            final(self)@ == old(self)@.with_index(
                old(self)@.index.with_array_scan(
                    base_depth,
                    (anchor, steps(path@)),
                    value_start,
                    members@,
                ),
            ),
            final(self)@.index.tick <= old(self)@.index.tick + 1,
    {
        self.cache.merge_array_scan(base_depth, anchor, path, value_start, members);
    }

    /// The stride at which a stream notes array elements, 0 for none.
    pub fn array_landmark_sampling_interval(&self) -> (n: usize)
        requires
            self.wf(),
        ensures
            n == self@.sampling_interval(),
    {
        if self.cache.is_enabled() {
            self.array_interval
        } else {
            0
        }
    }
}

/// Prune a window to the scan position: keep just the chunk covering `next_offset`
/// so the next yield's first read is hot, dropping the rest (clearing once iteration
/// walks off the end). Bounds resident chunks to ~1 between yields.
pub fn prune_window(window: &mut ChunkWindow, next_offset: u64)
    requires
        old(window).wf(),
    ensures
        final(window).wf(),
        final(window)@ == rested(old(window)@, next_offset),
{
    if next_offset >= window.source_size() {
        window.clear();
    } else {
        window.drop_below(next_offset);
    }
}

/// A window at rest before `next_offset`.
pub open spec fn rested(w: WindowView, next_offset: u64) -> WindowView {
    if next_offset >= w.bound() {
        WindowView { chunks: Map::empty(), ..w }
    } else {
        pruned(w, next_offset)
    }
}

/// At rest a window that shows a document still shows it.
pub proof fn law_resting_agrees(w: WindowView, doc: Seq<u8>, next_offset: u64)
    requires
        w.agrees(doc),
    ensures
        rested(w, next_offset).agrees(doc),
{
}

} // verus!
