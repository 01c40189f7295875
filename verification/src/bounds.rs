//! The measures that the library keeps, told in numbers: what nodes cost and which of them
//! go first, how many chunks are read at a time, and what a source gives.

use vstd::prelude::*;

use crate::bitmap::StructuralByte;
use crate::cache::{
    law_eviction_is_depth_first, lemma_shed, low_water, settled, shed, slots, BodyView, IndexView,
    KeyView, NodeView, Nodes,
};
use crate::chunks::{
    chunk_start, lemma_chunk_start, read_limit, span_end, WindowView, MAX_COALESCED_READ_BYTES,
    MIN_CHUNK_BYTES,
};
use crate::eval::{PickView, ProjectView};
use crate::query::{CountingView, ExtentState, GettingView, LocatingView, ResolvingView};
use crate::count::CountState;
use crate::index_cache::CacheView;
use crate::resolve::{ContainerCursor, ContainerKind, ValueLocation};
use crate::session::{
    burst_schedule, chunks_to_cover, law_bursts_double_up_to_the_cap, pruned, rested, with_chunk,
    with_end, DEFAULT_ARRAY_INDEX_INTERVAL, DEFAULT_INDEX_CACHE_ENTRIES, DEFAULT_OBJECT_MEMBER_CAP,
    MAX_BURST,
};
use crate::simd::BLOCK_BYTES;
use crate::stream::{ItemValue, OpeningView, StreamView};
use crate::walker::SkipState;
use crate::source::{content, is_read_of, ReadOutcome, SourceError};

verus! {

// ---- the index

/// How many members the tables of nodes hold together.
pub open spec fn members_held(nodes: Nodes) -> nat
    decreases nodes.len(),
{
    if nodes.len() == 0 {
        0
    } else {
        members_held(nodes.drop_last()) + (match nodes.last().1.body {
            BodyView::Object { members, resume } => members.len(),
            BodyView::Array { .. } => 0,
        })
    }
}

/// Nodes take up one slot each and one for every member that they table; the elements that
/// they note cost nothing.
pub proof fn law_what_nodes_cost(nodes: Nodes)
    ensures
        slots(nodes) == nodes.len() + members_held(nodes),
    decreases nodes.len(),
{
    if nodes.len() > 0 {
        law_what_nodes_cost(nodes.drop_last());
    }
}

/// The deepest nodes are evicted first, and of those as deep the least recently used: what
/// is kept is no deeper than what went, and where it is as deep it was used no earlier.
pub proof fn law_the_deepest_go_first(
    nodes: Nodes,
    low: nat,
    kept: (KeyView, NodeView),
    gone: (KeyView, NodeView),
)
    requires
        shed(nodes, low).contains(kept),
        nodes.contains(gone),
        !shed(nodes, low).contains(gone),
    ensures
        kept.1.depth <= gone.1.depth,
        kept.1.depth == gone.1.depth ==> kept.1.last_used >= gone.1.last_used,
{
    law_eviction_is_depth_first(nodes, low, kept, gone);
}

/// Within the budget nothing is evicted; past it, nodes go until no more than seven eighths
/// of it are taken up.
pub proof fn law_when_nodes_are_evicted(nodes: Nodes, budget: nat)
    ensures
        nodes.len() + members_held(nodes) <= budget ==> settled(nodes, budget) == nodes,
        nodes.len() + members_held(nodes) > budget ==> {
            let left = settled(nodes, budget);
            &&& left == shed(nodes, low_water(budget))
            &&& 8 * (left.len() + members_held(left)) < 7 * budget + 8
        },
        7 * budget <= 8 * low_water(budget) < 7 * budget + 8,
{
    law_what_nodes_cost(nodes);
    law_what_nodes_cost(settled(nodes, budget));
    lemma_shed(nodes, low_water(budget));
}

/// A node that is made lies as deep as its path from the root is long, and knows nothing
/// but where its container opens.
pub proof fn law_what_a_new_node_knows(
    index: IndexView,
    key: KeyView,
    kind: ContainerKind,
    value_start: u64,
    base_depth: u32,
)
    requires
        crate::cache::lookup(index.nodes, key) is None,
        base_depth + key.1.len() <= u32::MAX,
        value_start < u64::MAX,
    ensures
        ({
            let node = index.before_write(key, kind, value_start, base_depth);
            &&& node.depth == base_depth + key.1.len()
            &&& node.value_start == value_start
            &&& node.close is None
            &&& node.child_count is None
            &&& match node.body {
                BodyView::Object { members, resume } => kind is Object && members.len() == 0
                    && resume == value_start + 1,
                BodyView::Array { members } => kind is Array && members.len() == 0,
            }
        }),
{
}

/// A table holds as many members as it may: no more than the cap on them, and no more than
/// leave room in the budget for the node that holds it.
pub proof fn law_how_much_a_table_may_hold(index: IndexView, cache: CacheView)
    requires
        index.budget > 0,
    ensures
        index.table_cap() <= index.cap,
        index.table_cap() + 1 <= index.budget,
        index.table_cap() == index.cap || index.table_cap() + 1 == index.budget,
        cache.table_cap() <= 256,
        cache.table_cap() <= cache.budget,
        cache.table_cap() == 256 || cache.table_cap() == cache.budget,
{
}

// ---- what is kept

/// Of the bytes that were read, those are kept that lie at the first one still to be read or
/// past it: where a lookup or a count goes on, where a value begins that is still to be
/// copied, and where the next child is looked for between two of them.
pub proof fn law_what_is_kept(
    q: LocatingView,
    x: ExtentState,
    resolving: ResolvingView,
    location: ValueLocation,
    kind: ContainerKind,
    open: u64,
    count: CountState,
)
    ensures
        q.keeps_from() == (match q.state.scan {
            Some(scan) => scan.offset,
            None => q.state.start,
        }),
        x.keeps_from() == (match x {
            ExtentState::Peek { from } => from,
            ExtentState::Skip { start, kind, skip } => match skip {
                SkipState::Pending { from } => from,
                SkipState::String(s) => s.offset,
                SkipState::Primitive { offset } => offset,
                SkipState::Container(c) => c.offset,
            },
        }),
        (ResolvingView { locating: q, extent: Some(x) }).keeps_from() == x.keeps_from(),
        (ResolvingView { locating: q, extent: None }).keeps_from() == q.keeps_from(),
        (GettingView { resolving, found: None }).keeps_from() == resolving.keeps_from(),
        (GettingView { resolving, found: Some(location) }).keeps_from() == location.start,
        CountingView::Locating(q).keeps_from() == q.keeps_from(),
        CountingView::Entering(q, open).keeps_from() == open,
        CountingView::Scanning(q, kind, open, count).keeps_from() == count.offset,
{
}

/// A projection keeps what it still has to read, and a stream what the child at hand takes:
/// the whole of an item that is copied, and nothing before the next child between items.
pub proof fn law_what_a_stream_keeps(
    pick: PickView,
    projection: ProjectView,
    start: u64,
    stream: StreamView,
    cursor: ContainerCursor,
)
    ensures
        pick.keeps_from() == (match pick {
            PickView::Locate(st) => match st.scan {
                Some(scan) => scan.offset,
                None => st.start,
            },
            PickView::Extent(x) => x.keeps_from(),
            PickView::Read(location) => location.start,
        }),
        projection.keeps_from(start) == (match projection {
            ProjectView::One(p) => p.keeps_from(),
            ProjectView::Walk(c, _) => c.next_offset,
            ProjectView::Emit(_, _, _, Some(p)) => p.keeps_from(),
            _ => start,
        }),
        stream.opening is Opened && stream.cursor == Some(cursor) ==> stream.keeps_from() == (
        match stream.batch {
            Some((_, _, _, Some(item))) => match item.value {
                ItemValue::Whole => item.entry.location.start,
                ItemValue::Project(p) => p.keeps_from(item.entry.location.start),
            },
            _ => cursor.next_offset,
        }),
        stream.opening matches OpeningView::Locating(q) ==> stream.keeps_from() == q.keeps_from(),
        stream.opening matches OpeningView::Entering(at) ==> stream.keeps_from() == at,
        stream.opening is Fresh ==> stream.keeps_from() == stream.key.0,
{
}

// ---- reads

/// The bursts are of 1, 2, 4 chunks and so on, up to 256, and of 256 from then on.
pub proof fn law_bursts_in_numbers(k: nat)
    ensures
        k < 8 ==> burst_schedule(k + 1) == 2 * burst_schedule(k),
        k >= 8 ==> burst_schedule(k) == 256,
        burst_schedule(0) == 1,
        1 <= burst_schedule(k) <= 256,
    decreases k,
{
    law_bursts_double_up_to_the_cap(k);
    law_bursts_double_up_to_the_cap(k + 1);
    vstd::arithmetic::power2::lemma2_to64();
    if k < 8 {
        vstd::arithmetic::power2::lemma_pow2_unfold(k + 1);
    }
    if k > 0 {
        law_bursts_in_numbers((k - 1) as nat);
    }
}

/// A range is read in as many chunks as it takes, and no more; one at least.
pub proof fn law_a_range_is_covered(from: u64, to: u64, cs: int)
    requires
        0 < cs <= u64::MAX,
    ensures
        ({
            let n = chunks_to_cover(from, to, cs);
            &&& n >= 1
            &&& from + n * cs >= to
            &&& n > 1 ==> from + (n - 1) * cs < to
        }),
{
    if from < to {
        let d = to - from + cs - 1;
        let q = d / cs;
        vstd::arithmetic::div_mod::lemma_fundamental_div_mod(d, cs);
        vstd::arithmetic::div_mod::lemma_mod_bound(d, cs);
        assert(cs * q == q * cs) by (nonlinear_arith);
        assert((q - 1) * cs == q * cs - cs) by (nonlinear_arith);
        assert(q >= 1) by (nonlinear_arith)
            requires
                q * cs + cs > d,
                d >= cs,
                cs > 0,
        ;
        assert(q <= to - from) by (nonlinear_arith)
            requires
                q * cs <= to - from + cs - 1,
                cs >= 1,
                to - from >= 1,
        ;
    }
}

/// A projection that copies a value out of the source reads the rest of it in one burst, and
/// no more chunks than that takes; one that looks for the start of a value reads a chunk;
/// and one that looks for anything else reads as much as is upcoming, which then doubles.
pub proof fn law_how_much_a_projection_reads(
    pick: PickView,
    upcoming: u64,
    offset: u64,
    cs: int,
)
    requires
        0 < cs <= u64::MAX,
    ensures
        match pick {
            PickView::Read(location) => {
                let n = pick.burst_for(upcoming, offset, cs);
                &&& offset + n * cs >= location.end
                &&& n > 1 ==> offset + (n - 1) * cs < location.end
                &&& pick.upcoming_after(upcoming) == upcoming
            },
            PickView::Extent(ExtentState::Peek { .. }) => pick.burst_for(upcoming, offset, cs) == 1
                && pick.upcoming_after(upcoming) == upcoming,
            _ => {
                let next = pick.upcoming_after(upcoming);
                &&& pick.burst_for(upcoming, offset, cs) == upcoming
                &&& upcoming <= 128 ==> next == 2 * upcoming
                &&& upcoming > 128 ==> next == 256
            },
        },
{
    if let PickView::Read(location) = pick {
        law_a_range_is_covered(offset, location.end, cs);
    }
}

/// An item that is given whole is read in one burst, and no more chunks than that takes;
/// between items a chunk is read at a time; and the lookup of the container reads as much
/// as is upcoming, which then doubles.
pub proof fn law_how_much_a_stream_reads(
    stream: StreamView,
    upcoming: u64,
    offset: u64,
    cs: int,
)
    requires
        0 < cs <= u64::MAX,
    ensures
        ({
            let n = stream.burst_for(upcoming, offset, cs);
            let next = stream.upcoming_after(upcoming);
            if stream.opening is Locating {
                &&& n == upcoming
                &&& upcoming <= 128 ==> next == 2 * upcoming
                &&& upcoming > 128 ==> next == 256
            } else {
                match stream.batch {
                    Some((_, _, _, Some(item))) => match item.value {
                        ItemValue::Whole => {
                            &&& offset + n * cs >= item.entry.location.end
                            &&& n > 1 ==> offset + (n - 1) * cs < item.entry.location.end
                            &&& next == upcoming
                        },
                        ItemValue::Project(ProjectView::One(pick)) => n == pick.burst_for(
                            upcoming,
                            offset,
                            cs,
                        ) && next == pick.upcoming_after(upcoming),
                        ItemValue::Project(ProjectView::Emit(_, _, _, Some(pick))) => n
                            == pick.burst_for(upcoming, offset, cs) && next
                            == pick.upcoming_after(upcoming),
                        ItemValue::Project(_) => n == 1 && next == upcoming,
                    },
                    _ => n == 1 && next == upcoming,
                }
            }
        }),
{
    if let Some((_, _, _, Some(item))) = stream.batch {
        law_a_range_is_covered(offset, item.entry.location.end, cs);
    }
}

/// One read asks for whole chunks: as many as four mebibytes hold, one at least.
pub proof fn law_how_much_a_read_asks_for(cs: int)
    requires
        cs > 0,
    ensures
        read_limit(cs) % cs == 0,
        read_limit(cs) >= cs,
        cs <= 0x40_0000 ==> read_limit(cs) <= 0x40_0000 < read_limit(cs) + cs,
        cs > 0x40_0000 ==> read_limit(cs) == cs,
{
    let m: int = 0x40_0000;
    if cs <= m {
        let q = m / cs;
        vstd::arithmetic::div_mod::lemma_fundamental_div_mod(m, cs);
        vstd::arithmetic::div_mod::lemma_mod_bound(m, cs);
        assert(cs * q == q * cs) by (nonlinear_arith);
        assert(q >= 1) by (nonlinear_arith)
            requires
                q * cs + cs > m,
                m >= cs,
                cs > 0,
        ;
        assert(q * cs >= cs) by (nonlinear_arith)
            requires
                q >= 1,
                cs > 0,
        ;
        vstd::arithmetic::div_mod::lemma_mod_multiples_basic(q, cs);
    } else {
        vstd::arithmetic::div_mod::lemma_mod_self_0(cs);
    }
}

/// A burst of `n` chunks ends that many chunks on, or at the last offset there is.
pub proof fn law_where_a_burst_ends(start: u64, n: u64, cs: int)
    requires
        cs > 0,
    ensures
        start + n * cs <= u64::MAX ==> span_end(start, n, cs) == start + n * cs,
        start + n * cs > u64::MAX ==> span_end(start, n, cs) == u64::MAX,
        start <= span_end(start, n, cs),
{
    assert(n * cs >= 0) by (nonlinear_arith)
        requires
            cs > 0,
            n >= 0,
    ;
}

/// A window that drops what lies below an offset keeps a chunk if and only if a byte of it
/// lies at that offset or past it; and it keeps it as it was.
pub proof fn law_what_a_window_keeps(w: WindowView, from: u64, k: u64)
    requires
        w.chunk_bytes > 0,
        k as int % w.chunk_bytes == 0,
    ensures
        pruned(w, from).chunks.contains_key(k) <==> w.chunks.contains_key(k) && k + w.chunk_bytes
            > from,
        pruned(w, from).chunks.contains_key(k) ==> pruned(w, from).chunks[k] == w.chunks[k],
        pruned(w, from).size == w.size && pruned(w, from).peak == w.peak,
        rested(w, from).chunks.contains_key(k) <==> w.chunks.contains_key(k) && k + w.chunk_bytes
            > from && (w.size matches Some(n) ==> from < n) && from < u64::MAX,
{
    let cs = w.chunk_bytes;
    let s = chunk_start(cs, from as int);
    lemma_chunk_start(cs, from as int);
    vstd::arithmetic::div_mod::lemma_fundamental_div_mod(k as int, cs);
    let a = k as int / cs;
    let b = from as int / cs;
    assert(k == a * cs) by {
        assert(cs * a == a * cs) by (nonlinear_arith);
    }
    assert(s == b * cs);
    if a >= b {
        assert(a * cs >= b * cs) by (nonlinear_arith)
            requires
                a >= b,
                cs > 0,
        ;
    } else {
        assert(a * cs + cs <= b * cs) by (nonlinear_arith)
            requires
                a + 1 <= b,
                cs > 0,
        ;
    }
}

/// A chunk that arrives is held along with the others, and the window remembers the most
/// chunks that it has held; the size of the document, once known, stays.
pub proof fn law_what_arriving_changes(
    w: WindowView,
    start: u64,
    bytes: Seq<u8>,
    end: Option<u64>,
    k: u64,
)
    requires
        w.chunks.dom().finite(),
    ensures
        ({
            let now = with_chunk(w, start, bytes);
            &&& now.chunks.contains_key(start) && now.chunks[start] == bytes
            &&& k != start ==> (now.chunks.contains_key(k) <==> w.chunks.contains_key(k))
            &&& k != start && w.chunks.contains_key(k) ==> now.chunks[k] == w.chunks[k]
            &&& now.peak >= w.peak && now.peak >= now.chunks.len()
            &&& now.peak == w.peak || now.peak == now.chunks.len()
            &&& now.size == w.size && now.chunk_bytes == w.chunk_bytes
        }),
        w.size is Some ==> with_end(w, end) == w,
        w.size is None ==> with_end(w, end).size == end && with_end(w, end).chunks == w.chunks,
{
}

/// A read gives the bytes from its offset on, as many as were asked for or as there are, and
/// says whether they are the last; past the end of the source it is refused.
pub proof fn law_what_a_read_gives(
    data: Seq<u8>,
    offset: u64,
    length: usize,
    r: Result<ReadOutcome, SourceError>,
)
    requires
        is_read_of(data, offset, length, r),
        data.len() <= u64::MAX,
    ensures
        match r {
            Ok(out) => {
                let got = content(out.bytes);
                &&& offset <= data.len()
                &&& got.len() <= length
                &&& offset + got.len() <= data.len()
                &&& got.len() < length ==> offset + got.len() == data.len()
                &&& forall|i: int| 0 <= i < got.len() ==> #[trigger] got[i] == data[offset + i]
                &&& out.eof == (offset + got.len() == data.len())
            },
            Err(e) => offset > data.len() && e == (SourceError::OutOfBounds {
                offset,
                size: data.len() as u64,
            }),
        },
{
}

// ---- constants

/// The bytes that give a document its structure.
pub proof fn law_structural_bytes(kind: StructuralByte)
    ensures
        kind.spec_byte() == (match kind {
            StructuralByte::Comma => 0x2cu8,
            StructuralByte::LBrace => 0x7bu8,
            StructuralByte::RBrace => 0x7du8,
            StructuralByte::LBracket => 0x5bu8,
            StructuralByte::RBracket => 0x5du8,
        }),
{
}

/// The sizes and defaults that callers can rely on.
pub proof fn law_sizes_and_defaults()
    ensures
        BLOCK_BYTES == 64,
        MIN_CHUNK_BYTES == 64,
        MAX_COALESCED_READ_BYTES == 4 * 1024 * 1024,
        MAX_BURST == 256,
        DEFAULT_INDEX_CACHE_ENTRIES == 1024,
        DEFAULT_OBJECT_MEMBER_CAP == usize::MAX,
        DEFAULT_ARRAY_INDEX_INTERVAL == 16,
        crate::index_cache::PER_CONTAINER_MEMBERS == 256,
{
}

} // verus!
