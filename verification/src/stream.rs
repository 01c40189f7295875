//! The `iter` streaming operation: a stateful, batch-filling stream over one
//! container's children.
//!
//! Each batch is the text of a JSON array of items: the children themselves, what a
//! selection extracts from them, or `[key, value]` pairs. A batch is filled in
//! restartable steps; a missing chunk leaves the batch where it is.

use bytes::Bytes;
use vstd::prelude::*;

use crate::cache::KeyView;
use crate::chunks::{chunk_list, ChunkWindow, WindowView};
use crate::eval::{project, push_all, ProjectState, ProjectView};
use crate::keys::{json_string, json_text, parse_string, string_text};
use crate::path::{copy_path, steps, Segment};
use crate::query::{value_bytes, Locating, LocatingView};
use crate::resolve::{
    child_step, cursor_at, enter_container, law_cursor_advances, lemma_key_is_within, next_child,
    within_child, ChildEntry, ChildKey, ContainerCursor, ContainerKind, PathFault, Resolved,
    ValueLocation,
};
use crate::scan::{ws_end, COMMA, LBRACKET, RBRACKET};
use crate::select::{CompiledSelect, Selection};
use crate::session::{
    absorb, chunks_to_cover, doubled, prune_window, pruned, range_burst, rested, with_chunks,
    with_end, Session, SessionError, SessionView,
};
use crate::walker::{doc_range, TraverseError, Walker};

verus! {

// ---- limits

/// When a batch is full: it holds `max_count` items, or its text has reached
/// `max_bytes`. At least one item is always emitted even if it alone exceeds this,
/// so the stream always makes progress.
#[derive(Debug, Clone, Copy, PartialEq, Eq, Structural)]
pub struct BatchLimits {
    pub max_count: usize,
    pub max_bytes: usize,
}

impl BatchLimits {
    /// Limits on the number of items alone.
    pub fn count(n: usize) -> (l: Self)
        ensures
            l == (BatchLimits { max_count: n, max_bytes: usize::MAX }),
    {
        BatchLimits { max_count: n, max_bytes: usize::MAX }
    }

    /// Limits of at least one item and one byte.
    pub fn clamped(max_count: usize, max_bytes: usize) -> (l: Self)
        ensures
            l.max_count == (if max_count == 0 {
                1
            } else {
                max_count
            }),
            l.max_bytes == (if max_bytes == 0 {
                1
            } else {
                max_bytes
            }),
    {
        BatchLimits {
            max_count: if max_count == 0 {
                1
            } else {
                max_count
            },
            max_bytes: if max_bytes == 0 {
                1
            } else {
                max_bytes
            },
        }
    }

    /// A batch of `count` items and `bytes` bytes is full.
    pub open spec fn reached(self, count: nat, bytes: nat) -> bool {
        count >= self.max_count || bytes >= self.max_bytes
    }
}

// ---- items

/// The decimal digits of an index, as they stand in JSON.
pub open spec fn index_text(n: nat) -> Seq<u8>
    decreases n,
{
    if n < 10 {
        seq![(0x30 + n) as u8]
    } else {
        index_text(n / 10).push((0x30 + n % 10) as u8)
    }
}

fn push_index(out: &mut Vec<u8>, n: u64)
    ensures
        final(out)@ == old(out)@ + index_text(n as nat),
    decreases n,
{
    if n >= 10 {
        push_index(out, n / 10);
    }
    out.push(0x30 + (n % 10) as u8);
    assert(out@ =~= old(out)@ + index_text(n as nat));
}

/// The text of a child's key: the index of an element, or the name of a member,
/// encoded anew. A name that cannot be read is a fault of the document.
pub open spec fn key_text(doc: Seq<u8>, key: ChildKey) -> Result<Seq<u8>, TraverseError> {
    match key {
        ChildKey::Index(index) => Ok(index_text(index as nat)),
        ChildKey::Member { start, close } => match json_string(
            doc_range(doc, start as int, close + 1),
        ) {
            Some(name) => Ok(json_text(name)),
            None => Err(TraverseError::Malformed(start)),
        },
    }
}

/// An item: the value, or the pair of key and value.
pub open spec fn item_text(key: Option<Seq<u8>>, value: Seq<u8>) -> Seq<u8> {
    match key {
        Some(k) => seq![LBRACKET] + k + seq![COMMA] + value + seq![RBRACKET],
        None => value,
    }
}

/// The value of an item that is being read.
pub enum ItemValue {
    /// The whole child.
    Whole,
    /// What the selection extracts from it.
    Project(ProjectView),
}

/// An item that is being read.
pub struct ItemView {
    pub entry: ChildEntry,
    pub key: Option<Seq<u8>>,
    pub value: ItemValue,
}

impl ItemView {
    pub open spec fn wf(self, select: Option<Selection>) -> bool {
        match (self.value, select) {
            (ItemValue::Whole, None) => true,
            (ItemValue::Project(p), Some(selection)) => p.wf(selection),
            _ => false,
        }
    }

    /// The value in `doc`.
    pub open spec fn answer(self, doc: Seq<u8>, select: Option<Selection>) -> Result<
        Seq<u8>,
        TraverseError,
    > {
        match (self.value, select) {
            (ItemValue::Project(p), Some(selection)) => p.answer(
                doc,
                selection,
                self.entry.location.start,
            ),
            _ => Ok(value_bytes(doc, self.entry.location)),
        }
    }
}

impl ItemView {
    /// An absent chunk belongs to the value: to the child itself, or to the part of it that
    /// the selection is at.
    pub open spec fn awaits(self, doc: Seq<u8>, select: Option<Selection>, miss: u64) -> bool {
        match (self.value, select) {
            (ItemValue::Project(p), Some(selection)) => p.awaits(
                doc,
                selection,
                self.entry.location.start,
                miss,
            ),
            _ => miss < self.entry.location.end,
        }
    }
}

/// An item that is about to be read.
pub open spec fn item_begun(
    entry: ChildEntry,
    key: Option<Seq<u8>>,
    select: Option<Selection>,
) -> ItemView {
    ItemView {
        entry,
        key,
        value: match select {
            None => ItemValue::Whole,
            Some(selection) => ItemValue::Project(
                ProjectView::begun(selection, entry.location.start),
            ),
        },
    }
}

// ---- batches

/// What a stream yields, and when a batch of it is full.
pub struct StreamConfig {
    pub select: Option<Selection>,
    pub limits: BatchLimits,
    pub with_key: bool,
    /// The stride at which array elements are noted, 0 for none.
    pub interval: nat,
}

/// A batch that is being filled.
pub struct BatchView {
    pub cursor: ContainerCursor,
    /// Children taken so far, in this batch and before.
    pub yielded: nat,
    pub text: Seq<u8>,
    pub count: nat,
    /// Array elements noted on the way.
    pub landmarks: Seq<(usize, u64)>,
    pub item: Option<ItemView>,
}

/// How a batch ended.
pub enum BatchEnd {
    Full,
    /// There are no more children.
    Exhausted,
    Fault(TraverseError),
}

impl BatchView {
    /// The batch with one more child taken from the container.
    pub open spec fn taking(self, next: ContainerCursor) -> BatchView {
        BatchView { cursor: next, yielded: self.yielded + 1, ..self }
    }

    /// The batch with an array element noted, if it stands on the grid. The first
    /// element is where the array opens, and needs no note.
    pub open spec fn noting(self, entry: ChildEntry, interval: nat) -> BatchView {
        BatchView {
            landmarks: match entry.key {
                ChildKey::Index(index) => if interval > 0 && index != 0 && index as nat % interval
                    == 0 {
                    self.landmarks.push((index, entry.location.start))
                } else {
                    self.landmarks
                },
                ChildKey::Member { .. } => self.landmarks,
            },
            ..self
        }
    }

    /// The batch with the item at hand written.
    pub open spec fn writing(self, value: Seq<u8>) -> BatchView {
        BatchView {
            text: (if self.count > 0 {
                self.text.push(COMMA)
            } else {
                self.text
            }) + item_text(self.item->0.key, value),
            count: self.count + 1,
            item: None,
            ..self
        }
    }
}

/// The key of a child, where keys are wanted.
pub open spec fn wanted_key(doc: Seq<u8>, key: ChildKey, with_key: bool) -> Result<
    Option<Seq<u8>>,
    TraverseError,
> {
    if !with_key {
        Ok(None)
    } else {
        match key_text(doc, key) {
            Ok(text) => Ok(Some(text)),
            Err(e) => Err(e),
        }
    }
}

/// Fill a batch: take children, write their items, until the batch is full, there
/// are no more, or the document is at fault. A child at fault is taken, not
/// written.
pub open spec fn filled(doc: Seq<u8>, cfg: StreamConfig, b: BatchView) -> (BatchEnd, BatchView)
    decreases
            doc.len() - b.cursor.next_offset,
            (if b.item is Some {
                1int
            } else {
                0
            }),
{
    match b.item {
        Some(item) => match item.answer(doc, cfg.select) {
            Err(e) => (BatchEnd::Fault(e), BatchView { item: None, ..b }),
            Ok(value) => {
                let out = b.writing(value);
                if cfg.limits.reached(out.count, out.text.len()) {
                    (BatchEnd::Full, out)
                } else {
                    filled(doc, cfg, out)
                }
            },
        },
        None => match child_step(doc, b.cursor) {
            Err(e) => (BatchEnd::Fault(e), b),
            Ok((None, end)) => (BatchEnd::Exhausted, BatchView { cursor: end, ..b }),
            Ok((Some(entry), next)) => match wanted_key(doc, entry.key, cfg.with_key) {
                Err(e) => (BatchEnd::Fault(e), b.taking(next)),
                Ok(key) => if b.cursor.next_offset < next.next_offset <= doc.len() {
                    filled(
                        doc,
                        cfg,
                        BatchView {
                            item: Some(item_begun(entry, key, cfg.select)),
                            ..b.taking(next).noting(entry, cfg.interval)
                        },
                    )
                } else {
                    (BatchEnd::Exhausted, b)
                },
            },
        },
    }
}

/// Lowest offset that the filling of a batch might still read.
pub open spec fn batch_keeps_from(b: BatchView) -> u64 {
    match b.item {
        Some(item) => match item.value {
            ItemValue::Whole => item.entry.location.start,
            ItemValue::Project(p) => p.keeps_from(item.entry.location.start),
        },
        None => b.cursor.next_offset,
    }
}

/// An absent chunk belongs to the child at hand: the one that is to be taken next, or the
/// one that is read. The children before it are written already.
pub open spec fn batch_awaits(
    doc: Seq<u8>,
    select: Option<Selection>,
    b: BatchView,
    miss: u64,
) -> bool {
    match b.item {
        Some(item) => item.awaits(doc, select, miss),
        None => within_child(doc, b.cursor.kind, b.cursor.next_offset, miss),
    }
}

/// Bytes that may be absent.
pub open spec fn text_view(text: Option<Vec<u8>>) -> Option<Seq<u8>> {
    match text {
        Some(t) => Some(t@),
        None => None,
    }
}

#[derive(Debug)]
struct Item {
    entry: ChildEntry,
    key: Option<Vec<u8>>,
    value: Option<ProjectState>,
}

impl Item {
    spec fn spec_view(self) -> ItemView {
        ItemView {
            entry: self.entry,
            key: text_view(self.key),
            value: match self.value {
                Some(p) => ItemValue::Project(p@),
                None => ItemValue::Whole,
            },
        }
    }

    spec fn wf(self, select: Option<Selection>) -> bool {
        &&& self.spec_view().wf(select)
        &&& self.value matches Some(p) ==> p.child() == self.entry.location.start
    }
}

/// The part of a batch that is there between two steps.
#[derive(Debug)]
struct Batch {
    text: Vec<u8>,
    count: usize,
    landmarks: Vec<(usize, u64)>,
    item: Option<Item>,
}

/// What a selection that may be absent names.
pub open spec fn select_view(select: Option<CompiledSelect>) -> Option<Selection> {
    match select {
        Some(s) => Some(s@),
        None => None,
    }
}

spec fn batch_view(cursor: ContainerCursor, yielded: u64, batch: Batch) -> BatchView {
    BatchView {
        cursor,
        yielded: yielded as nat,
        text: batch.text@,
        count: batch.count as nat,
        landmarks: batch.landmarks@,
        item: match batch.item {
            Some(item) => Some(item.spec_view()),
            None => None,
        },
    }
}

impl Batch {
    spec fn wf(self, select: Option<Selection>, limits: BatchLimits) -> bool {
        &&& self.count == 0 || self.count < limits.max_count
        &&& self.item matches Some(item) ==> item.wf(select)
    }

    fn begin() -> (b: Self)
        ensures
            b.text@ == seq![LBRACKET],
            b.count == 0,
            b.landmarks@ == Seq::<(usize, u64)>::empty(),
            b.item is None,
    {
        let mut text: Vec<u8> = Vec::new();
        text.push(LBRACKET);
        assert(text@ =~= seq![LBRACKET]);
        Batch { text, count: 0, landmarks: Vec::new(), item: None }
    }
}

/// What filling a batch produced: a full batch, or the end of the container.
#[derive(Debug, Clone, Copy, PartialEq, Eq, Structural)]
enum BatchFill {
    Full,
    Exhausted,
}

/// The size of the next burst for an item.
spec fn item_upcoming(item: Option<Item>) -> u64 {
    match item {
        Some(Item { value: Some(p), .. }) => p.upcoming(),
        _ => 1,
    }
}

/// The doubling run that the reading of child `n` is in.
pub open spec fn item_run(n: nat, item: Option<ItemView>) -> Option<(int, int, int)> {
    match item {
        Some(ItemView { value: ItemValue::Project(p), .. }) => match p.run() {
            Some((i, phase)) => Some((n as int, i, phase)),
            None => None,
        },
        _ => None,
    }
}

/// Render a child's key. It is rendered when the child is taken: a member's raw span
/// sits behind the value, so its chunk is only guaranteed resident then.
fn render_key(walker: &mut Walker, key: ChildKey) -> (r: Result<Vec<u8>, TraverseError>)
    requires
        old(walker).wf(),
        key matches ChildKey::Member { start, close } ==> start < close < u64::MAX,
    ensures
        final(walker).wf(),
        final(walker).window() == old(walker).window(),
        r matches Err(e) ==> key matches ChildKey::Member { start, close } && match e {
            TraverseError::Pending(miss) => old(walker).window().lacks(start as int, miss.0)
                && miss.0 <= close,
            e => e == TraverseError::Malformed(start),
        },
        forall|doc: Seq<u8>| #[trigger]
            old(walker).window().agrees(doc) ==> match r {
                Err(TraverseError::Pending(_)) => true,
                Err(e) => key_text(doc, key) == Err::<Seq<u8>, TraverseError>(e),
                Ok(text) => key_text(doc, key) == Ok::<Seq<u8>, TraverseError>(text@),
            },
{
    match key {
        ChildKey::Index(index) => {
            let mut out: Vec<u8> = Vec::new();
            push_index(&mut out, index as u64);
            assert(out@ =~= index_text(index as nat));
            Ok(out)
        },
        ChildKey::Member { start, close } => {
            let raw: Vec<u8> = match walker.read_range(start, close + 1) {
                Err(miss) => return Err(TraverseError::Pending(miss)),
                Ok(raw) => raw,
            };
            match parse_string(raw.as_slice()) {
                None => Err(TraverseError::Malformed(start)),
                Some(name) => Ok(string_text(name.as_str())),
            }
        },
    }
}

/// Append an item.
fn push_item(out: &mut Vec<u8>, key: &Option<Vec<u8>>, value: &Vec<u8>)
    ensures
        final(out)@ == old(out)@ + item_text(text_view(*key), value@),
{
    match key {
        Some(k) => {
            out.push(LBRACKET);
            push_all(out, k);
            out.push(COMMA);
            push_all(out, value);
            out.push(RBRACKET);
            assert(out@ =~= old(out)@ + item_text(Some(k@), value@));
        },
        None => push_all(out, value),
    }
}

/// Read the value of the item at hand.
fn read_item(walker: &mut Walker, select: &Option<CompiledSelect>, item: &mut Item) -> (r: Result<
    Vec<u8>,
    TraverseError,
>)
    requires
        old(walker).wf(),
        old(item).wf(select_view(*select)),
    ensures
        final(walker).wf(),
        final(walker).window() == old(walker).window(),
        final(item).wf(select_view(*select)),
        final(item).entry == old(item).entry,
        final(item).key == old(item).key,
        forall|n: nat|
            item_upcoming(Some(*final(item))) == (if #[trigger] item_run(
                n,
                Some(final(item).spec_view()),
            ) == item_run(n, Some(old(item).spec_view())) {
                item_upcoming(Some(*old(item)))
            } else {
                1
            }),
        r matches Err(TraverseError::Pending(miss)) ==> old(walker).window().lacks(
            (match final(item).value {
                Some(p) => p@.keeps_from(final(item).entry.location.start),
                None => final(item).entry.location.start,
            }) as int,
            miss.0,
        ),
        forall|doc: Seq<u8>| #[trigger]
            old(walker).window().agrees(doc) ==> {
                let want = old(item).spec_view().answer(doc, select_view(*select));
                match r {
                    Err(TraverseError::Pending(miss)) => {
                        &&& final(item).spec_view().answer(doc, select_view(*select)) == want
                        &&& final(item).spec_view().awaits(doc, select_view(*select), miss.0)
                    },
                    Err(e) => want == Err::<Seq<u8>, TraverseError>(e),
                    Ok(value) => want == Ok::<Seq<u8>, TraverseError>(value@),
                }
            },
{
    let location: ValueLocation = item.entry.location;
    match (&mut item.value, select) {
        (Some(p), Some(selection)) => project(walker, selection, p),
        _ => match walker.read_range(location.start, location.end) {
            Err(miss) => Err(TraverseError::Pending(miss)),
            Ok(bytes) => Ok(bytes),
        },
    }
}

/// Taking a child moves the cursor on, and the batch goes on with its item.
proof fn lemma_filled_taking(
    doc: Seq<u8>,
    cfg: StreamConfig,
    b: BatchView,
    entry: ChildEntry,
    next: ContainerCursor,
    key: Option<Seq<u8>>,
)
    requires
        doc.len() <= u64::MAX,
        b.item is None,
        child_step(doc, b.cursor) == Ok::<(Option<ChildEntry>, ContainerCursor), TraverseError>(
            (Some(entry), next),
        ),
        wanted_key(doc, entry.key, cfg.with_key) == Ok::<Option<Seq<u8>>, TraverseError>(key),
    ensures
        b.cursor.next_offset < next.next_offset,
        filled(doc, cfg, b) == filled(
            doc,
            cfg,
            BatchView {
                item: Some(item_begun(entry, key, cfg.select)),
                ..b.taking(next).noting(entry, cfg.interval)
            },
        ),
{
    law_cursor_advances(doc, b.cursor);
}

/// Take the next child: its item is then at hand. `false` where there are no more.
#[verifier::rlimit(20)]
fn take_child(
    walker: &mut Walker,
    select: &Option<CompiledSelect>,
    limits: BatchLimits,
    with_key: bool,
    interval: usize,
    cursor: &mut ContainerCursor,
    yielded: &mut u64,
    batch: &mut Batch,
) -> (r: Result<bool, TraverseError>)
    requires
        old(walker).wf(),
        old(batch).wf(select_view(*select), limits),
        old(batch).item is None,
        *old(yielded) <= old(cursor).next_offset,
    ensures
        final(walker).wf(),
        final(walker).window() == old(walker).window(),
        *final(yielded) <= final(cursor).next_offset,
        final(cursor).kind == old(cursor).kind,
        old(cursor).next_offset <= final(cursor).next_offset,
        *old(yielded) <= *final(yielded),
        r matches Err(TraverseError::Pending(miss)) ==> {
            &&& *final(cursor) == *old(cursor)
            &&& *final(yielded) == *old(yielded)
            &&& old(walker).window().lacks(old(cursor).next_offset as int, miss.0)
        },
        r != Ok::<bool, TraverseError>(true) ==> *final(batch) == *old(batch),
        r == Ok::<bool, TraverseError>(false) ==> final(cursor).next_offset < u64::MAX,
        r == Ok::<bool, TraverseError>(true) ==> {
            &&& final(batch).wf(select_view(*select), limits)
            &&& final(batch).item is Some
            &&& item_upcoming(final(batch).item) == 1
            &&& *old(yielded) < *final(yielded)
            &&& old(cursor).next_offset < final(cursor).next_offset
        },
        ({
            let cfg = StreamConfig {
                select: select_view(*select),
                limits,
                with_key,
                interval: interval as nat,
            };
            let was = batch_view(*old(cursor), *old(yielded), *old(batch));
            let now = batch_view(*final(cursor), *final(yielded), *final(batch));
            forall|doc: Seq<u8>| #[trigger]
                old(walker).window().agrees(doc) ==> match r {
                    Err(TraverseError::Pending(miss)) => batch_awaits(doc, cfg.select, now, miss.0),
                    Err(e) => filled(doc, cfg, was) == (BatchEnd::Fault(e), now),
                    Ok(false) => filled(doc, cfg, was) == (BatchEnd::Exhausted, now),
                    Ok(true) => filled(doc, cfg, was) == filled(doc, cfg, now),
                }
        }),
{
    let ghost w = walker.window();
    let ghost cfg = StreamConfig {
        select: select_view(*select),
        limits,
        with_key,
        interval: interval as nat,
    };
    let ghost here = batch_view(*cursor, *yielded, *batch);
    let mut next: ContainerCursor = *cursor;
    let entry: ChildEntry = match next_child(walker, &mut next) {
        Err(e) => return Err(e),
        Ok(None) => {
            *cursor = next;
            return Ok(false);
        },
        Ok(Some(entry)) => entry,
    };
    if next.next_offset <= cursor.next_offset {
        // Only where no document agrees with the window.
        assert forall|doc: Seq<u8>| #[trigger] w.agrees(doc) implies false by {
            law_cursor_advances(doc, here.cursor);
        }
        return Err(TraverseError::Malformed(cursor.next_offset));
    }
    let key: Option<Vec<u8>> = if with_key {
        match render_key(walker, entry.key) {
            Err(e) => {
                if let TraverseError::Pending(_) = e {
                    proof {
                        let miss = e->Pending_0.0;
                        assert forall|doc: Seq<u8>| #[trigger] w.agrees(doc) implies batch_awaits(
                            doc,
                            cfg.select,
                            here,
                            miss,
                        ) by {
                            lemma_key_is_within(doc, here.cursor, entry, next, miss);
                        }
                    }
                    return Err(e);
                }
                *cursor = next;
                *yielded = *yielded + 1;
                return Err(e);
            },
            Ok(text) => Some(text),
        }
    } else {
        None
    };
    let ghost k: Option<Seq<u8>> = text_view(key);
    proof {
        assert forall|doc: Seq<u8>| #[trigger] w.agrees(doc) implies filled(doc, cfg, here)
            == filled(
            doc,
            cfg,
            BatchView {
                item: Some(item_begun(entry, k, cfg.select)),
                ..here.taking(next).noting(entry, cfg.interval)
            },
        ) by {
            lemma_filled_taking(doc, cfg, here, entry, next, k);
        }
    }
    *cursor = next;
    *yielded = *yielded + 1;
    // Array landmarks stand on the absolute index grid so a later random index resumes
    // from the nearest one.
    if interval > 0 {
        if let ChildKey::Index(index) = entry.key {
            if index != 0 && index % interval == 0 {
                batch.landmarks.push((index, entry.location.start));
            }
        }
    }
    let value: Option<ProjectState> = match select {
        Some(selection) => Some(ProjectState::begin(selection, entry.location.start)),
        None => None,
    };
    batch.item = Some(Item { entry, key, value });
    assert(batch.item->0.spec_view() == item_begun(entry, k, cfg.select));
    Ok(true)
}

/// Read the item at hand and write it to the batch. `true` where the batch is then
/// full.
fn write_item(
    walker: &mut Walker,
    select: &Option<CompiledSelect>,
    limits: BatchLimits,
    batch: &mut Batch,
    Ghost(cfg): Ghost<StreamConfig>,
    Ghost(cursor): Ghost<ContainerCursor>,
    Ghost(yielded): Ghost<u64>,
) -> (r: Result<bool, TraverseError>)
    requires
        old(walker).wf(),
        old(batch).wf(select_view(*select), limits),
        old(batch).item is Some,
        cfg.select == select_view(*select),
        cfg.limits == limits,
    ensures
        final(walker).wf(),
        final(walker).window() == old(walker).window(),
        r matches Err(TraverseError::Pending(miss)) ==> {
            &&& final(batch).wf(select_view(*select), limits)
            &&& final(batch).item is Some
            &&& old(walker).window().lacks(
                batch_keeps_from(batch_view(cursor, yielded, *final(batch))) as int,
                miss.0,
            )
            &&& item_upcoming(final(batch).item) == (if item_run(
                yielded as nat,
                batch_view(cursor, yielded, *final(batch)).item,
            ) == item_run(yielded as nat, batch_view(cursor, yielded, *old(batch)).item) {
                item_upcoming(old(batch).item)
            } else {
                1
            })
        },
        !(r matches Err(TraverseError::Pending(_))) ==> final(batch).item is None,
        r == Ok::<bool, TraverseError>(false) ==> final(batch).wf(select_view(*select), limits),
        ({
            let was = batch_view(cursor, yielded, *old(batch));
            let now = batch_view(cursor, yielded, *final(batch));
            forall|doc: Seq<u8>| #[trigger]
                old(walker).window().agrees(doc) ==> match r {
                    Err(TraverseError::Pending(miss)) => {
                        &&& filled(doc, cfg, was) == filled(doc, cfg, now)
                        &&& batch_awaits(doc, cfg.select, now, miss.0)
                    },
                    Err(e) => filled(doc, cfg, was) == (BatchEnd::Fault(e), now),
                    Ok(true) => filled(doc, cfg, was) == (BatchEnd::Full, now),
                    Ok(false) => filled(doc, cfg, was) == filled(doc, cfg, now),
                }
        }),
{
    if let Some(item) = &mut batch.item {
        let r = read_item(walker, select, item);
        match r {
            Err(e) => {
                if let TraverseError::Pending(_) = e {
                    return Err(e);
                }
                batch.item = None;
                return Err(e);
            },
            Ok(value) => {
                if batch.count > 0 {
                    batch.text.push(COMMA);
                }
                push_item(&mut batch.text, &item.key, &value);
                batch.count = batch.count + 1;
                batch.item = None;
            },
        }
    }
    Ok(batch.count >= limits.max_count || batch.text.len() >= limits.max_bytes)
}

/// Fill a batch over the chunks that the walker sees.
fn fill(
    walker: &mut Walker,
    select: &Option<CompiledSelect>,
    limits: BatchLimits,
    with_key: bool,
    interval: usize,
    cursor: &mut ContainerCursor,
    yielded: &mut u64,
    batch: &mut Batch,
) -> (r: Result<BatchFill, TraverseError>)
    requires
        old(walker).wf(),
        old(batch).wf(select_view(*select), limits),
        *old(yielded) <= old(cursor).next_offset,
    ensures
        final(walker).wf(),
        final(walker).window() == old(walker).window(),
        r matches Err(TraverseError::Pending(_)) ==> final(batch).wf(select_view(*select), limits),
        *final(yielded) <= final(cursor).next_offset,
        final(cursor).kind == old(cursor).kind,
        old(cursor).next_offset <= final(cursor).next_offset,
        r matches Ok(BatchFill::Exhausted) ==> final(cursor).next_offset < u64::MAX,
        !(r matches Err(TraverseError::Pending(_))) ==> final(batch).item is None,
        item_upcoming(final(batch).item) == (if item_run(
            *final(yielded) as nat,
            batch_view(*final(cursor), *final(yielded), *final(batch)).item,
        ) == item_run(
            *old(yielded) as nat,
            batch_view(*old(cursor), *old(yielded), *old(batch)).item,
        ) {
            item_upcoming(old(batch).item)
        } else {
            1
        }),
        ({
            let cfg = StreamConfig {
                select: select_view(*select),
                limits,
                with_key,
                interval: interval as nat,
            };
            let was = batch_view(*old(cursor), *old(yielded), *old(batch));
            let now = batch_view(*final(cursor), *final(yielded), *final(batch));
            &&& r matches Err(TraverseError::Pending(miss)) ==> old(walker).window().lacks(
                batch_keeps_from(now) as int,
                miss.0,
            )
            &&& forall|doc: Seq<u8>| #[trigger]
                old(walker).window().agrees(doc) ==> match r {
                    Err(TraverseError::Pending(miss)) => {
                        &&& filled(doc, cfg, now) == filled(doc, cfg, was)
                        &&& batch_awaits(doc, cfg.select, now, miss.0)
                    },
                    Err(e) => filled(doc, cfg, was) == (BatchEnd::Fault(e), now),
                    Ok(BatchFill::Full) => filled(doc, cfg, was) == (BatchEnd::Full, now),
                    Ok(BatchFill::Exhausted) => filled(doc, cfg, was) == (
                        BatchEnd::Exhausted,
                        now,
                    ),
                }
        }),
{
    let ghost w = walker.window();
    let ghost cfg = StreamConfig {
        select: select_view(*select),
        limits,
        with_key,
        interval: interval as nat,
    };
    let ghost was = batch_view(*cursor, *yielded, *batch);
    proof {
        lemma_no_item_run(*yielded as nat, batch.item);
    }
    loop
        invariant
            walker.wf(),
            walker.window() == w,
            w == old(walker).window(),
            cfg == (StreamConfig {
                select: select_view(*select),
                limits,
                with_key,
                interval: interval as nat,
            }),
            was == batch_view(*old(cursor), *old(yielded), *old(batch)),
            batch.wf(cfg.select, limits),
            *yielded <= cursor.next_offset,
            cursor.kind == old(cursor).kind,
            old(cursor).next_offset <= cursor.next_offset,
            *old(yielded) <= *yielded,
            item_run(*old(yielded) as nat, was.item) is None ==> item_upcoming(old(batch).item)
                == 1,
            *yielded == *old(yielded) && batch.item is Some ==> batch.item == old(batch).item,
            *yielded > *old(yielded) || batch.item is None ==> item_upcoming(batch.item) == 1,
            forall|doc: Seq<u8>| #[trigger]
                w.agrees(doc) ==> filled(doc, cfg, batch_view(*cursor, *yielded, *batch))
                    == filled(doc, cfg, was),
        decreases
                u64::MAX - cursor.next_offset,
                (if batch.item is Some {
                    1int
                } else {
                    0
                }),
    {
        if batch.item.is_none() {
            match take_child(
                walker,
                select,
                limits,
                with_key,
                interval,
                cursor,
                yielded,
                batch,
            ) {
                Err(e) => return Err(e),
                Ok(false) => return Ok(BatchFill::Exhausted),
                Ok(true) => {},
            }
        } else {
            match write_item(
                walker,
                select,
                limits,
                batch,
                Ghost(cfg),
                Ghost(*cursor),
                Ghost(*yielded),
            ) {
                Err(e) => return Err(e),
                Ok(true) => return Ok(BatchFill::Full),
                Ok(false) => {},
            }
        }
    }
}

/// Outside any run the next burst is a single chunk.
proof fn lemma_no_item_run(n: nat, item: Option<Item>)
    ensures
        item_run(
            n,
            match item {
                Some(i) => Some(i.spec_view()),
                None => None,
            },
        ) is None ==> item_upcoming(item) == 1,
{
    if let Some(Item { value: Some(p), .. }) = item {
        p.lemma_no_run();
    }
}

// ---- the stream

/// How far the opening of a stream has got.
pub enum OpeningView {
    Fresh,
    Locating(LocatingView),
    /// The path has led to this offset.
    Entering(u64),
    Opened,
}

impl OpeningView {
    /// An absent chunk belongs to what is at hand: in the lookup, or the opening byte of the
    /// container.
    pub open spec fn awaits(self, doc: Seq<u8>, miss: u64) -> bool {
        match self {
            OpeningView::Locating(q) => {
                &&& q.awaits(doc, miss)
                &&& q.commits() ==> miss < q.keeps_from() + 64
            },
            OpeningView::Entering(start) => miss <= ws_end(doc, start as int),
            _ => false,
        }
    }
}

/// What an [`IterState`] stands for, apart from its window.
pub struct StreamView {
    /// The anchor of the stream and the path from there.
    pub key: KeyView,
    /// Document depth of the anchor.
    pub base_depth: u32,
    pub cfg: StreamConfig,
    pub opening: OpeningView,
    /// Where the container opens, once the stream is open.
    pub base: Option<u64>,
    /// `None` if the path leads to nothing, and again once the stream is exhausted or
    /// released.
    pub cursor: Option<ContainerCursor>,
    pub yielded: nat,
    /// The batch that is being filled, if one is.
    pub batch: Option<(Seq<u8>, nat, Seq<(usize, u64)>, Option<ItemView>)>,
}

impl StreamView {
    /// The batch that a filling goes on with, a new one if there is none.
    pub open spec fn batch_at(self, cursor: ContainerCursor) -> BatchView {
        let (text, count, landmarks, item) = match self.batch {
            Some(b) => b,
            None => (seq![LBRACKET], 0, Seq::empty(), None),
        };
        BatchView { cursor, yielded: self.yielded, text, count, landmarks, item }
    }

    /// The stream after an attempt to open it that failed.
    pub open spec fn reset(self) -> StreamView {
        StreamView { opening: OpeningView::Fresh, ..self }
    }

    /// Enter the container at `start`. A value that is none is a fault of the path.
    pub open spec fn entering(self, doc: Seq<u8>, start: u64, s: SessionView) -> (
        Result<(), SessionError>,
        StreamView,
        SessionView,
    ) {
        match cursor_at(doc, start as int) {
            Err(e) => (Err(SessionError::Traverse(e)), self.reset(), s),
            Ok(None) => (
                Err(SessionError::Path(PathFault::ScalarTarget)),
                StreamView { opening: OpeningView::Opened, ..self },
                s,
            ),
            Ok(Some(cursor)) => (
                Ok(()),
                StreamView {
                    opening: OpeningView::Opened,
                    base: Some((cursor.next_offset - 1) as u64),
                    cursor: Some(cursor),
                    ..self
                },
                s,
            ),
        }
    }

    /// Open the stream where its path leads.
    pub open spec fn locating(self, doc: Seq<u8>, q: LocatingView, s: SessionView) -> (
        Result<(), SessionError>,
        StreamView,
        SessionView,
    ) {
        let (led, next) = q.answer(doc, s);
        match led {
            Err(e) => (Err(SessionError::Traverse(e)), self.reset(), next),
            Ok(Resolved::NotNavigable(fault)) => (
                Err(SessionError::Path(fault)),
                self.reset(),
                next,
            ),
            Ok(Resolved::Absent) => (
                Ok(()),
                StreamView { opening: OpeningView::Opened, ..self },
                next,
            ),
            Ok(Resolved::Found(start)) => self.entering(doc, start, next),
        }
    }

    /// Open the stream, from where the opening stands: the result, and the stream and
    /// the session after it.
    pub open spec fn opened(self, doc: Seq<u8>, s: SessionView) -> (
        Result<(), SessionError>,
        StreamView,
        SessionView,
    ) {
        match self.opening {
            OpeningView::Opened => (Ok(()), self, s),
            OpeningView::Fresh => self.locating(
                doc,
                LocatingView::begun(s, self.key, self.base_depth),
                s.asked(self.key.0, self.key.1),
            ),
            OpeningView::Locating(q) => self.locating(doc, q, s),
            OpeningView::Entering(start) => self.entering(doc, start, s),
        }
    }

    /// The session once a batch is done: at the end of the container its child count
    /// and its close are written back, and in any case the elements noted.
    pub open spec fn stored(self, s: SessionView, end: BatchEnd, b: BatchView) -> SessionView {
        match self.base {
            None => s,
            Some(open) => {
                let told = match end {
                    BatchEnd::Exhausted => s.with_index(
                        s.index.with_child_count(
                            self.base_depth,
                            self.key,
                            b.cursor.kind,
                            open,
                            b.yielded as u64,
                        ).with_close(
                            self.base_depth,
                            self.key,
                            b.cursor.kind,
                            open,
                            (b.cursor.next_offset + 1) as u64,
                        ),
                    ),
                    _ => s,
                };
                if b.landmarks.len() > 0 {
                    told.with_index(
                        told.index.with_array_scan(
                            self.base_depth,
                            self.key,
                            open,
                            b.landmarks,
                        ),
                    )
                } else {
                    told
                }
            },
        }
    }

    /// Fill a batch: its text, and the stream and the session after it. A stream
    /// that is not open, or is exhausted, yields nothing.
    pub open spec fn filled(self, doc: Seq<u8>, s: SessionView) -> (
        Result<Option<Seq<u8>>, SessionError>,
        StreamView,
        SessionView,
    ) {
        match self.cursor {
            None => (Ok(None), self, s),
            Some(cursor) => {
                let (end, b) = filled(doc, self.cfg, self.batch_at(cursor));
                let after = StreamView {
                    cursor: match end {
                        BatchEnd::Exhausted => None,
                        _ => Some(b.cursor),
                    },
                    yielded: b.yielded,
                    batch: None,
                    ..self
                };
                let text = match end {
                    BatchEnd::Full => Ok(Some(b.text.push(RBRACKET))),
                    BatchEnd::Exhausted => if b.count == 0 {
                        Ok(None)
                    } else {
                        Ok(Some(b.text.push(RBRACKET)))
                    },
                    BatchEnd::Fault(e) => Err(SessionError::Traverse(e)),
                };
                (text, after, self.stored(s, end, b))
            },
        }
    }

    /// The doubling run that the stream is in, while it looks its path up or projects a
    /// child: a new one begins with every lookup and with every walk through a value.
    pub open spec fn run(self) -> Option<(int, int, int)> {
        match (self.opening, self.batch) {
            (OpeningView::Locating(_), _) => Some((-1, 0, 0)),
            (_, Some((_, _, _, item))) => item_run(self.yielded, item),
            _ => None,
        }
    }

    /// How many chunks to read when the one at `offset` is missing: the rest of a
    /// child in one shot, once its range is known; what a projection asks for; the
    /// `upcoming` ones of a doubling burst while the path is looked up; and one while
    /// children are taken, since one element typically fits one chunk.
    pub open spec fn burst_for(self, upcoming: u64, offset: u64, cs: int) -> u64 {
        match (self.opening, self.batch) {
            (OpeningView::Locating(_), _) => upcoming,
            (_, Some((_, _, _, Some(item)))) => match item.value {
                ItemValue::Whole => chunks_to_cover(offset, item.entry.location.end, cs),
                ItemValue::Project(p) => p.burst_for(upcoming, offset, cs),
            },
            _ => 1,
        }
    }

    /// The doubling burst after that.
    pub open spec fn upcoming_after(self, upcoming: u64) -> u64 {
        match (self.opening, self.batch) {
            (OpeningView::Locating(_), _) => doubled(upcoming),
            (_, Some((_, _, _, Some(item)))) => match item.value {
                ItemValue::Whole => upcoming,
                ItemValue::Project(p) => p.upcoming_after(upcoming),
            },
            _ => upcoming,
        }
    }

    /// Lowest offset that the stream might still read.
    pub open spec fn keeps_from(self) -> u64 {
        match self.opening {
            OpeningView::Fresh => self.key.0,
            OpeningView::Locating(q) => q.keeps_from(),
            OpeningView::Entering(start) => start,
            OpeningView::Opened => match self.cursor {
                Some(cursor) => batch_keeps_from(self.batch_at(cursor)),
                None => 0,
            },
        }
    }
}

#[derive(Debug)]
enum Opening {
    Fresh,
    Locating(Locating),
    Entering(u64),
    Opened,
}

/// State of one `iter` stream: the lazily-opened container cursor and its byte
/// window, plus the projection, batching, and key-wrapping options.
pub struct IterState {
    path: Vec<Segment>,
    anchor_start: u64,
    /// Document depth of `anchor_start`; children sit at
    /// `base_depth + path.len() + 1`.
    base_depth: u32,
    limits: BatchLimits,
    with_key: bool,
    sampling_interval: usize,
    chunk_bytes: u64,
    /// `None` yields the whole child.
    select: Option<CompiledSelect>,
    opening: Opening,
    /// Where the base container opens, once it is entered. Where the stream records
    /// `close`/`child_count`/resume-point array members.
    base_value_start: Option<u64>,
    /// Children yielded so far - the child count once iteration runs to the end.
    yielded: u64,
    /// At rest holds at most the chunk covering the next offset so the next yield's
    /// first read hits; everything else is pruned per yield, bounding resident chunks
    /// to ~1 between yields.
    window: ChunkWindow,
    child_cursor: Option<ContainerCursor>,
    batch: Option<Batch>,
}

impl View for IterState {
    type V = StreamView;

    closed spec fn view(&self) -> StreamView {
        StreamView {
            key: (self.anchor_start, steps(self.path@)),
            base_depth: self.base_depth,
            cfg: StreamConfig {
                select: select_view(self.select),
                limits: self.limits,
                with_key: self.with_key,
                interval: self.sampling_interval as nat,
            },
            opening: match self.opening {
                Opening::Fresh => OpeningView::Fresh,
                Opening::Locating(q) => OpeningView::Locating(q@),
                Opening::Entering(start) => OpeningView::Entering(start),
                Opening::Opened => OpeningView::Opened,
            },
            base: self.base_value_start,
            cursor: self.child_cursor,
            yielded: self.yielded as nat,
            batch: match self.batch {
                Some(b) => Some(
                    (
                        b.text@,
                        b.count as nat,
                        b.landmarks@,
                        match b.item {
                            Some(item) => Some(item.spec_view()),
                            None => None,
                        },
                    ),
                ),
                None => None,
            },
        }
    }
}

impl IterState {
    /// What the stream's window holds.
    pub closed spec fn window(&self) -> WindowView {
        self.window@
    }

    pub closed spec fn wf(&self) -> bool {
        &&& self.window.wf()
        &&& self.chunk_bytes > 0
        &&& self.base_depth + self.path@.len() <= u32::MAX
        &&& self.opening matches Opening::Locating(q) ==> q.wf() && q@.key == self@.key
            && q@.base_depth == self.base_depth
        &&& self.opening !is Opened ==> self.yielded == 0
        &&& self.child_cursor matches Some(c) ==> {
            &&& self.opening is Opened
            &&& self.base_value_start is Some
            &&& self.yielded <= c.next_offset
        }
        &&& self.batch matches Some(b) ==> self.child_cursor is Some && b.wf(
            select_view(self.select),
            self.limits,
        )
    }

    /// How often opening the stream, or filling a batch of it, ticks the clock of the
    /// index at most.
    pub open spec fn ticks(&self) -> int {
        2 * self@.key.1.len() as int + 3
    }

    /// A stream over the children of the container that `path` leads to from
    /// `anchor_start`. Nothing is read before it is opened.
    pub fn new(
        session: &Session,
        path: Vec<Segment>,
        anchor_start: u64,
        base_depth: u32,
        select: Option<CompiledSelect>,
        limits: BatchLimits,
        with_key: bool,
    ) -> (it: Self)
        requires
            session.wf(),
            base_depth + path@.len() <= u32::MAX,
        ensures
            it.wf(),
            it@ == (StreamView {
                key: (anchor_start, steps(path@)),
                base_depth,
                cfg: StreamConfig {
                    select: select_view(select),
                    limits,
                    with_key,
                    interval: session@.sampling_interval(),
                },
                opening: OpeningView::Fresh,
                base: None,
                cursor: None,
                yielded: 0,
                batch: None,
            }),
            it.window() == (WindowView {
                chunk_bytes: session@.chunk_bytes,
                size: session@.size,
                chunks: Map::empty(),
                peak: 0,
            }),
            it.upcoming() == 1,
            it.chunk_bytes() == session@.chunk_bytes,
    {
        IterState {
            path,
            anchor_start,
            base_depth,
            limits,
            with_key,
            sampling_interval: session.array_landmark_sampling_interval(),
            chunk_bytes: session.chunk_bytes(),
            select,
            opening: Opening::Fresh,
            base_value_start: None,
            yielded: 0,
            window: session.new_window(),
            child_cursor: None,
            batch: None,
        }
    }

    /// Whether the stream has been opened.
    pub fn initialized(&self) -> (r: bool)
        ensures
            r == (self@.opening is Opened),
    {
        matches!(self.opening, Opening::Opened)
    }

    /// Whether the stream has children left to look for.
    pub fn is_open(&self) -> (r: bool)
        ensures
            r == (self@.cursor is Some),
    {
        self.child_cursor.is_some()
    }

    /// How many chunks the stream's window holds.
    pub fn window_len(&self) -> (n: usize)
        ensures
            n == self.window().chunks.len(),
    {
        self.window.len()
    }

    /// Open the stream. A stream that never opens holds no chunk.
    pub fn initialize(&mut self, session: &mut Session) -> (r: Result<(), SessionError>)
        requires
            old(self).wf(),
            old(session).wf(),
            old(session).has_room(old(self).ticks()),
        ensures
            final(self).wf(),
            final(session).wf(),
            final(self).ticks() == old(self).ticks(),
            final(session)@.index.tick <= old(session)@.index.tick + old(self).ticks(),
            final(self).chunk_bytes() == old(self).chunk_bytes(),
            final(self).upcoming() == (if final(self)@.run() == old(self)@.run() {
                old(self).upcoming()
            } else {
                1
            }),
            r matches Err(SessionError::Traverse(TraverseError::Pending(miss))) ==> {
                &&& old(self).window().lacks(final(self)@.keeps_from() as int, miss.0)
                &&& final(self).window() == old(self).window()
            },
            !(r matches Err(SessionError::Traverse(TraverseError::Pending(_)))) && old(self)@.opening
                !is Opened ==> final(self).window() == (match final(self)@.cursor {
                Some(cursor) => rested(old(self).window(), cursor.next_offset),
                None => WindowView { chunks: Map::empty(), ..old(self).window() },
            }),
            forall|doc: Seq<u8>| #[trigger]
                old(self).window().agrees(doc) ==> match r {
                    Err(SessionError::Traverse(TraverseError::Pending(miss))) => {
                        &&& final(self)@.opened(doc, final(session)@) == old(self)@.opened(
                            doc,
                            old(session)@,
                        )
                        &&& final(self)@.opening.awaits(doc, miss.0)
                    },
                    _ => (r, final(self)@, final(session)@) == old(self)@.opened(
                        doc,
                        old(session)@,
                    ),
                },
    {
        let r = self.open(session);
        if let Err(SessionError::Traverse(TraverseError::Pending(_))) = &r {
            return r;
        }
        match self.child_cursor {
            Some(cursor) => prune_window(&mut self.window, cursor.next_offset),
            None => self.window.clear(),
        }
        r
    }

    /// Open the stream, leaving its window as it is.
    fn open(&mut self, session: &mut Session) -> (r: Result<(), SessionError>)
        requires
            old(self).wf(),
            old(session).wf(),
            old(session).has_room(old(self).ticks()),
        ensures
            final(self).wf(),
            final(session).wf(),
            final(self).ticks() == old(self).ticks(),
            final(session)@.index.tick <= old(session)@.index.tick + old(self).ticks(),
            final(self).chunk_bytes() == old(self).chunk_bytes(),
            final(self).upcoming() == (if final(self)@.run() == old(self)@.run() {
                old(self).upcoming()
            } else {
                1
            }),
            final(self).window() == old(self).window(),
            r matches Err(SessionError::Traverse(TraverseError::Pending(miss))) ==> old(
                self,
            ).window().lacks(final(self)@.keeps_from() as int, miss.0),
            forall|doc: Seq<u8>| #[trigger]
                old(self).window().agrees(doc) ==> match r {
                    Err(SessionError::Traverse(TraverseError::Pending(miss))) => {
                        &&& final(self)@.opened(doc, final(session)@) == old(self)@.opened(
                            doc,
                            old(session)@,
                        )
                        &&& final(self)@.opening.awaits(doc, miss.0)
                    },
                    _ => (r, final(self)@, final(session)@) == old(self)@.opened(
                        doc,
                        old(session)@,
                    ),
                },
    {
        let ghost w = self.window@;
        let ghost was = self@;
        let ghost s0 = session@;
        if let Opening::Opened = &self.opening {
            return Ok(());
        }
        if let Opening::Fresh = &self.opening {
            let path: Vec<Segment> = copy_path(self.path.as_slice());
            let q = Locating::begin(session, path, self.anchor_start, self.base_depth);
            self.opening = Opening::Locating(q);
        }
        assert(forall|doc: Seq<u8>| #[trigger]
            w.agrees(doc) ==> self@.opened(doc, session@) == was.opened(doc, s0));
        if let Opening::Locating(q) = &mut self.opening {
            match q.step(session, &self.window) {
                Err(e) => {
                    if let TraverseError::Pending(_) = e {
                        return Err(SessionError::Traverse(e));
                    }
                    self.opening = Opening::Fresh;
                    return Err(SessionError::Traverse(e));
                },
                Ok(Resolved::NotNavigable(fault)) => {
                    self.opening = Opening::Fresh;
                    return Err(SessionError::Path(fault));
                },
                Ok(Resolved::Absent) => {
                    self.opening = Opening::Opened;
                    return Ok(());
                },
                Ok(Resolved::Found(start)) => {
                    self.opening = Opening::Entering(start);
                },
            }
        }
        assert(forall|doc: Seq<u8>| #[trigger]
            w.agrees(doc) ==> self@.opened(doc, session@) == was.opened(doc, s0));
        if let Opening::Entering(start) = self.opening {
            let mut walker = Walker::new(&self.window);
            match enter_container(&mut walker, start) {
                Err(e) => {
                    if let TraverseError::Pending(_) = e {
                        return Err(SessionError::Traverse(e));
                    }
                    self.opening = Opening::Fresh;
                    return Err(SessionError::Traverse(e));
                },
                Ok(None) => {
                    self.opening = Opening::Opened;
                    return Err(SessionError::Path(PathFault::ScalarTarget));
                },
                Ok(Some(cursor)) => {
                    self.opening = Opening::Opened;
                    self.base_value_start = Some(cursor.next_offset - 1);
                    self.child_cursor = Some(cursor);
                },
            }
        }
        Ok(())
    }

    /// Fill the next batch: its text, or `None` once the stream is exhausted. A missing
    /// chunk costs no item that was written before it: the filling goes on with the
    /// child that the chunk belongs to.
    pub fn fill_batch(&mut self, session: &mut Session) -> (r: Result<
        Option<Vec<u8>>,
        SessionError,
    >)
        requires
            old(self).wf(),
            old(session).wf(),
            old(session).has_room(old(self).ticks()),
        ensures
            final(self).wf(),
            final(session).wf(),
            final(self).ticks() == old(self).ticks(),
            final(session)@.index.tick <= old(session)@.index.tick + old(self).ticks(),
            final(self).chunk_bytes() == old(self).chunk_bytes(),
            final(self).upcoming() == (if final(self)@.run() == old(self)@.run() {
                old(self).upcoming()
            } else {
                1
            }),
            r matches Err(SessionError::Traverse(TraverseError::Pending(miss))) ==> {
                &&& old(self).window().lacks(final(self)@.keeps_from() as int, miss.0)
                &&& final(self).window() == old(self).window()
            },
            !(r matches Err(SessionError::Traverse(TraverseError::Pending(_)))) && old(self)@.cursor
                is Some ==> final(self).window() == (match final(self)@.cursor {
                Some(cursor) => rested(old(self).window(), cursor.next_offset),
                None => WindowView { chunks: Map::empty(), ..old(self).window() },
            }),
            forall|doc: Seq<u8>| #[trigger]
                old(self).window().agrees(doc) ==> match r {
                    Err(SessionError::Traverse(TraverseError::Pending(miss))) => {
                        &&& final(self)@.filled(doc, final(session)@) == old(self)@.filled(
                            doc,
                            old(session)@,
                        )
                        &&& final(self)@.cursor matches Some(cursor) ==> batch_awaits(
                            doc,
                            final(self)@.cfg.select,
                            final(self)@.batch_at(cursor),
                            miss.0,
                        )
                    },
                    _ => (crate::query::bytes_view(r), final(self)@, final(session)@) == old(
                        self,
                    )@.filled(doc, old(session)@),
                },
    {
        let ghost w = self.window@;
        let ghost was = self@;
        let ghost s0 = session@;
        let mut cursor: ContainerCursor = match self.child_cursor {
            None => return Ok(None),
            Some(cursor) => cursor,
        };
        let mut batch: Batch = match self.batch.take() {
            Some(batch) => batch,
            None => Batch::begin(),
        };
        let ghost before = batch_view(cursor, self.yielded, batch);
        assert(before == was.batch_at(cursor));
        let mut walker = Walker::new(&self.window);
        let r = fill(
            &mut walker,
            &self.select,
            self.limits,
            self.with_key,
            self.sampling_interval,
            &mut cursor,
            &mut self.yielded,
            &mut batch,
        );
        let ghost after = batch_view(cursor, self.yielded, batch);
        if let Err(e) = r {
            if let TraverseError::Pending(_) = e {
                self.child_cursor = Some(cursor);
                self.batch = Some(batch);
                assert(self@.batch_at(cursor) == after);
                return Err(SessionError::Traverse(e));
            }
        }
        let base: u64 = match self.base_value_start {
            Some(base) => base,
            None => 0,
        };
        if let Ok(BatchFill::Exhausted) = r {
            // The cursor sits AT the close. The count and the close go to the base
            // node, keyed on the entered container kind.
            session.store_child_count(
                self.base_depth,
                self.anchor_start,
                self.path.as_slice(),
                cursor.kind,
                base,
                self.yielded,
            );
            session.store_close(
                self.base_depth,
                self.anchor_start,
                self.path.as_slice(),
                cursor.kind,
                base,
                cursor.close_offset(),
            );
        }
        if batch.landmarks.len() > 0 {
            session.store_array_members(
                self.base_depth,
                self.anchor_start,
                self.path.as_slice(),
                base,
                batch.landmarks.as_slice(),
            );
        }
        match r {
            // The stream is known done: free the final chunk now and make later calls
            // no-ops.
            Ok(BatchFill::Exhausted) => {
                self.window.clear();
                self.child_cursor = None;
                if batch.count == 0 {
                    return Ok(None);
                }
                batch.text.push(RBRACKET);
                Ok(Some(batch.text))
            },
            Ok(BatchFill::Full) => {
                prune_window(&mut self.window, cursor.next_offset);
                self.child_cursor = Some(cursor);
                batch.text.push(RBRACKET);
                Ok(Some(batch.text))
            },
            // Pruned so an errored, abandoned stream doesn't retain chunks past the
            // scan position.
            Err(e) => {
                prune_window(&mut self.window, cursor.next_offset);
                self.child_cursor = Some(cursor);
                Err(SessionError::Traverse(e))
            },
        }
    }

    /// Take in the chunks that a burst brought, and the end of the source if the burst
    /// found it.
    pub fn absorb(&mut self, chunks: Vec<(u64, Bytes)>, end: Option<u64>)
        requires
            old(self).wf(),
        ensures
            final(self).wf(),
            final(self)@ == old(self)@,
            final(self).chunk_bytes() == old(self).chunk_bytes(),
            final(self).upcoming() == old(self).upcoming(),
            final(self).window() == pruned(
                with_end(with_chunks(old(self).window(), chunk_list(chunks@)), end),
                old(self)@.keeps_from(),
            ),
    {
        let keep_from: u64 = self.min_reachable();
        absorb(&mut self.window, chunks, end, keep_from);
    }

    /// Lowest offset that the stream might still read. The retention bound for its
    /// window.
    pub fn min_reachable(&self) -> (at: u64)
        requires
            self.wf(),
        ensures
            at == self@.keeps_from(),
    {
        match &self.opening {
            Opening::Fresh => self.anchor_start,
            Opening::Locating(q) => q.min_reachable(),
            Opening::Entering(start) => *start,
            Opening::Opened => match &self.child_cursor {
                None => 0,
                Some(cursor) => match &self.batch {
                    Some(Batch { item: Some(item), .. }) => match &item.value {
                        Some(p) => p.min_reachable(),
                        None => item.entry.location.start,
                    },
                    _ => cursor.next_offset,
                },
            },
        }
    }

    /// The size of the next burst while a path is looked up, that of the stream or one
    /// of a selection.
    pub closed spec fn upcoming(&self) -> u64 {
        match (self.opening, self.batch) {
            (Opening::Locating(q), _) => q.upcoming(),
            (_, Some(batch)) => item_upcoming(batch.item),
            _ => 1,
        }
    }

    /// The size of the chunks that the stream reads.
    pub closed spec fn chunk_bytes(&self) -> int {
        self.chunk_bytes as int
    }

    /// How many chunks to read when the one at `offset` is missing.
    pub fn burst(&mut self, offset: u64) -> (n: u64)
        requires
            old(self).wf(),
        ensures
            final(self).wf(),
            final(self)@ == old(self)@,
            final(self).window() == old(self).window(),
            final(self).chunk_bytes() == old(self).chunk_bytes(),
            n == old(self)@.burst_for(old(self).upcoming(), offset, old(self).chunk_bytes()),
            n >= 1,
            final(self).upcoming() == old(self)@.upcoming_after(old(self).upcoming()),
    {
        if let Opening::Locating(q) = &mut self.opening {
            return q.burst(offset);
        }
        match &mut self.batch {
            Some(Batch { item: Some(item), .. }) => {
                let end: u64 = item.entry.location.end;
                match &mut item.value {
                    Some(p) => p.burst(offset, self.chunk_bytes),
                    None => range_burst(offset, end, self.chunk_bytes),
                }
            },
            _ => 1,
        }
    }

    /// Note where a stream over an array stopped, so that a later random index resumes
    /// near there.
    pub fn record_early_break(&self, session: &mut Session)
        requires
            self.wf(),
            old(session).wf(),
            old(session).has_room(1),
        ensures
            final(session).wf(),
            final(session)@ == self@.broken_off(old(session)@, self.window()),
            final(session)@.index.tick <= old(session)@.index.tick + 1,
    {
        if let (Some(cursor), Some(open)) = (self.child_cursor, self.base_value_start) {
            if cursor.kind == ContainerKind::Array && cursor.index > 0 && cursor.next_offset
                < self.window.source_size() && self.sampling_interval > 0 {
                let member: [(usize, u64); 1] = [(cursor.index, cursor.next_offset)];
                assert(member@ =~= seq![(cursor.index, cursor.next_offset)]);
                session.store_array_members(
                    self.base_depth,
                    self.anchor_start,
                    self.path.as_slice(),
                    open,
                    &member,
                );
            }
        }
    }

    /// End the stream: it holds no chunk and yields nothing more.
    pub fn release(&mut self)
        requires
            old(self).wf(),
        ensures
            final(self).wf(),
            final(self)@ == (StreamView { cursor: None, batch: None, ..old(self)@ }),
            final(self).window() == (WindowView { chunks: Map::empty(), ..old(self).window() }),
    {
        self.window.clear();
        self.child_cursor = None;
        self.batch = None;
    }
}

impl StreamView {
    /// The session after a stream over an array was broken off: the element that would
    /// have come next is noted.
    pub open spec fn broken_off(self, s: SessionView, w: WindowView) -> SessionView {
        match (self.cursor, self.base) {
            (Some(cursor), Some(open)) => if cursor.kind is Array && cursor.index > 0
                && cursor.next_offset < w.bound() && self.cfg.interval > 0 {
                s.with_index(
                    s.index.with_array_scan(
                        self.base_depth,
                        self.key,
                        open,
                        seq![(cursor.index, cursor.next_offset)],
                    ),
                )
            } else {
                s
            },
            _ => s,
        }
    }
}

} // verus!
