//! What a stream yields over its whole life: the items of its container, one for each
//! child, in order, however they are cut into batches; and what it leaves in the
//! index is true of the document.

use vstd::prelude::*;

use crate::answers::{law_lookup_answers_from_the_document, leads_to, session_sound};
use crate::children::{
    child_balances, child_nests, children_balance, children_nest, cursor_after, first_child,
    law_children_can_be_resumed_from, law_count_is_the_number_of_children,
    law_iteration_ends_at_the_close, lemma_cursor_is_sound, lemma_yielded, opener,
    past_separator,
};
use crate::query::{value_bytes, LocatingView};
use crate::resolve::{
    child_step, container_at, fresh_scan, law_cursor_advances, lemma_child_reach, ChildEntry,
    ContainerCursor, ContainerKind, Resolved,
};
use crate::scan::{ByteClass, COMMA, LBRACKET, RBRACKET};
use crate::select::Selection;
use crate::session::{SessionError, SessionView};
use crate::soundness::{
    element_sound, law_stored_close_is_sound, law_stored_count_is_sound,
    law_stored_elements_are_sound,
};
use crate::stream::{
    batch_awaits, filled, item_begun, item_text, wanted_key, BatchEnd, BatchView, StreamConfig,
    StreamView,
};
use crate::chunks::WindowView;
use crate::walker::TraverseError;

verus! {

// ---- the items of a container

/// The item of a child.
pub open spec fn child_item(
    doc: Seq<u8>,
    entry: ChildEntry,
    select: Option<Selection>,
    with_key: bool,
) -> Result<Seq<u8>, TraverseError> {
    match wanted_key(doc, entry.key, with_key) {
        Err(e) => Err(e),
        Ok(key) => match item_begun(entry, key, select).answer(doc, select) {
            Err(e) => Err(e),
            Ok(value) => Ok(item_text(key, value)),
        },
    }
}

/// The items of the children from a cursor on, up to the end of the container or to
/// the fault that stops the stream.
pub open spec fn items_from(
    doc: Seq<u8>,
    select: Option<Selection>,
    with_key: bool,
    cursor: ContainerCursor,
) -> (Seq<Seq<u8>>, Option<TraverseError>)
    decreases doc.len() - cursor.next_offset,
{
    match child_step(doc, cursor) {
        Err(e) => (Seq::empty(), Some(e)),
        Ok((None, _)) => (Seq::empty(), None),
        Ok((Some(entry), next)) => match child_item(doc, entry, select, with_key) {
            Err(e) => (Seq::empty(), Some(e)),
            Ok(item) => if cursor.next_offset < next.next_offset <= doc.len() {
                let (rest, end) = items_from(doc, select, with_key, next);
                (seq![item] + rest, end)
            } else {
                (Seq::empty(), None)
            },
        },
    }
}

/// A text that holds `count` items with more of them written to it.
pub open spec fn written(text: Seq<u8>, count: nat, items: Seq<Seq<u8>>) -> Seq<u8>
    decreases items.len(),
{
    if items.len() == 0 {
        text
    } else {
        let next = (if count > 0 {
            text.push(COMMA)
        } else {
            text
        }) + items[0];
        written(next, count + 1, items.skip(1))
    }
}

/// Filling goes through the items one by one.
proof fn lemma_filled(doc: Seq<u8>, cfg: StreamConfig, b: BatchView)
    requires
        doc.len() <= u64::MAX,
        b.item is None,
    ensures
        ({
            let (items, fault) = items_from(doc, cfg.select, cfg.with_key, b.cursor);
            let (end, out) = filled(doc, cfg, b);
            let n = (out.count - b.count) as int;
            &&& out.item is None
            &&& 0 <= n <= items.len()
            &&& out.text == written(b.text, b.count, items.take(n))
            &&& match end {
                BatchEnd::Full => {
                    &&& n > 0
                    &&& cfg.limits.reached(out.count, out.text.len())
                    &&& items_from(doc, cfg.select, cfg.with_key, out.cursor) == (
                        items.skip(n),
                        fault,
                    )
                },
                BatchEnd::Exhausted => n == items.len() && fault is None,
                BatchEnd::Fault(e) => n == items.len() && fault == Some(e),
            }
        }),
    decreases doc.len() - b.cursor.next_offset,
{
    let (items, fault) = items_from(doc, cfg.select, cfg.with_key, b.cursor);
    let (end, out) = filled(doc, cfg, b);
    if let Ok((Some(entry), next)) = child_step(doc, b.cursor) {
        law_cursor_advances(doc, b.cursor);
        if let Ok(key) = wanted_key(doc, entry.key, cfg.with_key) {
            let taken = BatchView {
                item: Some(item_begun(entry, key, cfg.select)),
                ..b.taking(next).noting(entry, cfg.interval)
            };
            assert(filled(doc, cfg, b) == filled(doc, cfg, taken));
            if let Ok(value) = item_begun(entry, key, cfg.select).answer(doc, cfg.select) {
                let item = item_text(key, value);
                let (rest, _) = items_from(doc, cfg.select, cfg.with_key, next);
                let wrote = taken.writing(value);
                assert(items == seq![item] + rest);
                assert(items.skip(1) =~= rest);
                if cfg.limits.reached(wrote.count, wrote.text.len()) {
                    assert(items.take(1) =~= seq![item]);
                    assert(items.take(1).skip(1) =~= Seq::empty());
                    assert(written(wrote.text, wrote.count, Seq::empty()) == wrote.text);
                } else {
                    lemma_filled(doc, cfg, wrote);
                    let m = (out.count - wrote.count) as int;
                    assert(items.take(m + 1)[0] == item);
                    assert(items.take(m + 1).skip(1) =~= rest.take(m));
                    assert(items.skip(m + 1) =~= rest.skip(m));
                }
            } else {
                assert(items.take(0) =~= Seq::empty());
            }
        } else {
            assert(items.take(0) =~= Seq::empty());
        }
    } else {
        assert(items.take(0) =~= Seq::empty());
    }
}

/// A batch holds the items that come next, in order, and leaves the others for the
/// batches after it: whatever the limits, the batches of a stream are its items cut
/// into pieces. Every batch but the last is full, and none is empty.
pub proof fn law_batches_cut_the_items(doc: Seq<u8>, cfg: StreamConfig, b: BatchView)
    requires
        doc.len() <= u64::MAX,
        b.item is None,
        b.count == 0,
        b.text == seq![LBRACKET],
    ensures
        ({
            let (items, fault) = items_from(doc, cfg.select, cfg.with_key, b.cursor);
            let (end, out) = filled(doc, cfg, b);
            &&& out.count <= items.len()
            &&& out.text == written(seq![LBRACKET], 0, items.take(out.count as int))
            &&& match end {
                BatchEnd::Full => {
                    &&& out.count > 0
                    &&& cfg.limits.reached(out.count, out.text.len())
                    &&& items_from(doc, cfg.select, cfg.with_key, out.cursor) == (
                        items.skip(out.count as int),
                        fault,
                    )
                },
                BatchEnd::Exhausted => out.count == items.len() && fault is None,
                BatchEnd::Fault(e) => out.count == items.len() && fault == Some(e),
            }
        }),
{
    lemma_filled(doc, cfg, b);
}

/// The items that a stream has yet to yield, and the fault that stops it.
pub open spec fn items_left(doc: Seq<u8>, v: StreamView) -> (Seq<Seq<u8>>, Option<TraverseError>) {
    match v.cursor {
        Some(cursor) => items_from(doc, v.cfg.select, v.cfg.with_key, cursor),
        None => (Seq::empty(), None),
    }
}

/// The text of a batch of items.
pub open spec fn batch_text(items: Seq<Seq<u8>>) -> Seq<u8> {
    written(seq![LBRACKET], 0, items).push(RBRACKET)
}

/// The `k`th batch that a stream yields from now on.
pub open spec fn nth_batch(doc: Seq<u8>, v: StreamView, s: SessionView, k: nat) -> Result<
    Option<Seq<u8>>,
    SessionError,
>
    decreases k,
{
    let (text, next, after) = v.filled(doc, s);
    if k == 0 {
        text
    } else {
        nth_batch(doc, next, after, (k - 1) as nat)
    }
}

/// Pieces put together again.
pub open spec fn joined(pieces: Seq<Seq<Seq<u8>>>) -> Seq<Seq<u8>>
    decreases pieces.len(),
{
    if pieces.len() == 0 {
        Seq::empty()
    } else {
        pieces[0] + joined(pieces.drop_first())
    }
}

/// The whole of a stream: its batches, put together, are its items, each once and in
/// order; no batch is empty, and all but the last are full; then it yields nothing
/// more, for ever. Where the document is at fault, the batches hold the first of the
/// items, and the fault comes next.
pub proof fn law_a_stream_yields_its_items_once(doc: Seq<u8>, v: StreamView, s: SessionView) -> (
    pieces: Seq<Seq<Seq<u8>>>)
    requires
        doc.len() <= u64::MAX,
        v.batch is None,
    ensures
        forall|k: int| 0 <= k < pieces.len() ==> (#[trigger] pieces[k]).len() > 0,
        forall|k: int|
            0 <= k < pieces.len() ==> nth_batch(doc, v, s, k as nat) == Ok::<
                Option<Seq<u8>>,
                SessionError,
            >(Some(batch_text(#[trigger] pieces[k]))),
        forall|k: int|
            0 <= k < pieces.len() - 1 ==> v.cfg.limits.reached(
                (#[trigger] pieces[k]).len(),
                written(seq![LBRACKET], 0, pieces[k]).len(),
            ),
        match items_left(doc, v).1 {
            None => {
                &&& joined(pieces) == items_left(doc, v).0
                &&& forall|k: nat|
                    k >= pieces.len() ==> #[trigger] nth_batch(doc, v, s, k) == Ok::<
                        Option<Seq<u8>>,
                        SessionError,
                    >(None)
            },
            Some(e) => {
                &&& joined(pieces).len() <= items_left(doc, v).0.len()
                &&& joined(pieces) == items_left(doc, v).0.take(joined(pieces).len() as int)
                &&& nth_batch(doc, v, s, pieces.len()) == Err::<Option<Seq<u8>>, SessionError>(
                    SessionError::Traverse(e),
                )
            },
        },
    decreases items_left(doc, v).0.len(),
{
    let (items, fault) = items_left(doc, v);
    let none = Seq::<Seq<Seq<u8>>>::empty();
    match v.cursor {
        None => {
            assert forall|k: nat| #[trigger] nth_batch(doc, v, s, k) == Ok::<
                Option<Seq<u8>>,
                SessionError,
            >(None) by {
                lemma_nothing_more(doc, v, s, k);
            }
            none
        },
        Some(cursor) => {
            let b = v.batch_at(cursor);
            law_batches_cut_the_items(doc, v.cfg, b);
            let (end, out) = filled(doc, v.cfg, b);
            let (text, next, after) = v.filled(doc, s);
            let n = out.count as int;
            let piece = items.take(n);
            match end {
                BatchEnd::Fault(_) => {
                    assert(items.take(0) =~= joined(none));
                    none
                },
                BatchEnd::Exhausted => {
                    let pieces = if n > 0 {
                        seq![piece]
                    } else {
                        none
                    };
                    assert(piece =~= items);
                    assert(pieces.len() > 0 ==> pieces.drop_first() =~= none);
                    assert(joined(none) =~= Seq::empty());
                    assert(joined(pieces) =~= items);
                    assert forall|k: nat| k >= pieces.len() implies #[trigger] nth_batch(
                        doc,
                        v,
                        s,
                        k,
                    ) == Ok::<Option<Seq<u8>>, SessionError>(None) by {
                        if k > 0 {
                            lemma_nothing_more(doc, next, after, (k - 1) as nat);
                        }
                    }
                    pieces
                },
                BatchEnd::Full => {
                    let rest = law_a_stream_yields_its_items_once(doc, next, after);
                    let pieces = seq![piece] + rest;
                    assert(pieces.drop_first() =~= rest);
                    assert(joined(pieces) == piece + joined(rest));
                    assert forall|k: int| 0 <= k < pieces.len() implies {
                        &&& (#[trigger] pieces[k]).len() > 0
                        &&& nth_batch(doc, v, s, k as nat) == Ok::<
                            Option<Seq<u8>>,
                            SessionError,
                        >(Some(batch_text(pieces[k])))
                        &&& k < pieces.len() - 1 ==> v.cfg.limits.reached(
                            pieces[k].len(),
                            written(seq![LBRACKET], 0, pieces[k]).len(),
                        )
                    } by {
                        if k > 0 {
                            assert(pieces[k] == rest[k - 1]);
                            assert(nth_batch(doc, v, s, k as nat) == nth_batch(
                                doc,
                                next,
                                after,
                                (k - 1) as nat,
                            ));
                        }
                    }
                    if fault is None {
                        assert(joined(pieces) =~= items);
                        assert forall|k: nat| k >= pieces.len() implies #[trigger] nth_batch(
                            doc,
                            v,
                            s,
                            k,
                        ) == Ok::<Option<Seq<u8>>, SessionError>(None) by {
                            assert(nth_batch(doc, next, after, (k - 1) as nat) == Ok::<
                                Option<Seq<u8>>,
                                SessionError,
                            >(None));
                        }
                    } else {
                        let m = joined(rest).len() as int;
                        assert(joined(pieces) =~= items.take(n + m));
                    }
                    pieces
                },
            }
        },
    }
}

/// A stream that has nothing left yields nothing, for ever.
proof fn lemma_nothing_more(doc: Seq<u8>, v: StreamView, s: SessionView, k: nat)
    requires
        v.cursor is None,
    ensures
        nth_batch(doc, v, s, k) == Ok::<Option<Seq<u8>>, SessionError>(None),
    decreases k,
{
    if k > 0 {
        lemma_nothing_more(doc, v, s, (k - 1) as nat);
    }
}

/// After `n + 1` children a cursor stands where it does `n` children after the first.
proof fn lemma_cursor_after_first(doc: Seq<u8>, first: ContainerCursor, n: nat)
    requires
        child_step(doc, first) matches Ok((Some(_), _)),
    ensures
        cursor_after(doc, first, n + 1) == cursor_after(doc, child_step(doc, first)->Ok_0.1, n),
    decreases n,
{
    if n > 0 {
        lemma_cursor_after_first(doc, first, (n - 1) as nat);
    } else {
        assert(cursor_after(doc, first, 0) == Some(first));
    }
}

/// There is one item for each child, in the order of the children.
pub proof fn law_items_are_the_children(
    doc: Seq<u8>,
    select: Option<Selection>,
    with_key: bool,
    first: ContainerCursor,
    n: nat,
)
    requires
        doc.len() <= u64::MAX,
        n <= items_from(doc, select, with_key, first).0.len(),
    ensures
        ({
            let (items, fault) = items_from(doc, select, with_key, first);
            let c = cursor_after(doc, first, n)->0;
            &&& cursor_after(doc, first, n) is Some
            &&& n < items.len() ==> {
                &&& child_step(doc, c) matches Ok((Some(child), _))
                &&& child_item(doc, child, select, with_key) == Ok::<Seq<u8>, TraverseError>(
                    items[n as int],
                )
            }
            &&& n == items.len() && fault is None ==> child_step(doc, c) matches Ok((None, _))
        }),
    decreases n,
{
    let (items, fault) = items_from(doc, select, with_key, first);
    if let Ok((Some(entry), next)) = child_step(doc, first) {
        law_cursor_advances(doc, first);
        if n > 0 {
            let (rest, _) = items_from(doc, select, with_key, next);
            assert(items == seq![items[0]] + rest);
            law_items_are_the_children(doc, select, with_key, next, (n - 1) as nat);
            lemma_cursor_after_first(doc, first, (n - 1) as nat);
        }
    }
}

/// Without a selection and without keys, an item is the child's own bytes.
pub proof fn law_bare_items_are_source_bytes(doc: Seq<u8>, entry: ChildEntry)
    ensures
        child_item(doc, entry, None, false) == Ok::<Seq<u8>, TraverseError>(
            value_bytes(doc, entry.location),
        ),
{
}

/// A stream that has taken `n` children, and is to take the next, asks for no chunk that
/// starts a block or more past that child: one that is stopped early has read no further.
pub proof fn law_a_stream_reads_the_child_at_hand(
    doc: Seq<u8>,
    select: Option<Selection>,
    first: ContainerCursor,
    n: nat,
    b: BatchView,
    miss: u64,
)
    requires
        doc.len() <= u64::MAX,
        b.item is None,
        cursor_after(doc, first, n) == Some(b.cursor),
        batch_awaits(doc, select, b, miss),
    ensures
        match child_step(doc, b.cursor) {
            Ok((Some(_), next)) => {
                &&& cursor_after(doc, first, n + 1) == Some(next)
                &&& miss < next.next_offset + 64
            },
            Ok((None, end)) => miss < end.next_offset + 64,
            Err(_) => true,
        },
{
    if child_step(doc, b.cursor) is Ok {
        lemma_child_reach(doc, b.cursor);
    }
}

// ---- what a stream leaves in the index

/// The brackets of every child of the container that opens at `open` match, and no
/// separator stands before its closing byte.
pub open spec fn tidy(doc: Seq<u8>, kind: ContainerKind, open: int) -> bool {
    forall|n: nat|
        (#[trigger] cursor_after(doc, first_child(kind, open), n)) matches Some(c) ==> {
            &&& child_nests(doc, c)
            &&& child_balances(doc, c)
            &&& child_step(doc, c) matches Ok((None, _)) ==> n == 0 || !past_separator(doc, c)
        }
}

/// A stream stands among the children of the container that its path leads to.
pub open spec fn stream_sound(doc: Seq<u8>, s: SessionView, v: StreamView) -> bool {
    v.cursor matches Some(cursor) ==> {
        &&& v.base matches Some(open)
        &&& leads_to(doc, s, v.key) matches Ok(Resolved::Found(start))
        &&& container_at(doc, start as int) == Ok::<Option<(ContainerKind, int)>, TraverseError>(
            Some((cursor.kind, open as int)),
        )
        &&& cursor_after(doc, first_child(cursor.kind, open as int), v.yielded) == Some(cursor)
    }
}

/// A noted element can be resumed from.
spec fn noted_sound(doc: Seq<u8>, open: int, marks: Seq<(usize, u64)>) -> bool {
    forall|i: int|
        0 <= i < marks.len() ==> {
            &&& element_sound(doc, fresh_scan(ContainerKind::Array, open), #[trigger] marks[i])
            &&& open < marks[i].1 <= doc.len()
        }
}

/// While a batch is filled the cursor goes from child to child, and every element
/// noted can be resumed from.
proof fn lemma_filling(
    doc: Seq<u8>,
    cfg: StreamConfig,
    b: BatchView,
    kind: ContainerKind,
    open: int,
)
    requires
        doc.len() <= usize::MAX,
        doc.len() <= u64::MAX,
        0 <= open < doc.len(),
        tidy(doc, kind, open),
        cursor_after(doc, first_child(kind, open), b.yielded) == Some(b.cursor),
        noted_sound(doc, open, b.landmarks),
        kind is Object ==> b.landmarks.len() == 0,
    ensures
        ({
            let (end, out) = filled(doc, cfg, b);
            &&& noted_sound(doc, open, out.landmarks)
            &&& kind is Object ==> out.landmarks.len() == 0
            &&& match end {
                BatchEnd::Exhausted => cursor_after(doc, first_child(kind, open), out.yielded)
                    matches Some(c) && child_step(doc, c) == Ok::<
                    (Option<ChildEntry>, ContainerCursor),
                    TraverseError,
                >((None, out.cursor)),
                _ => cursor_after(doc, first_child(kind, open), out.yielded) == Some(out.cursor),
            }
        }),
    decreases
            doc.len() - b.cursor.next_offset,
            (if b.item is Some {
                1int
            } else {
                0
            }),
{
    let first = first_child(kind, open);
    lemma_yielded(doc, first, b.yielded);
    match b.item {
        Some(item) => {
            if let Ok(value) = item.answer(doc, cfg.select) {
                let wrote = b.writing(value);
                if !cfg.limits.reached(wrote.count, wrote.text.len()) {
                    lemma_filling(doc, cfg, wrote, kind, open);
                }
            }
        },
        None => {
            if let Ok((Some(entry), next)) = child_step(doc, b.cursor) {
                law_cursor_advances(doc, b.cursor);
                assert(cursor_after(doc, first, b.yielded + 1) == Some(next));
                if let Ok(key) = wanted_key(doc, entry.key, cfg.with_key) {
                    let taken = BatchView {
                        item: Some(item_begun(entry, key, cfg.select)),
                        ..b.taking(next).noting(entry, cfg.interval)
                    };
                    if kind is Array {
                        assert(children_nest(doc, first, b.yielded));
                        crate::children::law_iteration_is_indexing(doc, open, b.yielded as usize);
                        law_children_can_be_resumed_from(doc, open, b.yielded as usize);
                    }
                    lemma_filling(doc, cfg, taken, kind, open);
                }
            }
        },
    }
}

/// Where a path leads to a container, the container opens in the document.
proof fn lemma_opens(doc: Seq<u8>, start: int, kind: ContainerKind, open: int)
    requires
        0 <= start,
        container_at(doc, start) == Ok::<Option<(ContainerKind, int)>, TraverseError>(
            Some((kind, open)),
        ),
    ensures
        0 <= open < doc.len(),
        doc[open] == opener(kind),
{
    crate::scan::lemma_run_end(doc, start, ByteClass::Whitespace);
}

/// Opening a stream leaves the session true, and the stream before the first child of
/// the container that its path leads to.
pub proof fn law_opening_keeps_the_session_true(doc: Seq<u8>, s: SessionView, v: StreamView)
    requires
        doc.len() <= u64::MAX,
        v.key.1.len() <= usize::MAX,
        session_sound(doc, s),
        v.opening is Fresh,
        v.cursor is None,
        v.yielded == 0,
    ensures
        ({
            let (r, opened, next) = v.opened(doc, s);
            &&& session_sound(doc, next)
            &&& stream_sound(doc, next, opened)
            &&& opened.batch == v.batch
            &&& opened.key == v.key
        }),
{
    law_lookup_answers_from_the_document(doc, s, v.key, v.base_depth);
    let q = LocatingView::begun(s, v.key, v.base_depth);
    let (led, next) = q.answer(doc, s.asked(v.key.0, v.key.1));
    if let Ok(Resolved::Found(start)) = led {
        if let Ok(Some((kind, open))) = container_at(doc, start as int) {
            lemma_opens(doc, start as int, kind, open);
            assert(cursor_after(doc, first_child(kind, open), 0) == Some(
                first_child(kind, open),
            ));
        }
    }
}

/// Filling a batch leaves the session true, and the stream among the children of its
/// container: the child count, the close and the elements that it notes are those of
/// the document.
pub proof fn law_filling_keeps_the_session_true(doc: Seq<u8>, s: SessionView, v: StreamView)
    requires
        doc.len() <= usize::MAX,
        doc.len() <= u64::MAX,
        session_sound(doc, s),
        stream_sound(doc, s, v),
        v.batch is None,
        v.cursor matches Some(cursor) ==> tidy(doc, cursor.kind, v.base->0 as int),
    ensures
        ({
            let (r, after, next) = v.filled(doc, s);
            &&& session_sound(doc, next)
            &&& stream_sound(doc, next, after)
            &&& after.batch is None
        }),
{
    if let Some(cursor) = v.cursor {
        let open = v.base->0;
        let kind = cursor.kind;
        let objects = s.index.cap > 0;
        let start = leads_to(doc, s, v.key)->Ok_0->Found_0;
        let first = first_child(kind, open as int);
        let b = v.batch_at(cursor);
        let (end, out) = filled(doc, v.cfg, b);
        lemma_opens(doc, start as int, kind, open as int);
        lemma_filling(doc, v.cfg, b, kind, open as int);
        lemma_yielded(doc, first, out.yielded);
        let told = match end {
            BatchEnd::Exhausted => {
                let c = cursor_after(doc, first, out.yielded)->0;
                assert(children_nest(doc, first, out.yielded));
                assert(children_balance(doc, first, out.yielded));
                law_count_is_the_number_of_children(doc, kind, open as int, out.yielded);
                law_iteration_ends_at_the_close(doc, kind, open as int, out.yielded);
                law_stored_count_is_sound(
                    doc,
                    s.index,
                    v.base_depth,
                    v.key,
                    kind,
                    start,
                    open,
                    out.yielded as u64,
                    objects,
                );
                let counted = s.index.with_child_count(
                    v.base_depth,
                    v.key,
                    kind,
                    open,
                    out.yielded as u64,
                );
                let close = (out.cursor.next_offset + 1) as u64;
                law_stored_close_is_sound(
                    doc,
                    counted,
                    v.base_depth,
                    v.key,
                    kind,
                    start,
                    open,
                    close,
                    objects,
                );
                assert(out.cursor.kind == kind);
                s.with_index(counted.with_close(v.base_depth, v.key, kind, open, close))
            },
            _ => s,
        };
        assert(session_sound(doc, told) && told.index.cap == s.index.cap);
        if out.landmarks.len() > 0 {
            law_stored_elements_are_sound(
                doc,
                told.index,
                v.base_depth,
                v.key,
                start,
                open,
                out.landmarks,
                objects,
            );
        }
    }
}

/// Breaking a stream off leaves the session true: the place that it notes is one from
/// which a lookup can go on.
pub proof fn law_breaking_off_keeps_the_session_true(
    doc: Seq<u8>,
    s: SessionView,
    v: StreamView,
    w: WindowView,
)
    requires
        doc.len() <= usize::MAX,
        doc.len() <= u64::MAX,
        session_sound(doc, s),
        stream_sound(doc, s, v),
        v.cursor matches Some(cursor) ==> tidy(doc, cursor.kind, v.base->0 as int),
    ensures
        session_sound(doc, v.broken_off(s, w)),
{
    if let Some(cursor) = v.cursor {
        let open = v.base->0;
        let start = leads_to(doc, s, v.key)->Ok_0->Found_0;
        if cursor.kind is Array {
            let first = first_child(ContainerKind::Array, open as int);
            let mark = (cursor.index, cursor.next_offset);
            lemma_opens(doc, start as int, cursor.kind, open as int);
            lemma_yielded(doc, first, v.yielded);
            assert(children_nest(doc, first, v.yielded));
            lemma_cursor_is_sound(doc, open as int, v.yielded as usize);
            law_stored_elements_are_sound(
                doc,
                s.index,
                v.base_depth,
                v.key,
                start,
                open,
                seq![mark],
                s.index.cap > 0,
            );
        }
    }
}

} // verus!
