//! One pass over a child gives every field what a projection of its own would give.

use vstd::prelude::*;

use crate::children::{
    children_nest, cursor_after, first_child, law_iteration_is_indexing, lemma_no_more_elements,
    lemma_yielded,
};
use crate::eval::{
    any_looks, field_pick, law_pick_is_projection, legible, looks, matches_in, null_text,
    projected_one, sub_path, unmatched, walked, with_child, Fields, Matches,
};
use crate::path::Step;
use crate::resolve::{
    child_step, container_at, cursor_at, element_at, entry_key, follow, law_cursor_advances,
    lemma_entry_key, lemma_follow, lemma_member_value, lemma_ws_idempotent, locate, member_value,
    object_scan, ContainerCursor, ContainerKind, EntryKey, Resolved, ValueLocation,
};
use crate::scan::{ws_end, ByteClass, RBRACE};
use crate::walker::{doc_range, value_end, TraverseError};

verus! {

/// A location is that of the value that starts there.
pub open spec fn is_value(doc: Seq<u8>, location: ValueLocation) -> bool {
    &&& ws_end(doc, location.start as int) == location.start
    &&& location.start < doc.len()
    &&& value_end(doc, location.start as int) == Ok::<u64, TraverseError>(location.end)
}

/// The value of a field, once the fields are matched.
pub open spec fn field_value(
    doc: Seq<u8>,
    path: Seq<Step>,
    matched: Option<ValueLocation>,
    child: u64,
) -> Result<Seq<u8>, TraverseError> {
    match field_pick(path, matched, child) {
        None => Ok(null_text()),
        Some(pick) => pick.answer(doc, sub_path(path)),
    }
}

/// A walk through an object matches a field with the member that a lookup of its
/// name finds.
proof fn lemma_walked_member(
    doc: Seq<u8>,
    fields: Fields,
    cursor: ContainerCursor,
    matched: Matches,
    i: int,
    name: Seq<char>,
)
    requires
        doc.len() <= u64::MAX,
        cursor.kind is Object,
        matched.len() == fields.len(),
        0 <= i < fields.len(),
        fields[i].1.len() > 0,
        fields[i].1[0] == Step::Member(name),
        walked(doc, fields, cursor, matched) is Ok,
    ensures
        ({
            let found = walked(doc, fields, cursor, matched)->Ok_0;
            let scan = object_scan(doc, cursor.next_offset as int, name, false).outcome;
            &&& found.len() == fields.len()
            &&& match (matched[i], found[i]) {
                (Some(_), _) => found[i] == matched[i],
                (None, Some(location)) => {
                    &&& scan == Ok::<Option<u64>, TraverseError>(Some(location.start))
                    &&& is_value(doc, location)
                },
                (None, None) => scan == Ok::<Option<u64>, TraverseError>(None),
            }
        }),
    decreases doc.len() - cursor.next_offset,
{
    let at = cursor.next_offset as int;
    lemma_entry_key(doc, at);
    if matched[i] is None {
        assert(looks(fields, matched, i));
    }
    if any_looks(fields, matched) {
        if let Ok((Some(entry), next)) = child_step(doc, cursor) {
            law_cursor_advances(doc, cursor);
            let (o, c) = match entry_key(doc, at) {
                EntryKey::Key(o, c) => (o, c),
                _ => (0, 0),
            };
            let interior = doc.subrange(o + 1, c);
            lemma_member_value(doc, c);
            let v = member_value(doc, c)->Ok_0;
            lemma_follow(doc, v, RBRACE);
            let f = follow(doc, v, RBRACE)->Ok_0;
            assert(doc_range(doc, o + 1, c) =~= interior);
            let colon = ws_end(doc, c + 1);
            crate::scan::lemma_run_end(doc, c + 1, ByteClass::Whitespace);
            lemma_ws_idempotent(doc, colon + 1);
            crate::scan::lemma_run_end(doc, colon + 1, ByteClass::Whitespace);
            let seen = with_child(doc, entry, fields, matched);
            lemma_walked_member(doc, fields, next, seen, i, name);
            if f.last {
                lemma_entry_key(doc, f.at);
                crate::scan::lemma_run_end(doc, f.end, ByteClass::Whitespace);
                lemma_ws_idempotent(doc, f.end);
            }
        }
    }
}

/// A field that has its child keeps it.
proof fn lemma_walked_keeps(
    doc: Seq<u8>,
    fields: Fields,
    cursor: ContainerCursor,
    matched: Matches,
    i: int,
)
    requires
        matched.len() == fields.len(),
        0 <= i < fields.len(),
        matched[i] is Some,
    ensures
        walked(doc, fields, cursor, matched) matches Ok(found) ==> found.len() == fields.len()
            && found[i] == matched[i],
    decreases doc.len() - cursor.next_offset,
{
    if any_looks(fields, matched) {
        if let Ok((Some(entry), next)) = child_step(doc, cursor) {
            if legible(doc, entry.key, fields, matched) && cursor.next_offset < next.next_offset
                <= doc.len() {
                lemma_walked_keeps(doc, fields, next, with_child(doc, entry, fields, matched), i);
            }
        }
    }
}

/// A walk through an array matches a field with the element that a lookup of its
/// index finds.
proof fn lemma_walked_element(
    doc: Seq<u8>,
    fields: Fields,
    open: int,
    n: nat,
    matched: Matches,
    i: int,
    index: usize,
)
    requires
        doc.len() <= u64::MAX,
        doc.len() <= usize::MAX,
        0 <= open < doc.len(),
        cursor_after(doc, first_child(ContainerKind::Array, open), n) is Some,
        forall|k: nat| #[trigger]
            children_nest(doc, first_child(ContainerKind::Array, open), k),
        matched.len() == fields.len(),
        0 <= i < fields.len(),
        fields[i].1.len() > 0,
        fields[i].1[0] == Step::Element(index),
        matched[i] is None,
        n <= index,
        walked(
            doc,
            fields,
            cursor_after(doc, first_child(ContainerKind::Array, open), n)->0,
            matched,
        ) is Ok,
    ensures
        ({
            let cursor = cursor_after(doc, first_child(ContainerKind::Array, open), n)->0;
            let found = walked(doc, fields, cursor, matched)->Ok_0;
            &&& found.len() == fields.len()
            &&& match found[i] {
                Some(location) => {
                    &&& element_at(doc, open, index) == Ok::<Option<u64>, TraverseError>(
                        Some(location.start),
                    )
                    &&& is_value(doc, location)
                },
                None => element_at(doc, open, index) == Ok::<Option<u64>, TraverseError>(None),
            }
        }),
    decreases
            doc.len() - cursor_after(
                doc,
                first_child(ContainerKind::Array, open),
                n,
            )->0.next_offset,
{
    let first = first_child(ContainerKind::Array, open);
    let cursor = cursor_after(doc, first, n)->0;
    lemma_yielded(doc, first, n);
    assert(children_nest(doc, first, n));
    assert(looks(fields, matched, i));
    law_iteration_is_indexing(doc, open, n as usize);
    match child_step(doc, cursor) {
        Ok((Some(entry), next)) => {
            law_cursor_advances(doc, cursor);
            let at = cursor.next_offset as int;
            crate::scan::lemma_run_end(doc, at, ByteClass::Whitespace);
            lemma_ws_idempotent(doc, at);
            let seen = with_child(doc, entry, fields, matched);
            assert(cursor_after(doc, first, n + 1) == Some(next));
            if index == n {
                lemma_walked_keeps(doc, fields, next, seen, i);
            } else {
                lemma_walked_element(doc, fields, open, n + 1, seen, i, index);
            }
        },
        Ok((None, _)) => {
            lemma_no_more_elements(doc, open, n as usize, index);
        },
        Err(_) => {},
    }
}

/// A walk matches no field whose first step does not fit the kind of the container.
proof fn lemma_walked_mismatch(
    doc: Seq<u8>,
    fields: Fields,
    cursor: ContainerCursor,
    matched: Matches,
    i: int,
)
    requires
        doc.len() <= u64::MAX,
        matched.len() == fields.len(),
        0 <= i < fields.len(),
        fields[i].1.len() > 0,
        (fields[i].1[0] is Element) == (cursor.kind is Object),
        matched[i] is None,
        walked(doc, fields, cursor, matched) is Ok,
    ensures
        walked(doc, fields, cursor, matched)->Ok_0.len() == fields.len(),
        walked(doc, fields, cursor, matched)->Ok_0[i] is None,
    decreases doc.len() - cursor.next_offset,
{
    if any_looks(fields, matched) {
        if let Ok((Some(entry), next)) = child_step(doc, cursor) {
            law_cursor_advances(doc, cursor);
            assert((entry.key is Member) == (cursor.kind is Object));
            lemma_walked_mismatch(doc, fields, next, with_child(doc, entry, fields, matched), i);
        }
    }
}

/// Where a path leads from its second step on is where its rest leads. Only the
/// number of the step at fault differs.
proof fn lemma_locate_rest(doc: Seq<u8>, path: Seq<Step>, seg: int, start: u64)
    requires
        0 < seg <= path.len(),
    ensures
        match (locate(doc, path, seg, start, false), locate(doc, path.skip(1), seg - 1, start, false)) {
            (Ok(Resolved::NotNavigable(_)), Ok(Resolved::NotNavigable(_))) => true,
            (a, b) => a == b,
        },
    decreases path.len() - seg,
{
    if seg < path.len() {
        let rest = path.skip(1);
        assert(rest[seg - 1] == path[seg]);
        if let Ok(Some((kind, open))) = container_at(doc, start as int) {
            if let Ok(Ok(Some(v))) = crate::resolve::child_at(doc, kind, open, path[seg], false) {
                lemma_locate_rest(doc, path, seg + 1, v);
            }
        }
    }
}

/// One walk over a child gives every field the value that a projection of its own
/// sub-path would give it: the first member of a name, the element of an index, `null`
/// where nothing is there. In an array the brackets of every element must match.
pub proof fn law_fields_are_projections(doc: Seq<u8>, fields: Fields, child: u64, i: int)
    requires
        doc.len() <= u64::MAX,
        0 <= i < fields.len(),
        fields[i].1.len() <= usize::MAX,
        container_at(doc, child as int) matches Ok(c) && (c matches Some((kind, open)) ==> kind
            is Array ==> {
            &&& doc.len() <= usize::MAX
            &&& forall|k: nat| #[trigger]
                children_nest(doc, first_child(ContainerKind::Array, open), k)
        }),
        matches_in(doc, fields, child) is Ok,
    ensures
        matches_in(doc, fields, child)->Ok_0.len() == fields.len(),
        field_value(doc, fields[i].1, matches_in(doc, fields, child)->Ok_0[i], child)
            == projected_one(doc, fields[i].1, child),
{
    let path = fields[i].1;
    let none = unmatched(fields.len());
    let found = matches_in(doc, fields, child)->Ok_0;
    crate::scan::lemma_run_end(doc, child as int, ByteClass::Whitespace);
    if path.len() == 0 {
        law_pick_is_projection(doc, path, child);
        if any_looks(fields, none) {
            if let Ok(Some(cursor)) = cursor_at(doc, child as int) {
                lemma_walked_length(doc, fields, cursor, none);
            }
        }
    } else {
        assert(looks(fields, none, i));
        if let Ok(Some((kind, open))) = container_at(doc, child as int) {
            let cursor = cursor_at(doc, child as int)->Ok_0->0;
            match (kind, path[0]) {
                (ContainerKind::Object, Step::Member(name)) => {
                    lemma_walked_member(doc, fields, cursor, none, i, name);
                },
                (ContainerKind::Array, Step::Element(index)) => {
                    assert(cursor_after(doc, cursor, 0) == Some(cursor));
                    lemma_walked_element(doc, fields, open, 0, none, i, index);
                },
                _ => {
                    lemma_walked_mismatch(doc, fields, cursor, none, i);
                },
            }
            if let Some(location) = found[i] {
                lemma_locate_rest(doc, path, 1, location.start);
                law_pick_is_projection(doc, path.skip(1), location.start);
            }
        }
    }
}

proof fn lemma_walked_length(
    doc: Seq<u8>,
    fields: Fields,
    cursor: ContainerCursor,
    matched: Matches,
)
    requires
        matched.len() == fields.len(),
    ensures
        walked(doc, fields, cursor, matched) matches Ok(found) ==> found.len() == fields.len(),
    decreases doc.len() - cursor.next_offset,
{
    if any_looks(fields, matched) {
        if let Ok((Some(entry), next)) = child_step(doc, cursor) {
            if legible(doc, entry.key, fields, matched) && cursor.next_offset < next.next_offset
                <= doc.len() {
                lemma_walked_length(doc, fields, next, with_child(doc, entry, fields, matched));
            }
        }
    }
}

} // verus!
