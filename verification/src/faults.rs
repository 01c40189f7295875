//! What is reported of a document that is no JSON text: that it ends too early, or the place
//! of the first byte that cannot stand there.

use vstd::prelude::*;
use vstd::utf8::valid_utf8;

use crate::eval::{answers_to, legible, looks, walked, Fields, Matches};
use crate::json::{
    closing, entry_text, holds, is_blank, lead, lemma_stands, stands, string_token, valid_entry,
    valid_interior, valid_key, written, Entry, Key,
};
use crate::keys::{json_string, quoted};
use crate::meaning::lemma_key_hit;
use crate::query::{extent_at, Extent};
use crate::reading::{
    law_a_string_cut_short_is_reported, law_a_string_ends_with_its_quote,
    law_a_value_ends_with_its_text, law_whitespace_is_passed_over, lemma_first_byte, lemma_lead,
};
use crate::resolve::{
    child_step, container_at, entry_key, member_value, object_scan, ChildEntry, ChildKey,
    ContainerCursor, ContainerKind, EntryKey,
};
use crate::scan::ws_end;
use crate::session::{SessionError, SessionView};
use crate::stream::{filled, item_begun, wanted_key, StreamView};
use crate::walker::{doc_range, TraverseError};

verus! {

/// A byte that is neither space, tab, line feed nor carriage return.
pub open spec fn is_ink(b: u8) -> bool {
    b != 0x20 && b != 0x09 && b != 0x0a && b != 0x0d
}

/// Past whitespace stands the end of the document, or a byte that is none.
proof fn lemma_blank_end(doc: Seq<u8>, at: int, blank: Seq<u8>)
    requires
        is_blank(blank),
        stands(doc, at, blank),
        at + blank.len() < doc.len() ==> is_ink(doc[at + blank.len()]),
    ensures
        ws_end(doc, at) == at + blank.len(),
{
    if at + blank.len() < doc.len() {
        let one = seq![doc[at + blank.len()]];
        assert(is_blank(one) ==> !is_ink(one[0]));
    }
    law_whitespace_is_passed_over(doc, at, blank);
}

/// The report of a document that goes on at `at` with a byte that cannot stand there, or
/// that ends there.
pub open spec fn fault_at(doc: Seq<u8>, at: int) -> TraverseError {
    if at < doc.len() {
        TraverseError::Malformed(at as u64)
    } else {
        TraverseError::UnexpectedEof(at as u64)
    }
}

/// Where a member of an object may begin, after whitespace, with neither a quote nor the
/// closing brace, that byte is reported, or the end of the document: by a cursor and by a
/// lookup alike.
pub proof fn law_what_begins_no_member_is_reported(
    doc: Seq<u8>,
    cursor: ContainerCursor,
    blank: Seq<u8>,
    name: Seq<char>,
    recording: bool,
)
    requires
        doc.len() <= u64::MAX,
        cursor.kind is Object,
        is_blank(blank),
        stands(doc, cursor.next_offset as int, blank),
        ({
            let p = cursor.next_offset + blank.len();
            p < doc.len() ==> is_ink(doc[p]) && doc[p] != 0x22 && doc[p] != 0x7d
        }),
    ensures
        ({
            let e = fault_at(doc, cursor.next_offset + blank.len());
            &&& child_step(doc, cursor) == Err::<
                (Option<ChildEntry>, ContainerCursor),
                TraverseError,
            >(e)
            &&& object_scan(doc, cursor.next_offset as int, name, recording).outcome == Err::<
                Option<u64>,
                TraverseError,
            >(e)
        }),
{
    lemma_blank_end(doc, cursor.next_offset as int, blank);
}

/// Where no element begins because the document ends, that is reported.
pub proof fn law_an_array_cut_short_is_reported(
    doc: Seq<u8>,
    cursor: ContainerCursor,
    blank: Seq<u8>,
)
    requires
        doc.len() <= u64::MAX,
        cursor.kind is Array,
        is_blank(blank),
        stands(doc, cursor.next_offset as int, blank),
        cursor.next_offset + blank.len() == doc.len(),
    ensures
        child_step(doc, cursor) == Err::<(Option<ChildEntry>, ContainerCursor), TraverseError>(
            TraverseError::UnexpectedEof(doc.len() as u64),
        ),
{
    lemma_blank_end(doc, cursor.next_offset as int, blank);
}

/// A key that no colon follows is reported at the byte that stands in the colon's place, or
/// at the end of the document.
pub proof fn law_a_key_without_a_colon_is_reported(
    doc: Seq<u8>,
    cursor: ContainerCursor,
    blank: Seq<u8>,
    key: Key,
    name: Seq<char>,
    recording: bool,
)
    requires
        doc.len() <= u64::MAX,
        cursor.kind is Object,
        is_blank(blank),
        valid_key(key),
        stands(
            doc,
            cursor.next_offset as int,
            blank + string_token(key.interior) + key.before_colon,
        ),
        ({
            let q = cursor.next_offset + blank.len() + key.interior.len() + 2
                + key.before_colon.len();
            q < doc.len() ==> is_ink(doc[q]) && doc[q] != 0x3a
        }),
    ensures
        ({
            let q = cursor.next_offset + blank.len() + key.interior.len() + 2
                + key.before_colon.len();
            &&& child_step(doc, cursor) == Err::<
                (Option<ChildEntry>, ContainerCursor),
                TraverseError,
            >(TraverseError::Malformed(q as u64))
            &&& object_scan(doc, cursor.next_offset as int, name, recording).outcome == Err::<
                Option<u64>,
                TraverseError,
            >(TraverseError::Malformed(q as u64))
        }),
{
    let at = cursor.next_offset as int;
    let token = string_token(key.interior);
    let a = at + blank.len();
    let b = a + token.len();
    lemma_stands(doc, at, blank + token, key.before_colon);
    lemma_stands(doc, at, blank, token);
    law_a_string_ends_with_its_quote(doc, a, key.interior);
    lemma_blank_end(doc, at, blank);
    lemma_blank_end(doc, b, key.before_colon);
    assert(entry_key(doc, at) == EntryKey::Key(a, b - 1));
    assert forall|i: int| 0 <= i < key.interior.len() implies doc.subrange(a + 1, b - 1)[i]
        == key.interior[i] by {
        assert(doc[a + (i + 1)] == token[i + 1]);
    }
    assert(doc.subrange(a + 1, b - 1) =~= key.interior);
    lemma_key_hit(key, name, recording);
}

/// A key whose escapes cannot be read is reported at its opening quote by every lookup that
/// comes to it; and so is one that is no text, by a lookup that notes names.
pub proof fn law_a_key_that_cannot_be_read_is_reported(
    doc: Seq<u8>,
    at: int,
    blank: Seq<u8>,
    interior: Seq<u8>,
    name: Seq<char>,
    recording: bool,
)
    requires
        doc.len() <= u64::MAX,
        is_blank(blank),
        valid_interior(interior),
        stands(doc, at, blank + string_token(interior)),
        if interior.contains(0x5c) {
            json_string(string_token(interior)) is None
        } else {
            recording && !valid_utf8(interior)
        },
    ensures
        object_scan(doc, at, name, recording).outcome == Err::<Option<u64>, TraverseError>(
            TraverseError::Malformed((at + blank.len()) as u64),
        ),
{
    let token = string_token(interior);
    let a = at + blank.len();
    let b = a + token.len();
    lemma_stands(doc, at, blank, token);
    assert(doc[a + 0] == token[0]);
    law_a_string_ends_with_its_quote(doc, a, interior);
    lemma_blank_end(doc, at, blank);
    assert(entry_key(doc, at) == EntryKey::Key(a, b - 1));
    assert forall|i: int| 0 <= i < interior.len() implies doc.subrange(a + 1, b - 1)[i]
        == interior[i] by {
        assert(doc[a + (i + 1)] == token[i + 1]);
    }
    assert(doc.subrange(a + 1, b - 1) =~= interior);
    assert(quoted(interior) == token);
}

/// A key whose closing quote is missing is reported at its opening quote, as cut short.
pub proof fn law_a_key_cut_short_is_reported(
    doc: Seq<u8>,
    cursor: ContainerCursor,
    blank: Seq<u8>,
    interior: Seq<u8>,
    name: Seq<char>,
    recording: bool,
)
    requires
        doc.len() + 64 <= u64::MAX,
        cursor.kind is Object,
        is_blank(blank),
        valid_interior(interior),
        stands(doc, cursor.next_offset as int, blank + (seq![0x22u8] + interior)),
        cursor.next_offset + blank.len() + 1 + interior.len() == doc.len(),
    ensures
        ({
            let e = TraverseError::UnexpectedEof((cursor.next_offset + blank.len()) as u64);
            &&& child_step(doc, cursor) == Err::<
                (Option<ChildEntry>, ContainerCursor),
                TraverseError,
            >(e)
            &&& object_scan(doc, cursor.next_offset as int, name, recording).outcome == Err::<
                Option<u64>,
                TraverseError,
            >(e)
        }),
{
    let at = cursor.next_offset as int;
    let a = at + blank.len();
    let rest = seq![0x22u8] + interior;
    lemma_stands(doc, at, blank, rest);
    assert(doc[a + 0] == rest[0]);
    lemma_blank_end(doc, at, blank);
    law_a_string_cut_short_is_reported(doc, a, interior);
}

/// A stream that gives keys reports a key that cannot be read at its opening quote; one that
/// does not does not read it.
pub proof fn law_a_stream_reports_a_key_that_cannot_be_read(
    doc: Seq<u8>,
    start: u64,
    interior: Seq<u8>,
)
    requires
        doc.len() <= u64::MAX,
        stands(doc, start as int, string_token(interior)),
        json_string(string_token(interior)) is None,
    ensures
        ({
            let key = ChildKey::Member {
                start,
                close: (start + 1 + interior.len()) as u64,
            };
            &&& wanted_key(doc, key, true) == Err::<Option<Seq<u8>>, TraverseError>(
                TraverseError::Malformed(start),
            )
            &&& wanted_key(doc, key, false) == Ok::<Option<Seq<u8>>, TraverseError>(None)
        }),
{
    let token = string_token(interior);
    let to = start + token.len();
    assert forall|i: int| 0 <= i < token.len() implies doc.subrange(start as int, to)[i]
        == token[i] by {
        assert(doc[start + i] == token[i]);
    }
    assert(doc.subrange(start as int, to) =~= token);
}

/// A projection of fields that comes to a key that it has to read and cannot reports it at
/// its opening quote.
pub proof fn law_a_projection_reports_a_key_that_cannot_be_read(
    doc: Seq<u8>,
    fields: Fields,
    cursor: ContainerCursor,
    matched: Matches,
    i: int,
    start: u64,
    interior: Seq<u8>,
)
    requires
        doc.len() <= u64::MAX,
        0 <= i < fields.len(),
        matched[i] is None,
        fields[i].1.len() > 0,
        fields[i].1[0] is Member,
        stands(doc, start as int, string_token(interior)),
        interior.contains(0x5c),
        json_string(string_token(interior)) is None,
        child_step(doc, cursor) matches Ok((Some(entry), _)) && entry.key == (ChildKey::Member {
            start,
            close: (start + 1 + interior.len()) as u64,
        }),
    ensures
        walked(doc, fields, cursor, matched) == Err::<Matches, TraverseError>(
            TraverseError::Malformed(start),
        ),
{
    let token = string_token(interior);
    let close = start + 1 + interior.len();
    assert(looks(fields, matched, i));
    assert(doc[start + (token.len() - 1)] == token[token.len() - 1]);
    assert forall|k: int| 0 <= k < interior.len() implies doc.subrange(start + 1, close)[k]
        == interior[k] by {
        assert(doc[start + (k + 1)] == token[k + 1]);
    }
    assert(doc.subrange(start + 1, close) =~= interior);
    assert(quoted(interior) == token);
    assert(doc_range(doc, start + 1, close) == interior);
    let entry = child_step(doc, cursor)->Ok_0.0->0;
    assert(answers_to(doc, entry.key, fields[i].1[0]) is None);
    assert(!legible(doc, entry.key, fields, matched));
}

/// A stream whose next child cannot be given reports it and goes on past it: a child whose
/// key cannot be read, and one of which a projection fails, is not come to again.
pub proof fn law_a_stream_goes_on_past_a_fault(
    doc: Seq<u8>,
    stream: StreamView,
    session: SessionView,
    cursor: ContainerCursor,
    entry: ChildEntry,
    next: ContainerCursor,
    e: TraverseError,
)
    requires
        stream.cursor == Some(cursor),
        stream.batch is None,
        cursor.next_offset < next.next_offset <= doc.len(),
        child_step(doc, cursor) == Ok::<(Option<ChildEntry>, ContainerCursor), TraverseError>(
            (Some(entry), next),
        ),
        match wanted_key(doc, entry.key, stream.cfg.with_key) {
            Err(fault) => fault == e,
            Ok(key) => item_begun(entry, key, stream.cfg.select).answer(doc, stream.cfg.select)
                == Err::<Seq<u8>, TraverseError>(e),
        },
    ensures
        ({
            let (text, after, _) = stream.filled(doc, session);
            &&& text == Err::<Option<Seq<u8>>, SessionError>(SessionError::Traverse(e))
            &&& after.cursor == Some(next)
            &&& after.yielded == stream.yielded + 1
            &&& after.batch is None
        }),
{
    reveal_with_fuel(filled, 2);
}

/// A child that neither a comma nor the closing byte of its own container follows is
/// reported at the byte that stands there, or at the end of the document.
pub proof fn law_a_child_without_a_separator_is_reported(
    doc: Seq<u8>,
    cursor: ContainerCursor,
    e: Entry,
)
    requires
        doc.len() <= u64::MAX,
        valid_entry(cursor.kind, e),
        stands(doc, cursor.next_offset as int, entry_text(e)),
        holds(doc, cursor.next_offset + lead(e).len(), e.value),
        ({
            let r = cursor.next_offset + entry_text(e).len();
            r < doc.len() ==> is_ink(doc[r]) && doc[r] != 0x2c && doc[r] != closing(cursor.kind)
        }),
    ensures
        child_step(doc, cursor) == Err::<(Option<ChildEntry>, ContainerCursor), TraverseError>(
            TraverseError::Malformed((cursor.next_offset + entry_text(e).len()) as u64),
        ),
{
    let at = cursor.next_offset as int;
    let start = at + lead(e).len();
    let to = start + written(e.value).len();
    lemma_stands(doc, at, lead(e) + written(e.value), e.after);
    lemma_stands(doc, at, lead(e), written(e.value));
    lemma_first_byte(e.value);
    assert(doc[start + 0] == written(e.value)[0]);
    law_a_value_ends_with_its_text(doc, start, e.value);
    lemma_blank_end(doc, to, e.after);
    match cursor.kind {
        ContainerKind::Object => {
            let key = e.key->0;
            lemma_lead(doc, at, e);
            let a = at + e.before.len();
            let b = a + key.interior.len() + 2;
            let c = b + key.before_colon.len();
            law_a_string_ends_with_its_quote(doc, a, key.interior);
            lemma_blank_end(doc, at, e.before);
            lemma_blank_end(doc, b, key.before_colon);
            lemma_blank_end(doc, c + 1, key.after_colon);
            assert(entry_key(doc, at) == EntryKey::Key(a, b - 1));
            assert(member_value(doc, b - 1) == Ok::<int, TraverseError>(start));
        },
        ContainerKind::Array => {
            assert(lead(e) =~= e.before);
            lemma_blank_end(doc, at, e.before);
        },
    }
}

/// Where there is nothing but whitespace up to the end of the document, there is no value.
pub proof fn law_a_missing_value_is_reported(doc: Seq<u8>, at: int, blank: Seq<u8>)
    requires
        doc.len() <= u64::MAX,
        is_blank(blank),
        stands(doc, at, blank),
        at + blank.len() == doc.len(),
    ensures
        extent_at(doc, at) == Err::<Extent, TraverseError>(
            TraverseError::UnexpectedEof(doc.len() as u64),
        ),
        container_at(doc, at) == Err::<Option<(ContainerKind, int)>, TraverseError>(
            TraverseError::UnexpectedEof(doc.len() as u64),
        ),
{
    lemma_blank_end(doc, at, blank);
}

} // verus!
