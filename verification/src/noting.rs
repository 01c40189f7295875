//! What scans note on their way: the members of an object that they pass, and the elements
//! of an array at a stride.

use vstd::prelude::*;

use crate::json::{first_named, lemma_first_named, lemma_valid_entry, spells, written, Entry, Json};
use crate::keys::quoted;
use crate::meaning::{container_stands, lemma_child_key, lemma_cursors, lemma_key_hit};
use crate::reading::{cursor_before, entry_start, law_a_cursor_gives_the_children, value_start};
use crate::resolve::{
    array_scan, child_step, entry_key, follow, lemma_entry_key, lemma_follow, lemma_member_value,
    member_value, noted_name, object_scan, ChildEntry, ChildKey, ContainerCursor, ContainerKind,
    EntryKey, SegmentScan,
};
use crate::scan::{
    comma_marks, comma_run, comma_step, ends_array, lemma_run_end, separates, ws_end, ByteClass,
    CommaRun, Commas, RBRACE,
};
use crate::chunks::WindowView;
use crate::session::SessionView;
use crate::stream::{BatchView, StreamView};

verus! {

// ---- members

/// A mark of child `k`: its name, where it begins past the byte before it, and where its
/// value begins.
pub open spec fn marks_member(
    open: int,
    entries: Seq<Entry>,
    k: int,
    mark: (Seq<char>, u64, u64),
) -> bool {
    &&& spells(entries[k].key->0.interior, mark.0)
    &&& mark.1 == open + 1 + entry_start(entries, k)
    &&& mark.2 == open + 1 + value_start(entries, k)
}

proof fn lemma_passed(doc: Seq<u8>, c: ContainerCursor, name: Seq<char>, next: ContainerCursor)
    requires
        doc.len() <= u64::MAX,
        c.kind is Object,
        child_step(doc, c) matches Ok((Some(child), n)) && n == next
            && crate::resolve::key_hit(
            crate::children::key_interior(doc, child),
            name,
            true,
        ) == Some(false),
    ensures
        ({
            let here = object_scan(doc, c.next_offset as int, name, true);
            let rest = object_scan(doc, next.next_offset as int, name, true);
            let child = child_step(doc, c)->Ok_0.0->0;
            &&& here.outcome == rest.outcome
            &&& here.resume == rest.resume
            &&& here.members == seq![
                (
                    noted_name(crate::children::key_interior(doc, child)),
                    c.next_offset,
                    child.location.start,
                ),
            ] + rest.members
        }),
{
    let at = c.next_offset as int;
    lemma_entry_key(doc, at);
    if let EntryKey::Key(o, k) = entry_key(doc, at) {
        lemma_member_value(doc, k);
        if let Ok(v) = member_value(doc, k) {
            lemma_follow(doc, v, RBRACE);
            let f = follow(doc, v, RBRACE)->Ok_0;
            if f.last {
                lemma_run_end(doc, f.at, ByteClass::Whitespace);
                assert(ws_end(doc, f.at) == f.at);
            }
        }
    }
}

proof fn lemma_noted(
    doc: Seq<u8>,
    open: int,
    entries: Seq<Entry>,
    blank: Seq<u8>,
    name: Seq<char>,
    k: int,
    c: ContainerCursor,
)
    requires
        container_stands(doc, open, ContainerKind::Object, entries, blank),
        entries.len() <= usize::MAX,
        0 <= k <= entries.len(),
        first_named(entries, name) matches Some(t) ==> k <= t,
        cursor_before(open, ContainerKind::Object, entries, k, c),
    ensures
        ({
            let scan = object_scan(doc, c.next_offset as int, name, true);
            let last = match first_named(entries, name) {
                Some(t) => t + 1,
                None => entries.len() as int,
            };
            &&& scan.members.len() == last - k
            &&& forall|i: int|
                0 <= i < last - k ==> marks_member(
                    open,
                    entries,
                    k + i,
                    #[trigger] scan.members[i],
                )
            &&& scan.resume matches Some(at) && at == (match first_named(entries, name) {
                Some(t) => open + 1 + entry_start(entries, t),
                None => open + written(
                    Json::Container(ContainerKind::Object, entries, blank),
                ).len() - 1,
            })
        }),
    decreases entries.len() - k,
{
    let kind = ContainerKind::Object;
    law_a_cursor_gives_the_children(doc, open, kind, entries, blank, k, c);
    let scan = object_scan(doc, c.next_offset as int, name, true);
    lemma_first_named(entries, name);
    lemma_entry_key(doc, c.next_offset as int);
    if k < entries.len() {
        lemma_valid_entry(kind, entries, k);
        let key = entries[k].key->0;
        lemma_key_hit(key, name, true);
        lemma_child_key(doc, open, entries, blank, k);
        let child = child_step(doc, c)->Ok_0.0->0;
        let next = child_step(doc, c)->Ok_0.1;
        assert(spells(key.interior, noted_name(key.interior))) by {
            assert(quoted(key.interior) == crate::json::string_token(key.interior));
            if !key.interior.contains(0x5c) {
                vstd::utf8::decode_utf8_encode_utf8(key.interior);
            }
        }
        lemma_in_range(doc, open, entries, blank, k);
        if spells(key.interior, name) {
            assert(first_named(entries, name) == Some(k));
            assert(scan.members.len() == 1);
        } else {
            lemma_passed(doc, c, name, next);
            lemma_noted(doc, open, entries, blank, name, k + 1, next);
            let rest = object_scan(doc, next.next_offset as int, name, true);
            let last = match first_named(entries, name) {
                Some(t) => t + 1,
                None => entries.len() as int,
            };
            assert forall|i: int| 0 <= i < last - k implies marks_member(
                open,
                entries,
                k + i,
                #[trigger] scan.members[i],
            ) by {
                if i > 0 {
                    assert(scan.members[i] == rest.members[i - 1]);
                    assert(marks_member(open, entries, k + 1 + (i - 1), rest.members[i - 1]));
                }
            }
        }
    }
}

proof fn lemma_in_range(doc: Seq<u8>, open: int, entries: Seq<Entry>, blank: Seq<u8>, k: int)
    requires
        container_stands(doc, open, ContainerKind::Object, entries, blank),
        0 <= k < entries.len(),
    ensures
        0 <= open + 1 + value_start(entries, k) < doc.len(),
{
    crate::reading::lemma_child_holds(doc, open, ContainerKind::Object, entries, blank, k);
    lemma_valid_entry(ContainerKind::Object, entries, k);
    crate::reading::lemma_first_byte(entries[k].value);
}

/// A scan of an object for a name notes the members from the first one to the one that it
/// finds, or all of them where there is none of that name: each with its name and its two
/// offsets. It can be resumed at the member found, or at the closing byte.
pub proof fn law_a_scan_notes_the_members_it_passes(
    doc: Seq<u8>,
    open: int,
    entries: Seq<Entry>,
    blank: Seq<u8>,
    name: Seq<char>,
)
    requires
        container_stands(doc, open, ContainerKind::Object, entries, blank),
    ensures
        ({
            let scan = object_scan(doc, open + 1, name, true);
            let last = match first_named(entries, name) {
                Some(t) => t + 1,
                None => entries.len() as int,
            };
            &&& scan.members.len() == last
            &&& forall|i: int|
                0 <= i < last ==> marks_member(open, entries, i, #[trigger] scan.members[i])
            &&& scan.resume matches Some(at) && at == (match first_named(entries, name) {
                Some(t) => open + 1 + entry_start(entries, t),
                None => open + written(
                    Json::Container(ContainerKind::Object, entries, blank),
                ).len() - 1,
            })
        }),
{
    lemma_cursors(doc, open, ContainerKind::Object, entries, blank, 0);
    lemma_first_named(entries, name);
    let c = crate::children::first_child(ContainerKind::Object, open);
    lemma_noted(doc, open, entries, blank, name, 0, c);
    let scan = object_scan(doc, open + 1, name, true);
    assert forall|i: int| 0 <= i < scan.members.len() implies marks_member(
        open,
        entries,
        i,
        #[trigger] scan.members[i],
    ) by {
        assert(marks_member(open, entries, 0 + i, scan.members[i]));
    }
}

// ---- elements

/// How many separators a scan passes.
pub open spec fn passed(s: Commas, r: CommaRun) -> int {
    match r {
        CommaRun::Found(_) => s.left as int,
        CommaRun::Closed(left) => s.left - left,
        CommaRun::Open(n) => s.left - n.left,
    }
}

/// The scan for the separator before element `j` from element `index` on.
pub open spec fn scan_for(s: Commas, index: int, j: int) -> Commas {
    Commas { left: (j - index) as nat, ..s }
}

/// Whether element `j` has a mark.
pub open spec fn marks_element(marks: Seq<(usize, u64)>, j: int) -> bool {
    exists|i: int| 0 <= i < marks.len() && (#[trigger] marks[i]).0 == j
}

/// A scan over an array at a stride notes, in order, each element that it enters whose
/// index is a multiple of the stride, and no other; each with the offset at which a scan
/// for that very element would stop.
pub proof fn law_a_scan_notes_elements_at_a_stride(
    bytes: Seq<u8>,
    at: int,
    to: int,
    s: Commas,
    index: int,
    stride: int,
)
    requires
        0 <= at,
        to <= u64::MAX,
        0 <= index,
        index + s.left <= usize::MAX,
        s.left > 0,
        stride > 0,
    ensures
        ({
            let marks = comma_marks(bytes, at, to, s, index, stride, 0);
            let m = passed(s, comma_run(bytes, at, to, s));
            &&& forall|i: int, j: int| 0 <= i < j < marks.len() ==> marks[i].0 < marks[j].0
            &&& forall|i: int|
                #![trigger marks[i]]
                0 <= i < marks.len() ==> {
                    &&& index < marks[i].0 <= index + m
                    &&& marks[i].0 as int % stride == 0
                    &&& comma_run(bytes, at, to, scan_for(s, index, marks[i].0 as int))
                        == CommaRun::Found(marks[i].1 as int)
                }
            &&& forall|j: int|
                index < j <= index + m && j % stride == 0 ==> #[trigger] marks_element(marks, j)
        }),
    decreases to - at,
{
    let marks = comma_marks(bytes, at, to, s, index, stride, 0);
    let m = passed(s, comma_run(bytes, at, to, s));
    if at >= to || ends_array(s, bytes[at]) {
    } else {
        let n = comma_step(s, bytes[at]);
        let there = separates(s, bytes[at]);
        let next = if there {
            index + 1
        } else {
            index
        };
        let mark = if there && next % stride == 0 {
            seq![(next as usize, (at + 1) as u64)]
        } else {
            Seq::empty()
        };
        let rest = if there && s.left <= 1 {
            Seq::<(usize, u64)>::empty()
        } else {
            comma_marks(bytes, at + 1, to, n, next, stride, 0)
        };
        assert(marks =~= mark + rest);
        if !(there && s.left <= 1) {
            law_a_scan_notes_elements_at_a_stride(bytes, at + 1, to, n, next, stride);
            lemma_left_never_grows(bytes, at + 1, to, n);
        }
        assert forall|i: int| #![trigger marks[i]] 0 <= i < marks.len() implies {
            &&& index < marks[i].0 <= index + m
            &&& marks[i].0 as int % stride == 0
            &&& comma_run(bytes, at, to, scan_for(s, index, marks[i].0 as int)) == CommaRun::Found(
                marks[i].1 as int,
            )
            &&& i >= mark.len() ==> marks[i] == rest[i - mark.len()] && marks[i].0 > next
        } by {
            if i < mark.len() {
                assert(marks[i] == mark[i]);
            } else {
                let x = rest[i - mark.len()];
                assert(marks[i] == x);
                let one = scan_for(s, index, x.0 as int);
                assert(comma_step(one, bytes[at]) == scan_for(n, next, x.0 as int));
                assert(ends_array(one, bytes[at]) == ends_array(s, bytes[at]));
                assert(separates(one, bytes[at]) == there);
            }
        }
        assert forall|i: int, j: int| 0 <= i < j < marks.len() implies marks[i].0
            < marks[j].0 by {
            if i < mark.len() {
                assert(marks[i] == mark[i]);
                assert(marks[j].0 > next);
            } else {
                assert(rest[i - mark.len()].0 < rest[j - mark.len()].0);
            }
        }
        assert forall|j: int|
            index < j <= index + m && j % stride == 0 implies #[trigger] marks_element(
            marks,
            j,
        ) by {
            if there && j == next {
                assert(mark.len() == 1);
                assert(marks[0] == mark[0]);
            } else {
                assert(marks_element(rest, j));
                let i = choose|i: int| 0 <= i < rest.len() && (#[trigger] rest[i]).0 == j;
                assert(marks[i + mark.len()] == rest[i]);
            }
        }
    }
}

proof fn lemma_left_never_grows(bytes: Seq<u8>, at: int, to: int, s: Commas)
    ensures
        match comma_run(bytes, at, to, s) {
            CommaRun::Found(_) => true,
            CommaRun::Closed(left) => left <= s.left,
            CommaRun::Open(n) => n.left <= s.left,
        },
    decreases to - at,
{
    if at < to {
        lemma_left_never_grows(bytes, at + 1, to, comma_step(s, bytes[at]));
    }
}

/// A lookup of an element that notes elements notes the one that it finds, last.
pub proof fn law_the_element_found_is_noted(
    doc: Seq<u8>,
    scan: SegmentScan,
    target: usize,
    stride: int,
)
    ensures
        ({
            let r = array_scan(doc, scan, target, stride);
            &&& stride > 0 ==> (r.outcome matches Ok(Some(v)) ==> r.members.len() > 0
                && r.members.last() == (target, v))
            &&& stride <= 0 ==> r.members.len() == 0
        }),
{
}

/// A stream notes the elements that it gives at the stride, but not the first one, each with
/// the offset of its value; and no member of an object.
pub proof fn law_which_elements_a_stream_notes(batch: BatchView, entry: ChildEntry, interval: nat)
    ensures
        ({
            let now = batch.noting(entry, interval).landmarks;
            let noted = entry.key matches ChildKey::Index(index) && index > 0 && interval > 0
                && index as int % interval as int == 0;
            &&& noted ==> now.len() == batch.landmarks.len() + 1 && now.last() == (
                entry.key->Index_0,
                entry.location.start,
            ) && now.drop_last() == batch.landmarks
            &&& !noted ==> now == batch.landmarks
        }),
{
    let now = batch.noting(entry, interval).landmarks;
    if now.len() > batch.landmarks.len() {
        assert(now.drop_last() =~= batch.landmarks);
    }
}

/// A stream over an array that is broken off leaves a landmark at the element that would
/// have come next, where it has given one and lies within the document; otherwise, and for
/// an object, the session stays as it is.
pub proof fn law_what_breaking_off_leaves(
    stream: StreamView,
    session: SessionView,
    window: WindowView,
    open: u64,
    cursor: ContainerCursor,
)
    requires
        stream.base == Some(open),
        stream.cursor == Some(cursor),
    ensures
        ({
            let out = stream.broken_off(session, window);
            let leaves = cursor.kind is Array && cursor.index >= 1 && stream.cfg.interval >= 1
                && cursor.next_offset < window.bound();
            &&& leaves ==> out.index == session.index.with_array_scan(
                stream.base_depth,
                stream.key,
                open,
                seq![(cursor.index, cursor.next_offset)],
            )
            &&& !leaves ==> out == session
            &&& out.size == session.size && out.chunk_bytes == session.chunk_bytes
        }),
{
}

} // verus!
