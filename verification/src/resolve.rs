//! Path evaluator.
//!
//! Walks a path over a scan-aligned [`Walker`], descending one segment at a time
//! into objects (by member name) and arrays (by index).

use vstd::prelude::*;
use vstd::string::StringExecFns;

use crate::chunks::{doc_byte, end_past, WindowView};
use crate::keys;
use crate::keys::{key_matches, key_name, text_eq};
use crate::path::{steps, Segment, Step};
use crate::scan::{
    closes_at, inside, is_closer, lemma_closes_at, lemma_run_end, outside, string_run, ws_end,
    ByteClass, Commas, Lex, Nest, NestRun, StringRun, COLON, COMMA, LBRACE, LBRACKET, QUOTE,
    RBRACE, RBRACKET,
};
use crate::simd::ScanCarry;
use crate::text::{decimal, push_decimal};
use crate::walker::{
    comma_answer, doc_marks, string_answer, value_end, CommaAnswer, CommaStop, TraverseError,
    Walker,
};

verus! {

/// Kind of JSON container being iterated.
#[derive(Debug, Clone, Copy, PartialEq, Eq, Structural)]
pub enum ContainerKind {
    Object,
    Array,
}

/// Byte range `[start, end)` covering a JSON value in the source document.
#[derive(Debug, Clone, Copy, PartialEq, Eq, Structural)]
pub struct ValueLocation {
    pub start: u64,
    pub end: u64,
}

// ---- the parts of a container

/// What stands where an object member may begin.
pub enum EntryKey {
    /// The closing brace, at this offset.
    Close(int),
    /// A key, by the offsets of its opening and its closing quote.
    Key(int, int),
    Fault(TraverseError),
}

/// The entry of an object from `at` on.
pub open spec fn entry_key(doc: Seq<u8>, at: int) -> EntryKey {
    let open = ws_end(doc, at);
    match doc_byte(doc, open) {
        None => EntryKey::Fault(TraverseError::UnexpectedEof(open as u64)),
        Some(b) => if b == RBRACE {
            EntryKey::Close(open)
        } else if b != QUOTE {
            EntryKey::Fault(TraverseError::Malformed(open as u64))
        } else {
            match string_answer(doc, open + 1, inside()) {
                Ok(close) => EntryKey::Key(open, close),
                Err(_) => EntryKey::Fault(TraverseError::UnexpectedEof(open as u64)),
            }
        },
    }
}

/// The first byte of a member's value, from the closing quote of its key: past
/// the colon and the whitespace around it.
pub open spec fn member_value(doc: Seq<u8>, key_close: int) -> Result<int, TraverseError> {
    let colon = ws_end(doc, key_close + 1);
    if doc_byte(doc, colon) != Some(COLON) {
        Err(TraverseError::Malformed(colon as u64))
    } else {
        Ok(ws_end(doc, colon + 1))
    }
}

/// What follows a child of a container.
pub struct Follow {
    /// The offset just past the child's value.
    pub end: int,
    /// The offset of the separator or of the closing byte after it.
    pub at: int,
    /// The child is the last one.
    pub last: bool,
}

/// What follows the value at `start` in a container closed by `close`.
pub open spec fn follow(doc: Seq<u8>, start: int, close: u8) -> Result<Follow, TraverseError> {
    match value_end(doc, start) {
        Err(e) => Err(e),
        Ok(end) => {
            let at = ws_end(doc, end as int);
            if doc_byte(doc, at) == Some(COMMA) {
                Ok(Follow { end: end as int, at, last: false })
            } else if doc_byte(doc, at) == Some(close) {
                Ok(Follow { end: end as int, at, last: true })
            } else {
                Err(TraverseError::Malformed(at as u64))
            }
        },
    }
}

pub proof fn lemma_string_answer(doc: Seq<u8>, at: int, s: Lex)
    ensures
        string_answer(doc, at, s) matches Ok(k) ==> at <= k < doc.len(),
    decreases doc.len() - at,
{
    lemma_string_run_bounds(doc, at, doc.len() as int, s);
}

proof fn lemma_string_run_bounds(doc: Seq<u8>, at: int, to: int, s: Lex)
    ensures
        string_run(doc, at, to, s) matches StringRun::Closed(k) ==> at <= k < to,
    decreases to - at,
{
    if at < to {
        lemma_string_run_bounds(doc, at + 1, to, crate::scan::lex_step(s, doc[at]));
    }
}

pub proof fn lemma_nest_run_bounds(doc: Seq<u8>, at: int, to: int, s: Nest, open: u8, close: u8)
    ensures
        crate::scan::nest_run(doc, at, to, s, open, close) matches NestRun::Closed(k) ==> at < k
            <= to,
    decreases to - at,
{
    if at < to {
        let n = crate::scan::lex_step(s.lex, doc[at]);
        lemma_nest_run_bounds(doc, at + 1, to, Nest { lex: n, depth: s.depth + 1 }, open, close);
        lemma_nest_run_bounds(doc, at + 1, to, Nest { lex: n, depth: s.depth }, open, close);
        if s.depth > 1 {
            lemma_nest_run_bounds(
                doc,
                at + 1,
                to,
                Nest { lex: n, depth: (s.depth - 1) as nat },
                open,
                close,
            );
        }
    }
}

/// A value does not end before it starts, nor past the document.
pub proof fn lemma_value_end(doc: Seq<u8>, from: int)
    requires
        0 <= from,
        doc.len() <= u64::MAX,
    ensures
        value_end(doc, from) matches Ok(end) ==> from <= end <= doc.len() && from < doc.len(),
{
    if from < doc.len() {
        let len = doc.len() as int;
        lemma_string_answer(doc, from + 1, inside());
        lemma_nest_run_bounds(doc, from + 1, len, Nest { lex: outside(), depth: 1 }, LBRACE, RBRACE);
        lemma_nest_run_bounds(
            doc,
            from + 1,
            len,
            Nest { lex: outside(), depth: 1 },
            LBRACKET,
            RBRACKET,
        );
        lemma_run_end(doc, from, ByteClass::Primitive);
    }
}

/// What follows a value lies at or after it, inside the document.
pub proof fn lemma_follow(doc: Seq<u8>, start: int, close: u8)
    requires
        0 <= start,
        doc.len() <= u64::MAX,
    ensures
        follow(doc, start, close) matches Ok(f) ==> start <= f.end <= f.at < doc.len(),
{
    lemma_value_end(doc, start);
    if let Ok(end) = value_end(doc, start) {
        lemma_run_end(doc, end as int, ByteClass::Whitespace);
    }
}

/// A key lies at or after the place where its entry begins.
pub proof fn lemma_entry_key(doc: Seq<u8>, at: int)
    requires
        0 <= at,
    ensures
        match entry_key(doc, at) {
            EntryKey::Close(o) => at <= o < doc.len(),
            EntryKey::Key(o, c) => at <= o < c < doc.len(),
            EntryKey::Fault(_) => true,
        },
{
    lemma_run_end(doc, at, ByteClass::Whitespace);
    lemma_string_answer(doc, ws_end(doc, at) + 1, inside());
}

/// A member's value lies past its key.
pub proof fn lemma_member_value(doc: Seq<u8>, key_close: int)
    requires
        0 <= key_close < doc.len(),
    ensures
        member_value(doc, key_close) matches Ok(v) ==> key_close + 1 < v <= doc.len(),
{
    lemma_run_end(doc, key_close + 1, ByteClass::Whitespace);
    lemma_run_end(doc, ws_end(doc, key_close + 1) + 1, ByteClass::Whitespace);
}

// ---- how far a container is read

/// How far the entry of an object from `at` on is read for its key.
pub open spec fn key_reach(doc: Seq<u8>, at: int) -> int {
    let open = ws_end(doc, at);
    match entry_key(doc, at) {
        EntryKey::Key(_, close) => close,
        _ => if doc_byte(doc, open) == Some(QUOTE) {
            doc.len() as int
        } else {
            open
        },
    }
}

/// How far a member is read from the closing quote of its key to its value.
pub open spec fn colon_reach(doc: Seq<u8>, key_close: int) -> int {
    match member_value(doc, key_close) {
        Ok(v) => v,
        Err(_) => ws_end(doc, key_close + 1),
    }
}

/// How far a container is read for the value at `start` and for what follows it.
pub open spec fn value_reach(doc: Seq<u8>, start: int) -> int {
    match value_end(doc, start) {
        Ok(end) => ws_end(doc, end as int),
        Err(_) => end_past(doc, start),
    }
}

/// How far a container of that kind is read for the child at `at` and for what follows
/// it.
pub open spec fn child_reach(doc: Seq<u8>, kind: ContainerKind, at: int) -> int {
    match kind {
        ContainerKind::Object => match entry_key(doc, at) {
            EntryKey::Key(_, close) => match member_value(doc, close) {
                Ok(v) => value_reach(doc, v),
                Err(_) => colon_reach(doc, close),
            },
            _ => key_reach(doc, at),
        },
        ContainerKind::Array => element_reach(doc, at, false),
    }
}

/// How far an array is read for the element at `at`: to its first byte if it is the one
/// looked for, and past it and to what follows it otherwise.
pub open spec fn element_reach(doc: Seq<u8>, at: int, hit: bool) -> int {
    let o = ws_end(doc, at);
    if hit || doc_byte(doc, o) is None || doc_byte(doc, o) == Some(RBRACKET) {
        o
    } else {
        value_reach(doc, o)
    }
}

/// How far an object is read for the entry at `at`: to the first byte of its value if it
/// is the one looked for, and past it and to what follows it otherwise.
pub open spec fn entry_reach(doc: Seq<u8>, at: int, target: Seq<char>, recording: bool) -> int {
    match entry_key(doc, at) {
        EntryKey::Key(o, c) => match (
            key_hit(doc.subrange(o + 1, c), target, recording),
            member_value(doc, c),
        ) {
            (None, _) => c,
            (Some(_), Err(_)) => colon_reach(doc, c),
            (Some(hit), Ok(v)) => if hit {
                v
            } else {
                value_reach(doc, v)
            },
        },
        _ => key_reach(doc, at),
    }
}

/// A chunk at `miss` belongs to the child at `at` in a container of that kind: it does
/// not start more than a block past what is read for the child.
pub open spec fn within_child(doc: Seq<u8>, kind: ContainerKind, at: u64, miss: u64) -> bool {
    miss < child_reach(doc, kind, at as int) + 64
}

/// What is read of a value lies at or past its start.
proof fn lemma_value_reach(doc: Seq<u8>, start: int)
    requires
        0 <= start,
        doc.len() <= u64::MAX,
    ensures
        start <= value_reach(doc, start),
        value_end(doc, start) matches Ok(end) ==> end <= value_reach(doc, start),
        forall|close: u8|
            (#[trigger] follow(doc, start, close)) matches Ok(f) ==> value_reach(doc, start)
                == f.at,
{
    lemma_value_end(doc, start);
    if let Ok(end) = value_end(doc, start) {
        lemma_run_end(doc, end as int, ByteClass::Whitespace);
    }
}

/// The parts of an entry lie within what is read for it.
spec fn entry_reaches(doc: Seq<u8>, at: int, reach: int) -> bool {
    &&& key_reach(doc, at) <= reach
    &&& ws_end(doc, at) <= key_reach(doc, at)
}

proof fn lemma_entry_reach(doc: Seq<u8>, at: int, target: Seq<char>, recording: bool)
    requires
        0 <= at,
        doc.len() <= u64::MAX,
    ensures
        entry_reaches(doc, at, entry_reach(doc, at, target, recording)),
        entry_reaches(doc, at, child_reach(doc, ContainerKind::Object, at)),
        entry_key(doc, at) matches EntryKey::Key(o, c) ==> {
            &&& colon_reach(doc, c) <= child_reach(doc, ContainerKind::Object, at)
            &&& key_hit(doc.subrange(o + 1, c), target, recording) is Some ==> colon_reach(doc, c)
                <= entry_reach(doc, at, target, recording)
        },
{
    lemma_entry_key(doc, at);
    lemma_run_end(doc, at, ByteClass::Whitespace);
    if let EntryKey::Key(o, c) = entry_key(doc, at) {
        lemma_member_value(doc, c);
        lemma_run_end(doc, c + 1, ByteClass::Whitespace);
        if let Ok(v) = member_value(doc, c) {
            lemma_value_reach(doc, v);
        }
    }
}

/// The member that is found, or the closing byte of an object that lacks it, lies at or
/// past where the scan begins, and no less far than the entry there is read.
proof fn lemma_object_found(doc: Seq<u8>, at: int, target: Seq<char>, recording: bool)
    requires
        0 <= at,
        doc.len() <= u64::MAX,
    ensures
        match object_scan(doc, at, target, recording).outcome {
            Ok(Some(v)) => at <= v && entry_reach(doc, at, target, recording) <= v,
            Ok(None) => object_scan(doc, at, target, recording).resume matches Some(c) && at <= c
                && entry_reach(doc, at, target, recording) <= c && doc_byte(doc, c as int) == Some(
                RBRACE,
            ),
            Err(_) => true,
        },
    decreases doc.len() - at,
{
    lemma_entry_key(doc, at);
    if let EntryKey::Key(o, c) = entry_key(doc, at) {
        lemma_member_value(doc, c);
        if let Ok(v) = member_value(doc, c) {
            lemma_follow(doc, v, RBRACE);
            lemma_value_reach(doc, v);
            if let Ok(f) = follow(doc, v, RBRACE) {
                if !f.last {
                    lemma_object_found(doc, f.at + 1, target, recording);
                }
            }
        }
    }
}

// ---- scanning an object for a member

/// A member that a scan recorded: its name, where its entry begins, and where
/// its value begins.
pub type MemberMark = (Seq<char>, u64, u64);

/// What a scan of an object comes to: where the member's value begins, `None`
/// where the object has no such member, or the error; and what it records on the
/// way: the members it passed and the one it found, and the offset from which a
/// later scan goes on.
pub struct ObjectScan {
    pub outcome: Result<Option<u64>, TraverseError>,
    pub members: Seq<MemberMark>,
    pub resume: Option<u64>,
}

pub open spec fn object_fault(e: TraverseError) -> ObjectScan {
    ObjectScan { outcome: Err(e), members: Seq::empty(), resume: None }
}

/// Whether a key is the one looked for, `None` where it is malformed. A scan that
/// records decodes every key; one that does not only compares.
pub open spec fn key_hit(interior: Seq<u8>, target: Seq<char>, recording: bool) -> Option<bool> {
    if recording {
        match key_name(interior) {
            Some(name) => Some(name == target),
            None => None,
        }
    } else {
        key_matches(interior, target)
    }
}

/// The name that a recording scan notes for a key.
pub open spec fn noted_name(interior: Seq<u8>) -> Seq<char> {
    match key_name(interior) {
        Some(name) => name,
        None => Seq::empty(),
    }
}

/// Scan an object for the member `target`, entry by entry from `at` on. The first
/// member of that name is the one found.
pub open spec fn object_scan(doc: Seq<u8>, at: int, target: Seq<char>, recording: bool) -> ObjectScan
    decreases doc.len() - at,
        when 0 <= at && doc.len() <= u64::MAX
{
    match entry_key(doc, at) {
        EntryKey::Fault(e) => object_fault(e),
        EntryKey::Close(o) => ObjectScan {
            outcome: Ok(None),
            members: Seq::empty(),
            resume: Some(o as u64),
        },
        EntryKey::Key(o, c) => {
            let interior = doc.subrange(o + 1, c);
            match (key_hit(interior, target, recording), member_value(doc, c)) {
                (None, _) => object_fault(TraverseError::Malformed(o as u64)),
                (Some(_), Err(e)) => object_fault(e),
                (Some(hit), Ok(v)) => {
                    let mark = seq![(noted_name(interior), at as u64, v as u64)];
                    if hit {
                        ObjectScan {
                            outcome: Ok(Some(v as u64)),
                            members: mark,
                            resume: Some(at as u64),
                        }
                    } else {
                        match follow(doc, v, RBRACE) {
                            Err(e) => object_fault(e),
                            Ok(f) => if f.last {
                                ObjectScan {
                                    outcome: Ok(None),
                                    members: mark,
                                    resume: Some(f.at as u64),
                                }
                            } else {
                                proof {
                                    lemma_entry_key(doc, at);
                                    lemma_member_value(doc, c);
                                    lemma_follow(doc, v, RBRACE);
                                }
                                let rest = object_scan(doc, f.at + 1, target, recording);
                                ObjectScan { members: mark + rest.members, ..rest }
                            },
                        }
                    }
                },
            }
        },
    }
}

/// A record of an object: its members so far, and the offset to resume from.
pub struct ObjectNotes {
    pub members: Seq<MemberMark>,
    pub resume: Option<u64>,
}

impl ObjectNotes {
    /// The record once a scan is added to it.
    pub open spec fn after(self, scan: ObjectScan) -> ObjectNotes {
        ObjectNotes {
            members: self.members + scan.members,
            resume: if scan.resume is Some {
                scan.resume
            } else {
                self.resume
            },
        }
    }
}

/// The marks that a list of recorded members holds.
pub open spec fn member_marks(members: Seq<(String, u64, u64)>) -> Seq<MemberMark> {
    members.map_values(|m: (String, u64, u64)| (m.0@, m.1, m.2))
}

/// What a step through an object from `was` to `now` gives: the outcome of the
/// scan, in every document that the window shows, or the first absent chunk,
/// with a scan from `now` still coming to what it would have come to. Progress is
/// kept: the absent chunk belongs to the member at `now`, and every member before it is
/// behind `now`. Of the member that is found, no more is read than leads to its value,
/// and of an object that lacks it, no more than its closing byte.
pub open spec fn object_stepped(
    w: WindowView,
    target: Seq<char>,
    recording: bool,
    was: u64,
    now: u64,
    notes: ObjectNotes,
    noted: ObjectNotes,
    r: Result<Option<u64>, TraverseError>,
) -> bool {
    &&& was <= now
    &&& r matches Err(TraverseError::Pending(miss)) ==> w.lacks(now as int, miss.0)
    &&& r matches Ok(Some(v)) ==> now <= v
    &&& !recording ==> noted == notes
    &&& forall|doc: Seq<u8>| #[trigger]
        w.agrees(doc) ==> {
            let before = object_scan(doc, was as int, target, recording);
            match r {
                Err(TraverseError::Pending(miss)) => {
                    let after = object_scan(doc, now as int, target, recording);
                    &&& after.outcome == before.outcome
                    &&& after.resume == before.resume
                    &&& recording ==> noted.after(after) == notes.after(before)
                    &&& w.resident(now as int, miss.0 as int)
                    &&& miss.0 < entry_reach(doc, now as int, target, recording) + 64
                    &&& match before.outcome {
                        Ok(Some(v)) => miss.0 < v + 64,
                        Ok(None) => before.resume matches Some(close) && miss.0 < close + 64,
                        Err(_) => true,
                    }
                },
                _ => {
                    &&& before.outcome == r
                    &&& recording ==> noted == notes.after(before)
                },
            }
        }
}

/// From a member key's closing-quote offset, skip the `:` separator (and
/// surrounding whitespace) to the value's first byte.
fn member_value_start(walker: &mut Walker, key_close: u64) -> (r: Result<u64, TraverseError>)
    requires
        old(walker).wf(),
        key_close < u64::MAX,
    ensures
        final(walker).wf(),
        final(walker).window() == old(walker).window(),
        r matches Ok(v) ==> key_close < v,
        r matches Err(TraverseError::Pending(miss)) ==> old(walker).window().lacks(
            key_close + 1,
            miss.0,
        ),
        forall|doc: Seq<u8>| #[trigger]
            old(walker).window().agrees(doc) ==> match r {
                Err(TraverseError::Pending(miss)) => {
                    &&& old(walker).window().resident(key_close + 1, miss.0 as int)
                    &&& miss.0 <= colon_reach(doc, key_close as int)
                },
                Ok(v) => member_value(doc, key_close as int) == Ok::<int, TraverseError>(v as int)
                    && old(walker).window().resident(key_close + 1, v as int),
                Err(e) => member_value(doc, key_close as int) == Err::<int, TraverseError>(e),
            },
{
    proof {
        let w = walker.window();
        assert forall|doc: Seq<u8>| #[trigger] w.agrees(doc) implies ws_end(doc, key_close + 1)
            < ws_end(doc, ws_end(doc, key_close + 1) + 1) by {
            lemma_run_end(doc, key_close + 1, ByteClass::Whitespace);
            lemma_run_end(doc, ws_end(doc, key_close + 1) + 1, ByteClass::Whitespace);
        }
    }
    let post_key: u64 = match walker.skip_whitespace(key_close + 1) {
        Ok(at) => at,
        Err(miss) => return Err(TraverseError::Pending(miss)),
    };
    match walker.byte_at(post_key) {
        Err(miss) => return Err(TraverseError::Pending(miss)),
        Ok(b) => {
            if b != Some(COLON) {
                return Err(TraverseError::Malformed(post_key));
            }
        },
    }
    match walker.skip_whitespace(post_key + 1) {
        Ok(at) => Ok(at),
        Err(miss) => Err(TraverseError::Pending(miss)),
    }
}

/// What follows a child, as an executable value: `(end, at, last)`.
fn follow_value(walker: &mut Walker, value_start: u64, close: u8) -> (r: Result<
    (u64, u64, bool),
    TraverseError,
>)
    requires
        old(walker).wf(),
        close != COMMA,
    ensures
        final(walker).wf(),
        final(walker).window() == old(walker).window(),
        r matches Ok(f) ==> value_start <= f.0 <= f.1 < u64::MAX,
        r matches Err(TraverseError::Pending(miss)) ==> old(walker).window().lacks(
            value_start as int,
            miss.0,
        ),
        forall|doc: Seq<u8>| #[trigger]
            old(walker).window().agrees(doc) ==> match r {
                Err(TraverseError::Pending(miss)) => {
                    &&& old(walker).window().resident(value_start as int, miss.0 as int)
                    &&& miss.0 < value_reach(doc, value_start as int) + 64
                },
                Ok(f) => follow(doc, value_start as int, close) == Ok::<Follow, TraverseError>(
                    Follow { end: f.0 as int, at: f.1 as int, last: f.2 },
                ) && old(walker).window().resident(value_start as int, f.1 + 1),
                Err(e) => follow(doc, value_start as int, close) == Err::<Follow, TraverseError>(
                    e,
                ),
            },
{
    proof {
        let w = walker.window();
        assert forall|doc: Seq<u8>| #[trigger] w.agrees(doc) implies (value_end(
            doc,
            value_start as int,
        ) matches Ok(end) ==> end <= value_reach(doc, value_start as int)) by {
            lemma_value_reach(doc, value_start as int);
        }
    }
    let end: u64 = match walker.skip_value(value_start) {
        Ok(end) => end,
        Err(e) => return Err(e),
    };
    let after: u64 = match walker.skip_whitespace(end) {
        Ok(at) => at,
        Err(miss) => return Err(TraverseError::Pending(miss)),
    };
    match walker.byte_at(after) {
        Err(miss) => Err(TraverseError::Pending(miss)),
        Ok(Some(b)) => {
            if b == COMMA {
                Ok((end, after, false))
            } else if b == close {
                Ok((end, after, true))
            } else {
                Err(TraverseError::Malformed(after))
            }
        },
        Ok(None) => Err(TraverseError::Malformed(after)),
    }
}

/// Advance an object scan, committing `offset` only after a fully successful
/// iteration, so a mid-iteration `ChunkMiss` redoes at most one key. While
/// `recording`, every member passed or found is added to `members`, and `resume`
/// becomes the found member's start or the close.
fn step_object(
    walker: &mut Walker,
    target: &str,
    offset: &mut u64,
    recording: bool,
    members: &mut Vec<(String, u64, u64)>,
    resume: &mut Option<u64>,
) -> (r: Result<Option<u64>, TraverseError>)
    requires
        old(walker).wf(),
    ensures
        final(walker).wf(),
        final(walker).window() == old(walker).window(),
        object_stepped(
            old(walker).window(),
            target@,
            recording,
            *old(offset),
            *final(offset),
            ObjectNotes { members: member_marks(old(members)@), resume: *old(resume) },
            ObjectNotes { members: member_marks(final(members)@), resume: *final(resume) },
            r,
        ),
{
    let ghost w = walker.window();
    let ghost was = *offset;
    let ghost notes = ObjectNotes { members: member_marks(members@), resume: *resume };
    proof {
        lemma_notes_empty(notes);
    }
    loop
        invariant
            walker.wf(),
            walker.window() == w,
            w == old(walker).window(),
            was == *old(offset),
            was <= *offset,
            notes == (ObjectNotes { members: member_marks(old(members)@), resume: *old(resume) }),
            *resume == *old(resume),
            !recording ==> members@ == old(members)@,
            forall|doc: Seq<u8>| #[trigger]
                w.agrees(doc) ==> {
                    let before = object_scan(doc, was as int, target@, recording);
                    let after = object_scan(doc, *offset as int, target@, recording);
                    &&& after.outcome == before.outcome
                    &&& after.resume == before.resume
                    &&& recording ==> (ObjectNotes {
                        members: member_marks(members@),
                        resume: *resume,
                    }).after(after) == notes.after(before)
                },
        decreases u64::MAX - *offset,
    {
        let at: u64 = *offset;
        proof {
            assert forall|doc: Seq<u8>| #[trigger] w.agrees(doc) implies {
                let reach = entry_reach(doc, at as int, target@, recording);
                &&& entry_reaches(doc, at as int, reach)
                &&& entry_key(doc, at as int) matches EntryKey::Key(o, c) ==> (key_hit(
                    doc.subrange(o + 1, c),
                    target@,
                    recording,
                ) is Some ==> colon_reach(doc, c) <= reach)
                &&& match object_scan(doc, at as int, target@, recording).outcome {
                    Ok(Some(v)) => reach <= v,
                    Ok(None) => object_scan(doc, at as int, target@, recording).resume matches Some(
                        c,
                    ) && reach <= c,
                    Err(_) => true,
                }
            } by {
                lemma_entry_reach(doc, at as int, target@, recording);
                lemma_object_found(doc, at as int, target@, recording);
            }
        }
        let key_open: u64 = match walker.skip_whitespace(at) {
            Ok(o) => o,
            Err(miss) => return Err(TraverseError::Pending(miss)),
        };
        match walker.byte_at(key_open) {
            Err(miss) => return Err(TraverseError::Pending(miss)),
            Ok(None) => return Err(TraverseError::UnexpectedEof(key_open)),
            Ok(Some(b)) => {
                if b == RBRACE {
                    if recording {
                        *resume = Some(key_open);
                    }
                    return Ok(None);
                }
                if b != QUOTE {
                    return Err(TraverseError::Malformed(key_open));
                }
            },
        }
        let key_close: u64 = match walker.next_string_close(key_open + 1) {
            Err(miss) => return Err(TraverseError::Pending(miss)),
            Ok(None) => return Err(TraverseError::UnexpectedEof(key_open)),
            Ok(Some(k)) => k,
        };
        let key: Vec<u8> = match walker.read_range(key_open + 1, key_close) {
            Err(miss) => return Err(TraverseError::Pending(miss)),
            Ok(key) => key,
        };
        assert forall|doc: Seq<u8>| #[trigger] w.agrees(doc) implies {
            &&& entry_key(doc, at as int) == EntryKey::Key(key_open as int, key_close as int)
            &&& key@ == doc.subrange(key_open + 1, key_close as int)
        } by {
            assert(key@ =~= doc.subrange(key_open + 1, key_close as int));
        }

        // The cache table needs the decoded key name, so recording decodes every
        // member. A plain lookup just compares the key against the target, and
        // decodes solely when an escape is present.
        let mut name: Option<String> = None;
        let hit: bool = if recording {
            match keys::decode(key.as_slice()) {
                Err(()) => return Err(TraverseError::Malformed(key_open)),
                Ok(decoded) => {
                    let same: bool = text_eq(decoded.as_str(), target);
                    name = Some(decoded);
                    same
                },
            }
        } else {
            match keys::compare(key.as_slice(), target) {
                Err(()) => return Err(TraverseError::Malformed(key_open)),
                Ok(same) => same,
            }
        };
        let value_start: u64 = match member_value_start(walker, key_close) {
            Err(e) => return Err(e),
            Ok(v) => v,
        };
        let ghost mark = (noted_name(key@), at, value_start);
        let ghost held = members@;
        if hit {
            // Match commit point: no fallible call follows, so recording here is never
            // redone by a retry.
            if let Some(decoded) = name {
                members.push((decoded, at, value_start));
                assert(member_marks(members@) =~= member_marks(held).push(mark));
                assert(member_marks(members@) =~= member_marks(held) + seq![mark]);
                *resume = Some(at);
            }
            return Ok(Some(value_start));
        }
        let (_, after, last): (u64, u64, bool) = match follow_value(walker, value_start, RBRACE) {
            Err(e) => return Err(e),
            Ok(f) => f,
        };
        // Skip commit point: the scan advances past this member. A mid-iteration
        // fault leaves it at the entry, recording nothing, so the retry re-records
        // exactly once.
        if let Some(decoded) = name {
            members.push((decoded, at, value_start));
            assert(member_marks(members@) =~= member_marks(held).push(mark));
            assert(member_marks(members@) =~= member_marks(held) + seq![mark]);
        }
        if last {
            if recording {
                *resume = Some(after);
            }
            return Ok(None);
        }
        *offset = after + 1;
        proof {
            let now = ObjectNotes { members: member_marks(members@), resume: *resume };
            let then = ObjectNotes { members: member_marks(held), resume: *resume };
            assert forall|doc: Seq<u8>| #[trigger] w.agrees(doc) implies {
                let before = object_scan(doc, was as int, target@, recording);
                let later = object_scan(doc, *offset as int, target@, recording);
                &&& later.outcome == before.outcome
                &&& later.resume == before.resume
                &&& recording ==> now.after(later) == notes.after(before)
            } by {
                let here = object_scan(doc, at as int, target@, recording);
                let later = object_scan(doc, *offset as int, target@, recording);
                assert(here.members == seq![mark] + later.members);
                if recording {
                    assert((member_marks(held) + seq![mark]) + later.members =~= member_marks(held)
                        + (seq![mark] + later.members));
                    assert(now.after(later) == then.after(here));
                }
            }
        }
    }
}

proof fn lemma_notes_empty(notes: ObjectNotes)
    ensures
        forall|scan: ObjectScan|
            scan.members.len() == 0 && scan.resume is None ==> #[trigger] notes.after(scan)
                == notes,
{
    assert forall|scan: ObjectScan| scan.members.len() == 0 && scan.resume is None implies
        #[trigger] notes.after(scan) == notes by {
        assert(notes.members + scan.members =~= notes.members);
    }
}

// ---- scanning an array for an element

/// Scan state of one container. Flattened across both kinds: object scans read
/// only `offset`; array scans use all fields (the comma fast path needs
/// `index`/`depth`/`carry` to resume after a mid-scan `ChunkMiss`).
#[derive(Debug, Clone, Copy)]
pub struct SegmentScan {
    pub kind: ContainerKind,
    /// Where the next iteration begins.
    pub offset: u64,
    /// Array element index considered next. Always 0 for objects.
    pub index: usize,
    /// Container-nesting depth at `offset`, relative to the entered container.
    /// Always 0 for objects. A level costs a byte, so it never exceeds `offset`.
    pub depth: u64,
    /// String-scan carry at `offset` for the array comma fast path. Default at
    /// element boundaries; the fast path may commit a mid-string carry at a block
    /// boundary. Unused for objects.
    pub carry: ScanCarry,
}

impl SegmentScan {
    pub open spec fn wf(self) -> bool {
        &&& self.carry.wf()
        &&& self.depth <= self.offset
    }

    /// The scan for the separators before element `target`.
    pub open spec fn commas(self, target: usize) -> Commas {
        Commas { lex: self.carry@, depth: self.depth as nat, left: (target - self.index) as nat }
    }
}

/// Go through the elements of an array from `at` on. The first of them is the
/// one looked for if `hit`; otherwise none is, and the array is gone through to
/// its end.
pub open spec fn array_walk(doc: Seq<u8>, at: int, hit: bool) -> Result<Option<u64>, TraverseError>
    decreases doc.len() - at,
        when 0 <= at && doc.len() <= u64::MAX
{
    let o = ws_end(doc, at);
    match doc_byte(doc, o) {
        None => Err(TraverseError::UnexpectedEof(o as u64)),
        Some(b) => if b == RBRACKET {
            Ok(None)
        } else if hit {
            Ok(Some(o as u64))
        } else {
            match follow(doc, o, RBRACKET) {
                Err(e) => Err(e),
                Ok(f) => if f.last {
                    Ok(None)
                } else {
                    proof {
                        lemma_run_end(doc, at, ByteClass::Whitespace);
                        lemma_follow(doc, o, RBRACKET);
                    }
                    array_walk(doc, f.at + 1, hit)
                },
            }
        },
    }
}

/// What a scan of an array comes to, and the elements that it records.
pub struct ArrayScan {
    pub outcome: Result<Option<u64>, TraverseError>,
    pub members: Seq<(usize, u64)>,
}

/// The record of the element looked for.
pub open spec fn hit_mark(
    outcome: Result<Option<u64>, TraverseError>,
    target: usize,
    stride: int,
) -> Seq<(usize, u64)> {
    if stride > 0 && outcome matches Ok(Some(v)) {
        seq![(target, outcome->Ok_0->0)]
    } else {
        Seq::empty()
    }
}

/// Scan an array for element `target`: past the separators before it, then to its
/// first byte. With a `stride`, the elements at its multiples and the one found
/// are recorded.
pub open spec fn array_scan(doc: Seq<u8>, scan: SegmentScan, target: usize, stride: int) -> ArrayScan {
    if scan.index < target {
        let s = scan.commas(target);
        let marks = doc_marks(doc, scan.offset as int, s, scan.index as int, stride);
        match comma_answer(doc, scan.offset as int, s) {
            CommaAnswer::Found(p) => {
                let outcome = array_walk(doc, p, true);
                ArrayScan { outcome, members: marks + hit_mark(outcome, target, stride) }
            },
            CommaAnswer::Closed(_) => ArrayScan { outcome: Ok(None), members: marks },
            CommaAnswer::Eof(at) => ArrayScan {
                outcome: Err(TraverseError::UnexpectedEof(at)),
                members: marks,
            },
        }
    } else {
        let outcome = array_walk(doc, scan.offset as int, scan.index == target);
        ArrayScan { outcome, members: hit_mark(outcome, target, stride) }
    }
}

/// The offset that [`array_walk`] ends at: the first byte of the element that it finds,
/// or the closing byte of the array.
pub open spec fn walk_end(doc: Seq<u8>, at: int, hit: bool) -> int
    decreases doc.len() - at,
        when 0 <= at && doc.len() <= u64::MAX
{
    let o = ws_end(doc, at);
    if hit || doc_byte(doc, o) is None || doc_byte(doc, o) == Some(RBRACKET) {
        o
    } else {
        match follow(doc, o, RBRACKET) {
            Err(_) => o,
            Ok(f) => if f.last {
                f.at
            } else {
                proof {
                    lemma_run_end(doc, at, ByteClass::Whitespace);
                    lemma_follow(doc, o, RBRACKET);
                }
                walk_end(doc, f.at + 1, hit)
            },
        }
    }
}

/// The offset that [`array_scan`] ends at: the first byte of the element that it finds,
/// or the closing byte of an array that lacks it.
pub open spec fn array_end(doc: Seq<u8>, scan: SegmentScan, target: usize) -> int {
    if scan.index < target {
        match comma_answer(doc, scan.offset as int, scan.commas(target)) {
            CommaAnswer::Found(p) => walk_end(doc, p, true),
            _ => closes_at(doc, scan.offset as int, scan.carry@, scan.depth as nat),
        }
    } else {
        walk_end(doc, scan.offset as int, scan.index == target)
    }
}

/// A walk ends at or past where it begins, and no less far than the element there is read.
proof fn lemma_walk_end(doc: Seq<u8>, at: int, hit: bool)
    requires
        0 <= at,
        doc.len() <= u64::MAX,
    ensures
        at <= walk_end(doc, at, hit),
        array_walk(doc, at, hit) matches Ok(found) ==> {
            &&& element_reach(doc, at, hit) <= walk_end(doc, at, hit)
            &&& found matches Some(v) ==> v == walk_end(doc, at, hit)
            &&& found is None ==> doc_byte(doc, walk_end(doc, at, hit)) == Some(RBRACKET)
        },
    decreases doc.len() - at,
{
    let o = ws_end(doc, at);
    lemma_run_end(doc, at, ByteClass::Whitespace);
    if o < doc.len() && doc[o] != RBRACKET && !hit {
        lemma_follow(doc, o, RBRACKET);
        lemma_value_reach(doc, o);
        if let Ok(f) = follow(doc, o, RBRACKET) {
            if !f.last {
                lemma_walk_end(doc, f.at + 1, hit);
            }
        }
    }
}

/// The element that is found, or the closing byte of an array that lacks it, lies at or
/// past where the scan stands, and no less far than the element there is read.
proof fn lemma_array_found(doc: Seq<u8>, scan: SegmentScan, target: usize, stride: int)
    requires
        doc.len() <= u64::MAX,
    ensures
        array_scan(doc, scan, target, stride).outcome matches Ok(found) ==> {
            &&& scan.offset <= array_end(doc, scan, target)
            &&& scan.index >= target ==> element_reach(
                doc,
                scan.offset as int,
                scan.index == target,
            ) <= array_end(doc, scan, target)
            &&& found matches Some(v) ==> v == array_end(doc, scan, target)
            &&& found is None ==> (doc_byte(doc, array_end(doc, scan, target)) matches Some(b)
                && is_closer(b))
        },
{
    let at = scan.offset as int;
    if scan.index < target {
        let s = scan.commas(target);
        crate::scan::lemma_comma_left(doc, at, doc.len() as int, s);
        if let CommaAnswer::Found(p) = comma_answer(doc, at, s) {
            lemma_walk_end(doc, p, true);
        } else if at <= doc.len() {
            lemma_closes_at(doc, at, doc.len() as int, s);
        }
    } else {
        lemma_walk_end(doc, at, scan.index == target);
    }
}

/// What a step through an array from `was` to `now` gives: the outcome of the
/// scan, in every document that the window shows, or the first absent chunk,
/// with a scan from `now` still coming to what it would have come to. Progress is
/// kept: until the element is reached, every block before the absent chunk is behind
/// `now`. Of the element that is found, no more is read than its first byte, and of an
/// array that lacks it, no more than its closing byte.
pub open spec fn array_stepped(
    w: WindowView,
    target: usize,
    stride: int,
    was: SegmentScan,
    now: SegmentScan,
    notes: Seq<(usize, u64)>,
    noted: Seq<(usize, u64)>,
    r: Result<Option<u64>, TraverseError>,
) -> bool {
    &&& now.wf()
    &&& now.kind == was.kind
    &&& was.offset <= now.offset
    &&& r matches Err(TraverseError::Pending(miss)) ==> {
        &&& w.lacks(now.offset as int, miss.0)
        &&& now.index < target ==> miss.0 < now.offset + 64
    }
    &&& r matches Ok(Some(v)) ==> now.offset <= v
    &&& forall|doc: Seq<u8>| #[trigger]
        w.agrees(doc) ==> {
            let before = array_scan(doc, was, target, stride);
            match r {
                Err(TraverseError::Pending(miss)) => {
                    let after = array_scan(doc, now, target, stride);
                    &&& after.outcome == before.outcome
                    &&& noted + after.members == notes + before.members
                    &&& w.resident(now.offset as int, miss.0 as int)
                    &&& now.index >= target ==> miss.0 < element_reach(
                        doc,
                        now.offset as int,
                        now.index == target,
                    ) + 64
                    &&& before.outcome matches Ok(Some(v)) ==> miss.0 < v + 64
                    &&& array_end(doc, now, target) == array_end(doc, was, target)
                    &&& before.outcome is Ok ==> miss.0 < array_end(doc, was, target) + 64
                },
                _ => before.outcome == r && noted == notes + before.members,
            }
        }
}

/// Advance an array scan, committing `state` only after a fully successful
/// iteration. With a `stride`, elements at its multiples are recorded on the way.
fn step_array(
    walker: &mut Walker,
    target_index: usize,
    state: &mut SegmentScan,
    stride: usize,
    members: &mut Vec<(usize, u64)>,
) -> (r: Result<Option<u64>, TraverseError>)
    requires
        old(walker).wf(),
        old(state).wf(),
    ensures
        final(walker).wf(),
        final(walker).window() == old(walker).window(),
        array_stepped(
            old(walker).window(),
            target_index,
            stride as int,
            *old(state),
            *final(state),
            old(members)@,
            final(members)@,
            r,
        ),
{
    let ghost w = walker.window();
    let ghost was = *state;
    let ghost notes = members@;
    // Fast path: jump to the target element by counting depth-0 commas, skipping
    // per-element skip_value calls. The stride grid is absolute, so sampling is
    // resume-safe.
    while state.index < target_index
        invariant
            walker.wf(),
            walker.window() == w,
            w == old(walker).window(),
            was == *old(state),
            notes == old(members)@,
            state.wf(),
            state.kind == was.kind,
            was.offset <= state.offset,
            forall|doc: Seq<u8>| #[trigger]
                w.agrees(doc) ==> {
                    let before = array_scan(doc, was, target_index, stride as int);
                    let after = array_scan(doc, *state, target_index, stride as int);
                    &&& after.outcome == before.outcome
                    &&& array_end(doc, *state, target_index) == array_end(doc, was, target_index)
                    &&& members@ + after.members == notes + before.members
                },
        decreases
                (if state.index < target_index {
                    1int
                } else {
                    0
                }),
                u64::MAX - state.offset,
    {
        let ghost at = *state;
        let ghost held = members@;
        let ghost s = at.commas(target_index);
        proof {
            assert forall|doc: Seq<u8>| #[trigger] w.agrees(doc) implies (array_scan(
                doc,
                at,
                target_index,
                stride as int,
            ).outcome matches Ok(found) ==> {
                &&& at.offset <= array_end(doc, at, target_index)
                &&& found matches Some(v) ==> v == array_end(doc, at, target_index)
            }) by {
                lemma_array_found(doc, at, target_index, stride as int);
            }
        }
        let stop: CommaStop = match walker.advance_sampling(
            state.offset,
            state.depth,
            target_index - state.index,
            state.carry,
            state.index,
            stride,
            members,
        ) {
            Ok(stop) => stop,
            Err(e) => return Err(e),
        };
        match stop {
            CommaStop::Found { offset_after_comma, consumed } => {
                state.offset = offset_after_comma;
                state.index = state.index + consumed;
                state.depth = 0;
                // Just past a depth-0 comma is an element boundary - outside any
                // string.
                state.carry = ScanCarry::default();
            },
            CommaStop::ArrayClosed { consumed: _ } => {
                // Array ended before the target index existed.
                return Ok(None);
            },
            CommaStop::Partial { offset, depth, consumed, carry } => {
                state.offset = offset;
                state.index = state.index + consumed;
                state.depth = depth;
                state.carry = carry;
                // Loop: the next iteration re-enters the fast path and faults the
                // now-needed chunk.
            },
        }
        proof {
            assert forall|doc: Seq<u8>| #[trigger] w.agrees(doc) implies {
                let before = array_scan(doc, was, target_index, stride as int);
                let after = array_scan(doc, *state, target_index, stride as int);
                &&& after.outcome == before.outcome
                &&& array_end(doc, *state, target_index) == array_end(doc, was, target_index)
                &&& members@ + after.members == notes + before.members
            } by {
                let here = array_scan(doc, at, target_index, stride as int);
                let after = array_scan(doc, *state, target_index, stride as int);
                let marks = doc_marks(doc, at.offset as int, s, at.index as int, stride as int);
                let hit = hit_mark(here.outcome, target_index, stride as int);
                match stop {
                    CommaStop::Partial { .. } => {
                        let rest = doc_marks(
                            doc,
                            state.offset as int,
                            state.commas(target_index),
                            state.index as int,
                            stride as int,
                        );
                        assert(members@ + rest == held + marks);
                        assert((members@ + rest) + hit =~= members@ + (rest + hit));
                        assert((held + marks) + hit =~= held + (marks + hit));
                        assert(members@ + after.members =~= held + here.members);
                    },
                    _ => {
                        assert((held + marks) + hit =~= held + (marks + hit));
                        assert(members@ + after.members =~= held + here.members);
                    },
                }
            }
        }
    }
    proof {
        assert(forall|doc: Seq<u8>| #[trigger]
            w.agrees(doc) ==> array_scan(doc, *state, target_index, stride as int).outcome
                == array_walk(doc, state.offset as int, state.index == target_index));
    }
    loop
        invariant
            walker.wf(),
            walker.window() == w,
            w == old(walker).window(),
            was == *old(state),
            notes == old(members)@,
            state.wf(),
            state.kind == was.kind,
            was.offset <= state.offset,
            state.index >= target_index,
            forall|doc: Seq<u8>| #[trigger]
                w.agrees(doc) ==> {
                    let before = array_scan(doc, was, target_index, stride as int);
                    let after = array_scan(doc, *state, target_index, stride as int);
                    &&& after.outcome == before.outcome
                    &&& array_end(doc, *state, target_index) == array_end(doc, was, target_index)
                    &&& members@ + after.members == notes + before.members
                },
        decreases u64::MAX - state.offset,
    {
        let ghost at = *state;
        assert(members@ + Seq::<(usize, u64)>::empty() =~= members@);
        proof {
            let hit = at.index == target_index;
            assert forall|doc: Seq<u8>| #[trigger] w.agrees(doc) implies {
                let reach = element_reach(doc, at.offset as int, hit);
                &&& ws_end(doc, at.offset as int) <= reach
                &&& array_scan(doc, at, target_index, stride as int).outcome matches Ok(found) ==> {
                    &&& reach <= array_end(doc, at, target_index)
                    &&& found matches Some(v) ==> v == array_end(doc, at, target_index)
                }
            } by {
                lemma_run_end(doc, at.offset as int, ByteClass::Whitespace);
                lemma_value_reach(doc, ws_end(doc, at.offset as int));
                lemma_array_found(doc, at, target_index, stride as int);
            }
        }
        let offset: u64 = match walker.skip_whitespace(state.offset) {
            Ok(o) => o,
            Err(miss) => return Err(TraverseError::Pending(miss)),
        };
        match walker.byte_at(offset) {
            Err(miss) => return Err(TraverseError::Pending(miss)),
            Ok(None) => return Err(TraverseError::UnexpectedEof(offset)),
            Ok(Some(b)) => {
                if b == RBRACKET {
                    return Ok(None);
                }
            },
        }
        if state.index == target_index {
            let ghost held = members@;
            if stride > 0 {
                members.push((target_index, offset));
                assert(members@ =~= held + seq![(target_index, offset)]);
            }
            return Ok(Some(offset));
        }
        let (_, after, last): (u64, u64, bool) = match follow_value(walker, offset, RBRACKET) {
            Err(e) => return Err(e),
            Ok(f) => f,
        };
        if last {
            return Ok(None);
        }
        state.offset = after + 1;
        state.index = state.index.saturating_add(1);
        state.depth = 0;
        state.carry = ScanCarry::default();
        proof {
            assert forall|doc: Seq<u8>| #[trigger] w.agrees(doc) implies {
                let before = array_scan(doc, at, target_index, stride as int);
                let later = array_scan(doc, *state, target_index, stride as int);
                &&& later.outcome == before.outcome
                &&& later.members == before.members
                &&& array_end(doc, *state, target_index) == array_end(doc, at, target_index)
            } by {
                assert(array_walk(doc, at.offset as int, false) == array_walk(
                    doc,
                    state.offset as int,
                    false,
                ));
            }
        }
    }
}

// ---- resolving a path

#[derive(Debug, Clone, Copy, PartialEq, Eq, Structural)]
pub enum PathFault {
    /// A segment tried to descend into a value that isn't a container.
    ThroughScalar { segment: usize },
    /// A member-name segment addressed an array, or an index segment an object.
    WrongKind { segment: usize },
    /// A container operation (`count`/`iter`) was aimed at a scalar target.
    ScalarTarget,
}

#[derive(Debug, Clone, Copy, PartialEq, Eq, Structural)]
pub enum PathFaultCode {
    ThroughScalar,
    ScalarTarget,
    WrongKind,
}

impl PathFaultCode {
    pub open spec fn spec_text(self) -> Seq<char> {
        match self {
            PathFaultCode::ThroughScalar => "through_scalar"@,
            PathFaultCode::ScalarTarget => "scalar_target"@,
            PathFaultCode::WrongKind => "wrong_kind"@,
        }
    }

    pub fn as_str(self) -> (s: &'static str)
        ensures
            s@ == self.spec_text(),
    {
        match self {
            Self::ThroughScalar => "through_scalar",
            Self::ScalarTarget => "scalar_target",
            Self::WrongKind => "wrong_kind",
        }
    }
}

impl PathFault {
    pub open spec fn spec_fault(self) -> PathFaultCode {
        match self {
            PathFault::ThroughScalar { .. } => PathFaultCode::ThroughScalar,
            PathFault::WrongKind { .. } => PathFaultCode::WrongKind,
            PathFault::ScalarTarget => PathFaultCode::ScalarTarget,
        }
    }

    pub open spec fn spec_segment(self) -> Option<usize> {
        match self {
            PathFault::ThroughScalar { segment } => Some(segment),
            PathFault::WrongKind { segment } => Some(segment),
            PathFault::ScalarTarget => None,
        }
    }

    /// The text of [`PathFault::code`].
    pub open spec fn spec_code(self) -> Seq<char> {
        match self.spec_segment() {
            Some(segment) => self.spec_fault().spec_text() + ":"@ + decimal(segment as nat),
            None => self.spec_fault().spec_text(),
        }
    }

    pub fn fault(&self) -> (c: PathFaultCode)
        ensures
            c == self.spec_fault(),
    {
        match self {
            Self::ThroughScalar { .. } => PathFaultCode::ThroughScalar,
            Self::WrongKind { .. } => PathFaultCode::WrongKind,
            Self::ScalarTarget => PathFaultCode::ScalarTarget,
        }
    }

    /// The offending segment index, where one is meaningful.
    pub fn segment(&self) -> (n: Option<usize>)
        ensures
            n == self.spec_segment(),
    {
        match self {
            Self::ThroughScalar { segment } => Some(*segment),
            Self::WrongKind { segment } => Some(*segment),
            Self::ScalarTarget => None,
        }
    }

    /// Machine code of the fault: `<code>`, or `<code>:<segment>` where the
    /// offending segment is meaningful.
    pub fn code(&self) -> (s: String)
        ensures
            s@ == self.spec_code(),
    {
        let mut s: String = String::new();
        s.append(self.fault().as_str());
        if let Some(segment) = self.segment() {
            s.append(":");
            push_decimal(&mut s, segment as u64);
        }
        assert(s@ =~= self.spec_code());
        s
    }
}

/// Outcome of resolving a path to its value's start offset.
#[derive(Debug, Clone, Copy, PartialEq, Eq, Structural)]
pub enum Resolved {
    /// The resolved value's start offset.
    Found(u64),
    /// A clean miss: a well-formed path addressed a member/index that isn't there.
    Absent,
    /// The path contradicts the document shape; see [`PathFault`].
    NotNavigable(PathFault),
}

/// A saved position a re-entering scan jumps to instead of rescanning from the
/// container's open. Stored in the structural-index cache, consumed as a seed.
#[derive(Debug, Clone, Copy, PartialEq, Eq, Structural)]
pub enum ResumePoint {
    /// Object: resume the member scan from this high-water offset.
    Object { offset: u64 },
    /// Array: resume the comma popcount from element `index` at `offset`.
    Array { index: usize, offset: u64 },
}

/// Child offsets collected for the structural-index cache, one
/// [`ContainerRecord`] per container the resolver entered.
#[derive(Debug)]
pub struct ScanRecord {
    pub containers: Vec<ContainerRecord>,
}

/// What one entered container yielded during a scan.
#[derive(Debug)]
pub struct ContainerRecord {
    /// The container is `path[..seg]` from the scan's anchor.
    pub seg: usize,
    /// Offset of the container's `{`/`[`.
    pub value_start: u64,
    pub body: RecordBody,
}

/// Kind-specific payload of a [`ContainerRecord`], mirroring the cache's
/// object/array body split.
#[allow(inconsistent_fields)]
#[derive(Debug)]
pub enum RecordBody {
    Object {
        /// Members seen, in scan order: `(name, key_start, value_start)`.
        members: Vec<(String, u64, u64)>,
        /// High-water resume offset - the matched member's start, or the close `}`.
        resume: Option<u64>,
    },
    Array {
        /// `(index, element_offset)` array members (one per stride multiple) plus
        /// the resolved target, in ascending index order.
        members: Vec<(usize, u64)>,
    },
}

/// What a [`RecordBody`] holds.
pub enum BodyNotes {
    Object(ObjectNotes),
    Array(Seq<(usize, u64)>),
}

/// What a [`ContainerRecord`] holds.
pub struct ContainerNotes {
    pub seg: usize,
    pub value_start: u64,
    pub body: BodyNotes,
}

impl View for RecordBody {
    type V = BodyNotes;

    open spec fn view(&self) -> BodyNotes {
        match self {
            RecordBody::Object { members, resume } => BodyNotes::Object(
                ObjectNotes { members: member_marks(members@), resume: *resume },
            ),
            RecordBody::Array { members } => BodyNotes::Array(members@),
        }
    }
}

impl View for ContainerRecord {
    type V = ContainerNotes;

    open spec fn view(&self) -> ContainerNotes {
        ContainerNotes { seg: self.seg, value_start: self.value_start, body: self.body@ }
    }
}

impl View for ScanRecord {
    type V = Seq<ContainerNotes>;

    open spec fn view(&self) -> Seq<ContainerNotes> {
        self.containers@.map_values(|c: ContainerRecord| c@)
    }
}

/// Per-query resolver state, persisted across `ChunkMiss` retries so a long
/// array walk doesn't restart from the anchor on every faulted-in chunk.
#[derive(Debug)]
pub struct ResolveState {
    /// Segment currently being processed. Reaches `path.len()` once all resolved.
    segment_idx: usize,
    /// Byte offset where the current segment's value starts.
    start: u64,
    /// `None` before descending into a container or after a segment is resolved.
    segment_scan: Option<SegmentScan>,
    /// Cache seed for the first container entered; consumed when its `segment_scan`
    /// is created. `None` for a cold resolve.
    seed: Option<ResumePoint>,
    /// Child offsets collected for the cache, or `None` when caching is disabled
    /// (no per-member decode/alloc on the hot path).
    scan_record: Option<ScanRecord>,
    /// Whether object members are tabled (object cap `> 0`). When `false`, object
    /// key decoding is skipped on the hot path even while arrays are collecting.
    record_objects: bool,
    /// Element-index stride for array-member sampling (`0` = no array members).
    array_stride: usize,
}

/// What a [`ResolveState`] stands for.
pub struct ResolveView {
    pub seg: int,
    pub start: u64,
    pub scan: Option<SegmentScan>,
    pub seed: Option<ResumePoint>,
    /// The containers recorded so far, if any are recorded at all.
    pub record: Option<Seq<ContainerNotes>>,
    pub objects: bool,
    pub stride: int,
}

impl View for ResolveState {
    type V = ResolveView;

    closed spec fn view(&self) -> ResolveView {
        ResolveView {
            seg: self.segment_idx as int,
            start: self.start,
            scan: self.segment_scan,
            seed: self.seed,
            record: match self.scan_record {
                Some(r) => Some(r@),
                None => None,
            },
            objects: self.record_objects,
            stride: self.array_stride as int,
        }
    }
}

/// The scan that a seed starts.
pub open spec fn seeded_scan(seed: ResumePoint) -> SegmentScan {
    let carry = ScanCarry { prev_escaped: 0, inside_string: 0 };
    match seed {
        ResumePoint::Object { offset } => SegmentScan {
            kind: ContainerKind::Object,
            offset,
            index: 0,
            depth: 0,
            carry,
        },
        ResumePoint::Array { index, offset } => SegmentScan {
            kind: ContainerKind::Array,
            offset,
            index,
            depth: 0,
            carry,
        },
    }
}

/// The scan of a container from its first child on, when its opening byte is at
/// `open`.
pub open spec fn fresh_scan(kind: ContainerKind, open: int) -> SegmentScan {
    SegmentScan {
        kind,
        offset: (open + 1) as u64,
        index: 0,
        depth: 0,
        carry: ScanCarry { prev_escaped: 0, inside_string: 0 },
    }
}

/// The container whose value starts at `start`, after whitespace: its kind and
/// the offset of its opening byte; `None` for a value that is not a container.
pub open spec fn container_at(doc: Seq<u8>, start: int) -> Result<
    Option<(ContainerKind, int)>,
    TraverseError,
> {
    let open = ws_end(doc, start);
    match doc_byte(doc, open) {
        None => Err(TraverseError::UnexpectedEof(open as u64)),
        Some(b) => if b == LBRACE {
            Ok(Some((ContainerKind::Object, open)))
        } else if b == LBRACKET {
            Ok(Some((ContainerKind::Array, open)))
        } else {
            Ok(None)
        },
    }
}

/// A record of nothing yet.
pub open spec fn empty_notes(kind: ContainerKind) -> BodyNotes {
    match kind {
        ContainerKind::Object => BodyNotes::Object(
            ObjectNotes { members: Seq::empty(), resume: None },
        ),
        ContainerKind::Array => BodyNotes::Array(Seq::empty()),
    }
}

impl ResolveView {
    /// Object members are recorded: there is a record to which they are added.
    pub open spec fn notes_objects(self) -> bool {
        self.objects && self.record is Some
    }

    /// The stride at which array elements are recorded, 0 for none.
    pub open spec fn notes_stride(self) -> int {
        if self.record is Some {
            self.stride
        } else {
            0
        }
    }

    /// While a container is being scanned its record is the last, and of its kind, and no
    /// seed is left.
    /// No more containers are recorded than were entered, none of them below the
    /// current segment.
    pub open spec fn wf(self) -> bool {
        &&& self.seg >= 0
        &&& self.stride >= 0
        &&& self.record matches Some(r) ==> {
            &&& r.len() <= self.seg + (if self.scan is Some {
                1int
            } else {
                0
            })
            &&& forall|i: int| 0 <= i < r.len() ==> (#[trigger] r[i]).seg <= self.seg
        }
        &&& self.scan matches Some(scan) ==> {
            &&& scan.wf()
            &&& self.seed is None
            &&& self.record matches Some(r) ==> r.len() > 0 && (r.last().body is Object <==> scan.kind
                is Object)
        }
    }

    /// The state once a container is entered: the scan that goes through it, and
    /// a record of its own, if records are kept.
    pub open spec fn entered(self, value_start: u64, scan: SegmentScan) -> ResolveView {
        ResolveView {
            start: value_start,
            scan: Some(scan),
            seed: None,
            record: match self.record {
                Some(r) => Some(
                    r.push(
                        ContainerNotes {
                            seg: self.seg as usize,
                            value_start,
                            body: empty_notes(scan.kind),
                        },
                    ),
                ),
                None => None,
            },
            ..self
        }
    }

    /// The state with another body in the last record.
    pub open spec fn noting(self, body: BodyNotes) -> ResolveView {
        ResolveView {
            record: match self.record {
                Some(r) => Some(
                    r.update(r.len() - 1, ContainerNotes { body, ..r.last() }),
                ),
                None => None,
            },
            ..self
        }
    }

    /// The state once the current segment leads to the value at `start`.
    pub open spec fn descended(self, start: u64) -> ResolveView {
        ResolveView { seg: self.seg + 1, start, scan: None, ..self }
    }

    /// The state after a scan of the current container to its outcome.
    pub open spec fn noting_object(self, scan: ObjectScan) -> ResolveView {
        if self.notes_objects() {
            self.noting(BodyNotes::Object(self.record->0.last().body->Object_0.after(scan)))
        } else {
            self
        }
    }

    pub open spec fn noting_array(self, scan: ArrayScan) -> ResolveView {
        if self.notes_stride() > 0 {
            self.noting(BodyNotes::Array(self.record->0.last().body->Array_0 + scan.members))
        } else {
            self
        }
    }

    /// Lowest offset that the resolution might still read.
    pub open spec fn spec_min_reachable(self) -> u64 {
        match self.scan {
            Some(scan) => scan.offset,
            None => self.start,
        }
    }

    /// A seed that is still to be used lies at or past where its container starts.
    pub open spec fn seed_ahead(self) -> bool {
        self.seed matches Some(seed) ==> self.scan is None && self.start <= seeded_scan(seed).offset
    }

    /// The resolution counts the elements of an array, before the one looked for.
    pub open spec fn counts_elements(self, path: Seq<Step>) -> bool {
        &&& self.scan matches Some(scan)
        &&& scan.kind is Array
        &&& 0 <= self.seg < path.len()
        &&& path[self.seg] matches Step::Element(index)
        &&& scan.index < index
    }

    /// An absent chunk belongs to what is at hand: the opening byte of a container, the
    /// member of an object, the next block of an array whose elements are counted, or the
    /// element that is looked for. No chunk is asked for that starts a block or more past
    /// the value that the path leads to, or past what else the outcome rests on.
    pub open spec fn awaits(self, doc: Seq<u8>, path: Seq<Step>, miss: u64) -> bool {
        &&& self.within_reach(doc, path, miss)
        &&& resolution(doc, path, self).outcome matches Ok(Resolved::Found(v)) ==> miss < v + 64
        &&& resolution(doc, path, self).outcome is Ok ==> miss < resolution(
            doc,
            path,
            self,
        ).rests_on + 64
    }

    /// The chunk at `miss` starts less than a block past what is read of what is at hand.
    pub open spec fn within_reach(self, doc: Seq<u8>, path: Seq<Step>, miss: u64) -> bool {
        match self.scan {
            None => miss <= ws_end(doc, self.start as int),
            Some(scan) => {
                let at = scan.offset as int;
                match (scan.kind, path[self.seg]) {
                    (ContainerKind::Object, Step::Member(name)) => miss < entry_reach(
                        doc,
                        at,
                        name,
                        self.notes_objects(),
                    ) + 64,
                    (ContainerKind::Array, Step::Element(index)) => if scan.index < index {
                        miss < at + 64
                    } else {
                        miss < element_reach(doc, at, scan.index == index) + 64
                    },
                    _ => false,
                }
            },
        }
    }

    /// Where the next read starts.
    pub open spec fn reads_from(self) -> u64 {
        match (self.scan, self.seed) {
            (Some(scan), _) => scan.offset,
            (None, Some(ResumePoint::Object { offset })) => offset,
            (None, Some(ResumePoint::Array { index, offset })) => offset,
            (None, None) => self.start,
        }
    }
}

/// What a resolution comes to, and the containers that it records.
pub struct Resolution {
    pub outcome: Result<Resolved, TraverseError>,
    pub record: Option<Seq<ContainerNotes>>,
    /// The offset that the outcome rests on: where the value begins, the closing byte of
    /// the container that lacks it, or where a value begins that does not hold it. 0 for
    /// an error.
    pub rests_on: int,
}

/// Resolve a path in `doc` from the state `st` on: enter the container at the
/// current value, find in it the child that the segment names, and go on from
/// there with the next segment.
pub open spec fn resolution(doc: Seq<u8>, path: Seq<Step>, st: ResolveView) -> Resolution
    decreases
            path.len() - st.seg,
            (if st.scan is None {
                1int
            } else {
                0
            }),
{
    if st.seg >= path.len() {
        Resolution {
            outcome: Ok(Resolved::Found(st.start)),
            record: st.record,
            rests_on: st.start as int,
        }
    } else {
        match st.scan {
            None => match st.seed {
                Some(seed) => resolution(doc, path, st.entered(st.start, seeded_scan(seed))),
                None => match container_at(doc, st.start as int) {
                    Err(e) => Resolution { outcome: Err(e), record: st.record, rests_on: 0 },
                    Ok(None) => Resolution {
                        outcome: Ok(
                            Resolved::NotNavigable(
                                PathFault::ThroughScalar { segment: st.seg as usize },
                            ),
                        ),
                        record: st.record,
                        rests_on: ws_end(doc, st.start as int),
                    },
                    Ok(Some((kind, open))) => resolution(
                        doc,
                        path,
                        st.entered(open as u64, fresh_scan(kind, open)),
                    ),
                },
            },
            Some(scan) => match (scan.kind, path[st.seg]) {
                (ContainerKind::Object, Step::Member(name)) => {
                    let found = object_scan(doc, scan.offset as int, name, st.notes_objects());
                    let noted = st.noting_object(found);
                    match found.outcome {
                        Err(e) => Resolution {
                            outcome: Err(e),
                            record: noted.record,
                            rests_on: 0,
                        },
                        Ok(None) => Resolution {
                            outcome: Ok(Resolved::Absent),
                            record: noted.record,
                            rests_on: found.resume->0 as int,
                        },
                        Ok(Some(v)) => resolution(doc, path, noted.descended(v)),
                    }
                },
                (ContainerKind::Array, Step::Element(index)) => {
                    let found = array_scan(doc, scan, index, st.notes_stride());
                    let noted = st.noting_array(found);
                    match found.outcome {
                        Err(e) => Resolution {
                            outcome: Err(e),
                            record: noted.record,
                            rests_on: 0,
                        },
                        Ok(None) => Resolution {
                            outcome: Ok(Resolved::Absent),
                            record: noted.record,
                            rests_on: array_end(doc, scan, index),
                        },
                        Ok(Some(v)) => resolution(doc, path, noted.descended(v)),
                    }
                },
                _ => Resolution {
                    outcome: Ok(
                        Resolved::NotNavigable(PathFault::WrongKind { segment: st.seg as usize }),
                    ),
                    record: st.record,
                    rests_on: st.start as int,
                },
            },
        }
    }
}

/// A path leads on: what a resolution comes to rests on an offset at or past where it
/// stands, and a value that is found begins there.
proof fn lemma_leads_on(doc: Seq<u8>, path: Seq<Step>, st: ResolveView)
    requires
        doc.len() <= u64::MAX,
        st.seed is None,
    ensures
        resolution(doc, path, st).outcome matches Ok(Resolved::Found(v)) ==> v == resolution(
            doc,
            path,
            st,
        ).rests_on,
        resolution(doc, path, st).outcome is Ok ==> {
            let v = resolution(doc, path, st).rests_on;
            &&& resolution(doc, path, st).outcome == Ok::<Resolved, TraverseError>(Resolved::Absent)
                ==> (doc_byte(doc, v) matches Some(b) && is_closer(b))
            &&& st.scan is None ==> st.start <= v
            &&& st.scan is None && st.seg < path.len() ==> ws_end(doc, st.start as int) <= v
            &&& st.scan is Some && st.seg < path.len() ==> match (st.scan->0.kind, path[st.seg]) {
                (ContainerKind::Object, Step::Member(name)) => entry_reach(
                    doc,
                    st.scan->0.offset as int,
                    name,
                    st.notes_objects(),
                ) <= v && st.scan->0.offset <= v,
                (ContainerKind::Array, Step::Element(index)) => {
                    &&& st.scan->0.offset <= v
                    &&& st.scan->0.index >= index ==> element_reach(
                        doc,
                        st.scan->0.offset as int,
                        st.scan->0.index == index,
                    ) <= v
                },
                _ => true,
            }
        },
    decreases
            path.len() - st.seg,
            (if st.scan is None {
                1int
            } else {
                0
            }),
{
    if st.seg < path.len() {
        match st.scan {
            None => {
                lemma_run_end(doc, st.start as int, ByteClass::Whitespace);
                if let Ok(Some((kind, open))) = container_at(doc, st.start as int) {
                    lemma_leads_on(doc, path, st.entered(open as u64, fresh_scan(kind, open)));
                }
            },
            Some(scan) => match (scan.kind, path[st.seg]) {
                (ContainerKind::Object, Step::Member(name)) => {
                    let found = object_scan(doc, scan.offset as int, name, st.notes_objects());
                    lemma_object_found(doc, scan.offset as int, name, st.notes_objects());
                    if let Ok(Some(v)) = found.outcome {
                        lemma_leads_on(doc, path, st.noting_object(found).descended(v));
                    }
                },
                (ContainerKind::Array, Step::Element(index)) => {
                    let found = array_scan(doc, scan, index, st.notes_stride());
                    lemma_array_found(doc, scan, index, st.notes_stride());
                    if let Ok(Some(v)) = found.outcome {
                        lemma_leads_on(doc, path, st.noting_array(found).descended(v));
                    }
                },
                _ => {},
            },
        }
    }
}

/// What a step of a resolution from `was` to `now` gives: its outcome and record,
/// in every document that the window shows, or the first absent chunk, with a
/// resolution from `now` still coming to what it would have come to. Nothing behind
/// where it reads from is read again: while it counts the elements of an array every
/// block before the absent chunk is behind that, and in an object every member before
/// the one that the chunk belongs to. Past the last segment nothing is read.
pub open spec fn resolve_stepped(
    w: WindowView,
    path: Seq<Step>,
    was: ResolveView,
    now: ResolveView,
    r: Result<Resolved, TraverseError>,
) -> bool {
    &&& now.wf()
    &&& now.objects == was.objects
    &&& now.stride == was.stride
    &&& was.seg <= path.len() ==> now.seg <= path.len()
    &&& was.seg >= path.len() ==> r == Ok::<Resolved, TraverseError>(Resolved::Found(was.start))
    &&& was.seed_ahead() ==> {
        &&& was.spec_min_reachable() <= now.spec_min_reachable()
        &&& was.reads_from() <= now.reads_from()
        &&& now.seed_ahead()
    }
    &&& r matches Err(TraverseError::Pending(miss)) ==> {
        &&& w.lacks(now.reads_from() as int, miss.0)
        &&& now.scan is None ==> now.seed is None
        &&& now.counts_elements(path) ==> miss.0 < now.reads_from() + 64
    }
    &&& forall|doc: Seq<u8>| #[trigger]
        w.agrees(doc) ==> match r {
            Err(TraverseError::Pending(miss)) => {
                &&& resolution(doc, path, now) == resolution(doc, path, was)
                &&& w.resident(now.reads_from() as int, miss.0 as int)
                &&& now.awaits(doc, path, miss.0)
                &&& resolution(doc, path, was).outcome matches Ok(Resolved::Found(v)) ==> miss.0 < v
                    + 64
                &&& resolution(doc, path, was).outcome is Ok ==> miss.0 < resolution(
                    doc,
                    path,
                    was,
                ).rests_on + 64
            },
            _ => {
                &&& resolution(doc, path, was).outcome == r
                &&& resolution(doc, path, was).record == now.record
            },
        }
}

/// A series of steps of one resolution, each over the chunks that are there by then.
pub open spec fn resolve_series(
    path: Seq<Step>,
    windows: Seq<WindowView>,
    states: Seq<ResolveView>,
    results: Seq<Result<Resolved, TraverseError>>,
) -> bool {
    &&& states.len() == windows.len() + 1
    &&& results.len() == windows.len()
    &&& forall|i: int|
        0 <= i < windows.len() ==> #[trigger] resolve_stepped(
            windows[i],
            path,
            states[i],
            states[i + 1],
            results[i],
        )
}

/// The retention bound of a resolution is where it starts before the first step, it
/// never goes down, and no later step misses a chunk that lies wholly below it. A seed
/// stands at or past the start of the container that it is for.
pub proof fn law_retention_bound_never_goes_down(
    path: Seq<Step>,
    windows: Seq<WindowView>,
    states: Seq<ResolveView>,
    results: Seq<Result<Resolved, TraverseError>>,
    i: int,
    j: int,
)
    requires
        resolve_series(path, windows, states, results),
        states[0].seed_ahead(),
        0 <= i <= j <= windows.len(),
    ensures
        states[0].scan is None ==> states[0].spec_min_reachable() == states[0].start,
        states[j].seed_ahead(),
        states[i].spec_min_reachable() <= states[j].spec_min_reachable(),
        j < windows.len() ==> (results[j] matches Err(TraverseError::Pending(miss))
            ==> states[i].spec_min_reachable() < miss.0 + windows[j].chunk_bytes),
    decreases j,
{
    if j > 0 {
        law_retention_bound_never_goes_down(
            path,
            windows,
            states,
            results,
            if i < j {
                i
            } else {
                i - 1
            },
            j - 1,
        );
        let k = j - 1;
        assert(resolve_stepped(windows[k], path, states[k], states[k + 1], results[k]));
    }
    if j < windows.len() {
        assert(resolve_stepped(windows[j], path, states[j], states[j + 1], results[j]));
    }
}

/// What a resolution comes to rests on the value that is found, on the closing byte of
/// the container that lacks it, or on a value that does not hold it: the last two are
/// bytes of the document.
pub proof fn law_an_outcome_rests_on_the_document(doc: Seq<u8>, path: Seq<Step>, st: ResolveView)
    requires
        doc.len() <= u64::MAX,
        st.wf(),
    ensures
        ({
            let x = resolution(doc, path, st);
            match x.outcome {
                Ok(Resolved::Found(v)) => x.rests_on == v,
                Ok(Resolved::Absent) => doc_byte(doc, x.rests_on) matches Some(b) && is_closer(b),
                _ => true,
            }
        }),
{
    if st.seg < path.len() {
        match st.seed {
            Some(seed) => lemma_leads_on(doc, path, st.entered(st.start, seeded_scan(seed))),
            None => lemma_leads_on(doc, path, st),
        }
    }
}

/// A resolution that leads to a value at `v` asks for no chunk that starts at or past
/// `v + 64`, and one that comes to nothing for none that starts a block or more past what
/// that rests on. Neither asks for a chunk that lies wholly before where it begins to
/// read: the container at its start, or the seed in that container.
pub proof fn law_a_resolution_reads_what_leads_to_its_value(
    doc: Seq<u8>,
    path: Seq<Step>,
    windows: Seq<WindowView>,
    states: Seq<ResolveView>,
    results: Seq<Result<Resolved, TraverseError>>,
    j: int,
)
    requires
        resolve_series(path, windows, states, results),
        0 <= j < windows.len(),
        forall|i: int| 0 <= i <= j ==> (#[trigger] windows[i]).agrees(doc),
        forall|i: int|
            0 <= i <= j ==> (#[trigger] results[i]) matches Err(TraverseError::Pending(_)),
    ensures
        resolution(doc, path, states[j + 1]) == resolution(doc, path, states[0]),
        ({
            let miss = results[j]->Err_0->Pending_0;
            let first = resolution(doc, path, states[0]);
            &&& first.outcome matches Ok(Resolved::Found(v)) ==> miss.0 < v + 64
            &&& first.outcome is Ok ==> miss.0 < first.rests_on + 64
            &&& states[0].seed_ahead() ==> states[0].reads_from() < miss.0 + windows[j].chunk_bytes
        }),
        states[0].seed_ahead() ==> states[j + 1].seed_ahead() && states[0].reads_from()
            <= states[j + 1].reads_from(),
    decreases j,
{
    if j > 0 {
        law_a_resolution_reads_what_leads_to_its_value(
            doc,
            path,
            windows,
            states,
            results,
            j - 1,
        );
    }
    assert(resolve_stepped(windows[j], path, states[j], states[j + 1], results[j]));
    assert(windows[j].agrees(doc));
    assert(results[j] matches Err(TraverseError::Pending(_)));
}

impl ResolveState {
    /// Start resolving `path` from segment `segment_idx` at `start` (the value
    /// start of container `path[..segment_idx]`), optionally seeded at a cached
    /// array member. Collects child offsets when `record_objects` or `array_stride > 0`.
    pub fn resume(
        start: u64,
        segment_idx: usize,
        seed: Option<ResumePoint>,
        record_objects: bool,
        array_stride: usize,
    ) -> (s: Self)
        ensures
            s@.wf(),
            s@ == (ResolveView {
                seg: segment_idx as int,
                start,
                scan: None,
                seed,
                record: if record_objects || array_stride > 0 {
                    Some(Seq::empty())
                } else {
                    None
                },
                objects: record_objects,
                stride: array_stride as int,
            }),
    {
        let scan_record: Option<ScanRecord> = if record_objects || array_stride > 0 {
            Some(ScanRecord { containers: Vec::new() })
        } else {
            None
        };
        assert(scan_record matches Some(r) ==> r@ =~= Seq::<ContainerNotes>::empty());
        ResolveState {
            segment_idx,
            start,
            segment_scan: None,
            seed,
            scan_record,
            record_objects,
            array_stride,
        }
    }

    /// Lowest offset a resumed step might still read (a key lookup reads behind
    /// the scan position but never behind the iteration's start). The retention
    /// bound for the byte window.
    pub fn min_reachable(&self) -> (at: u64)
        ensures
            at == self@.spec_min_reachable(),
    {
        match &self.segment_scan {
            Some(ls) => ls.offset,
            None => self.start,
        }
    }

    /// The collected child offsets (if caching was enabled).
    pub fn scan_record(&self) -> (r: Option<&ScanRecord>)
        ensures
            match r {
                Some(record) => self@.record == Some(record@),
                None => self@.record is None,
            },
    {
        self.scan_record.as_ref()
    }

    /// Take the collected child offsets (if caching was enabled) for write-back.
    pub fn take_scan_record(&mut self) -> (r: Option<ScanRecord>)
        ensures
            r is Some <==> old(self)@.record is Some,
            r matches Some(record) ==> old(self)@.record == Some(record@),
            final(self)@ == (ResolveView { record: None, ..old(self)@ }),
    {
        self.scan_record.take()
    }
}

/// The containers that an optional record holds.
pub open spec fn record_view(record: Option<ScanRecord>) -> Option<Seq<ContainerNotes>> {
    match record {
        Some(r) => Some(r@),
        None => None,
    }
}

/// A record with another body in its last container.
pub open spec fn with_body(record: Option<Seq<ContainerNotes>>, body: BodyNotes) -> Option<
    Seq<ContainerNotes>,
> {
    match record {
        Some(r) => Some(r.update(r.len() - 1, ContainerNotes { body, ..r.last() })),
        None => None,
    }
}

/// The notes of the last container, where it is an object.
pub open spec fn object_notes(record: Option<Seq<ContainerNotes>>) -> ObjectNotes {
    record->0.last().body->Object_0
}

/// The notes of the last container, where it is an array.
pub open spec fn array_notes(record: Option<Seq<ContainerNotes>>) -> Seq<(usize, u64)> {
    record->0.last().body->Array_0
}

/// Advance an object scan, recording in the last container of `record` if there
/// is one and `objects` are recorded.
fn step_object_noting(
    walker: &mut Walker,
    target: &str,
    offset: &mut u64,
    objects: bool,
    record: &mut Option<ScanRecord>,
) -> (r: Result<Option<u64>, TraverseError>)
    requires
        old(walker).wf(),
        record_view(*old(record)) matches Some(c) ==> c.len() > 0 && c.last().body is Object,
    ensures
        final(walker).wf(),
        final(walker).window() == old(walker).window(),
        ({
            let was = record_view(*old(record));
            let now = record_view(*final(record));
            if objects && was is Some {
                exists|noted: ObjectNotes|
                    now == with_body(was, BodyNotes::Object(noted)) && #[trigger] object_stepped(
                        old(walker).window(),
                        target@,
                        true,
                        *old(offset),
                        *final(offset),
                        object_notes(was),
                        noted,
                        r,
                    )
            } else {
                now == was && exists|notes: ObjectNotes| #[trigger]
                    object_stepped(
                        old(walker).window(),
                        target@,
                        false,
                        *old(offset),
                        *final(offset),
                        notes,
                        notes,
                        r,
                    )
            }
        }),
{
    let ghost was = record_view(*record);
    match record.take() {
        Some(mut held) => {
            if objects {
                let ghost all = held.containers@;
                match held.containers.pop() {
                    Some(c) => {
                        assert(held@ =~= was->0.drop_last());
                        assert(c@ == was->0.last());
                        match c.body {
                            RecordBody::Object { mut members, mut resume } => {
                                let r = step_object(
                                    walker,
                                    target,
                                    offset,
                                    true,
                                    &mut members,
                                    &mut resume,
                                );
                                let noted = RecordBody::Object { members, resume };
                                let ghost body = noted@;
                                held.containers.push(
                                    ContainerRecord {
                                        seg: c.seg,
                                        value_start: c.value_start,
                                        body: noted,
                                    },
                                );
                                assert(Some(held@) == with_body(was, body)) by {
                                    assert(held@ =~= with_body(was, body)->0);
                                }
                                *record = Some(held);
                                assert(record_view(*record) == with_body(
                                    was,
                                    BodyNotes::Object(body->Object_0),
                                ));
                                return r;
                            },
                            RecordBody::Array { members } => {
                                proof {
                                    assert(c@.body is Array);
                                    assert(false);
                                }
                                return Ok(None);
                            },
                        }
                    },
                    None => {
                        proof {
                            assert(was->0.len() == 0);
                            assert(false);
                        }
                        return Ok(None);
                    },
                }
            }
            *record = Some(held);
        },
        None => {},
    }
    let mut members: Vec<(String, u64, u64)> = Vec::new();
    let mut resume: Option<u64> = None;
    let r = step_object(walker, target, offset, false, &mut members, &mut resume);
    r
}

/// Advance an array scan, recording in the last container of `record` if there is
/// one and the `stride` is not 0.
fn step_array_noting(
    walker: &mut Walker,
    target_index: usize,
    state: &mut SegmentScan,
    stride: usize,
    record: &mut Option<ScanRecord>,
) -> (r: Result<Option<u64>, TraverseError>)
    requires
        old(walker).wf(),
        old(state).wf(),
        record_view(*old(record)) matches Some(c) ==> c.len() > 0 && c.last().body is Array,
    ensures
        final(walker).wf(),
        final(walker).window() == old(walker).window(),
        ({
            let was = record_view(*old(record));
            let now = record_view(*final(record));
            if stride > 0 && was is Some {
                exists|noted: Seq<(usize, u64)>|
                    now == with_body(was, BodyNotes::Array(noted)) && #[trigger] array_stepped(
                        old(walker).window(),
                        target_index,
                        stride as int,
                        *old(state),
                        *final(state),
                        array_notes(was),
                        noted,
                        r,
                    )
            } else {
                now == was && exists|notes: Seq<(usize, u64)>, noted: Seq<(usize, u64)>| #[trigger]
                    array_stepped(
                        old(walker).window(),
                        target_index,
                        0,
                        *old(state),
                        *final(state),
                        notes,
                        noted,
                        r,
                    )
            }
        }),
{
    let ghost was = record_view(*record);
    match record.take() {
        Some(mut held) => {
            if stride > 0 {
                match held.containers.pop() {
                    Some(c) => {
                        assert(held@ =~= was->0.drop_last());
                        assert(c@ == was->0.last());
                        match c.body {
                            RecordBody::Array { mut members } => {
                                assert(members@ == array_notes(was));
                                let r = step_array(
                                    walker,
                                    target_index,
                                    state,
                                    stride,
                                    &mut members,
                                );
                                let ghost after = members@;
                                assert(array_stepped(
                                    old(walker).window(),
                                    target_index,
                                    stride as int,
                                    *old(state),
                                    *state,
                                    array_notes(was),
                                    after,
                                    r,
                                ));
                                let noted = RecordBody::Array { members };
                                let ghost body = noted@;
                                assert(body->Array_0 == after);
                                held.containers.push(
                                    ContainerRecord {
                                        seg: c.seg,
                                        value_start: c.value_start,
                                        body: noted,
                                    },
                                );
                                assert(Some(held@) == with_body(was, body)) by {
                                    assert(held@ =~= with_body(was, body)->0);
                                }
                                *record = Some(held);
                                assert(record_view(*record) == with_body(
                                    was,
                                    BodyNotes::Array(body->Array_0),
                                ));
                                return r;
                            },
                            RecordBody::Object { members, resume } => {
                                proof {
                                    assert(c@.body is Object);
                                    assert(false);
                                }
                                return Ok(None);
                            },
                        }
                    },
                    None => {
                        proof {
                            assert(was->0.len() == 0);
                            assert(false);
                        }
                        return Ok(None);
                    },
                }
            }
            *record = Some(held);
        },
        None => {},
    }
    let mut members: Vec<(usize, u64)> = Vec::new();
    step_array(walker, target_index, state, 0, &mut members)
}

pub proof fn lemma_ws_idempotent(doc: Seq<u8>, at: int)
    requires
        0 <= at,
    ensures
        ws_end(doc, ws_end(doc, at)) == ws_end(doc, at),
{
    lemma_run_end(doc, at, ByteClass::Whitespace);
    lemma_run_end(doc, ws_end(doc, at), ByteClass::Whitespace);
}

/// The opening byte of the container that starts at `start`, after whitespace.
fn open_container(walker: &mut Walker, start: u64) -> (r: Result<
    (u64, Option<ContainerKind>),
    TraverseError,
>)
    requires
        old(walker).wf(),
    ensures
        final(walker).wf(),
        final(walker).window() == old(walker).window(),
        r matches Err(TraverseError::Pending(miss)) ==> old(walker).window().lacks(
            start as int,
            miss.0,
        ),
        r matches Ok((open, _)) ==> start <= open < u64::MAX,
        forall|doc: Seq<u8>| #[trigger]
            old(walker).window().agrees(doc) ==> match r {
                Err(TraverseError::Pending(miss)) => {
                    &&& old(walker).window().resident(start as int, miss.0 as int)
                    &&& miss.0 <= ws_end(doc, start as int)
                },
                Err(e) => container_at(doc, start as int) == Err::<
                    Option<(ContainerKind, int)>,
                    TraverseError,
                >(e),
                Ok((open, kind)) => {
                    &&& ws_end(doc, start as int) == open
                    &&& container_at(doc, start as int) == Ok::<
                        Option<(ContainerKind, int)>,
                        TraverseError,
                    >(
                        match kind {
                            Some(k) => Some((k, open as int)),
                            None => None,
                        },
                    )
                },
            },
{
    let open: u64 = match walker.skip_whitespace(start) {
        Ok(at) => at,
        Err(miss) => return Err(TraverseError::Pending(miss)),
    };
    match walker.byte_at(open) {
        Err(miss) => Err(TraverseError::Pending(miss)),
        Ok(None) => Err(TraverseError::UnexpectedEof(open)),
        Ok(Some(b)) => {
            if b == LBRACE {
                Ok((open, Some(ContainerKind::Object)))
            } else if b == LBRACKET {
                Ok((open, Some(ContainerKind::Array)))
            } else {
                Ok((open, None))
            }
        },
    }
}

impl ResolveState {
    /// Enter the container that `scan` goes through.
    fn enter(&mut self, value_start: u64, scan: SegmentScan)
        requires
            old(self)@.wf(),
            old(self)@.scan is None,
            scan.wf(),
        ensures
            final(self)@ == old(self)@.entered(value_start, scan),
            final(self)@.wf(),
    {
        let fresh = match scan.kind {
            ContainerKind::Object => RecordBody::Object { members: Vec::new(), resume: None },
            ContainerKind::Array => RecordBody::Array { members: Vec::new() },
        };
        proof {
            match fresh@ {
                BodyNotes::Object(notes) => {
                    assert(notes.members =~= Seq::<MemberMark>::empty());
                },
                BodyNotes::Array(notes) => {
                    assert(notes =~= Seq::<(usize, u64)>::empty());
                },
            }
            assert(fresh@ == empty_notes(scan.kind));
        }
        let ghost was = self@;
        match self.scan_record.take() {
            Some(mut held) => {
                let ghost before = held@;
                held.containers.push(
                    ContainerRecord { seg: self.segment_idx, value_start, body: fresh },
                );
                assert(held@ =~= before.push(
                    ContainerNotes {
                        seg: self.segment_idx,
                        value_start,
                        body: empty_notes(scan.kind),
                    },
                ));
                self.scan_record = Some(held);
            },
            None => {},
        }
        self.start = value_start;
        self.segment_scan = Some(scan);
        self.seed = None;
    }
}

/// Enter the container at the current value. `false` where the value is none.
fn enter_cold(walker: &mut Walker, state: &mut ResolveState, Ghost(path): Ghost<Seq<Step>>) -> (r:
    Result<bool, TraverseError>)
    requires
        old(walker).wf(),
        old(state)@.wf(),
        old(state)@.scan is None,
        old(state)@.seed is None,
        old(state)@.seg < path.len(),
    ensures
        final(walker).wf(),
        final(walker).window() == old(walker).window(),
        final(state)@.wf(),
        final(state)@.seg == old(state)@.seg,
        final(state)@.objects == old(state)@.objects,
        final(state)@.stride == old(state)@.stride,
        final(state)@.seed is None,
        old(state)@.start <= final(state)@.spec_min_reachable(),
        r == Ok::<bool, TraverseError>(true) <==> final(state)@.scan is Some,
        r matches Err(TraverseError::Pending(miss)) ==> old(walker).window().lacks(
            final(state)@.start as int,
            miss.0,
        ),
        forall|doc: Seq<u8>| #[trigger]
            old(walker).window().agrees(doc) ==> {
                let want = resolution(doc, path, old(state)@);
                let now = final(state)@;
                match r {
                    Err(TraverseError::Pending(miss)) => {
                        &&& resolution(doc, path, now) == want
                        &&& old(walker).window().resident(now.start as int, miss.0 as int)
                        &&& now.awaits(doc, path, miss.0)
                    },
                    Err(e) => want.outcome == Err::<Resolved, TraverseError>(e) && want.record
                        == now.record,
                    Ok(true) => resolution(doc, path, now) == want,
                    Ok(false) => {
                        &&& want.outcome == Ok::<Resolved, TraverseError>(
                            Resolved::NotNavigable(
                                PathFault::ThroughScalar { segment: now.seg as usize },
                            ),
                        )
                        &&& want.record == now.record
                    },
                }
            },
{
    let ghost w = walker.window();
    let ghost here = state@;
    proof {
        assert forall|doc: Seq<u8>| #[trigger] w.agrees(doc) implies {
            let want = resolution(doc, path, here);
            &&& want.outcome matches Ok(Resolved::Found(v)) ==> v == want.rests_on
            &&& want.outcome is Ok ==> ws_end(doc, here.start as int) <= want.rests_on
        } by {
            lemma_leads_on(doc, path, here);
        }
    }
    // Commit `start` to the skipped-whitespace position before the byte fetch so a miss
    // there doesn't re-skip on retry.
    let first: u64 = match walker.skip_whitespace(state.start) {
        Ok(at) => at,
        Err(miss) => return Err(TraverseError::Pending(miss)),
    };
    state.start = first;
    proof {
        assert forall|doc: Seq<u8>| #[trigger] w.agrees(doc) implies {
            &&& ws_end(doc, first as int) == first
            &&& resolution(doc, path, state@) == resolution(doc, path, here)
        } by {
            lemma_ws_idempotent(doc, here.start as int);
            assert(container_at(doc, first as int) == container_at(doc, here.start as int));
            if let Ok(Some((kind, open))) = container_at(doc, first as int) {
                assert(state@.entered(open as u64, fresh_scan(kind, open)) == here.entered(
                    open as u64,
                    fresh_scan(kind, open),
                ));
            }
        }
    }
    match open_container(walker, first) {
        Err(e) => Err(e),
        Ok((open, None)) => Ok(false),
        Ok((open, Some(kind))) => {
            let scan = SegmentScan {
                kind,
                offset: open + 1,
                index: 0,
                depth: 0,
                carry: ScanCarry::default(),
            };
            state.enter(open, scan);
            Ok(true)
        },
    }
}

/// Drive the resolver forward against the current `state`.
pub fn resolve_step(walker: &mut Walker, path: &[Segment], state: &mut ResolveState) -> (r: Result<
    Resolved,
    TraverseError,
>)
    requires
        old(walker).wf(),
        old(state)@.wf(),
    ensures
        final(walker).wf(),
        final(walker).window() == old(walker).window(),
        resolve_stepped(
            old(walker).window(),
            steps(path@),
            old(state)@,
            final(state)@,
            r,
        ),
{
    let ghost w = walker.window();
    let ghost names = steps(path@);
    let ghost was = state@;
    while state.segment_idx < path.len()
        invariant
            walker.wf(),
            walker.window() == w,
            w == old(walker).window(),
            was == old(state)@,
            names == steps(path@),
            state@.wf(),
            state@.objects == was.objects,
            state@.stride == was.stride,
            was.seg <= names.len() ==> state@.seg <= names.len(),
            was.seg >= names.len() ==> state@ == was,
            was.seed_ahead() ==> {
                &&& was.spec_min_reachable() <= state@.spec_min_reachable()
                &&& was.reads_from() <= state@.reads_from()
                &&& state@.seed_ahead()
            },
            forall|doc: Seq<u8>| #[trigger]
                w.agrees(doc) ==> resolution(doc, names, state@) == resolution(doc, names, was),
        decreases
                path@.len() - state.segment_idx,
                (if state.segment_scan is None {
                    1int
                } else {
                    0
                }),
    {
        let ghost here = state@;
        match state.segment_scan {
            None => {
                if let Some(seed) = state.seed {
                    // Seeded resume: kind and position come from the saved position, so
                    // the open byte is never read. Only the first entered container is
                    // ever seeded.
                    let scan = match seed {
                        ResumePoint::Object { offset } => SegmentScan {
                            kind: ContainerKind::Object,
                            offset,
                            index: 0,
                            depth: 0,
                            carry: ScanCarry::default(),
                        },
                        ResumePoint::Array { index, offset } => SegmentScan {
                            kind: ContainerKind::Array,
                            offset,
                            index,
                            depth: 0,
                            carry: ScanCarry::default(),
                        },
                    };
                    let start: u64 = state.start;
                    state.enter(start, scan);
                } else {
                    match enter_cold(walker, state, Ghost(names)) {
                        Err(e) => {
                            return Err(e);
                        },
                        Ok(false) => {
                            return Ok(
                                Resolved::NotNavigable(
                                    PathFault::ThroughScalar { segment: state.segment_idx },
                                ),
                            );
                        },
                        Ok(true) => {},
                    }
                }
                assert(forall|doc: Seq<u8>| #[trigger]
                    w.agrees(doc) ==> resolution(doc, names, state@) == resolution(
                        doc,
                        names,
                        here,
                    ));
            },
            Some(mut scan) => {
                assert(names[state.segment_idx as int] == path@[state.segment_idx as int]@);
                let ghost was_scan = scan;
                let found: Result<Option<u64>, TraverseError> = match (
                    scan.kind,
                    &path[state.segment_idx],
                ) {
                    (ContainerKind::Object, Segment::Member(name)) => {
                        let mut offset: u64 = scan.offset;
                        let r = step_object_noting(
                            walker,
                            name.as_str(),
                            &mut offset,
                            state.record_objects,
                            &mut state.scan_record,
                        );
                        scan.offset = offset;
                        state.segment_scan = Some(scan);
                        proof {
                            lemma_object_resolution(
                                w,
                                names,
                                here,
                                state@,
                                name@,
                                was_scan,
                                offset,
                                r,
                            );
                        }
                        r
                    },
                    (ContainerKind::Array, Segment::Element(index)) => {
                        let r = step_array_noting(
                            walker,
                            *index,
                            &mut scan,
                            state.array_stride,
                            &mut state.scan_record,
                        );
                        state.segment_scan = Some(scan);
                        proof {
                            lemma_array_resolution(
                                w,
                                names,
                                here,
                                state@,
                                *index,
                                was_scan,
                                scan,
                                r,
                            );
                        }
                        r
                    },
                    _ => {
                        return Ok(
                            Resolved::NotNavigable(
                                PathFault::WrongKind { segment: state.segment_idx },
                            ),
                        );
                    },
                };
                match found {
                    Err(e) => {
                        return Err(e);
                    },
                    Ok(None) => {
                        return Ok(Resolved::Absent);
                    },
                    Ok(Some(v)) => {
                        let ghost noted = state@;
                        state.start = v;
                        state.segment_idx = state.segment_idx + 1;
                        state.segment_scan = None;
                        assert(state@ == noted.descended(v));
                    },
                }
            },
        }
    }
    Ok(Resolved::Found(state.start))
}

/// What stepping through an object does to the resolution that it is part of.
pub open spec fn segment_stepped(
    w: WindowView,
    path: Seq<Step>,
    was: ResolveView,
    now: ResolveView,
    r: Result<Option<u64>, TraverseError>,
) -> bool {
    &&& now.wf()
    &&& now.scan is Some
    &&& now.seg == was.seg
    &&& now.seed == was.seed
    &&& was.spec_min_reachable() <= now.spec_min_reachable()
    &&& r matches Ok(Some(v)) ==> now.spec_min_reachable() <= v
    &&& r matches Err(TraverseError::Pending(miss)) ==> {
        &&& w.lacks(now.reads_from() as int, miss.0)
        &&& now.counts_elements(path) ==> miss.0 < now.reads_from() + 64
    }
    &&& forall|doc: Seq<u8>| #[trigger]
        w.agrees(doc) ==> match r {
            Err(TraverseError::Pending(miss)) => {
                &&& resolution(doc, path, now) == resolution(doc, path, was)
                &&& w.resident(now.reads_from() as int, miss.0 as int)
                &&& now.awaits(doc, path, miss.0)
            },
            Err(e) => {
                &&& resolution(doc, path, was).outcome == Err::<Resolved, TraverseError>(e)
                &&& resolution(doc, path, was).record == now.record
            },
            Ok(None) => {
                &&& resolution(doc, path, was).outcome == Ok::<Resolved, TraverseError>(
                    Resolved::Absent,
                )
                &&& resolution(doc, path, was).record == now.record
            },
            Ok(Some(v)) => resolution(doc, path, was) == resolution(doc, path, now.descended(v)),
        }
}

proof fn lemma_object_resolution(
    w: WindowView,
    path: Seq<Step>,
    was: ResolveView,
    now: ResolveView,
    name: Seq<char>,
    scan: SegmentScan,
    offset: u64,
    r: Result<Option<u64>, TraverseError>,
)
    requires
        was.wf(),
        was.scan == Some(scan),
        scan.kind is Object,
        0 <= was.seg < path.len(),
        path[was.seg] == Step::Member(name),
        was.notes_objects() ==> exists|noted: ObjectNotes|
            now == (ResolveView {
                scan: Some(SegmentScan { offset, ..scan }),
                ..was.noting(BodyNotes::Object(noted))
            }) && #[trigger] object_stepped(
                w,
                name,
                true,
                scan.offset,
                offset,
                object_notes(was.record),
                noted,
                r,
            ),
        !was.notes_objects() ==> now == (ResolveView {
            scan: Some(SegmentScan { offset, ..scan }),
            ..was
        }) && exists|notes: ObjectNotes| #[trigger]
            object_stepped(w, name, false, scan.offset, offset, notes, notes, r),
    ensures
        segment_stepped(w, path, was, now, r),
{
    assert forall|doc: Seq<u8>| #[trigger] w.agrees(doc) implies match r {
        Err(TraverseError::Pending(miss)) => {
            &&& resolution(doc, path, now) == resolution(doc, path, was)
            &&& w.resident(now.reads_from() as int, miss.0 as int)
            &&& now.awaits(doc, path, miss.0)
        },
        Err(e) => {
            &&& resolution(doc, path, was).outcome == Err::<Resolved, TraverseError>(e)
            &&& resolution(doc, path, was).record == now.record
        },
        Ok(None) => {
            &&& resolution(doc, path, was).outcome == Ok::<Resolved, TraverseError>(
                Resolved::Absent,
            )
            &&& resolution(doc, path, was).record == now.record
        },
        Ok(Some(v)) => resolution(doc, path, was) == resolution(doc, path, now.descended(v)),
    } by {
        let before = object_scan(doc, scan.offset as int, name, was.notes_objects());
        let after = object_scan(doc, offset as int, name, was.notes_objects());
        lemma_leads_on(doc, path, now);
        if was.notes_objects() {
            let noted = choose|noted: ObjectNotes|
                now == (ResolveView {
                    scan: Some(SegmentScan { offset, ..scan }),
                    ..was.noting(BodyNotes::Object(noted))
                }) && #[trigger] object_stepped(
                    w,
                    name,
                    true,
                    scan.offset,
                    offset,
                    object_notes(was.record),
                    noted,
                    r,
                );
            let r0 = was.record->0;
            let r1 = now.record->0;
            assert(r1 == r0.update(
                r0.len() - 1,
                ContainerNotes { body: BodyNotes::Object(noted), ..r0.last() },
            ));
            if r matches Err(TraverseError::Pending(miss)) {
                assert(now.noting_object(after).record->0 =~= was.noting_object(before).record->0);
                assert(now.noting_object(after).record == was.noting_object(before).record);
                if let Ok(Some(v)) = before.outcome {
                    assert(now.noting_object(after).descended(v) == was.noting_object(
                        before,
                    ).descended(v));
                }
            } else {
                assert(was.noting_object(before).record->0 =~= r1);
                if let Ok(Some(v)) = before.outcome {
                    assert(now.descended(v) == was.noting_object(before).descended(v));
                }
            }
        } else {
            if let Ok(Some(v)) = before.outcome {
                assert(now.descended(v) == was.descended(v));
            }
        }
    }
    if was.notes_objects() {
        let r0 = was.record->0;
        assert(now.record->0.last().body is Object);
    }
}

proof fn lemma_array_resolution(
    w: WindowView,
    path: Seq<Step>,
    was: ResolveView,
    now: ResolveView,
    index: usize,
    scan: SegmentScan,
    next: SegmentScan,
    r: Result<Option<u64>, TraverseError>,
)
    requires
        was.wf(),
        was.scan == Some(scan),
        scan.kind is Array,
        0 <= was.seg < path.len(),
        path[was.seg] == Step::Element(index),
        was.notes_stride() > 0 ==> exists|noted: Seq<(usize, u64)>|
            now == (ResolveView { scan: Some(next), ..was.noting(BodyNotes::Array(noted)) })
                && #[trigger] array_stepped(
                w,
                index,
                was.notes_stride(),
                scan,
                next,
                array_notes(was.record),
                noted,
                r,
            ),
        was.notes_stride() <= 0 ==> now == (ResolveView { scan: Some(next), ..was }) && exists|
            notes: Seq<(usize, u64)>,
            noted: Seq<(usize, u64)>,
        | #[trigger] array_stepped(w, index, 0, scan, next, notes, noted, r),
    ensures
        segment_stepped(w, path, was, now, r),
{
    assert forall|doc: Seq<u8>| #[trigger] w.agrees(doc) implies match r {
        Err(TraverseError::Pending(miss)) => {
            &&& resolution(doc, path, now) == resolution(doc, path, was)
            &&& w.resident(now.reads_from() as int, miss.0 as int)
            &&& now.awaits(doc, path, miss.0)
        },
        Err(e) => {
            &&& resolution(doc, path, was).outcome == Err::<Resolved, TraverseError>(e)
            &&& resolution(doc, path, was).record == now.record
        },
        Ok(None) => {
            &&& resolution(doc, path, was).outcome == Ok::<Resolved, TraverseError>(
                Resolved::Absent,
            )
            &&& resolution(doc, path, was).record == now.record
        },
        Ok(Some(v)) => resolution(doc, path, was) == resolution(doc, path, now.descended(v)),
    } by {
        let before = array_scan(doc, scan, index, was.notes_stride());
        let after = array_scan(doc, next, index, was.notes_stride());
        lemma_leads_on(doc, path, now);
        if was.notes_stride() > 0 {
            let noted = choose|noted: Seq<(usize, u64)>|
                now == (ResolveView { scan: Some(next), ..was.noting(BodyNotes::Array(noted)) })
                    && #[trigger] array_stepped(
                    w,
                    index,
                    was.notes_stride(),
                    scan,
                    next,
                    array_notes(was.record),
                    noted,
                    r,
                );
            let r0 = was.record->0;
            let r1 = now.record->0;
            assert(r1 == r0.update(
                r0.len() - 1,
                ContainerNotes { body: BodyNotes::Array(noted), ..r0.last() },
            ));
            if r matches Err(TraverseError::Pending(miss)) {
                assert(now.noting_array(after).record->0 =~= was.noting_array(before).record->0);
                assert(now.noting_array(after).record == was.noting_array(before).record);
                if let Ok(Some(v)) = before.outcome {
                    assert(now.noting_array(after).descended(v) == was.noting_array(
                        before,
                    ).descended(v));
                }
            } else {
                assert(was.noting_array(before).record->0 =~= r1);
                if let Ok(Some(v)) = before.outcome {
                    assert(now.descended(v) == was.noting_array(before).descended(v));
                }
            }
        } else {
            if let Ok(Some(v)) = before.outcome {
                assert(now.descended(v) == was.descended(v));
            }
        }
    }
    if was.notes_stride() > 0 {
        assert(now.record->0.last().body is Array);
    }
}

// ---- the children of a container, one by one

/// Cursor over the children of an object or array. Created by [`enter_container`],
/// advanced one entry at a time by [`next_child`].
///
/// After exhaustion `next_offset` points AT the closing `}`/`]` (not past it), so
/// repeated `next_child` calls re-see the close byte and return `None` idempotently.
#[derive(Debug, Clone, Copy, PartialEq, Eq, Structural)]
pub struct ContainerCursor {
    pub kind: ContainerKind,
    pub next_offset: u64,
    pub index: usize,
}

impl ContainerCursor {
    /// Offset just past the container's closing `}`/`]`. Valid only after
    /// [`next_child`] has returned `None` - mid-iteration `next_offset` points at
    /// the next child, not the close.
    pub fn close_offset(&self) -> (at: u64)
        requires
            self.next_offset < u64::MAX,
        ensures
            at == self.next_offset + 1,
    {
        self.next_offset + 1
    }
}

/// How a child is addressed within its container. Object keys are carried as
/// their raw source span - consumers that need the name fetch and decode it;
/// nothing here validates the key bytes.
#[derive(Debug, Clone, Copy, PartialEq, Eq, Structural)]
pub enum ChildKey {
    /// Object member: span of the key string, opening quote through closing quote.
    Member { start: u64, close: u64 },
    /// Array element: zero-based index.
    Index(usize),
}

/// One yielded child of a container.
#[derive(Debug, Clone, Copy, PartialEq, Eq, Structural)]
pub struct ChildEntry {
    pub key: ChildKey,
    /// Byte range of the child's value.
    pub location: ValueLocation,
}

/// The cursor of the container that starts at `value_start`, `None` for a value
/// that is not one.
pub open spec fn cursor_at(doc: Seq<u8>, value_start: int) -> Result<
    Option<ContainerCursor>,
    TraverseError,
> {
    match container_at(doc, value_start) {
        Err(e) => Err(e),
        Ok(None) => Ok(None),
        Ok(Some((kind, open))) => Ok(
            Some(ContainerCursor { kind, next_offset: (open + 1) as u64, index: 0 }),
        ),
    }
}

/// The child after the one whose value is followed by `f`.
pub open spec fn past_child(cursor: ContainerCursor, f: Follow) -> ContainerCursor {
    ContainerCursor {
        next_offset: (if f.last {
            f.at
        } else {
            f.at + 1
        }) as u64,
        ..cursor
    }
}

/// The number of the next element.
pub open spec fn next_index(index: usize) -> usize {
    if index < usize::MAX {
        (index + 1) as usize
    } else {
        index
    }
}

/// The next child of a container and the cursor after it; no child, and a cursor
/// at the closing byte, at its end.
pub open spec fn child_step(doc: Seq<u8>, cursor: ContainerCursor) -> Result<
    (Option<ChildEntry>, ContainerCursor),
    TraverseError,
> {
    let at = cursor.next_offset as int;
    match cursor.kind {
        ContainerKind::Object => match entry_key(doc, at) {
            EntryKey::Fault(e) => Err(e),
            EntryKey::Close(o) => Ok((None, ContainerCursor { next_offset: o as u64, ..cursor })),
            EntryKey::Key(o, c) => match member_value(doc, c) {
                Err(e) => Err(e),
                Ok(v) => match follow(doc, v, RBRACE) {
                    Err(e) => Err(e),
                    Ok(f) => Ok(
                        (
                            Some(
                                ChildEntry {
                                    key: ChildKey::Member { start: o as u64, close: c as u64 },
                                    location: ValueLocation { start: v as u64, end: f.end as u64 },
                                },
                            ),
                            past_child(cursor, f),
                        ),
                    ),
                },
            },
        },
        ContainerKind::Array => {
            let o = ws_end(doc, at);
            match doc_byte(doc, o) {
                None => Err(TraverseError::UnexpectedEof(o as u64)),
                Some(b) => if b == RBRACKET {
                    Ok((None, ContainerCursor { next_offset: o as u64, ..cursor }))
                } else {
                    match follow(doc, o, RBRACKET) {
                        Err(e) => Err(e),
                        Ok(f) => Ok(
                            (
                                Some(
                                    ChildEntry {
                                        key: ChildKey::Index(cursor.index),
                                        location: ValueLocation {
                                            start: o as u64,
                                            end: f.end as u64,
                                        },
                                    },
                                ),
                                ContainerCursor {
                                    index: next_index(cursor.index),
                                    ..past_child(cursor, f)
                                },
                            ),
                        ),
                    }
                },
            }
        },
    }
}

/// Position a [`ContainerCursor`] at the first child of the container that begins at
/// `value_start`. Returns `Ok(None)` if the value isn't a container.
pub fn enter_container(walker: &mut Walker, value_start: u64) -> (r: Result<
    Option<ContainerCursor>,
    TraverseError,
>)
    requires
        old(walker).wf(),
    ensures
        final(walker).wf(),
        final(walker).window() == old(walker).window(),
        r matches Ok(Some(cursor)) ==> value_start < cursor.next_offset,
        r matches Err(TraverseError::Pending(miss)) ==> old(walker).window().lacks(
            value_start as int,
            miss.0,
        ),
        forall|doc: Seq<u8>| #[trigger]
            old(walker).window().agrees(doc) ==> match r {
                Err(TraverseError::Pending(miss)) => {
                    &&& old(walker).window().resident(value_start as int, miss.0 as int)
                    &&& miss.0 <= ws_end(doc, value_start as int)
                },
                _ => cursor_at(doc, value_start as int) == r,
            },
{
    match open_container(walker, value_start) {
        Err(e) => Err(e),
        Ok((open, None)) => Ok(None),
        Ok((open, Some(kind))) => Ok(
            Some(ContainerCursor { kind, next_offset: open + 1, index: 0 }),
        ),
    }
}

/// For a child that is there, nothing past the place of the next one is read.
pub proof fn lemma_child_reach(doc: Seq<u8>, cursor: ContainerCursor)
    requires
        doc.len() <= u64::MAX,
        child_step(doc, cursor) is Ok,
    ensures
        child_reach(doc, cursor.kind, cursor.next_offset as int) <= child_step(
            doc,
            cursor,
        )->Ok_0.1.next_offset,
{
    let at = cursor.next_offset as int;
    lemma_run_end(doc, at, ByteClass::Whitespace);
    lemma_entry_key(doc, at);
    match cursor.kind {
        ContainerKind::Object => {
            if let EntryKey::Key(o, c) = entry_key(doc, at) {
                lemma_member_value(doc, c);
                if let Ok(v) = member_value(doc, c) {
                    lemma_follow(doc, v, RBRACE);
                    lemma_value_reach(doc, v);
                }
            }
        },
        ContainerKind::Array => {
            lemma_follow(doc, ws_end(doc, at), RBRACKET);
            lemma_value_reach(doc, ws_end(doc, at));
        },
    }
}

/// The key of a child lies within the child.
pub proof fn lemma_key_is_within(
    doc: Seq<u8>,
    cursor: ContainerCursor,
    entry: ChildEntry,
    next: ContainerCursor,
    miss: u64,
)
    requires
        doc.len() <= u64::MAX,
        child_step(doc, cursor) == Ok::<(Option<ChildEntry>, ContainerCursor), TraverseError>(
            (Some(entry), next),
        ),
        entry.key matches ChildKey::Member { start, close } && miss <= close,
    ensures
        within_child(doc, cursor.kind, cursor.next_offset, miss),
{
    lemma_entry_reach(doc, cursor.next_offset as int, Seq::empty(), false);
}

/// What a step of a cursor from `was` to `now` gives: the next child, in every
/// document that the window shows, the error, or the first absent chunk, which
/// belongs to that child and leaves the cursor where it was.
pub open spec fn child_stepped(
    w: WindowView,
    was: ContainerCursor,
    now: ContainerCursor,
    r: Result<Option<ChildEntry>, TraverseError>,
) -> bool {
    &&& r is Err ==> now == was
    &&& r matches Err(TraverseError::Pending(miss)) ==> w.lacks(was.next_offset as int, miss.0)
    &&& r is Ok ==> was.next_offset <= now.next_offset && now.kind == was.kind
    &&& r matches Ok(None) ==> now.next_offset < u64::MAX
    &&& r matches Ok(Some(entry)) ==> {
        &&& was.next_offset <= entry.location.start <= entry.location.end
        &&& match (was.kind, entry.key) {
            (ContainerKind::Object, ChildKey::Member { start, close }) => was.next_offset <= start
                && start < close < u64::MAX,
            (ContainerKind::Array, ChildKey::Index(index)) => index == was.index,
            _ => false,
        }
    }
    &&& forall|doc: Seq<u8>| #[trigger]
        w.agrees(doc) ==> match r {
            Err(TraverseError::Pending(miss)) => {
                &&& w.resident(was.next_offset as int, miss.0 as int)
                &&& within_child(doc, was.kind, was.next_offset, miss.0)
            },
            Err(e) => child_step(doc, was) == Err::<
                (Option<ChildEntry>, ContainerCursor),
                TraverseError,
            >(e),
            Ok(entry) => child_step(doc, was) == Ok::<
                (Option<ChildEntry>, ContainerCursor),
                TraverseError,
            >((entry, now)),
        }
}

/// Advance `cursor` to the next child entry, or `Ok(None)` when exhausted.
/// Idempotent past exhaustion (see [`ContainerCursor`]).
pub fn next_child(walker: &mut Walker, cursor: &mut ContainerCursor) -> (r: Result<
    Option<ChildEntry>,
    TraverseError,
>)
    requires
        old(walker).wf(),
    ensures
        final(walker).wf(),
        final(walker).window() == old(walker).window(),
        child_stepped(old(walker).window(), *old(cursor), *final(cursor), r),
{
    match cursor.kind {
        ContainerKind::Object => next_object_member(walker, cursor),
        ContainerKind::Array => next_array_element(walker, cursor),
    }
}

fn next_object_member(walker: &mut Walker, cursor: &mut ContainerCursor) -> (r: Result<
    Option<ChildEntry>,
    TraverseError,
>)
    requires
        old(walker).wf(),
        old(cursor).kind is Object,
    ensures
        final(walker).wf(),
        final(walker).window() == old(walker).window(),
        child_stepped(old(walker).window(), *old(cursor), *final(cursor), r),
{
    proof {
        let w = walker.window();
        let at = cursor.next_offset as int;
        assert forall|doc: Seq<u8>| #[trigger] w.agrees(doc) implies {
            let reach = child_reach(doc, ContainerKind::Object, at);
            &&& entry_reaches(doc, at, reach)
            &&& entry_key(doc, at) matches EntryKey::Key(o, c) ==> colon_reach(doc, c) <= reach
        } by {
            lemma_entry_reach(doc, at, Seq::empty(), false);
        }
    }
    let offset: u64 = match walker.skip_whitespace(cursor.next_offset) {
        Ok(o) => o,
        Err(miss) => return Err(TraverseError::Pending(miss)),
    };
    match walker.byte_at(offset) {
        Err(miss) => return Err(TraverseError::Pending(miss)),
        Ok(None) => return Err(TraverseError::UnexpectedEof(offset)),
        Ok(Some(b)) => {
            if b == RBRACE {
                cursor.next_offset = offset;
                return Ok(None);
            }
            if b != QUOTE {
                return Err(TraverseError::Malformed(offset));
            }
        },
    }
    let key_close: u64 = match walker.next_string_close(offset + 1) {
        Err(miss) => return Err(TraverseError::Pending(miss)),
        Ok(None) => return Err(TraverseError::UnexpectedEof(offset)),
        Ok(Some(k)) => k,
    };
    let value_start: u64 = match member_value_start(walker, key_close) {
        Err(e) => return Err(e),
        Ok(v) => v,
    };
    let (location, next_offset): (ValueLocation, u64) = match advance_past_value(
        walker,
        value_start,
        RBRACE,
    ) {
        Err(e) => return Err(e),
        Ok(next) => next,
    };
    cursor.next_offset = next_offset;
    Ok(
        Some(
            ChildEntry {
                key: ChildKey::Member { start: offset, close: key_close },
                location,
            },
        ),
    )
}

fn next_array_element(walker: &mut Walker, cursor: &mut ContainerCursor) -> (r: Result<
    Option<ChildEntry>,
    TraverseError,
>)
    requires
        old(walker).wf(),
        old(cursor).kind is Array,
    ensures
        final(walker).wf(),
        final(walker).window() == old(walker).window(),
        child_stepped(old(walker).window(), *old(cursor), *final(cursor), r),
{
    proof {
        let w = walker.window();
        let at = cursor.next_offset as int;
        assert forall|doc: Seq<u8>| #[trigger] w.agrees(doc) implies ws_end(doc, at)
            <= element_reach(doc, at, false) by {
            lemma_run_end(doc, at, ByteClass::Whitespace);
            lemma_value_reach(doc, ws_end(doc, at));
        }
    }
    let offset: u64 = match walker.skip_whitespace(cursor.next_offset) {
        Ok(o) => o,
        Err(miss) => return Err(TraverseError::Pending(miss)),
    };
    match walker.byte_at(offset) {
        Err(miss) => return Err(TraverseError::Pending(miss)),
        Ok(None) => return Err(TraverseError::UnexpectedEof(offset)),
        Ok(Some(b)) => {
            if b == RBRACKET {
                cursor.next_offset = offset;
                return Ok(None);
            }
        },
    }
    let (location, next_offset): (ValueLocation, u64) = match advance_past_value(
        walker,
        offset,
        RBRACKET,
    ) {
        Err(e) => return Err(e),
        Ok(next) => next,
    };
    cursor.next_offset = next_offset;
    let index: usize = cursor.index;
    cursor.index = index.saturating_add(1);
    Ok(Some(ChildEntry { key: ChildKey::Index(index), location }))
}

/// Skip the value at `value_start` and the separator after it, returning the
/// value's location and the next child's offset (or the offset of `close` when
/// this was the last child).
fn advance_past_value(walker: &mut Walker, value_start: u64, close: u8) -> (r: Result<
    (ValueLocation, u64),
    TraverseError,
>)
    requires
        old(walker).wf(),
        close != COMMA,
    ensures
        final(walker).wf(),
        final(walker).window() == old(walker).window(),
        r matches Err(TraverseError::Pending(miss)) ==> old(walker).window().lacks(
            value_start as int,
            miss.0,
        ),
        r matches Ok((location, next)) ==> location.start == value_start && value_start
            <= location.end && value_start <= next,
        forall|doc: Seq<u8>| #[trigger]
            old(walker).window().agrees(doc) ==> match r {
                Err(TraverseError::Pending(miss)) => {
                    &&& old(walker).window().resident(value_start as int, miss.0 as int)
                    &&& miss.0 < value_reach(doc, value_start as int) + 64
                },
                Err(e) => follow(doc, value_start as int, close) == Err::<Follow, TraverseError>(
                    e,
                ),
                Ok((location, next)) => follow(doc, value_start as int, close) matches Ok(f)
                    && location.end == f.end && next == (if f.last {
                    f.at
                } else {
                    f.at + 1
                }),
            },
{
    match follow_value(walker, value_start, close) {
        Err(e) => Err(e),
        Ok((end, at, last)) => {
            let next: u64 = if last {
                at
            } else {
                at + 1
            };
            Ok((ValueLocation { start: value_start, end }, next))
        },
    }
}

/// Past its end a cursor stays there: stepping it again gives no child and moves
/// it no more.
pub proof fn law_exhausted_is_idempotent(doc: Seq<u8>, cursor: ContainerCursor)
    requires
        doc.len() <= u64::MAX,
        child_step(doc, cursor) matches Ok((None, _)),
    ensures
        ({
            let done = child_step(doc, cursor)->Ok_0.1;
            &&& child_step(doc, done) == Ok::<
                (Option<ChildEntry>, ContainerCursor),
                TraverseError,
            >((None, done))
            &&& done.next_offset < doc.len()
            &&& doc[done.next_offset as int] == (match cursor.kind {
                ContainerKind::Object => RBRACE,
                ContainerKind::Array => RBRACKET,
            })
        }),
{
    lemma_run_end(doc, cursor.next_offset as int, ByteClass::Whitespace);
    lemma_ws_idempotent(doc, cursor.next_offset as int);
    lemma_entry_key(doc, cursor.next_offset as int);
}

/// Every child lies past the place from which the cursor reached it, and the
/// cursor moves on with each: a container has finitely many children.
pub proof fn law_cursor_advances(doc: Seq<u8>, cursor: ContainerCursor)
    requires
        doc.len() <= u64::MAX,
        child_step(doc, cursor) matches Ok((Some(_), _)),
    ensures
        ({
            let (child, next) = child_step(doc, cursor)->Ok_0;
            let location = child->0.location;
            &&& cursor.next_offset <= location.start <= location.end <= doc.len()
            &&& cursor.next_offset < next.next_offset <= doc.len()
            &&& location.end <= next.next_offset
        }),
{
    let at = cursor.next_offset as int;
    lemma_run_end(doc, at, ByteClass::Whitespace);
    lemma_entry_key(doc, at);
    match cursor.kind {
        ContainerKind::Object => {
            if let EntryKey::Key(o, c) = entry_key(doc, at) {
                lemma_member_value(doc, c);
                if let Ok(v) = member_value(doc, c) {
                    lemma_follow(doc, v, RBRACE);
                }
            }
        },
        ContainerKind::Array => {
            let o = ws_end(doc, at);
            lemma_follow(doc, o, RBRACKET);
        },
    }
}

// ---- where a path leads

/// The element of an array that a segment names, when the array opens at `open`.
pub open spec fn element_at(doc: Seq<u8>, open: int, index: usize) -> Result<
    Option<u64>,
    TraverseError,
> {
    array_scan(doc, fresh_scan(ContainerKind::Array, open), index, 0).outcome
}

/// The child of a container that a step names: where its value starts, `None`
/// where the container has no such child. `Err` of a fault where the step does
/// not fit the kind of the container.
pub open spec fn child_at(
    doc: Seq<u8>,
    kind: ContainerKind,
    open: int,
    step: Step,
    objects: bool,
) -> Result<Result<Option<u64>, TraverseError>, ()> {
    match (kind, step) {
        (ContainerKind::Object, Step::Member(name)) => Ok(
            object_scan(doc, open + 1, name, objects).outcome,
        ),
        (ContainerKind::Array, Step::Element(index)) => Ok(element_at(doc, open, index)),
        _ => Err(()),
    }
}

/// Where a path leads from the value at `start`, which is that of `path[..seg]`:
/// to the value that its steps name one after the other. `objects` says whether
/// the names of object members are decoded on the way.
pub open spec fn locate(doc: Seq<u8>, path: Seq<Step>, seg: int, start: u64, objects: bool) -> Result<
    Resolved,
    TraverseError,
>
    decreases path.len() - seg,
{
    if seg >= path.len() {
        Ok(Resolved::Found(start))
    } else {
        match container_at(doc, start as int) {
            Err(e) => Err(e),
            Ok(None) => Ok(
                Resolved::NotNavigable(PathFault::ThroughScalar { segment: seg as usize }),
            ),
            Ok(Some((kind, open))) => match child_at(doc, kind, open, path[seg], objects) {
                Err(()) => Ok(
                    Resolved::NotNavigable(PathFault::WrongKind { segment: seg as usize }),
                ),
                Ok(Err(e)) => Err(e),
                Ok(Ok(None)) => Ok(Resolved::Absent),
                Ok(Ok(Some(v))) => locate(doc, path, seg + 1, v, objects),
            },
        }
    }
}

/// The containers that a resolution from the value at `start` records.
pub open spec fn cold_record(
    doc: Seq<u8>,
    path: Seq<Step>,
    seg: int,
    start: u64,
    objects: bool,
    stride: int,
) -> Seq<ContainerNotes>
    decreases path.len() - seg,
{
    if seg >= path.len() {
        Seq::empty()
    } else {
        match container_at(doc, start as int) {
            Ok(Some((kind, open))) => {
                let scan = fresh_scan(kind, open);
                let here = ContainerNotes {
                    seg: seg as usize,
                    value_start: open as u64,
                    body: scanned_notes(doc, scan, path[seg], objects, stride),
                };
                match child_at(doc, kind, open, path[seg], objects) {
                    Ok(Ok(Some(v))) => seq![here] + cold_record(
                        doc,
                        path,
                        seg + 1,
                        v,
                        objects,
                        stride,
                    ),
                    _ => seq![here],
                }
            },
            _ => Seq::empty(),
        }
    }
}

/// What a scan of a container for the child that `step` names records.
pub open spec fn scanned_notes(
    doc: Seq<u8>,
    scan: SegmentScan,
    step: Step,
    objects: bool,
    stride: int,
) -> BodyNotes {
    match (scan.kind, step) {
        (ContainerKind::Object, Step::Member(name)) => if objects {
            BodyNotes::Object(
                (ObjectNotes { members: Seq::empty(), resume: None }).after(
                    object_scan(doc, scan.offset as int, name, true),
                ),
            )
        } else {
            empty_notes(ContainerKind::Object)
        },
        (ContainerKind::Array, Step::Element(index)) => if stride > 0 {
            BodyNotes::Array(
                Seq::<(usize, u64)>::empty() + array_scan(doc, scan, index, stride).members,
            )
        } else {
            empty_notes(ContainerKind::Array)
        },
        (kind, _) => empty_notes(kind),
    }
}

/// What an array scan comes to does not depend on what it records.
pub proof fn lemma_stride_is_silent(
    doc: Seq<u8>,
    scan: SegmentScan,
    target: usize,
    a: int,
    b: int,
)
    ensures
        array_scan(doc, scan, target, a).outcome == array_scan(doc, scan, target, b).outcome,
{
}

/// A resolution that starts cold leads where the path leads, and records each
/// container that it enters.
pub proof fn law_cold_resolution(doc: Seq<u8>, path: Seq<Step>, st: ResolveView)
    requires
        st.scan is None,
        st.seed is None,
        st.wf(),
        st.objects || st.stride > 0 <==> st.record is Some,
        doc.len() <= u64::MAX,
        path.len() <= usize::MAX,
    ensures
        resolution(doc, path, st).outcome == locate(doc, path, st.seg, st.start, st.objects),
        match st.record {
            Some(r) => resolution(doc, path, st).record == Some(
                r + cold_record(doc, path, st.seg, st.start, st.objects, st.stride),
            ),
            None => resolution(doc, path, st).record is None,
        },
    decreases path.len() - st.seg, 1int,
{
    if st.seg < path.len() {
        if let Ok(Some((kind, open))) = container_at(doc, st.start as int) {
            lemma_run_end(doc, st.start as int, ByteClass::Whitespace);
            let scan = fresh_scan(kind, open);
            law_scanning_resolution(doc, path, st, open as u64, scan);
        } else {
            if let Some(r) = st.record {
                assert(r + Seq::<ContainerNotes>::empty() =~= r);
            }
        }
    } else {
        if let Some(r) = st.record {
            assert(r + Seq::<ContainerNotes>::empty() =~= r);
        }
    }
}

/// A resolution that has entered a container finds there the child that the
/// segment names, and goes on cold from it.
pub proof fn law_scanning_resolution(
    doc: Seq<u8>,
    path: Seq<Step>,
    st: ResolveView,
    value_start: u64,
    scan: SegmentScan,
)
    requires
        st.scan is None,
        st.wf(),
        st.objects || st.stride > 0 <==> st.record is Some,
        doc.len() <= u64::MAX,
        path.len() <= usize::MAX,
        st.seg < path.len(),
        scan.wf(),
    ensures
        ({
            let step = path[st.seg];
            let here = ContainerNotes {
                seg: st.seg as usize,
                value_start,
                body: scanned_notes(doc, scan, step, st.objects, st.stride),
            };
            let whole = resolution(doc, path, st.entered(value_start, scan));
            let found = match (scan.kind, step) {
                (ContainerKind::Object, Step::Member(name)) => Ok(
                    object_scan(doc, scan.offset as int, name, st.objects).outcome,
                ),
                (ContainerKind::Array, Step::Element(index)) => Ok(
                    array_scan(doc, scan, index, 0).outcome,
                ),
                _ => Err(()),
            };
            match found {
                Err(()) => {
                    &&& whole.outcome == Ok::<Resolved, TraverseError>(
                        Resolved::NotNavigable(PathFault::WrongKind { segment: st.seg as usize }),
                    )
                    &&& whole.record == (match st.record {
                        Some(r) => Some(r + seq![here]),
                        None => None,
                    })
                },
                Ok(Err(e)) => {
                    &&& whole.outcome == Err::<Resolved, TraverseError>(e)
                    &&& whole.record == (match st.record {
                        Some(r) => Some(r + seq![here]),
                        None => None,
                    })
                },
                Ok(Ok(None)) => {
                    &&& whole.outcome == Ok::<Resolved, TraverseError>(Resolved::Absent)
                    &&& whole.record == (match st.record {
                        Some(r) => Some(r + seq![here]),
                        None => None,
                    })
                },
                Ok(Ok(Some(v))) => {
                    &&& whole.outcome == locate(doc, path, st.seg + 1, v, st.objects)
                    &&& whole.record == (match st.record {
                        Some(r) => Some(
                            r + (seq![here] + cold_record(
                                doc,
                                path,
                                st.seg + 1,
                                v,
                                st.objects,
                                st.stride,
                            )),
                        ),
                        None => None,
                    })
                },
            }
        }),
    decreases path.len() - st.seg, 0int,
{
    let step = path[st.seg];
    let inner = st.entered(value_start, scan);
    let here = ContainerNotes {
        seg: st.seg as usize,
        value_start,
        body: scanned_notes(doc, scan, step, st.objects, st.stride),
    };
    let noted = match (scan.kind, step) {
        (ContainerKind::Object, Step::Member(name)) => {
            inner.noting_object(object_scan(doc, scan.offset as int, name, inner.notes_objects()))
        },
        (ContainerKind::Array, Step::Element(index)) => {
            lemma_stride_is_silent(doc, scan, index, inner.notes_stride(), 0);
            inner.noting_array(array_scan(doc, scan, index, inner.notes_stride()))
        },
        _ => inner,
    };
    if let Some(r) = st.record {
        assert(noted.record->0 =~= r + seq![here]);
    }
    let found: Result<Option<u64>, TraverseError> = match (scan.kind, step) {
        (ContainerKind::Object, Step::Member(name)) => object_scan(
            doc,
            scan.offset as int,
            name,
            st.objects,
        ).outcome,
        (ContainerKind::Array, Step::Element(index)) => array_scan(doc, scan, index, 0).outcome,
        _ => Ok(None),
    };
    match (scan.kind, step) {
        (ContainerKind::Object, Step::Member(_)) | (ContainerKind::Array, Step::Element(_)) => {
            if let Ok(Some(v)) = found {
                let next = noted.descended(v);
                law_cold_resolution(doc, path, next);
                if let Some(r) = st.record {
                    let rest = cold_record(doc, path, st.seg + 1, v, st.objects, st.stride);
                    assert((r + seq![here]) + rest =~= r + (seq![here] + rest));
                }
            }
        },
        _ => {},
    }
}

} // verus!
