//! Child-counting: how many children a container has.
//!
//! A depth-0 comma popcount over the container bytes (the same scan that steps
//! through an array), driven by the resumable [`count_step`] state machine -
//! bounded in document size regardless of container size.

use vstd::prelude::*;

use crate::chunks::{doc_byte, WindowView};
use crate::resolve::lemma_ws_idempotent;
use crate::scan::{
    closes_at, comma_run, comma_step, ends_array, eof_offset, is_closer, lemma_closes_at, outside,
    separates, ws_end, ByteClass, CommaRun, Commas, Lex, RBRACE, RBRACKET,
};
use crate::simd::ScanCarry;
use crate::walker::{comma_answer, CommaAnswer, CommaStop, TraverseError, Walker};

verus! {

/// How many separators of a container stand before its closing byte, from `at` on
/// with `depth` containers open inside it; `None` where nothing closes it.
pub open spec fn separators(doc: Seq<u8>, at: int, lex: Lex, depth: nat) -> Option<nat>
    decreases doc.len() - at,
{
    let s = Commas { lex, depth, left: 2 };
    if at >= doc.len() {
        None
    } else if ends_array(s, doc[at]) {
        Some(0)
    } else {
        let n = comma_step(s, doc[at]);
        match separators(doc, at + 1, n.lex, n.depth) {
            None => None,
            Some(more) => if separates(s, doc[at]) {
                Some(more + 1)
            } else {
                Some(more)
            },
        }
    }
}

/// One more than the separators from `at` on and the `passed` ones, or the end of
/// the document.
pub open spec fn counted_from(doc: Seq<u8>, at: int, lex: Lex, depth: nat, passed: nat) -> Result<
    nat,
    TraverseError,
> {
    match separators(doc, at, lex, depth) {
        Some(n) => Ok(passed + n + 1),
        None => Err(TraverseError::UnexpectedEof(eof_offset(at, doc.len() as int))),
    }
}

/// How many children a container has, when its first child would stand at `at`:
/// none where it closes at once, one more than its separators otherwise.
pub open spec fn child_count(doc: Seq<u8>, at: int) -> Result<nat, TraverseError> {
    let o = ws_end(doc, at);
    match doc_byte(doc, o) {
        None => Err(TraverseError::UnexpectedEof(o as u64)),
        Some(b) => if is_closer(b) {
            Ok(0)
        } else {
            counted_from(doc, o, outside(), 0, 0)
        },
    }
}

/// Two counts are the same. In a document too long for a machine word, where the
/// end is reported may differ.
pub open spec fn same_count(
    doc: Seq<u8>,
    a: Result<nat, TraverseError>,
    b: Result<nat, TraverseError>,
) -> bool {
    ||| a == b
    ||| {
        &&& doc.len() >= usize::MAX
        &&& a matches Err(TraverseError::UnexpectedEof(_))
        &&& b matches Err(TraverseError::UnexpectedEof(_))
    }
}

/// A limited scan sees the separators that there are.
proof fn lemma_separators_limited(doc: Seq<u8>, at: int, s: Commas)
    requires
        s.left > 0,
    ensures
        separators(doc, at, s.lex, s.depth) == (match comma_run(doc, at, doc.len() as int, s) {
            CommaRun::Found(k) => match separators(doc, k, outside(), 0) {
                Some(n) => Some((n + s.left) as nat),
                None => None,
            },
            CommaRun::Closed(n) => Some((s.left - n) as nat),
            CommaRun::Open(_) => None,
        }),
        match comma_run(doc, at, doc.len() as int, s) {
            CommaRun::Found(k) => at < k <= doc.len() && s.left <= k - at,
            CommaRun::Closed(n) => 0 < n <= s.left,
            CommaRun::Open(_) => true,
        },
    decreases doc.len() - at,
{
    if at < doc.len() {
        let two = Commas { left: 2, ..s };
        let b = doc[at];
        assert(ends_array(two, b) == ends_array(s, b));
        assert(separates(two, b) == separates(s, b));
        let n = comma_step(s, b);
        let m = comma_step(two, b);
        assert(n.lex == m.lex && n.depth == m.depth);
        if !ends_array(s, b) && !(separates(s, b) && s.left <= 1) {
            lemma_separators_limited(doc, at + 1, n);
        } else if !ends_array(s, b) {
            assert(n.lex == outside());
        }
    }
}

/// A container has no more separators than bytes, nor more children.
pub proof fn lemma_child_count(doc: Seq<u8>, at: int)
    requires
        0 <= at,
    ensures
        child_count(doc, at) matches Ok(n) ==> n <= doc.len(),
{
    crate::scan::lemma_run_end(doc, at, ByteClass::Whitespace);
    lemma_separators_bound(doc, ws_end(doc, at), outside(), 0);
}

proof fn lemma_separators_bound(doc: Seq<u8>, at: int, lex: Lex, depth: nat)
    ensures
        separators(doc, at, lex, depth) matches Some(n) ==> n < doc.len() - at,
    decreases doc.len() - at,
{
    if at < doc.len() {
        let s = Commas { lex, depth, left: 2 };
        let n = comma_step(s, doc[at]);
        lemma_separators_bound(doc, at + 1, n.lex, n.depth);
    }
}

/// Persisted across `ChunkMiss` retries so a fault mid-count resumes at the last
/// committed block boundary instead of recounting from the container start.
#[derive(Debug, Clone, Copy)]
pub struct CountState {
    /// Next byte to scan: the byte past the opener before the peek, a
    /// block-boundary commit point from `Partial` after.
    pub offset: u64,
    /// Nesting depth at `offset`, relative to the container being counted.
    pub depth: u64,
    /// String-scan carry at `offset`, threaded across `Partial` commits.
    pub carry: ScanCarry,
    /// Depth-0 commas counted so far across resumes.
    pub consumed: u64,
    /// Set once the container is confirmed non-empty.
    pub peeked: bool,
}

impl CountState {
    pub open spec fn wf(self) -> bool {
        &&& self.carry.wf()
        &&& self.depth <= self.offset
        &&& self.consumed <= self.offset
    }

    /// The count in `doc`, from where the state stands.
    pub open spec fn answer(self, doc: Seq<u8>) -> Result<nat, TraverseError> {
        if self.peeked {
            counted_from(
                doc,
                self.offset as int,
                self.carry@,
                self.depth as nat,
                self.consumed as nat,
            )
        } else {
            child_count(doc, self.offset as int)
        }
    }

    /// The offset of the byte that closes the container in `doc`; the length of the
    /// document where nothing closes it.
    pub open spec fn closes(self, doc: Seq<u8>) -> int {
        if self.peeked {
            closes_at(doc, self.offset as int, self.carry@, self.depth as nat)
        } else {
            closes_at(doc, ws_end(doc, self.offset as int), outside(), 0)
        }
    }

    pub fn new(start: u64) -> (s: Self)
        ensures
            s.wf(),
            s.offset == start,
            forall|doc: Seq<u8>| #[trigger] s.answer(doc) == child_count(doc, start as int),
    {
        CountState {
            offset: start,
            depth: 0,
            carry: ScanCarry::default(),
            consumed: 0,
            peeked: false,
        }
    }
}

/// What a step of a count from `was` to `now` gives: the count or the error, in
/// every document that the window shows, or the first absent chunk, with a count
/// from `now` still coming to what it would have come to. Progress is kept: once the
/// container is known not to be empty, every block before the absent chunk is behind
/// `now`. No chunk is asked for that starts a block or more past the closing byte.
pub open spec fn count_stepped(
    w: WindowView,
    was: CountState,
    now: CountState,
    r: Result<u64, TraverseError>,
) -> bool {
    &&& now.wf()
    &&& was.offset <= now.offset
    &&& r matches Err(TraverseError::Pending(miss)) ==> {
        &&& w.lacks(now.offset as int, miss.0)
        &&& now.peeked ==> miss.0 < now.offset + 64
    }
    &&& forall|doc: Seq<u8>| #[trigger]
        w.agrees(doc) ==> match r {
            Err(TraverseError::Pending(miss)) => {
                &&& same_count(doc, now.answer(doc), was.answer(doc))
                &&& w.resident(now.offset as int, miss.0 as int)
                &&& !now.peeked ==> miss.0 <= ws_end(doc, now.offset as int)
                &&& now.closes(doc) == was.closes(doc)
                &&& was.answer(doc) is Ok ==> miss.0 < was.closes(doc) + 64
            },
            Err(e) => same_count(doc, Err(e), was.answer(doc)),
            Ok(n) => same_count(doc, Ok(n as nat), was.answer(doc)),
        }
}

/// A container that closes does so at or past where its count stands.
proof fn lemma_closes_ahead(doc: Seq<u8>, s: CountState)
    ensures
        s.answer(doc) is Ok ==> (if s.peeked {
            s.offset as int
        } else {
            ws_end(doc, s.offset as int)
        }) <= s.closes(doc),
{
    if s.answer(doc) is Ok {
        if s.peeked {
            let at = Commas { lex: s.carry@, depth: s.depth as nat, left: 2 };
            lemma_closes_at(doc, s.offset as int, s.offset as int, at);
        } else {
            let o = ws_end(doc, s.offset as int);
            crate::scan::lemma_run_end(doc, s.offset as int, ByteClass::Whitespace);
            lemma_closes_at(doc, o, o, Commas { lex: outside(), depth: 0, left: 2 });
        }
    }
}

/// Advance a count: the child count once the container's close is reached, or the
/// chunk that is missing. `state` carries progress across faults.
pub fn count_step(walker: &mut Walker, state: &mut CountState) -> (r: Result<u64, TraverseError>)
    requires
        old(walker).wf(),
        old(state).wf(),
    ensures
        final(walker).wf(),
        final(walker).window() == old(walker).window(),
        count_stepped(old(walker).window(), *old(state), *final(state), r),
{
    let ghost w = walker.window();
    let ghost was = *state;
    proof {
        assert forall|doc: Seq<u8>| #[trigger] w.agrees(doc) implies (was.answer(doc) is Ok
            && !was.peeked ==> ws_end(doc, was.offset as int) <= was.closes(doc)) by {
            lemma_closes_ahead(doc, was);
        }
    }
    if !state.peeked {
        // Empty-container short-circuit: a close right after the opener is 0
        // children. Commit the skipped offset before `byte_at` so a fault here
        // doesn't re-skip.
        let off: u64 = match walker.skip_whitespace(state.offset) {
            Ok(off) => off,
            Err(miss) => return Err(TraverseError::Pending(miss)),
        };
        state.offset = off;
        proof {
            assert forall|doc: Seq<u8>| #[trigger] w.agrees(doc) implies {
                &&& state.answer(doc) == was.answer(doc)
                &&& state.closes(doc) == was.closes(doc)
                &&& ws_end(doc, off as int) == off
            } by {
                lemma_ws_idempotent(doc, was.offset as int);
            }
        }
        match walker.byte_at(off) {
            Err(miss) => return Err(TraverseError::Pending(miss)),
            Ok(None) => return Err(TraverseError::UnexpectedEof(off)),
            Ok(Some(b)) => {
                if b == RBRACKET || b == RBRACE {
                    return Ok(0);
                }
            },
        }
        state.depth = 0;
        state.carry = ScanCarry::default();
        state.consumed = 0;
        state.peeked = true;
        assert(forall|doc: Seq<u8>| #[trigger]
            w.agrees(doc) ==> state.answer(doc) == was.answer(doc) && state.closes(doc)
                == was.closes(doc));
    }
    loop
        invariant
            walker.wf(),
            walker.window() == w,
            w == old(walker).window(),
            was == *old(state),
            state.wf(),
            state.peeked,
            was.offset <= state.offset,
            forall|doc: Seq<u8>| #[trigger]
                w.agrees(doc) ==> same_count(doc, state.answer(doc), was.answer(doc))
                    && state.closes(doc) == was.closes(doc),
        decreases u64::MAX - state.offset,
    {
        let ghost at = *state;
        let ghost s = Commas { lex: at.carry@, depth: at.depth as nat, left: usize::MAX as nat };
        let r = walker.advance_top_level_commas(state.offset, state.depth, usize::MAX, state.carry);
        proof {
            assert forall|doc: Seq<u8>| #[trigger] w.agrees(doc) implies ({
                &&& at.answer(doc) == match comma_answer(doc, at.offset as int, s) {
                    CommaAnswer::Found(k) => match separators(doc, k, outside(), 0) {
                        Some(n) => Ok((at.consumed + n + s.left + 1) as nat),
                        None => Err(
                            TraverseError::UnexpectedEof(
                                eof_offset(at.offset as int, doc.len() as int),
                            ),
                        ),
                    },
                    CommaAnswer::Closed(n) => Ok((at.consumed + (s.left - n) + 1) as nat),
                    CommaAnswer::Eof(e) => Err(TraverseError::UnexpectedEof(e)),
                }
                &&& comma_answer(doc, at.offset as int, s) is Found ==> doc.len() >= usize::MAX
                &&& comma_answer(doc, at.offset as int, s) matches CommaAnswer::Found(k)
                    ==> closes_at(doc, k, outside(), 0) == at.closes(doc)
            }) by {
                lemma_separators_limited(doc, at.offset as int, s);
                if at.offset <= doc.len() {
                    lemma_closes_at(doc, at.offset as int, doc.len() as int, s);
                }
            }
        }
        match r {
            Err(e) => {
                proof {
                    assert forall|doc: Seq<u8>| #[trigger] w.agrees(doc) implies (
                    was.answer(doc) is Ok ==> state.offset <= was.closes(doc)) by {
                        lemma_closes_ahead(doc, *state);
                    }
                }
                return Err(e);
            },
            // Non-empty container: child count is depth-0 commas + 1.
            Ok(CommaStop::ArrayClosed { consumed }) => {
                return Ok(state.consumed + consumed as u64 + 1);
            },
            Ok(CommaStop::Partial { offset, depth, consumed, carry }) => {
                state.consumed = state.consumed + consumed as u64;
                state.offset = offset;
                state.depth = depth;
                state.carry = carry;
                proof {
                    let n = Commas {
                        lex: carry@,
                        depth: depth as nat,
                        left: (s.left - consumed) as nat,
                    };
                    assert forall|doc: Seq<u8>| #[trigger] w.agrees(doc) implies same_count(
                        doc,
                        state.answer(doc),
                        was.answer(doc),
                    ) by {
                        lemma_separators_limited(doc, offset as int, n);
                        assert(comma_answer(doc, offset as int, n) == comma_answer(
                            doc,
                            at.offset as int,
                            s,
                        ));
                    }
                }
            },
            // Only in a document with more separators than a machine word counts.
            Ok(CommaStop::Found { offset_after_comma, consumed }) => {
                state.consumed = state.consumed + consumed as u64;
                state.offset = offset_after_comma;
                state.depth = 0;
                state.carry = ScanCarry::default();
            },
        }
    }
}

/// A series of steps of one count, each over the chunks that are there by then.
pub open spec fn count_series(
    windows: Seq<WindowView>,
    states: Seq<CountState>,
    results: Seq<Result<u64, TraverseError>>,
) -> bool {
    &&& states.len() == windows.len() + 1
    &&& results.len() == windows.len()
    &&& forall|i: int|
        0 <= i < windows.len() ==> #[trigger] count_stepped(
            windows[i],
            states[i],
            states[i + 1],
            results[i],
        )
}

/// However the chunks arrive, the count of a container that closes comes to what it came
/// to at first, and asks for no chunk that starts a block or more past the closing byte.
pub proof fn law_a_count_reads_to_the_close(
    doc: Seq<u8>,
    windows: Seq<WindowView>,
    states: Seq<CountState>,
    results: Seq<Result<u64, TraverseError>>,
    j: int,
)
    requires
        count_series(windows, states, results),
        0 <= j < windows.len(),
        forall|i: int| 0 <= i <= j ==> (#[trigger] windows[i]).agrees(doc),
        forall|i: int|
            0 <= i <= j ==> (#[trigger] results[i]) matches Err(TraverseError::Pending(_)),
    ensures
        states[0].answer(doc) is Ok ==> {
            &&& states[j + 1].answer(doc) == states[0].answer(doc)
            &&& states[j + 1].closes(doc) == states[0].closes(doc)
            &&& results[j]->Err_0->Pending_0.0 < states[0].closes(doc) + 64
        },
    decreases j,
{
    if j > 0 {
        law_a_count_reads_to_the_close(doc, windows, states, results, j - 1);
    }
    assert(count_stepped(windows[j], states[j], states[j + 1], results[j]));
    assert(windows[j].agrees(doc));
    assert(results[j] is Err);
}

} // verus!
