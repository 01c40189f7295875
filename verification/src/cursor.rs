//! Cursors: where in the document queries start from, and how errors are reported.
//!
//! A cursor stands at the root, or at a value that `hop` reached; paths are resolved
//! relative to it. Errors leave the library as one line, `bote:<code>[:<detail>]`
//! where the error has a code.

use vstd::prelude::*;
use vstd::string::StringExecFns;

use crate::chunks::ReaderError;
use crate::path::{steps, Segment};
use crate::query::{
    CountStart, Counting, CountingView, Getting, GettingView, Locating, LocatingView, Resolving,
    ResolvingView,
};
use crate::resolve::ValueLocation;
use crate::select::CompiledSelect;
use crate::session::{Session, SessionError};
use crate::source::{SourceError, SourceFaultCode};
use crate::stream::{select_view, BatchLimits, IterState, OpeningView, StreamConfig, StreamView};
use crate::walker::{JsonFaultCode, TraverseError};

verus! {

/// A place in the document from which paths are resolved.
#[derive(Debug, Clone, Copy, PartialEq, Eq, Structural)]
pub struct Cursor {
    anchor: Option<ValueLocation>,
    /// Document-tree depth of this cursor's anchor (root = 0). Threaded to the index as
    /// `base_depth` so nodes carry their true depth (the eviction key); the
    /// re-anchored relative path can't express it.
    depth: u32,
}

impl Cursor {
    /// The offset from which paths are resolved: the start of the anchor, or of the
    /// document.
    pub closed spec fn spec_anchor_start(self) -> u64 {
        match self.anchor {
            Some(a) => a.start,
            None => 0,
        }
    }

    pub closed spec fn spec_depth(self) -> u32 {
        self.depth
    }

    /// The cursor at the root.
    pub fn root() -> (c: Self)
        ensures
            c.spec_anchor_start() == 0,
            c.spec_depth() == 0,
    {
        Cursor { anchor: None, depth: 0 }
    }

    /// A cursor anchored at an already-resolved `location` reached by a hop.
    pub fn at(location: ValueLocation, depth: u32) -> (c: Self)
        ensures
            c.spec_anchor_start() == location.start,
            c.spec_depth() == depth,
    {
        Cursor { anchor: Some(location), depth }
    }

    pub fn anchor_start(&self) -> (at: u64)
        ensures
            at == self.spec_anchor_start(),
    {
        match self.anchor {
            Some(a) => a.start,
            None => 0,
        }
    }

    pub fn depth(&self) -> (n: u32)
        ensures
            n == self.spec_depth(),
    {
        self.depth
    }

    /// Whether a path of `n` steps stays within the depths that can be told.
    pub fn admits(&self, n: usize) -> (r: bool)
        ensures
            r == (self.spec_depth() + n <= u32::MAX),
    {
        n as u64 <= (u32::MAX - self.depth) as u64
    }

    /// Ask whether a path leads to a value; the query is stepped with
    /// [`Locating::step_presence`].
    pub fn has(&self, session: &mut Session, path: Vec<Segment>) -> (q: Locating)
        requires
            old(session).wf(),
            old(session).has_room(path@.len() as int),
            self.spec_depth() + path@.len() <= u32::MAX,
        ensures
            final(session).wf(),
            final(session)@ == old(session)@.asked(self.spec_anchor_start(), steps(path@)),
            final(session)@.index.tick <= old(session)@.index.tick + path@.len(),
            q.wf(),
            q@ == LocatingView::begun(
                old(session)@,
                (self.spec_anchor_start(), steps(path@)),
                self.spec_depth(),
            ),
    {
        session.has_at(path, self.anchor_start(), self.depth)
    }

    /// Ask for the bytes of the value of a path.
    pub fn get(&self, session: &mut Session, path: Vec<Segment>) -> (q: Getting)
        requires
            old(session).wf(),
            old(session).has_room(path@.len() as int),
            self.spec_depth() + path@.len() <= u32::MAX,
        ensures
            final(session).wf(),
            final(session)@ == old(session)@.asked(self.spec_anchor_start(), steps(path@)),
            final(session)@.index.tick <= old(session)@.index.tick + path@.len(),
            q.wf(),
            q@ == (GettingView {
                resolving: ResolvingView {
                    locating: LocatingView::begun(
                        old(session)@,
                        (self.spec_anchor_start(), steps(path@)),
                        self.spec_depth(),
                    ),
                    extent: None,
                },
                found: None,
            }),
    {
        session.get_at(path, self.anchor_start(), self.depth)
    }

    /// Ask where the value of a path stands; [`Cursor::hopped`] is the cursor there.
    pub fn hop(&self, session: &mut Session, path: Vec<Segment>) -> (q: Resolving)
        requires
            old(session).wf(),
            old(session).has_room(path@.len() as int),
            self.spec_depth() + path@.len() <= u32::MAX,
        ensures
            final(session).wf(),
            final(session)@ == old(session)@.asked(self.spec_anchor_start(), steps(path@)),
            final(session)@.index.tick <= old(session)@.index.tick + path@.len(),
            q.wf(),
            q@ == (ResolvingView {
                locating: LocatingView::begun(
                    old(session)@,
                    (self.spec_anchor_start(), steps(path@)),
                    self.spec_depth(),
                ),
                extent: None,
            }),
    {
        session.resolve_at(path, self.anchor_start(), self.depth)
    }

    /// The cursor at a value that a path of `n` steps led to.
    pub fn hopped(&self, location: ValueLocation, n: usize) -> (c: Cursor)
        requires
            self.spec_depth() + n <= u32::MAX,
        ensures
            c.spec_anchor_start() == location.start,
            c.spec_depth() == self.spec_depth() + n,
    {
        Cursor::at(location, self.depth + n as u32)
    }

    /// Ask how many children the container of a path has.
    pub fn count(&self, session: &mut Session, path: Vec<Segment>) -> (q: CountStart)
        requires
            old(session).wf(),
            old(session).has_room(path@.len() as int),
            self.spec_depth() + path@.len() <= u32::MAX,
        ensures
            final(session).wf(),
            ({
                let key = (self.spec_anchor_start(), steps(path@));
                match q {
                    CountStart::Known(n) => {
                        &&& old(session)@.cached_child_count(key) == Some(n)
                        &&& final(session)@ == old(session)@
                    },
                    CountStart::Scan(c) => {
                        &&& old(session)@.cached_child_count(key) is None
                        &&& c.wf()
                        &&& c@ == CountingView::Locating(
                            LocatingView::begun(old(session)@, key, self.spec_depth()),
                        )
                        &&& final(session)@ == old(session)@.asked(key.0, key.1)
                    },
                }
            }),
            final(session)@.index.tick <= old(session)@.index.tick + path@.len(),
    {
        Counting::begin(session, path, self.anchor_start(), self.depth)
    }

    /// A stream over the children of the container of a path.
    pub fn iter(
        &self,
        session: &Session,
        path: Vec<Segment>,
        select: Option<CompiledSelect>,
        limits: BatchLimits,
        with_key: bool,
    ) -> (it: IterState)
        requires
            session.wf(),
            self.spec_depth() + path@.len() <= u32::MAX,
        ensures
            it.wf(),
            it@ == (StreamView {
                key: (self.spec_anchor_start(), steps(path@)),
                base_depth: self.spec_depth(),
                cfg: StreamConfig {
                    select: select_view(select),
                    limits,
                    with_key,
                    interval: session@.sampling_interval(),
                },
                opening: OpeningView::Fresh,
                base: None,
                cursor: None,
                yielded: 0,
                batch: None,
            }),
    {
        IterState::new(
            session,
            path,
            self.anchor_start(),
            self.depth,
            select,
            limits,
            with_key,
        )
    }
}

/// The line that reports an error.
pub open spec fn error_line(e: SessionError) -> Seq<char> {
    match e {
        SessionError::Path(fault) => "bote:"@ + fault.spec_code(),
        SessionError::Traverse(TraverseError::Malformed(_)) => "bote:"@
            + JsonFaultCode::MalformedJson.spec_text(),
        SessionError::Traverse(TraverseError::UnexpectedEof(_)) => "bote:"@
            + JsonFaultCode::UnexpectedEof.spec_text(),
        SessionError::Reader(ReaderError::ByteStream(SourceError::Io(reason))) =>
            "bote:source_io:"@ + reason@,
        _ => e.spec_message(),
    }
}

/// The line that reports an error: `bote:<code>[:<detail>]`, or the error in words
/// where it has no code.
pub fn serialize(e: &SessionError) -> (s: String)
    ensures
        s@ == error_line(*e),
{
    let mut s: String = String::new();
    match e {
        SessionError::Path(fault) => {
            s.append("bote:");
            s.append(fault.code().as_str());
        },
        SessionError::Traverse(TraverseError::Malformed(_)) => {
            s.append("bote:");
            s.append(JsonFaultCode::MalformedJson.as_str());
        },
        SessionError::Traverse(TraverseError::UnexpectedEof(_)) => {
            s.append("bote:");
            s.append(JsonFaultCode::UnexpectedEof.as_str());
        },
        SessionError::Reader(ReaderError::ByteStream(SourceError::Io(reason))) => {
            s.append("bote:");
            s.append(SourceFaultCode::SourceIo.as_str());
            s.append(":");
            s.append(reason.as_str());
            proof {
                reveal_strlit("bote:");
                reveal_strlit("source_io");
                reveal_strlit(":");
                reveal_strlit("bote:source_io:");
            }
        },
        _ => {
            s = e.message();
        },
    }
    assert(s@ =~= error_line(*e));
    s
}

} // verus!
