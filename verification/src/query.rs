//! Queries: restartable lookups of a path over a session.
//!
//! Every query steps against the chunks that a window holds, and each step keeps
//! what it has found out, so that a missing chunk costs no work twice. `get`, `has`,
//! `hop` and `iter` all resolve their path through [`Locating`], so the structural
//! index has one place to live: cached hops start the scan, and the scan's child
//! offsets are written back when it ends.

use vstd::prelude::*;

use crate::cache::KeyView;
use crate::chunks::{doc_byte, ChunkWindow};
use crate::count::{child_count, count_step, CountState};
use crate::path::{steps, Segment};
use crate::resolve::{
    child_stepped, cursor_at, enter_container, next_child, resolution, resolve_step, ChildEntry,
    ContainerCursor, ContainerKind, ResolveState, ResolveView, Resolved, ValueLocation,
};
use crate::scan::{ws_end, ByteClass, LBRACE, LBRACKET};
use crate::session::{
    chunks_to_cover, doubled, doubling_burst, range_burst, DoublingBurst, Session, SessionError,
    SessionView, MAX_BURST,
};
use crate::walker::{doc_range, skip_value_step, value_end, SkipState, TraverseError, Walker};

verus! {

// ---- where a path leads

/// What a [`Locating`] stands for.
pub struct LocatingView {
    /// The anchor of the query and the path from there.
    pub key: KeyView,
    /// Document depth of the anchor.
    pub base_depth: u32,
    pub state: ResolveView,
}

/// A query for the offset at which the value of a path starts.
#[derive(Debug)]
pub struct Locating {
    path: Vec<Segment>,
    anchor: u64,
    base_depth: u32,
    state: ResolveState,
    burst: DoublingBurst,
}

impl View for Locating {
    type V = LocatingView;

    closed spec fn view(&self) -> LocatingView {
        LocatingView {
            key: (self.anchor, steps(self.path@)),
            base_depth: self.base_depth,
            state: self.state@,
        }
    }
}

impl LocatingView {
    pub open spec fn wf(self) -> bool {
        &&& self.state.wf()
        &&& self.state.seg <= self.key.1.len()
        &&& self.base_depth + self.key.1.len() <= u32::MAX
    }

    /// A query that has just begun.
    pub open spec fn begun(s: SessionView, key: KeyView, base_depth: u32) -> LocatingView {
        LocatingView { key, base_depth, state: s.query(key.0, key.1) }
    }

    /// Where the path leads in `doc`, and the session once that is known: the
    /// containers walked are written back, unless the document is at fault.
    pub open spec fn answer(self, doc: Seq<u8>, s: SessionView) -> (
        Result<Resolved, TraverseError>,
        SessionView,
    ) {
        let out = resolution(doc, self.key.1, self.state);
        match out.outcome {
            Ok(_) => (out.outcome, s.recorded(self.base_depth, self.key, out.record)),
            Err(_) => (out.outcome, s),
        }
    }

    /// Lowest offset that the query might still read.
    pub open spec fn keeps_from(self) -> u64 {
        self.state.spec_min_reachable()
    }

    /// Cached hops lead all along the path: there is nothing left to read.
    pub open spec fn hopped_all(self) -> bool {
        self.state.seg >= self.key.1.len()
    }

    /// The query keeps its progress block by block: a chunk that it misses lies within
    /// a block of the lowest offset that it might still read.
    pub open spec fn commits(self) -> bool {
        self.state.counts_elements(self.key.1)
    }

    /// An absent chunk belongs to what is at hand, and does not start a block or more past
    /// the value that the path leads to.
    pub open spec fn awaits(self, doc: Seq<u8>, miss: u64) -> bool {
        self.state.awaits(doc, self.key.1, miss)
    }
}

impl Locating {
    pub closed spec fn wf(&self) -> bool {
        self@.wf()
    }

    /// The size of the next burst.
    pub closed spec fn upcoming(&self) -> u64 {
        self.burst.upcoming()
    }

    /// How often the query ticks the clock of the index at most.
    pub open spec fn ticks(&self) -> int {
        self@.key.1.len() as int + 1
    }

    /// Begin a query of `path` from `anchor`, which stands at `base_depth`.
    pub fn begin(session: &mut Session, path: Vec<Segment>, anchor: u64, base_depth: u32) -> (q: Self)
        requires
            old(session).wf(),
            old(session).has_room(path@.len() as int),
            base_depth + path@.len() <= u32::MAX,
        ensures
            final(session).wf(),
            final(session)@ == old(session)@.asked(anchor, steps(path@)),
            final(session)@.index.tick <= old(session)@.index.tick + path@.len(),
            q.wf(),
            q@ == LocatingView::begun(old(session)@, (anchor, steps(path@)), base_depth),
            q.upcoming() == 1,
    {
        let state = session.begin_locate(path.as_slice(), anchor);
        Locating { path, anchor, base_depth, state, burst: doubling_burst() }
    }

    /// Go on with the query over the chunks in the window.
    pub fn step(&mut self, session: &mut Session, window: &ChunkWindow) -> (r: Result<
        Resolved,
        TraverseError,
    >)
        requires
            old(self).wf(),
            old(session).wf(),
            old(session).has_room(old(self).ticks()),
            window.wf(),
        ensures
            final(self).wf(),
            final(session).wf(),
            final(self)@.key == old(self)@.key,
            final(self)@.base_depth == old(self)@.base_depth,
            final(self).upcoming() == old(self).upcoming(),
            final(session)@.index.tick <= old(session)@.index.tick + old(self).ticks(),
            r is Err ==> final(session)@ == old(session)@,
            old(self)@.hopped_all() ==> r == Ok::<Resolved, TraverseError>(
                Resolved::Found(old(self)@.state.start),
            ),
            old(self)@.state.seed_ahead() ==> final(self)@.state.seed_ahead() && old(
                self,
            )@.keeps_from() <= final(self)@.keeps_from(),
            r matches Err(TraverseError::Pending(miss)) ==> {
                &&& window@.lacks(final(self)@.keeps_from() as int, miss.0)
                &&& final(self)@.commits() ==> miss.0 < final(self)@.keeps_from() + 64
            },
            forall|doc: Seq<u8>| #[trigger]
                window@.agrees(doc) ==> match r {
                    Err(TraverseError::Pending(miss)) => {
                        &&& final(self)@.answer(doc, final(session)@) == old(self)@.answer(
                            doc,
                            old(session)@,
                        )
                        &&& window@.resident(final(self)@.keeps_from() as int, miss.0 as int)
                        &&& final(self)@.awaits(doc, miss.0)
                    },
                    _ => (r, final(session)@) == old(self)@.answer(doc, old(session)@),
                },
    {
        let mut walker = Walker::new(window);
        let r = resolve_step(&mut walker, self.path.as_slice(), &mut self.state);
        if r.is_ok() {
            session.finish_locate(
                self.base_depth,
                self.anchor,
                self.path.as_slice(),
                &self.state,
            );
        }
        r
    }

    /// Lowest offset that the query might still read. The retention bound for its
    /// window.
    pub fn min_reachable(&self) -> (at: u64)
        ensures
            at == self@.keeps_from(),
    {
        self.state.min_reachable()
    }

    /// How many chunks to read when the one at `offset` is missing: twice as many as
    /// the last time, up to a cap.
    pub fn burst(&mut self, offset: u64) -> (n: u64)
        requires
            old(self).wf(),
        ensures
            final(self).wf(),
            final(self)@ == old(self)@,
            n == old(self).upcoming(),
            1 <= n <= MAX_BURST,
            final(self).upcoming() == doubled(old(self).upcoming()),
    {
        self.burst.size(offset)
    }

    /// The path that is looked up.
    pub fn path(&self) -> (p: &[Segment])
        ensures
            steps(p@) == self@.key.1,
    {
        self.path.as_slice()
    }

    /// The offset from which the path is looked up.
    pub fn anchor(&self) -> (at: u64)
        ensures
            at == self@.key.0,
    {
        self.anchor
    }

    /// The document depth of the anchor.
    pub fn base_depth(&self) -> (n: u32)
        ensures
            n == self@.base_depth,
    {
        self.base_depth
    }
}

/// Where a path led: to a value, to nothing, or against the shape of the document,
/// which is an error.
pub open spec fn offset_of(led: Result<Resolved, TraverseError>) -> Result<
    Option<u64>,
    SessionError,
> {
    match led {
        Err(e) => Err(SessionError::Traverse(e)),
        Ok(Resolved::Found(start)) => Ok(Some(start)),
        Ok(Resolved::Absent) => Ok(None),
        Ok(Resolved::NotNavigable(fault)) => Err(SessionError::Path(fault)),
    }
}

/// Whether a path led to a value. Any miss or shape mismatch is a `false`.
pub open spec fn presence_of(led: Result<Resolved, TraverseError>) -> Result<bool, SessionError> {
    match led {
        Err(e) => Err(SessionError::Traverse(e)),
        Ok(Resolved::Found(_)) => Ok(true),
        Ok(_) => Ok(false),
    }
}

impl Locating {
    /// Go on with the query, for the offset that the path leads to.
    pub fn step_offset(&mut self, session: &mut Session, window: &ChunkWindow) -> (r: Result<
        Option<u64>,
        SessionError,
    >)
        requires
            old(self).wf(),
            old(session).wf(),
            old(session).has_room(old(self).ticks()),
            window.wf(),
        ensures
            final(self).wf(),
            final(session).wf(),
            final(self)@.key == old(self)@.key,
            final(self)@.base_depth == old(self)@.base_depth,
            final(self).upcoming() == old(self).upcoming(),
            final(session)@.index.tick <= old(session)@.index.tick + old(self).ticks(),
            old(self)@.state.seed_ahead() ==> final(self)@.state.seed_ahead() && old(
                self,
            )@.keeps_from() <= final(self)@.keeps_from(),
            r matches Err(SessionError::Traverse(TraverseError::Pending(miss))) ==> {
                &&& window@.lacks(final(self)@.keeps_from() as int, miss.0)
                &&& final(self)@.commits() ==> miss.0 < final(self)@.keeps_from() + 64
            },
            forall|doc: Seq<u8>| #[trigger]
                window@.agrees(doc) ==> match r {
                    Err(SessionError::Traverse(TraverseError::Pending(miss))) => {
                        &&& final(self)@.answer(doc, final(session)@) == old(self)@.answer(
                            doc,
                            old(session)@,
                        )
                        &&& window@.resident(final(self)@.keeps_from() as int, miss.0 as int)
                        &&& final(self)@.awaits(doc, miss.0)
                    },
                    _ => {
                        let (led, next) = old(self)@.answer(doc, old(session)@);
                        r == offset_of(led) && final(session)@ == next
                    },
                },
    {
        match self.step(session, window) {
            Err(e) => Err(SessionError::Traverse(e)),
            Ok(Resolved::Found(start)) => Ok(Some(start)),
            Ok(Resolved::Absent) => Ok(None),
            Ok(Resolved::NotNavigable(fault)) => Err(SessionError::Path(fault)),
        }
    }

    /// Go on with the query, for whether the path leads to a value.
    pub fn step_presence(&mut self, session: &mut Session, window: &ChunkWindow) -> (r: Result<
        bool,
        SessionError,
    >)
        requires
            old(self).wf(),
            old(session).wf(),
            old(session).has_room(old(self).ticks()),
            window.wf(),
        ensures
            final(self).wf(),
            final(session).wf(),
            final(self)@.key == old(self)@.key,
            final(self)@.base_depth == old(self)@.base_depth,
            final(self).upcoming() == old(self).upcoming(),
            final(session)@.index.tick <= old(session)@.index.tick + old(self).ticks(),
            old(self)@.state.seed_ahead() ==> final(self)@.state.seed_ahead() && old(
                self,
            )@.keeps_from() <= final(self)@.keeps_from(),
            r matches Err(SessionError::Traverse(TraverseError::Pending(miss))) ==> {
                &&& window@.lacks(final(self)@.keeps_from() as int, miss.0)
                &&& final(self)@.commits() ==> miss.0 < final(self)@.keeps_from() + 64
            },
            forall|doc: Seq<u8>| #[trigger]
                window@.agrees(doc) ==> match r {
                    Err(SessionError::Traverse(TraverseError::Pending(miss))) => {
                        &&& final(self)@.answer(doc, final(session)@) == old(self)@.answer(
                            doc,
                            old(session)@,
                        )
                        &&& window@.resident(final(self)@.keeps_from() as int, miss.0 as int)
                        &&& final(self)@.awaits(doc, miss.0)
                    },
                    _ => {
                        let (led, next) = old(self)@.answer(doc, old(session)@);
                        r == presence_of(led) && final(session)@ == next
                    },
                },
    {
        match self.step(session, window) {
            Err(e) => Err(SessionError::Traverse(e)),
            Ok(Resolved::Found(_)) => Ok(true),
            Ok(_) => Ok(false),
        }
    }
}

// ---- how far a value reaches

/// A value: where it stands, and of which kind it is if it is a container.
#[derive(Debug, Clone, Copy, PartialEq, Eq, Structural)]
pub struct Extent {
    pub location: ValueLocation,
    pub kind: Option<ContainerKind>,
}

/// The kind of container that a byte opens.
pub open spec fn opened_by(b: u8) -> Option<ContainerKind> {
    if b == LBRACE {
        Some(ContainerKind::Object)
    } else if b == LBRACKET {
        Some(ContainerKind::Array)
    } else {
        None
    }
}

/// The value from `from` on, after whitespace.
pub open spec fn extent_at(doc: Seq<u8>, from: int) -> Result<Extent, TraverseError> {
    let start = ws_end(doc, from);
    match doc_byte(doc, start) {
        None => Err(TraverseError::UnexpectedEof(start as u64)),
        Some(b) => match value_end(doc, start) {
            Err(e) => Err(e),
            Ok(end) => Ok(
                Extent {
                    location: ValueLocation { start: start as u64, end },
                    kind: opened_by(b),
                },
            ),
        },
    }
}

/// Resumable state for [`extent_step`].
#[derive(Debug, Clone, Copy)]
pub enum ExtentState {
    /// Need the first byte of the value.
    Peek { from: u64 },
    /// The value starts at `start`; its end is being looked for.
    Skip { start: u64, kind: Option<ContainerKind>, skip: SkipState },
}

impl ExtentState {
    pub open spec fn wf(self) -> bool {
        match self {
            ExtentState::Peek { .. } => true,
            ExtentState::Skip { start, kind, skip } => skip.wf(),
        }
    }

    /// The value in `doc`, from where the state stands.
    pub open spec fn answer(self, doc: Seq<u8>) -> Result<Extent, TraverseError> {
        match self {
            ExtentState::Peek { from } => extent_at(doc, from as int),
            ExtentState::Skip { start, kind, skip } => match skip.answer(doc) {
                Err(e) => Err(e),
                Ok(end) => Ok(Extent { location: ValueLocation { start, end }, kind }),
            },
        }
    }

    /// Lowest offset that a resumed step might still read.
    pub open spec fn keeps_from(self) -> u64 {
        match self {
            ExtentState::Peek { from } => from,
            ExtentState::Skip { start, kind, skip } => skip.spec_min_reachable(),
        }
    }

    /// The state goes through a string or a container, block by block.
    pub open spec fn commits(self) -> bool {
        self matches ExtentState::Skip { start, kind, skip } && !(skip is Primitive)
    }

    /// An absent chunk holds the first byte of the value or a byte before it, where that
    /// byte is looked for, and never starts a block or more past the value.
    pub open spec fn awaits(self, doc: Seq<u8>, miss: u64) -> bool {
        &&& self matches ExtentState::Peek { from } ==> miss <= ws_end(doc, from as int)
        &&& self.answer(doc) matches Ok(x) ==> miss < x.location.end + 64
    }

    pub fn min_reachable(&self) -> (at: u64)
        ensures
            at == self.keeps_from(),
    {
        match self {
            ExtentState::Peek { from } => *from,
            ExtentState::Skip { skip, .. } => skip.min_reachable(),
        }
    }
}

/// Find the start, the kind and the end of the value that a state stands at. The
/// state commits at block boundaries, so the window stays bounded even for a large
/// value.
pub fn extent_step(walker: &mut Walker, state: &mut ExtentState) -> (r: Result<
    Extent,
    TraverseError,
>)
    requires
        old(walker).wf(),
        old(state).wf(),
    ensures
        final(walker).wf(),
        final(walker).window() == old(walker).window(),
        final(state).wf(),
        *old(state) is Skip ==> *final(state) is Skip,
        old(state).keeps_from() <= final(state).keeps_from(),
        r matches Err(TraverseError::Pending(miss)) ==> {
            &&& old(walker).window().lacks(final(state).keeps_from() as int, miss.0)
            &&& final(state).commits() ==> miss.0 < final(state).keeps_from() + 64
        },
        forall|doc: Seq<u8>| #[trigger]
            old(walker).window().agrees(doc) ==> match r {
                Err(TraverseError::Pending(miss)) => {
                    &&& final(state).answer(doc) == old(state).answer(doc)
                    &&& old(walker).window().resident(
                        final(state).keeps_from() as int,
                        miss.0 as int,
                    )
                    &&& final(state).awaits(doc, miss.0)
                },
                _ => old(state).answer(doc) == r,
            },
{
    let ghost w = walker.window();
    let ghost was = *state;
    if let ExtentState::Peek { from } = *state {
        proof {
            assert forall|doc: Seq<u8>| #[trigger] w.agrees(doc) implies (extent_at(
                doc,
                from as int,
            ) matches Ok(x) ==> ws_end(doc, from as int) <= x.location.end) by {
                crate::scan::lemma_run_end(doc, from as int, ByteClass::Whitespace);
                crate::resolve::lemma_value_end(doc, ws_end(doc, from as int));
            }
        }
        let start: u64 = match walker.skip_whitespace(from) {
            Ok(start) => start,
            Err(miss) => return Err(TraverseError::Pending(miss)),
        };
        match walker.byte_at(start) {
            Err(miss) => return Err(TraverseError::Pending(miss)),
            Ok(None) => return Err(TraverseError::UnexpectedEof(start)),
            Ok(Some(b)) => {
                let kind: Option<ContainerKind> = if b == LBRACE {
                    Some(ContainerKind::Object)
                } else if b == LBRACKET {
                    Some(ContainerKind::Array)
                } else {
                    None
                };
                *state = ExtentState::Skip { start, kind, skip: SkipState::start(start) };
            },
        }
    }
    assert(forall|doc: Seq<u8>| #[trigger] w.agrees(doc) ==> state.answer(doc) == was.answer(doc));
    match *state {
        ExtentState::Peek { from } => Err(TraverseError::UnexpectedEof(from)),
        ExtentState::Skip { start, kind, skip: at } => {
            let mut skip: SkipState = at;
            let r = skip_value_step(walker, &mut skip);
            *state = ExtentState::Skip { start, kind, skip };
            match r {
                Err(e) => Err(e),
                Ok(end) => Ok(Extent { location: ValueLocation { start, end }, kind }),
            }
        },
    }
}

// ---- the value of a path

/// What a [`Resolving`] stands for.
pub struct ResolvingView {
    pub locating: LocatingView,
    /// The value whose end is looked for, once the path has led to it.
    pub extent: Option<ExtentState>,
}

impl ResolvingView {
    pub open spec fn wf(self) -> bool {
        &&& self.locating.wf()
        &&& self.extent matches Some(x) ==> x.wf()
    }

    /// The value at hand in `doc`, and the session once it is known: the close of a
    /// container is written back.
    pub open spec fn measured(self, doc: Seq<u8>, x: ExtentState, s: SessionView) -> (
        Result<Option<ValueLocation>, SessionError>,
        SessionView,
    ) {
        match x.answer(doc) {
            Err(e) => (Err(SessionError::Traverse(e)), s),
            Ok(extent) => (
                Ok(Some(extent.location)),
                match extent.kind {
                    Some(kind) => s.with_index(
                        s.index.with_close(
                            self.locating.base_depth,
                            self.locating.key,
                            kind,
                            extent.location.start,
                            extent.location.end,
                        ),
                    ),
                    None => s,
                },
            ),
        }
    }

    /// Where the value of the path stands in `doc`, and the session once that is
    /// known. A close that the index knows saves looking for the end.
    pub open spec fn answer(self, doc: Seq<u8>, s: SessionView) -> (
        Result<Option<ValueLocation>, SessionError>,
        SessionView,
    ) {
        match self.extent {
            Some(x) => self.measured(doc, x, s),
            None => {
                let (led, next) = self.locating.answer(doc, s);
                match led {
                    Err(e) => (Err(SessionError::Traverse(e)), next),
                    Ok(Resolved::Absent) => (Ok(None), next),
                    Ok(Resolved::NotNavigable(fault)) => (Err(SessionError::Path(fault)), next),
                    Ok(Resolved::Found(start)) => match next.cached_location(self.locating.key) {
                        Some(location) => (Ok(Some(location)), next),
                        None => self.measured(doc, ExtentState::Peek { from: start }, next),
                    },
                }
            },
        }
    }

    /// Lowest offset that the query might still read.
    pub open spec fn keeps_from(self) -> u64 {
        match self.extent {
            Some(x) => x.keeps_from(),
            None => self.locating.keeps_from(),
        }
    }

    /// The query keeps its progress block by block.
    pub open spec fn commits(self) -> bool {
        match self.extent {
            Some(x) => x.commits(),
            None => self.locating.commits(),
        }
    }

    /// An absent chunk belongs to what is at hand, in the lookup or in the value.
    pub open spec fn awaits(self, doc: Seq<u8>, miss: u64) -> bool {
        match self.extent {
            Some(x) => x.awaits(doc, miss),
            None => self.locating.awaits(doc, miss),
        }
    }
}

/// A query for the byte range of the value of a path.
#[derive(Debug)]
pub struct Resolving {
    locating: Locating,
    extent: Option<ExtentState>,
    burst: DoublingBurst,
}

impl View for Resolving {
    type V = ResolvingView;

    closed spec fn view(&self) -> ResolvingView {
        ResolvingView { locating: self.locating@, extent: self.extent }
    }
}

/// What a query does to find the extent of its value: it looks the value up, peeks at
/// its first byte, or goes through it.
pub open spec fn extent_phase(extent: Option<ExtentState>) -> int {
    match extent {
        None => 0,
        Some(ExtentState::Peek { .. }) => 1,
        Some(_) => 2,
    }
}

impl Resolving {
    pub closed spec fn wf(&self) -> bool {
        &&& self@.wf()
        &&& self.locating.wf()
        &&& self.extent matches Some(ExtentState::Peek { .. }) ==> self.burst.upcoming() == 1
    }

    /// The size of the next burst.
    pub closed spec fn upcoming(&self) -> u64 {
        match self.extent {
            None => self.locating.upcoming(),
            Some(_) => self.burst.upcoming(),
        }
    }

    /// How often the query ticks the clock of the index at most.
    pub open spec fn ticks(&self) -> int {
        self@.locating.key.1.len() as int + 2
    }

    pub fn begin(session: &mut Session, path: Vec<Segment>, anchor: u64, base_depth: u32) -> (q: Self)
        requires
            old(session).wf(),
            old(session).has_room(path@.len() as int),
            base_depth + path@.len() <= u32::MAX,
        ensures
            final(session).wf(),
            final(session)@ == old(session)@.asked(anchor, steps(path@)),
            final(session)@.index.tick <= old(session)@.index.tick + path@.len(),
            q.wf(),
            q@ == (ResolvingView {
                locating: LocatingView::begun(
                    old(session)@,
                    (anchor, steps(path@)),
                    base_depth,
                ),
                extent: None,
            }),
            q.upcoming() == 1,
    {
        let locating = Locating::begin(session, path, anchor, base_depth);
        Resolving { locating, extent: None, burst: doubling_burst() }
    }

    /// Go on with the query over the chunks in the window.
    pub fn step(&mut self, session: &mut Session, window: &ChunkWindow) -> (r: Result<
        Option<ValueLocation>,
        SessionError,
    >)
        requires
            old(self).wf(),
            old(session).wf(),
            old(session).has_room(old(self).ticks()),
            window.wf(),
        ensures
            final(self).wf(),
            final(session).wf(),
            final(self)@.locating.key == old(self)@.locating.key,
            final(self)@.locating.base_depth == old(self)@.locating.base_depth,
            final(self).upcoming() == (if extent_phase(final(self)@.extent) == extent_phase(
                old(self)@.extent,
            ) {
                old(self).upcoming()
            } else {
                1
            }),
            final(session)@.index.tick <= old(session)@.index.tick + old(self).ticks(),
            old(self)@.extent is Some ==> final(self)@.extent is Some && old(self)@.keeps_from()
                <= final(self)@.keeps_from(),
            r matches Err(SessionError::Traverse(TraverseError::Pending(miss))) ==> {
                &&& window@.lacks(final(self)@.keeps_from() as int, miss.0)
                &&& final(self)@.commits() ==> miss.0 < final(self)@.keeps_from() + 64
            },
            forall|doc: Seq<u8>| #[trigger]
                window@.agrees(doc) ==> match r {
                    Err(SessionError::Traverse(TraverseError::Pending(miss))) => {
                        &&& final(self)@.answer(doc, final(session)@) == old(self)@.answer(
                            doc,
                            old(session)@,
                        )
                        &&& window@.resident(final(self)@.keeps_from() as int, miss.0 as int)
                        &&& final(self)@.awaits(doc, miss.0)
                    },
                    _ => (r, final(session)@) == old(self)@.answer(doc, old(session)@),
                },
    {
        let ghost w = window@;
        let ghost was = self@;
        let ghost s0 = session@;
        if self.extent.is_none() {
            match self.locating.step(session, window) {
                Err(e) => return Err(SessionError::Traverse(e)),
                Ok(Resolved::Absent) => return Ok(None),
                Ok(Resolved::NotNavigable(fault)) => return Err(SessionError::Path(fault)),
                Ok(Resolved::Found(start)) => {
                    // A cached close skips the extent walk for a large container.
                    let cached: Option<ValueLocation> = session.cached_location(
                        self.locating.anchor(),
                        self.locating.path(),
                    );
                    if let Some(location) = cached {
                        return Ok(Some(location));
                    }
                    self.extent = Some(ExtentState::Peek { from: start });
                    self.burst = doubling_burst();
                },
            }
            assert(forall|doc: Seq<u8>| #[trigger]
                w.agrees(doc) ==> self@.answer(doc, session@) == was.answer(doc, s0));
        }
        match self.extent {
            None => Ok(None),
            Some(at) => {
                let mut extent: ExtentState = at;
                let mut walker = Walker::new(window);
                let r = extent_step(&mut walker, &mut extent);
                self.extent = Some(extent);
                match r {
                    Err(e) => Err(SessionError::Traverse(e)),
                    Ok(found) => {
                        // Only containers - not scalars - get a node.
                        if let Some(kind) = found.kind {
                            session.store_close(
                                self.locating.base_depth(),
                                self.locating.anchor(),
                                self.locating.path(),
                                kind,
                                found.location.start,
                                found.location.end,
                            );
                        }
                        Ok(Some(found.location))
                    },
                }
            },
        }
    }

    /// Lowest offset that the query might still read.
    pub fn min_reachable(&self) -> (at: u64)
        ensures
            at == self@.keeps_from(),
    {
        match &self.extent {
            Some(x) => x.min_reachable(),
            None => self.locating.min_reachable(),
        }
    }

    /// How many chunks to read when the one at `offset` is missing: one to peek at the
    /// value, and otherwise twice as many as the last time, up to a cap.
    pub fn burst(&mut self, offset: u64) -> (n: u64)
        requires
            old(self).wf(),
        ensures
            final(self).wf(),
            final(self)@ == old(self)@,
            n == old(self).upcoming(),
            1 <= n <= MAX_BURST,
            final(self).upcoming() == (if extent_phase(old(self)@.extent) == 1 {
                1
            } else {
                doubled(old(self).upcoming())
            }),
    {
        match &self.extent {
            None => self.locating.burst(offset),
            Some(ExtentState::Peek { .. }) => 1,
            Some(_) => self.burst.size(offset),
        }
    }
}

// ---- the bytes of a value

/// What a [`Getting`] stands for.
pub struct GettingView {
    pub resolving: ResolvingView,
    /// The value that is read, once the path has led to it.
    pub found: Option<ValueLocation>,
}

/// The bytes of a value.
pub open spec fn value_bytes(doc: Seq<u8>, location: ValueLocation) -> Seq<u8> {
    doc_range(doc, location.start as int, location.end as int)
}

/// What a read of optional bytes comes to.
pub open spec fn bytes_view(r: Result<Option<Vec<u8>>, SessionError>) -> Result<
    Option<Seq<u8>>,
    SessionError,
> {
    match r {
        Ok(Some(bytes)) => Ok(Some(bytes@)),
        Ok(None) => Ok(None),
        Err(e) => Err(e),
    }
}

impl GettingView {
    /// The bytes of the value of the path in `doc`, and the session once they are
    /// known.
    pub open spec fn answer(self, doc: Seq<u8>, s: SessionView) -> (
        Result<Option<Seq<u8>>, SessionError>,
        SessionView,
    ) {
        match self.found {
            Some(location) => (Ok(Some(value_bytes(doc, location))), s),
            None => match self.resolving.answer(doc, s) {
                (Err(e), next) => (Err(e), next),
                (Ok(None), next) => (Ok(None), next),
                (Ok(Some(location)), next) => (Ok(Some(value_bytes(doc, location))), next),
            },
        }
    }

    /// Lowest offset that the query might still read.
    pub open spec fn keeps_from(self) -> u64 {
        match self.found {
            Some(location) => location.start,
            None => self.resolving.keeps_from(),
        }
    }

    /// The query keeps its progress block by block, until the value is read in one
    /// piece.
    pub open spec fn commits(self) -> bool {
        self.found is None && self.resolving.commits()
    }

    /// An absent chunk belongs to the value that is read, or to what is at hand before
    /// that.
    pub open spec fn awaits(self, doc: Seq<u8>, miss: u64) -> bool {
        match self.found {
            Some(location) => miss < location.end,
            None => self.resolving.awaits(doc, miss),
        }
    }
}

/// A query for the bytes of the value of a path.
#[derive(Debug)]
pub struct Getting {
    resolving: Resolving,
    found: Option<ValueLocation>,
    chunk_bytes: u64,
}

impl View for Getting {
    type V = GettingView;

    closed spec fn view(&self) -> GettingView {
        GettingView { resolving: self.resolving@, found: self.found }
    }
}

impl Getting {
    pub closed spec fn wf(&self) -> bool {
        &&& self.resolving.wf()
        &&& self.chunk_bytes > 0
    }

    /// The size of the chunks that the query reads.
    pub closed spec fn chunk_bytes(&self) -> int {
        self.chunk_bytes as int
    }

    /// The size of the next burst while the value is looked for.
    pub closed spec fn upcoming(&self) -> u64 {
        self.resolving.upcoming()
    }

    /// How often the query ticks the clock of the index at most.
    pub open spec fn ticks(&self) -> int {
        self@.resolving.locating.key.1.len() as int + 2
    }

    pub fn begin(session: &mut Session, path: Vec<Segment>, anchor: u64, base_depth: u32) -> (q: Self)
        requires
            old(session).wf(),
            old(session).has_room(path@.len() as int),
            base_depth + path@.len() <= u32::MAX,
        ensures
            final(session).wf(),
            final(session)@ == old(session)@.asked(anchor, steps(path@)),
            final(session)@.index.tick <= old(session)@.index.tick + path@.len(),
            q.wf(),
            q@ == (GettingView {
                resolving: ResolvingView {
                    locating: LocatingView::begun(
                        old(session)@,
                        (anchor, steps(path@)),
                        base_depth,
                    ),
                    extent: None,
                },
                found: None,
            }),
            q.upcoming() == 1,
            q.chunk_bytes() == old(session)@.chunk_bytes,
    {
        let resolving = Resolving::begin(session, path, anchor, base_depth);
        let chunk_bytes: u64 = session.chunk_bytes();
        Getting { resolving, found: None, chunk_bytes }
    }

    /// Go on with the query over the chunks in the window.
    pub fn step(&mut self, session: &mut Session, window: &ChunkWindow) -> (r: Result<
        Option<Vec<u8>>,
        SessionError,
    >)
        requires
            old(self).wf(),
            old(session).wf(),
            old(session).has_room(old(self).ticks()),
            window.wf(),
        ensures
            final(self).wf(),
            final(session).wf(),
            final(self).ticks() == old(self).ticks(),
            final(self).chunk_bytes() == old(self).chunk_bytes(),
            final(self).upcoming() == (if extent_phase(final(self)@.resolving.extent)
                == extent_phase(old(self)@.resolving.extent) {
                old(self).upcoming()
            } else {
                1
            }),
            final(session)@.index.tick <= old(session)@.index.tick + old(self).ticks(),
            r matches Err(SessionError::Traverse(TraverseError::Pending(miss))) ==> {
                &&& window@.lacks(final(self)@.keeps_from() as int, miss.0)
                &&& final(self)@.commits() ==> miss.0 < final(self)@.keeps_from() + 64
            },
            forall|doc: Seq<u8>| #[trigger]
                window@.agrees(doc) ==> match r {
                    Err(SessionError::Traverse(TraverseError::Pending(miss))) => {
                        &&& final(self)@.answer(doc, final(session)@) == old(self)@.answer(
                            doc,
                            old(session)@,
                        )
                        &&& window@.resident(final(self)@.keeps_from() as int, miss.0 as int)
                        &&& final(self)@.awaits(doc, miss.0)
                    },
                    _ => (bytes_view(r), final(session)@) == old(self)@.answer(
                        doc,
                        old(session)@,
                    ),
                },
    {
        if self.found.is_none() {
            match self.resolving.step(session, window) {
                Err(e) => return Err(e),
                Ok(None) => return Ok(None),
                Ok(Some(location)) => {
                    self.found = Some(location);
                },
            }
        }
        match self.found {
            None => Ok(None),
            Some(location) => {
                let mut walker = Walker::new(window);
                match walker.read_range(location.start, location.end) {
                    Err(miss) => Err(SessionError::Traverse(TraverseError::Pending(miss))),
                    Ok(bytes) => Ok(Some(bytes)),
                }
            },
        }
    }

    /// Lowest offset that the query might still read. A read starts over on each
    /// retry: all the value's chunks must be resident together to copy them out.
    pub fn min_reachable(&self) -> (at: u64)
        ensures
            at == self@.keeps_from(),
    {
        match &self.found {
            Some(location) => location.start,
            None => self.resolving.min_reachable(),
        }
    }

    /// How many chunks to read when the one at `offset` is missing: the rest of the
    /// value in one shot, once its range is known.
    pub fn burst(&mut self, offset: u64) -> (n: u64)
        requires
            old(self).wf(),
        ensures
            final(self).wf(),
            final(self)@ == old(self)@,
            final(self).chunk_bytes() == old(self).chunk_bytes(),
            n >= 1,
            match old(self)@.found {
                Some(location) => {
                    &&& n == chunks_to_cover(offset, location.end, old(self).chunk_bytes())
                    &&& final(self).upcoming() == old(self).upcoming()
                },
                None => {
                    &&& n == old(self).upcoming()
                    &&& n <= MAX_BURST
                    &&& final(self).upcoming() == (if extent_phase(
                        old(self)@.resolving.extent,
                    ) == 1 {
                        1
                    } else {
                        doubled(old(self).upcoming())
                    })
                },
            },
    {
        match self.found {
            Some(location) => range_burst(offset, location.end, self.chunk_bytes),
            None => self.resolving.burst(offset),
        }
    }
}

// ---- how many children a container has

/// Where a [`Counting`] stands.
pub enum CountingView {
    Locating(LocatingView),
    Entering(LocatingView, u64),
    /// The container of that kind opens at that offset.
    Scanning(LocatingView, ContainerKind, u64, CountState),
}

impl CountingView {
    /// What the count does: it looks the container up, enters it, or goes through it.
    pub open spec fn phase(self) -> int {
        match self {
            CountingView::Locating(_) => 0,
            CountingView::Entering(_, _) => 1,
            CountingView::Scanning(_, _, _, _) => 2,
        }
    }

    pub open spec fn locating(self) -> LocatingView {
        match self {
            CountingView::Locating(q) => q,
            CountingView::Entering(q, _) => q,
            CountingView::Scanning(q, _, _, _) => q,
        }
    }

    pub open spec fn wf(self) -> bool {
        &&& self.locating().wf()
        &&& self matches CountingView::Scanning(_, _, _, state) ==> state.wf()
    }

    /// Lowest offset that the query might still read.
    pub open spec fn keeps_from(self) -> u64 {
        match self {
            CountingView::Locating(q) => q.keeps_from(),
            CountingView::Entering(_, start) => start,
            CountingView::Scanning(_, _, _, state) => state.offset,
        }
    }

    /// The query keeps its progress block by block.
    pub open spec fn commits(self) -> bool {
        match self {
            CountingView::Locating(q) => q.commits(),
            CountingView::Entering(_, _) => false,
            CountingView::Scanning(_, _, _, state) => state.peeked,
        }
    }

    /// An absent chunk belongs to what is at hand: in the lookup, the opening byte of the
    /// container, its first child, or the next block of it. It does not start a block or
    /// more past the byte that closes the container.
    pub open spec fn awaits(self, doc: Seq<u8>, miss: u64) -> bool {
        match self {
            CountingView::Locating(q) => q.awaits(doc, miss),
            CountingView::Entering(_, start) => miss <= ws_end(doc, start as int),
            CountingView::Scanning(_, _, _, state) => {
                &&& if state.peeked {
                    miss < state.offset + 64
                } else {
                    miss <= ws_end(doc, state.offset as int)
                }
                &&& state.answer(doc) is Ok ==> miss < state.closes(doc) + 64
            },
        }
    }

    /// The number of children in `doc`, and the session once it is known. A missing
    /// path, a shape mismatch or a value that is no container has none.
    pub open spec fn answer(self, doc: Seq<u8>, s: SessionView) -> (
        Result<nat, SessionError>,
        SessionView,
    ) {
        match self {
            CountingView::Locating(q) => {
                let (led, next) = q.answer(doc, s);
                match led {
                    Err(e) => (Err(SessionError::Traverse(e)), next),
                    Ok(Resolved::Found(start)) => entered(doc, q, start, next),
                    Ok(_) => (Ok(0), next),
                }
            },
            CountingView::Entering(q, start) => entered(doc, q, start, s),
            CountingView::Scanning(q, kind, open, state) => counted(
                state.answer(doc),
                q,
                kind,
                open,
                s,
            ),
        }
    }
}

/// A count that came to `n`, and the session once it is written back.
pub open spec fn counted(
    n: Result<nat, TraverseError>,
    q: LocatingView,
    kind: ContainerKind,
    open: u64,
    s: SessionView,
) -> (Result<nat, SessionError>, SessionView) {
    match n {
        Err(e) => (Err(SessionError::Traverse(e)), s),
        Ok(n) => (
            Ok(n),
            s.with_index(
                s.index.with_child_count(q.base_depth, q.key, kind, open, n as u64),
            ),
        ),
    }
}

/// The children of the value at `start`.
pub open spec fn entered(doc: Seq<u8>, q: LocatingView, start: u64, s: SessionView) -> (
    Result<nat, SessionError>,
    SessionView,
) {
    match cursor_at(doc, start as int) {
        Err(e) => (Err(SessionError::Traverse(e)), s),
        Ok(None) => (Ok(0), s),
        Ok(Some(cursor)) => counted(
            child_count(doc, cursor.next_offset as int),
            q,
            cursor.kind,
            (cursor.next_offset - 1) as u64,
            s,
        ),
    }
}

/// Two counts and the sessions after them are the same. In a document too long for
/// a machine word, where the end is reported may differ.
pub open spec fn same_counting(
    doc: Seq<u8>,
    a: (Result<nat, SessionError>, SessionView),
    b: (Result<nat, SessionError>, SessionView),
) -> bool {
    ||| a == b
    ||| {
        &&& doc.len() >= usize::MAX
        &&& a.0 matches Err(SessionError::Traverse(TraverseError::UnexpectedEof(_)))
        &&& b.0 matches Err(SessionError::Traverse(TraverseError::UnexpectedEof(_)))
        &&& a.1 == b.1
    }
}

#[derive(Debug)]
enum CountPhase {
    Locating,
    Entering(u64),
    Scanning(ContainerKind, u64, CountState),
}

/// A query for the number of children of the container of a path.
#[derive(Debug)]
pub struct Counting {
    locating: Locating,
    phase: CountPhase,
    burst: DoublingBurst,
}

/// How a count begins.
#[derive(Debug)]
pub enum CountStart {
    /// The index knew the count.
    Known(u64),
    Scan(Counting),
}

impl View for Counting {
    type V = CountingView;

    closed spec fn view(&self) -> CountingView {
        match self.phase {
            CountPhase::Locating => CountingView::Locating(self.locating@),
            CountPhase::Entering(start) => CountingView::Entering(self.locating@, start),
            CountPhase::Scanning(kind, open, state) => CountingView::Scanning(
                self.locating@,
                kind,
                open,
                state,
            ),
        }
    }
}

impl Counting {
    pub closed spec fn wf(&self) -> bool {
        &&& self@.wf()
        &&& self.locating.wf()
        &&& self.phase !is Scanning ==> self.burst.upcoming() == 1
    }

    /// The size of the next burst.
    pub closed spec fn upcoming(&self) -> u64 {
        match self.phase {
            CountPhase::Locating => self.locating.upcoming(),
            _ => self.burst.upcoming(),
        }
    }

    /// How often the query ticks the clock of the index at most.
    pub open spec fn ticks(&self) -> int {
        self@.locating().key.1.len() as int + 2
    }

    /// Begin a count of the children of the container that `path` leads to. A count
    /// that the index knows is answered without a scan.
    pub fn begin(session: &mut Session, path: Vec<Segment>, anchor: u64, base_depth: u32) -> (r:
        CountStart)
        requires
            old(session).wf(),
            old(session).has_room(path@.len() as int),
            base_depth + path@.len() <= u32::MAX,
        ensures
            final(session).wf(),
            ({
                let key = (anchor, steps(path@));
                match r {
                    CountStart::Known(n) => {
                        &&& old(session)@.cached_child_count(key) == Some(n)
                        &&& final(session)@ == old(session)@
                    },
                    CountStart::Scan(q) => {
                        &&& old(session)@.cached_child_count(key) is None
                        &&& q.wf()
                        &&& q@ == CountingView::Locating(
                            LocatingView::begun(old(session)@, key, base_depth),
                        )
                        &&& q.upcoming() == 1
                        &&& final(session)@ == old(session)@.asked(anchor, steps(path@))
                    },
                }
            }),
            final(session)@.index.tick <= old(session)@.index.tick + path@.len(),
    {
        if let Some(n) = session.cached_child_count(anchor, path.as_slice()) {
            return CountStart::Known(n);
        }
        let locating = Locating::begin(session, path, anchor, base_depth);
        CountStart::Scan(
            Counting { locating, phase: CountPhase::Locating, burst: doubling_burst() },
        )
    }

    /// Go on with the count over the chunks in the window.
    pub fn step(&mut self, session: &mut Session, window: &ChunkWindow) -> (r: Result<
        u64,
        SessionError,
    >)
        requires
            old(self).wf(),
            old(session).wf(),
            old(session).has_room(old(self).ticks()),
            window.wf(),
        ensures
            final(self).wf(),
            final(session).wf(),
            final(self).ticks() == old(self).ticks(),
            final(self).upcoming() == (if final(self)@.phase() == old(self)@.phase() {
                old(self).upcoming()
            } else {
                1
            }),
            final(session)@.index.tick <= old(session)@.index.tick + old(self).ticks(),
            old(self)@.phase() == 2 ==> final(self)@.phase() == 2 && old(self)@.keeps_from()
                <= final(self)@.keeps_from(),
            r matches Err(SessionError::Traverse(TraverseError::Pending(miss))) ==> {
                &&& window@.lacks(final(self)@.keeps_from() as int, miss.0)
                &&& final(self)@.commits() ==> miss.0 < final(self)@.keeps_from() + 64
            },
            forall|doc: Seq<u8>| #[trigger]
                window@.agrees(doc) ==> match r {
                    Err(SessionError::Traverse(TraverseError::Pending(miss))) => {
                        &&& same_counting(
                            doc,
                            final(self)@.answer(doc, final(session)@),
                            old(self)@.answer(doc, old(session)@),
                        )
                        &&& window@.resident(final(self)@.keeps_from() as int, miss.0 as int)
                        &&& final(self)@.awaits(doc, miss.0)
                    },
                    Ok(n) => same_counting(
                        doc,
                        (Ok(n as nat), final(session)@),
                        old(self)@.answer(doc, old(session)@),
                    ),
                    Err(e) => same_counting(
                        doc,
                        (Err(e), final(session)@),
                        old(self)@.answer(doc, old(session)@),
                    ),
                },
    {
        let ghost w = window@;
        let ghost was = self@;
        let ghost s0 = session@;
        if let CountPhase::Locating = self.phase {
            match self.locating.step(session, window) {
                Err(e) => return Err(SessionError::Traverse(e)),
                Ok(Resolved::Found(start)) => {
                    self.phase = CountPhase::Entering(start);
                },
                Ok(_) => return Ok(0),
            }
        }
        assert(forall|doc: Seq<u8>| #[trigger]
            w.agrees(doc) ==> self@.answer(doc, session@) == was.answer(doc, s0));
        if let CountPhase::Entering(start) = self.phase {
            let mut walker = Walker::new(window);
            match enter_container(&mut walker, start) {
                Err(e) => return Err(SessionError::Traverse(e)),
                Ok(None) => return Ok(0),
                Ok(Some(cursor)) => {
                    let open: u64 = cursor.next_offset - 1;
                    self.phase = CountPhase::Scanning(
                        cursor.kind,
                        open,
                        CountState::new(cursor.next_offset),
                    );
                    self.burst = doubling_burst();
                },
            }
        }
        assert(forall|doc: Seq<u8>| #[trigger]
            w.agrees(doc) ==> self@.answer(doc, session@) == was.answer(doc, s0));
        match self.phase {
            CountPhase::Scanning(kind, open, at) => {
                let mut state: CountState = at;
                let mut walker = Walker::new(window);
                let r = count_step(&mut walker, &mut state);
                self.phase = CountPhase::Scanning(kind, open, state);
                match r {
                    Err(e) => Err(SessionError::Traverse(e)),
                    Ok(n) => {
                        // The count, not the close offset: the comma scan never sees
                        // the close.
                        session.store_child_count(
                            self.locating.base_depth(),
                            self.locating.anchor(),
                            self.locating.path(),
                            kind,
                            open,
                            n,
                        );
                        Ok(n)
                    },
                }
            },
            _ => Ok(0),
        }
    }

    /// Lowest offset that the query might still read.
    pub fn min_reachable(&self) -> (at: u64)
        ensures
            at == self@.keeps_from(),
    {
        match &self.phase {
            CountPhase::Locating => self.locating.min_reachable(),
            CountPhase::Entering(start) => *start,
            CountPhase::Scanning(_, _, state) => state.offset,
        }
    }

    /// How many chunks to read when the one at `offset` is missing: one to enter the
    /// container, and otherwise twice as many as the last time, up to a cap.
    pub fn burst(&mut self, offset: u64) -> (n: u64)
        requires
            old(self).wf(),
        ensures
            final(self).wf(),
            final(self)@ == old(self)@,
            n == old(self).upcoming(),
            1 <= n <= MAX_BURST,
            final(self).upcoming() == (if old(self)@.phase() == 1 {
                1
            } else {
                doubled(old(self).upcoming())
            }),
    {
        match &self.phase {
            CountPhase::Locating => self.locating.burst(offset),
            CountPhase::Entering(_) => 1,
            CountPhase::Scanning(_, _, _) => self.burst.size(offset),
        }
    }
}

// ---- what a session can be asked

impl Session {
    /// Ask for the offset that a path leads to.
    pub fn locate_at(&mut self, path: Vec<Segment>, anchor_start: u64, base_depth: u32) -> (q:
        Locating)
        requires
            old(self).wf(),
            old(self).has_room(path@.len() as int),
            base_depth + path@.len() <= u32::MAX,
        ensures
            final(self).wf(),
            final(self)@ == old(self)@.asked(anchor_start, steps(path@)),
            final(self)@.index.tick <= old(self)@.index.tick + path@.len(),
            q.wf(),
            q@ == LocatingView::begun(old(self)@, (anchor_start, steps(path@)), base_depth),
            q.upcoming() == 1,
    {
        Locating::begin(self, path, anchor_start, base_depth)
    }

    /// Ask whether a path leads to a value.
    pub fn has_at(&mut self, path: Vec<Segment>, anchor_start: u64, base_depth: u32) -> (q: Locating)
        requires
            old(self).wf(),
            old(self).has_room(path@.len() as int),
            base_depth + path@.len() <= u32::MAX,
        ensures
            final(self).wf(),
            final(self)@ == old(self)@.asked(anchor_start, steps(path@)),
            final(self)@.index.tick <= old(self)@.index.tick + path@.len(),
            q.wf(),
            q@ == LocatingView::begun(old(self)@, (anchor_start, steps(path@)), base_depth),
            q.upcoming() == 1,
    {
        Locating::begin(self, path, anchor_start, base_depth)
    }

    /// Ask for the byte range of the value of a path.
    pub fn resolve_at(&mut self, path: Vec<Segment>, anchor_start: u64, base_depth: u32) -> (q:
        Resolving)
        requires
            old(self).wf(),
            old(self).has_room(path@.len() as int),
            base_depth + path@.len() <= u32::MAX,
        ensures
            final(self).wf(),
            final(self)@ == old(self)@.asked(anchor_start, steps(path@)),
            final(self)@.index.tick <= old(self)@.index.tick + path@.len(),
            q.wf(),
            q@ == (ResolvingView {
                locating: LocatingView::begun(
                    old(self)@,
                    (anchor_start, steps(path@)),
                    base_depth,
                ),
                extent: None,
            }),
            q.upcoming() == 1,
    {
        Resolving::begin(self, path, anchor_start, base_depth)
    }

    /// Ask for the bytes of the value of a path.
    pub fn get_at(&mut self, path: Vec<Segment>, anchor_start: u64, base_depth: u32) -> (q: Getting)
        requires
            old(self).wf(),
            old(self).has_room(path@.len() as int),
            base_depth + path@.len() <= u32::MAX,
        ensures
            final(self).wf(),
            final(self)@ == old(self)@.asked(anchor_start, steps(path@)),
            final(self)@.index.tick <= old(self)@.index.tick + path@.len(),
            q.wf(),
            q@ == (GettingView {
                resolving: ResolvingView {
                    locating: LocatingView::begun(
                        old(self)@,
                        (anchor_start, steps(path@)),
                        base_depth,
                    ),
                    extent: None,
                },
                found: None,
            }),
            q.upcoming() == 1,
            q.chunk_bytes() == old(self)@.chunk_bytes,
    {
        Getting::begin(self, path, anchor_start, base_depth)
    }

    /// Open a child iterator over the container at `value_start`, or `Ok(None)` if the
    /// value isn't an object or array.
    pub fn enter_container(&self, value_start: u64, window: &ChunkWindow) -> (r: Result<
        Option<ContainerCursor>,
        SessionError,
    >)
        requires
            window.wf(),
        ensures
            r matches Err(e) ==> e is Traverse,
            r matches Err(SessionError::Traverse(TraverseError::Pending(miss))) ==> window@.lacks(
                value_start as int,
                miss.0,
            ),
            forall|doc: Seq<u8>| #[trigger]
                window@.agrees(doc) ==> match r {
                    Err(SessionError::Traverse(TraverseError::Pending(miss))) => miss.0 <= ws_end(
                        doc,
                        value_start as int,
                    ),
                    Err(SessionError::Traverse(e)) => cursor_at(doc, value_start as int) == Err::<
                        Option<ContainerCursor>,
                        TraverseError,
                    >(e),
                    Err(_) => false,
                    Ok(cursor) => cursor_at(doc, value_start as int) == Ok::<
                        Option<ContainerCursor>,
                        TraverseError,
                    >(cursor),
                },
    {
        let mut walker = Walker::new(window);
        match enter_container(&mut walker, value_start) {
            Err(e) => Err(SessionError::Traverse(e)),
            Ok(cursor) => Ok(cursor),
        }
    }

    /// Advance `cursor` to the next child entry.
    pub fn next_child(&self, cursor: &mut ContainerCursor, window: &ChunkWindow) -> (r: Result<
        Option<ChildEntry>,
        SessionError,
    >)
        requires
            window.wf(),
        ensures
            match r {
                Err(SessionError::Traverse(e)) => child_stepped(
                    window@,
                    *old(cursor),
                    *final(cursor),
                    Err(e),
                ),
                Err(_) => false,
                Ok(child) => child_stepped(window@, *old(cursor), *final(cursor), Ok(child)),
            },
    {
        let mut walker = Walker::new(window);
        match next_child(&mut walker, cursor) {
            Err(e) => Err(SessionError::Traverse(e)),
            Ok(child) => Ok(child),
        }
    }

    /// Materialize the value at `location`: copy its bytes.
    pub fn materialize(&self, location: ValueLocation, window: &ChunkWindow) -> (r: Result<
        Vec<u8>,
        SessionError,
    >)
        requires
            window.wf(),
        ensures
            match r {
                Ok(bytes) => forall|doc: Seq<u8>| #[trigger]
                    window@.agrees(doc) ==> bytes@ == value_bytes(doc, location),
                Err(e) => e matches SessionError::Traverse(TraverseError::Pending(miss))
                    && window@.lacks(location.start as int, miss.0) && miss.0 < location.end,
            },
    {
        let mut walker = Walker::new(window);
        match walker.read_range(location.start, location.end) {
            Err(miss) => Err(SessionError::Traverse(TraverseError::Pending(miss))),
            Ok(bytes) => Ok(bytes),
        }
    }
}

} // verus!
