//! Per-child projection: what a selection extracts from a child.
//!
//! A single sub-path yields the bare sub-value; named sub-paths yield an object of
//! sub-values in declared order. A missing sub-path yields `null` (projection is
//! lossy, not a filter). Only the projected bytes materialize, and the window is
//! bounded by the walk through the child, not by the child.

use vstd::prelude::*;

use crate::keys::{compare, json_text, key_matches, string_text};
use crate::path::{steps, Segment, Step};
use crate::query::{extent_step, value_bytes, ExtentState};
use crate::resolve::{
    child_step, cursor_at, enter_container, law_cold_resolution, law_cursor_advances,
    lemma_key_is_within, locate, next_child, resolution, resolve_step, within_child, ChildEntry,
    ChildKey, ContainerCursor, ResolveState, ResolveView, Resolved, ValueLocation,
};
use crate::scan::{ws_end, COLON, COMMA, LBRACE, RBRACE};
use crate::select::{field_list, CompiledSelect, Selection};
use crate::session::{chunks_to_cover, doubled, doubling_burst, range_burst, DoublingBurst};
use crate::walker::{doc_range, TraverseError, Walker};

verus! {

/// The text `null`.
pub open spec fn null_text() -> Seq<u8> {
    seq![0x6eu8, 0x75, 0x6c, 0x6c]
}

fn push_null(out: &mut Vec<u8>)
    ensures
        final(out)@ == old(out)@ + null_text(),
{
    out.push(0x6e);
    out.push(0x75);
    out.push(0x6c);
    out.push(0x6c);
    assert(out@ =~= old(out)@ + null_text());
}

pub(crate) fn push_all(out: &mut Vec<u8>, bytes: &Vec<u8>)
    ensures
        final(out)@ == old(out)@ + bytes@,
{
    let mut i: usize = 0;
    while i < bytes.len()
        invariant
            i <= bytes@.len(),
            out@ == old(out)@ + bytes@.take(i as int),
        decreases bytes@.len() - i,
    {
        out.push(bytes[i]);
        i = i + 1;
        assert(out@ =~= old(out)@ + bytes@.take(i as int));
    }
    assert(bytes@.take(i as int) =~= bytes@);
}

// ---- one sub-value

/// The sub-value that `path` leads to from the value at `start`, or `null` where it
/// leads to none.
pub open spec fn projected_one(doc: Seq<u8>, path: Seq<Step>, start: u64) -> Result<
    Seq<u8>,
    TraverseError,
> {
    match locate(doc, path, 0, start, false) {
        Err(e) => Err(e),
        Ok(Resolved::Found(at)) => extent_bytes(doc, ExtentState::Peek { from: at }),
        Ok(_) => Ok(null_text()),
    }
}

/// The bytes of the value that an extent comes to.
pub open spec fn extent_bytes(doc: Seq<u8>, x: ExtentState) -> Result<Seq<u8>, TraverseError> {
    match x.answer(doc) {
        Err(e) => Err(e),
        Ok(extent) => Ok(value_bytes(doc, extent.location)),
    }
}

/// Where the projection of one sub-value stands.
pub enum PickView {
    Locate(ResolveView),
    Extent(ExtentState),
    Read(ValueLocation),
}

/// Resumable state for [`pick_step`].
#[derive(Debug)]
pub enum PickState {
    Locate(ResolveState, DoublingBurst),
    Extent(ExtentState, DoublingBurst),
    Read(ValueLocation),
}

impl View for PickState {
    type V = PickView;

    open spec fn view(&self) -> PickView {
        match self {
            PickState::Locate(state, _) => PickView::Locate(state@),
            PickState::Extent(x, _) => PickView::Extent(*x),
            PickState::Read(location) => PickView::Read(*location),
        }
    }
}

impl PickView {
    pub open spec fn wf(self) -> bool {
        match self {
            PickView::Locate(st) => st.wf(),
            PickView::Extent(x) => x.wf(),
            PickView::Read(_) => true,
        }
    }

    /// A lookup from the value at `start` that knows nothing and records nothing.
    pub open spec fn begun(start: u64) -> PickView {
        PickView::Locate(
            ResolveView {
                seg: 0,
                start,
                scan: None,
                seed: None,
                record: None,
                objects: false,
                stride: 0,
            },
        )
    }

    /// The sub-value in `doc`, from where the state stands.
    pub open spec fn answer(self, doc: Seq<u8>, path: Seq<Step>) -> Result<Seq<u8>, TraverseError> {
        match self {
            PickView::Locate(st) => match resolution(doc, path, st).outcome {
                Err(e) => Err(e),
                Ok(Resolved::Found(at)) => extent_bytes(doc, ExtentState::Peek { from: at }),
                Ok(_) => Ok(null_text()),
            },
            PickView::Extent(x) => extent_bytes(doc, x),
            PickView::Read(location) => Ok(value_bytes(doc, location)),
        }
    }

    /// Lowest offset that the projection might still read.
    pub open spec fn keeps_from(self) -> u64 {
        match self {
            PickView::Locate(st) => match st.scan {
                Some(scan) => scan.offset,
                None => st.start,
            },
            PickView::Extent(x) => x.keeps_from(),
            PickView::Read(location) => location.start,
        }
    }

    /// An absent chunk belongs to what is at hand: the member of an object, a block of an
    /// array or of the sub-value, or the sub-value that is read.
    pub open spec fn awaits(self, doc: Seq<u8>, path: Seq<Step>, miss: u64) -> bool {
        match self {
            PickView::Locate(st) => {
                &&& st.awaits(doc, path, miss)
                &&& st.counts_elements(path) ==> miss < st.spec_min_reachable() + 64
            },
            PickView::Extent(x) => {
                &&& x.awaits(doc, miss)
                &&& x.commits() ==> miss < x.keeps_from() + 64
            },
            PickView::Read(location) => miss < location.end,
        }
    }

    /// What the projection does: it looks the sub-value up, goes through it, or reads
    /// it.
    pub open spec fn phase(self) -> int {
        match self {
            PickView::Locate(_) => 0,
            PickView::Extent(_) => 1,
            PickView::Read(_) => 2,
        }
    }

    /// How many chunks to read when the one at `offset` is missing: the rest of the
    /// sub-value in one shot, once its range is known; one to peek at it; and the
    /// `upcoming` ones of a doubling burst while it is looked for or gone through.
    pub open spec fn burst_for(self, upcoming: u64, offset: u64, cs: int) -> u64 {
        match self {
            PickView::Extent(ExtentState::Peek { .. }) => 1,
            PickView::Read(location) => chunks_to_cover(offset, location.end, cs),
            _ => upcoming,
        }
    }

    /// The doubling burst after that.
    pub open spec fn upcoming_after(self, upcoming: u64) -> u64 {
        match self {
            PickView::Extent(ExtentState::Peek { .. }) => upcoming,
            PickView::Read(_) => upcoming,
            _ => doubled(upcoming),
        }
    }
}

/// A projection that has just begun gives the sub-value that its path leads to.
pub proof fn law_pick_is_projection(doc: Seq<u8>, path: Seq<Step>, start: u64)
    requires
        doc.len() <= u64::MAX,
        path.len() <= usize::MAX,
    ensures
        PickView::begun(start).answer(doc, path) == projected_one(doc, path, start),
{
    law_cold_resolution(doc, path, PickView::begun(start)->Locate_0);
}

impl PickState {
    /// A lookup from the value at `start`, past the structural index.
    pub fn begin(start: u64) -> (p: Self)
        ensures
            p@ == PickView::begun(start),
            p@.wf(),
            p.upcoming() == 1,
    {
        PickState::Locate(ResolveState::resume(start, 0, None, false, 0), doubling_burst())
    }

    pub fn min_reachable(&self) -> (at: u64)
        ensures
            at == self@.keeps_from(),
    {
        match self {
            PickState::Locate(state, _) => state.min_reachable(),
            PickState::Extent(x, _) => x.min_reachable(),
            PickState::Read(location) => location.start,
        }
    }

    /// The size of the next burst while the sub-value is looked for.
    pub open spec fn upcoming(&self) -> u64 {
        match self {
            PickState::Locate(_, burst) => burst.upcoming(),
            PickState::Extent(_, burst) => burst.upcoming(),
            PickState::Read(_) => 1,
        }
    }

    /// How many chunks to read when the one at `offset` is missing.
    pub fn burst(&mut self, offset: u64, chunk_bytes: u64) -> (n: u64)
        requires
            chunk_bytes > 0,
        ensures
            final(self)@ == old(self)@,
            n == old(self)@.burst_for(old(self).upcoming(), offset, chunk_bytes as int),
            n >= 1,
            final(self).upcoming() == old(self)@.upcoming_after(old(self).upcoming()),
    {
        match self {
            PickState::Locate(_, burst) => burst.size(offset),
            PickState::Extent(ExtentState::Peek { .. }, _) => 1,
            PickState::Extent(_, burst) => burst.size(offset),
            PickState::Read(location) => range_burst(offset, location.end, chunk_bytes),
        }
    }
}

/// Advance the projection of one sub-value: its bytes, or `null`.
pub fn pick_step(walker: &mut Walker, path: &[Segment], state: &mut PickState) -> (r: Result<
    Vec<u8>,
    TraverseError,
>)
    requires
        old(walker).wf(),
        old(state)@.wf(),
    ensures
        final(walker).wf(),
        final(walker).window() == old(walker).window(),
        final(state)@.wf(),
        old(state)@.phase() <= final(state)@.phase(),
        final(state).upcoming() == (if final(state)@.phase() == old(state)@.phase() {
            old(state).upcoming()
        } else {
            1
        }),
        r matches Err(TraverseError::Pending(miss)) ==> old(walker).window().lacks(
            final(state)@.keeps_from() as int,
            miss.0,
        ),
        forall|doc: Seq<u8>| #[trigger]
            old(walker).window().agrees(doc) ==> match r {
                Err(TraverseError::Pending(miss)) => {
                    &&& final(state)@.answer(doc, steps(path@)) == old(state)@.answer(
                        doc,
                        steps(path@),
                    )
                    &&& final(state)@.awaits(doc, steps(path@), miss.0)
                },
                Err(e) => old(state)@.answer(doc, steps(path@)) == Err::<
                    Seq<u8>,
                    TraverseError,
                >(e),
                Ok(bytes) => old(state)@.answer(doc, steps(path@)) == Ok::<
                    Seq<u8>,
                    TraverseError,
                >(bytes@),
            },
{
    let ghost w = walker.window();
    let ghost names = steps(path@);
    let ghost was = state@;
    if let PickState::Locate(resolve, _) = state {
        match resolve_step(walker, path, resolve) {
            Err(e) => return Err(e),
            Ok(Resolved::Found(at)) => {
                *state = PickState::Extent(ExtentState::Peek { from: at }, doubling_burst());
            },
            Ok(_) => {
                // an absent sub-path or a shape mismatch projects to null
                let mut out: Vec<u8> = Vec::new();
                push_null(&mut out);
                assert(Seq::<u8>::empty() + null_text() =~= null_text());
                return Ok(out);
            },
        }
    }
    assert(forall|doc: Seq<u8>| #[trigger]
        w.agrees(doc) ==> state@.answer(doc, names) == was.answer(doc, names));
    if let PickState::Extent(x, _) = state {
        match extent_step(walker, x) {
            Err(e) => return Err(e),
            Ok(extent) => {
                *state = PickState::Read(extent.location);
            },
        }
    }
    assert(forall|doc: Seq<u8>| #[trigger]
        w.agrees(doc) ==> state@.answer(doc, names) == was.answer(doc, names));
    match state {
        PickState::Read(location) => match walker.read_range(location.start, location.end) {
            Err(miss) => Err(TraverseError::Pending(miss)),
            Ok(bytes) => Ok(bytes),
        },
        _ => Err(TraverseError::Malformed(0)),
    }
}

// ---- named sub-values

/// The fields of a selection: keys and sub-paths.
pub type Fields = Seq<(Seq<char>, Seq<Step>)>;

/// The child that each field has been matched with, if any.
pub type Matches = Seq<Option<ValueLocation>>;

/// Whether a child answers to a step; `None` where its name cannot be read.
pub open spec fn answers_to(doc: Seq<u8>, key: ChildKey, step: Step) -> Option<bool> {
    match (key, step) {
        (ChildKey::Member { start, close }, Step::Member(name)) => key_matches(
            doc_range(doc, start + 1, close as int),
            name,
        ),
        (ChildKey::Index(i), Step::Element(j)) => Some(i == j),
        _ => Some(false),
    }
}

/// A field looks for a child: it has a sub-path, and no child yet.
pub open spec fn looks(fields: Fields, matched: Matches, i: int) -> bool {
    matched[i] is None && fields[i].1.len() > 0
}

/// Some field still looks for a child.
pub open spec fn any_looks(fields: Fields, matched: Matches) -> bool {
    exists|i: int| 0 <= i < fields.len() && #[trigger] looks(fields, matched, i)
}

/// Whether the name of a child can be told for all fields that look for one.
pub open spec fn legible(doc: Seq<u8>, key: ChildKey, fields: Fields, matched: Matches) -> bool {
    forall|i: int|
        0 <= i < fields.len() && #[trigger] looks(fields, matched, i) ==> answers_to(
            doc,
            key,
            fields[i].1[0],
        ) is Some
}

/// The matches once a child has been seen: every field that looks for it has it.
pub open spec fn with_child(
    doc: Seq<u8>,
    entry: ChildEntry,
    fields: Fields,
    matched: Matches,
) -> Matches {
    Seq::new(
        matched.len(),
        |i: int|
            if looks(fields, matched, i) && answers_to(doc, entry.key, fields[i].1[0]) == Some(
                true,
            ) {
                Some(entry.location)
            } else {
                matched[i]
            },
    )
}

/// Where the key of a child starts, if it has one.
pub open spec fn key_start(key: ChildKey) -> u64 {
    match key {
        ChildKey::Member { start, .. } => start,
        ChildKey::Index(_) => 0,
    }
}

/// The matches once the children from `cursor` on have been walked, as far as some
/// field looks for one.
pub open spec fn walked(
    doc: Seq<u8>,
    fields: Fields,
    cursor: ContainerCursor,
    matched: Matches,
) -> Result<Matches, TraverseError>
    decreases doc.len() - cursor.next_offset,
{
    if !any_looks(fields, matched) {
        Ok(matched)
    } else {
        match child_step(doc, cursor) {
            Err(e) => Err(e),
            Ok((None, _)) => Ok(matched),
            Ok((Some(entry), next)) => if !legible(doc, entry.key, fields, matched) {
                Err(TraverseError::Malformed(key_start(entry.key)))
            } else if cursor.next_offset < next.next_offset <= doc.len() {
                walked(doc, fields, next, with_child(doc, entry, fields, matched))
            } else {
                Ok(matched)
            },
        }
    }
}

/// No field has a child yet.
pub open spec fn unmatched(n: nat) -> Matches {
    Seq::new(n, |i: int| None)
}

/// The matches of the fields in the child at `start`. A child that is no container
/// matches nothing.
pub open spec fn matches_in(doc: Seq<u8>, fields: Fields, start: u64) -> Result<
    Matches,
    TraverseError,
> {
    let none = unmatched(fields.len());
    if !any_looks(fields, none) {
        Ok(none)
    } else {
        match cursor_at(doc, start as int) {
            Err(e) => Err(e),
            Ok(None) => Ok(none),
            Ok(Some(cursor)) => walked(doc, fields, cursor, none),
        }
    }
}

/// The part of a sub-path that is looked up from the matched child on.
pub open spec fn sub_path(path: Seq<Step>) -> Seq<Step> {
    if path.len() == 0 {
        path
    } else {
        path.skip(1)
    }
}

/// How the value of a field is projected: `None` for `null`. A sub-path of one step
/// is answered by the matched child itself.
pub open spec fn field_pick(path: Seq<Step>, matched: Option<ValueLocation>, child: u64) -> Option<
    PickView,
> {
    if path.len() == 0 {
        Some(PickView::begun(child))
    } else {
        match matched {
            None => None,
            Some(location) => if path.len() == 1 {
                Some(PickView::Read(location))
            } else {
                Some(PickView::begun(location.start))
            },
        }
    }
}

/// What stands before the value of a field.
pub open spec fn field_head(fields: Fields, i: int) -> Seq<u8> {
    (if i > 0 {
        seq![COMMA]
    } else {
        Seq::empty()
    }) + json_text(fields[i].0) + seq![COLON]
}

/// The object of sub-values, from field `i` on, behind `out`.
pub open spec fn emitted(
    doc: Seq<u8>,
    fields: Fields,
    matched: Matches,
    child: u64,
    i: int,
    out: Seq<u8>,
) -> Result<Seq<u8>, TraverseError>
    decreases fields.len() - i,
{
    if i >= fields.len() {
        Ok(out.push(RBRACE))
    } else {
        let head = out + field_head(fields, i);
        match field_pick(fields[i].1, matched[i], child) {
            None => emitted(doc, fields, matched, child, i + 1, head + null_text()),
            Some(pick) => match pick.answer(doc, sub_path(fields[i].1)) {
                Err(e) => Err(e),
                Ok(bytes) => emitted(doc, fields, matched, child, i + 1, head + bytes),
            },
        }
    }
}

/// The object of sub-values, from the value of field `i` on if that is at hand.
pub open spec fn emitting(
    doc: Seq<u8>,
    fields: Fields,
    matched: Matches,
    child: u64,
    i: int,
    out: Seq<u8>,
    pick: Option<PickView>,
) -> Result<Seq<u8>, TraverseError> {
    match pick {
        None => emitted(doc, fields, matched, child, i, out),
        Some(p) => match p.answer(doc, sub_path(fields[i].1)) {
            Err(e) => Err(e),
            Ok(bytes) => emitted(doc, fields, matched, child, i + 1, out + bytes),
        },
    }
}

/// What a selection extracts from the child at `start`.
pub open spec fn projected(doc: Seq<u8>, select: Selection, start: u64) -> Result<
    Seq<u8>,
    TraverseError,
> {
    match select {
        Selection::One(path) => PickView::begun(start).answer(doc, path),
        Selection::Fields(fields) => match matches_in(doc, fields, start) {
            Err(e) => Err(e),
            Ok(matched) => emitted(doc, fields, matched, start, 0, seq![LBRACE]),
        },
    }
}

/// Where a projection stands.
pub enum ProjectView {
    One(PickView),
    Enter,
    Walk(ContainerCursor, Matches),
    /// The next field, what is written so far, and the field's value if its key is
    /// written already.
    Emit(int, Matches, Seq<u8>, Option<PickView>),
}

impl ProjectView {
    /// A projection of the child at `start` that has just begun.
    pub open spec fn begun(select: Selection, start: u64) -> ProjectView {
        match select {
            Selection::One(_) => ProjectView::One(PickView::begun(start)),
            Selection::Fields(_) => ProjectView::Enter,
        }
    }

    pub open spec fn wf(self, select: Selection) -> bool {
        match (select, self) {
            (Selection::One(_), ProjectView::One(pick)) => pick.wf(),
            (Selection::Fields(_), ProjectView::Enter) => true,
            (Selection::Fields(fields), ProjectView::Walk(_, matched)) => matched.len()
                == fields.len(),
            (Selection::Fields(fields), ProjectView::Emit(i, matched, _, pick)) => {
                &&& matched.len() == fields.len()
                &&& 0 <= i <= fields.len()
                &&& pick matches Some(p) ==> p.wf() && i < fields.len()
            },
            _ => false,
        }
    }

    /// What the projection comes to in `doc`, from where it stands.
    pub open spec fn answer(self, doc: Seq<u8>, select: Selection, start: u64) -> Result<
        Seq<u8>,
        TraverseError,
    > {
        match (select, self) {
            (Selection::One(path), ProjectView::One(pick)) => pick.answer(doc, path),
            (Selection::Fields(fields), ProjectView::Enter) => projected(doc, select, start),
            (Selection::Fields(fields), ProjectView::Walk(cursor, matched)) => match walked(
                doc,
                fields,
                cursor,
                matched,
            ) {
                Err(e) => Err(e),
                Ok(found) => emitted(doc, fields, found, start, 0, seq![LBRACE]),
            },
            (Selection::Fields(fields), ProjectView::Emit(i, matched, out, pick)) => emitting(
                doc,
                fields,
                matched,
                start,
                i,
                out,
                pick,
            ),
            _ => Err(TraverseError::Malformed(0)),
        }
    }

    /// Lowest offset that the projection might still read.
    pub open spec fn keeps_from(self, start: u64) -> u64 {
        match self {
            ProjectView::One(pick) => pick.keeps_from(),
            ProjectView::Enter => start,
            ProjectView::Walk(cursor, _) => cursor.next_offset,
            ProjectView::Emit(_, _, _, Some(pick)) => pick.keeps_from(),
            ProjectView::Emit(_, _, _, None) => start,
        }
    }

    /// An absent chunk belongs to what is at hand: the opening byte of the child at `start`,
    /// the child of it that is gone through, or the part of the sub-value that is looked
    /// for or read.
    pub open spec fn awaits(self, doc: Seq<u8>, select: Selection, start: u64, miss: u64) -> bool {
        match (self, select) {
            (ProjectView::Enter, _) => miss <= ws_end(doc, start as int),
            (ProjectView::One(pick), Selection::One(path)) => pick.awaits(doc, path, miss),
            (ProjectView::Walk(cursor, _), _) => within_child(
                doc,
                cursor.kind,
                cursor.next_offset,
                miss,
            ),
            (ProjectView::Emit(i, _, _, Some(pick)), Selection::Fields(list)) => pick.awaits(
                doc,
                sub_path(list[i].1),
                miss,
            ),
            _ => false,
        }
    }

    /// The doubling run that the projection is in, while it looks for a sub-value or
    /// goes through one.
    pub open spec fn run(self) -> Option<(int, int)> {
        match self {
            ProjectView::One(pick) => Some((-1, pick.phase())),
            ProjectView::Emit(i, _, _, Some(pick)) => Some((i, pick.phase())),
            _ => None,
        }
    }

    /// How many chunks to read when the one at `offset` is missing: what the sub-value
    /// at hand asks for, and one while the children are gone through, since one child
    /// typically fits one chunk.
    pub open spec fn burst_for(self, upcoming: u64, offset: u64, cs: int) -> u64 {
        match self {
            ProjectView::One(pick) => pick.burst_for(upcoming, offset, cs),
            ProjectView::Emit(_, _, _, Some(pick)) => pick.burst_for(upcoming, offset, cs),
            _ => 1,
        }
    }

    /// The doubling burst after that.
    pub open spec fn upcoming_after(self, upcoming: u64) -> u64 {
        match self {
            ProjectView::One(pick) => pick.upcoming_after(upcoming),
            ProjectView::Emit(_, _, _, Some(pick)) => pick.upcoming_after(upcoming),
            _ => upcoming,
        }
    }
}

/// A projection that has just begun gives what the selection extracts.
pub proof fn law_begun_projection(doc: Seq<u8>, select: Selection, start: u64)
    ensures
        ProjectView::begun(select, start).answer(doc, select, start) == projected(
            doc,
            select,
            start,
        ),
{
}

#[derive(Debug)]
enum ProjectPhase {
    One(PickState),
    Enter,
    Walk(ContainerCursor, Vec<Option<ValueLocation>>),
    Emit(usize, Vec<Option<ValueLocation>>, Vec<u8>, Option<PickState>),
}

/// The projection of one child, resumable across missing chunks.
#[derive(Debug)]
pub struct ProjectState {
    start: u64,
    phase: ProjectPhase,
}

impl View for ProjectState {
    type V = ProjectView;

    closed spec fn view(&self) -> ProjectView {
        match &self.phase {
            ProjectPhase::One(pick) => ProjectView::One(pick@),
            ProjectPhase::Enter => ProjectView::Enter,
            ProjectPhase::Walk(cursor, matched) => ProjectView::Walk(*cursor, matched@),
            ProjectPhase::Emit(i, matched, out, pick) => ProjectView::Emit(
                *i as int,
                matched@,
                out@,
                match pick {
                    Some(p) => Some(p@),
                    None => None,
                },
            ),
        }
    }
}

impl ProjectState {
    /// The offset of the child.
    pub closed spec fn child(&self) -> u64 {
        self.start
    }

    /// Begin the projection of the child at `start`.
    pub fn begin(select: &CompiledSelect, start: u64) -> (p: Self)
        ensures
            p@ == ProjectView::begun(select@, start),
            p@.wf(select@),
            p.child() == start,
            p.upcoming() == 1,
    {
        match select {
            CompiledSelect::One(_) => ProjectState {
                start,
                phase: ProjectPhase::One(PickState::begin(start)),
            },
            CompiledSelect::Fields(_) => ProjectState { start, phase: ProjectPhase::Enter },
        }
    }

    pub fn min_reachable(&self) -> (at: u64)
        ensures
            at == self@.keeps_from(self.child()),
    {
        match &self.phase {
            ProjectPhase::One(pick) => pick.min_reachable(),
            ProjectPhase::Enter => self.start,
            ProjectPhase::Walk(cursor, _) => cursor.next_offset,
            ProjectPhase::Emit(_, _, _, Some(pick)) => pick.min_reachable(),
            ProjectPhase::Emit(_, _, _, None) => self.start,
        }
    }

    /// The size of the next burst while a sub-value is looked for.
    pub closed spec fn upcoming(&self) -> u64 {
        match self.phase {
            ProjectPhase::One(pick) => pick.upcoming(),
            ProjectPhase::Emit(_, _, _, Some(pick)) => pick.upcoming(),
            _ => 1,
        }
    }

    /// Outside any run the next burst is a single chunk.
    pub proof fn lemma_no_run(self)
        ensures
            self@.run() is None ==> self.upcoming() == 1,
    {
    }

    /// How many chunks to read when the one at `offset` is missing.
    pub fn burst(&mut self, offset: u64, chunk_bytes: u64) -> (n: u64)
        requires
            chunk_bytes > 0,
        ensures
            final(self)@ == old(self)@,
            final(self).child() == old(self).child(),
            n == old(self)@.burst_for(old(self).upcoming(), offset, chunk_bytes as int),
            n >= 1,
            final(self).upcoming() == old(self)@.upcoming_after(old(self).upcoming()),
    {
        match &mut self.phase {
            ProjectPhase::One(pick) => pick.burst(offset, chunk_bytes),
            ProjectPhase::Emit(_, _, _, Some(pick)) => pick.burst(offset, chunk_bytes),
            _ => 1,
        }
    }
}

/// Whether some field still looks for a child.
fn fields_look(fields: &Vec<(String, Vec<Segment>)>, matched: &Vec<Option<ValueLocation>>) -> (r:
    bool)
    requires
        matched@.len() == fields@.len(),
    ensures
        r == any_looks(field_list(fields@), matched@),
{
    let ghost list = field_list(fields@);
    let mut i: usize = 0;
    while i < fields.len()
        invariant
            i <= fields@.len(),
            matched@.len() == fields@.len(),
            list == field_list(fields@),
            forall|k: int| 0 <= k < i ==> !#[trigger] looks(list, matched@, k),
        decreases fields@.len() - i,
    {
        assert(list[i as int].1.len() == fields@[i as int].1@.len());
        if matched[i].is_none() && fields[i].1.len() > 0 {
            assert(looks(list, matched@, i as int));
            return true;
        }
        i = i + 1;
    }
    false
}

/// Some field that still looks for a child is addressed by a member name.
pub open spec fn any_wants_member(fields: Fields, matched: Matches) -> bool {
    exists|i: int|
        0 <= i < fields.len() && #[trigger] looks(fields, matched, i) && fields[i].1[0] is Member
}

/// Whether any still-unmatched field is addressed by a member name (so the entry's
/// raw key span is worth fetching).
fn wants_member(fields: &Vec<(String, Vec<Segment>)>, matched: &Vec<Option<ValueLocation>>) -> (r:
    bool)
    requires
        matched@.len() == fields@.len(),
    ensures
        r == any_wants_member(field_list(fields@), matched@),
{
    let ghost list = field_list(fields@);
    let mut i: usize = 0;
    while i < fields.len()
        invariant
            i <= fields@.len(),
            matched@.len() == fields@.len(),
            list == field_list(fields@),
            forall|k: int|
                0 <= k < i && #[trigger] looks(list, matched@, k) ==> !(list[k].1[0] is Member),
        decreases fields@.len() - i,
    {
        assert(list[i as int].1 == steps(fields@[i as int].1@));
        if matched[i].is_none() && fields[i].1.len() > 0 {
            if let Segment::Member(_) = fields[i].1[0] {
                assert(looks(list, matched@, i as int));
                return true;
            }
        }
        i = i + 1;
    }
    false
}

/// Match the fields that look for a child against one whose interior is at hand.
fn match_member(
    interior: &Vec<u8>,
    start: u64,
    location: ValueLocation,
    fields: &Vec<(String, Vec<Segment>)>,
    matched: &Vec<Option<ValueLocation>>,
) -> (r: Result<Vec<Option<ValueLocation>>, TraverseError>)
    requires
        matched@.len() == fields@.len(),
    ensures
        r matches Ok(m) ==> m@.len() == fields@.len(),
        r matches Err(e) ==> e == TraverseError::Malformed(start),
        forall|doc: Seq<u8>, close: u64|
            #![trigger doc_range(doc, start + 1, close as int)]
            doc_range(doc, start + 1, close as int) == interior@ ==> {
                let list = field_list(fields@);
                let key = ChildKey::Member { start, close };
                match r {
                    Err(_) => !legible(doc, key, list, matched@),
                    Ok(m) => {
                        &&& legible(doc, key, list, matched@)
                        &&& m@ == with_child(doc, ChildEntry { key, location }, list, matched@)
                    },
                }
            },
{
    let ghost list = field_list(fields@);
    let mut out: Vec<Option<ValueLocation>> = Vec::new();
    let mut i: usize = 0;
    while i < fields.len()
        invariant
            i <= fields@.len(),
            matched@.len() == fields@.len(),
            list == field_list(fields@),
            out@.len() == i,
            forall|k: int, doc: Seq<u8>, close: u64|
                #![trigger looks(list, matched@, k), doc_range(doc, start + 1, close as int)]
                0 <= k < i && doc_range(doc, start + 1, close as int) == interior@ ==> {
                    let key = ChildKey::Member { start, close };
                    let told = answers_to(doc, key, list[k].1[0]);
                    &&& looks(list, matched@, k) ==> told is Some
                    &&& out@[k] == (if looks(list, matched@, k) && told == Some(true) {
                        Some(location)
                    } else {
                        matched@[k]
                    })
                },
        decreases fields@.len() - i,
    {
        assert(list[i as int].1 == steps(fields@[i as int].1@));
        let mut hit: bool = false;
        if matched[i].is_none() && fields[i].1.len() > 0 {
            if let Segment::Member(name) = &fields[i].1[0] {
                assert(list[i as int].1[0] == Step::Member(name@));
                match compare(interior.as_slice(), name.as_str()) {
                    Ok(same) => {
                        hit = same;
                    },
                    Err(()) => {
                        assert(looks(list, matched@, i as int));
                        return Err(TraverseError::Malformed(start));
                    },
                }
            }
        }
        if hit {
            out.push(Some(location));
        } else {
            out.push(matched[i]);
        }
        i = i + 1;
    }
    proof {
        assert forall|doc: Seq<u8>, close: u64|
            #![trigger doc_range(doc, start + 1, close as int)]
            doc_range(doc, start + 1, close as int) == interior@ implies {
            let key = ChildKey::Member { start, close };
            &&& legible(doc, key, list, matched@)
            &&& out@ == with_child(doc, ChildEntry { key, location }, list, matched@)
        } by {
            let key = ChildKey::Member { start, close };
            let want = with_child(doc, ChildEntry { key, location }, list, matched@);
            assert forall|k: int| 0 <= k < out@.len() implies out@[k] == want[k] by {
                assert(looks(list, matched@, k) || !looks(list, matched@, k));
            }
            assert(out@ =~= want);
        }
    }
    Ok(out)
}

/// Match the fields that look for a child against an array element.
fn match_element(
    index: usize,
    location: ValueLocation,
    fields: &Vec<(String, Vec<Segment>)>,
    matched: &Vec<Option<ValueLocation>>,
) -> (out: Vec<Option<ValueLocation>>)
    requires
        matched@.len() == fields@.len(),
    ensures
        out@.len() == fields@.len(),
        forall|doc: Seq<u8>|
            {
                &&& legible(doc, ChildKey::Index(index), field_list(fields@), matched@)
                &&& out@ == #[trigger] with_child(
                    doc,
                    (ChildEntry { key: ChildKey::Index(index), location }),
                    field_list(fields@),
                    matched@,
                )
            },
{
    let ghost list = field_list(fields@);
    let ghost key = ChildKey::Index(index);
    let mut out: Vec<Option<ValueLocation>> = Vec::new();
    let mut i: usize = 0;
    while i < fields.len()
        invariant
            i <= fields@.len(),
            matched@.len() == fields@.len(),
            list == field_list(fields@),
            key == ChildKey::Index(index),
            out@.len() == i,
            forall|k: int|
                0 <= k < i ==> #[trigger] out@[k] == (if looks(list, matched@, k) && list[k].1[0]
                    == Step::Element(index) {
                    Some(location)
                } else {
                    matched@[k]
                }),
        decreases fields@.len() - i,
    {
        assert(list[i as int].1 == steps(fields@[i as int].1@));
        let mut hit: bool = false;
        if matched[i].is_none() && fields[i].1.len() > 0 {
            if let Segment::Element(wanted) = &fields[i].1[0] {
                assert(list[i as int].1[0] == Step::Element(*wanted));
                hit = *wanted == index;
            }
        }
        if hit {
            out.push(Some(location));
        } else {
            out.push(matched[i]);
        }
        i = i + 1;
    }
    proof {
        assert forall|doc: Seq<u8>|
            out@ == #[trigger] with_child(
                doc,
                ChildEntry { key, location },
                list,
                matched@,
            ) by {
            let want = with_child(doc, ChildEntry { key, location }, list, matched@);
            assert(out@ =~= want);
        }
    }
    out
}

/// Match the fields that look for a child against an entry.
fn match_child(
    walker: &mut Walker,
    entry: ChildEntry,
    fields: &Vec<(String, Vec<Segment>)>,
    matched: &Vec<Option<ValueLocation>>,
) -> (r: Result<Vec<Option<ValueLocation>>, TraverseError>)
    requires
        old(walker).wf(),
        matched@.len() == fields@.len(),
        entry.key matches ChildKey::Member { start, close } ==> start < close,
    ensures
        final(walker).wf(),
        final(walker).window() == old(walker).window(),
        r matches Ok(m) ==> m@.len() == fields@.len(),
        r matches Err(TraverseError::Pending(miss)) ==> entry.key is Member && old(
            walker,
        ).window().lacks(key_start(entry.key) as int, miss.0) && miss.0 <= entry.key->close,
        forall|doc: Seq<u8>| #[trigger]
            old(walker).window().agrees(doc) ==> {
                let list = field_list(fields@);
                match r {
                    Err(TraverseError::Pending(_)) => true,
                    Err(e) => {
                        &&& e == TraverseError::Malformed(key_start(entry.key))
                        &&& !legible(doc, entry.key, list, matched@)
                    },
                    Ok(m) => {
                        &&& legible(doc, entry.key, list, matched@)
                        &&& m@ == with_child(doc, entry, list, matched@)
                    },
                }
            },
{
    let ghost w = walker.window();
    let ghost list = field_list(fields@);
    match entry.key {
        ChildKey::Index(index) => {
            let out = match_element(index, entry.location, fields, matched);
            assert forall|doc: Seq<u8>| #[trigger] w.agrees(doc) implies {
                &&& legible(doc, entry.key, list, matched@)
                &&& out@ == with_child(doc, entry, list, matched@)
            } by {
                let all = with_child(doc, entry, list, matched@);
            }
            Ok(out)
        },
        ChildKey::Member { start, close } => {
            if !wants_member(fields, matched) {
                // no unmatched member field wants it: skip the read
                let out = keep_matches(matched);
                assert forall|doc: Seq<u8>| #[trigger] w.agrees(doc) implies {
                    &&& legible(doc, entry.key, list, matched@)
                    &&& out@ == with_child(doc, entry, list, matched@)
                } by {
                    assert(out@ =~= with_child(doc, entry, list, matched@));
                }
                return Ok(out);
            }
            let interior: Vec<u8> = match walker.read_range(start + 1, close) {
                Err(miss) => return Err(TraverseError::Pending(miss)),
                Ok(interior) => interior,
            };
            match match_member(&interior, start, entry.location, fields, matched) {
                Err(e) => {
                    assert forall|doc: Seq<u8>| #[trigger] w.agrees(doc) implies {
                        &&& e == TraverseError::Malformed(start)
                        &&& !legible(doc, entry.key, list, matched@)
                    } by {
                        assert(doc_range(doc, start + 1, close as int) == interior@);
                    }
                    Err(e)
                },
                Ok(out) => {
                    assert forall|doc: Seq<u8>| #[trigger] w.agrees(doc) implies {
                        &&& legible(doc, entry.key, list, matched@)
                        &&& out@ == with_child(doc, entry, list, matched@)
                    } by {
                        assert(doc_range(doc, start + 1, close as int) == interior@);
                    }
                    Ok(out)
                },
            }
        },
    }
}

fn keep_matches(matched: &Vec<Option<ValueLocation>>) -> (out: Vec<Option<ValueLocation>>)
    ensures
        out@ == matched@,
{
    let mut out: Vec<Option<ValueLocation>> = Vec::new();
    let mut i: usize = 0;
    while i < matched.len()
        invariant
            i <= matched@.len(),
            out@ == matched@.take(i as int),
        decreases matched@.len() - i,
    {
        out.push(matched[i]);
        i = i + 1;
        assert(out@ =~= matched@.take(i as int));
    }
    assert(matched@.take(i as int) =~= matched@);
    out
}

/// One child further in a walk.
proof fn lemma_walk_step(
    doc: Seq<u8>,
    fields: Fields,
    cursor: ContainerCursor,
    matched: Matches,
    entry: ChildEntry,
    next: ContainerCursor,
)
    requires
        doc.len() <= u64::MAX,
        any_looks(fields, matched),
        child_step(doc, cursor) == Ok::<(Option<ChildEntry>, ContainerCursor), TraverseError>(
            (Some(entry), next),
        ),
        legible(doc, entry.key, fields, matched),
    ensures
        cursor.next_offset < next.next_offset,
        walked(doc, fields, cursor, matched) == walked(
            doc,
            fields,
            next,
            with_child(doc, entry, fields, matched),
        ),
{
    law_cursor_advances(doc, cursor);
}

/// Walk the children from `cursor` on while some field looks for one.
fn walk_fields(
    walker: &mut Walker,
    fields: &Vec<(String, Vec<Segment>)>,
    cursor: &mut ContainerCursor,
    matched: &mut Vec<Option<ValueLocation>>,
) -> (r: Result<(), TraverseError>)
    requires
        old(walker).wf(),
        old(matched)@.len() == fields@.len(),
    ensures
        final(walker).wf(),
        final(walker).window() == old(walker).window(),
        final(matched)@.len() == fields@.len(),
        r matches Err(TraverseError::Pending(miss)) ==> old(walker).window().lacks(
            final(cursor).next_offset as int,
            miss.0,
        ),
        forall|doc: Seq<u8>| #[trigger]
            old(walker).window().agrees(doc) ==> {
                let list = field_list(fields@);
                let want = walked(doc, list, *old(cursor), old(matched)@);
                match r {
                    Err(TraverseError::Pending(miss)) => {
                        &&& walked(doc, list, *final(cursor), final(matched)@) == want
                        &&& within_child(
                            doc,
                            final(cursor).kind,
                            final(cursor).next_offset,
                            miss.0,
                        )
                    },
                    Err(e) => want == Err::<Matches, TraverseError>(e),
                    Ok(()) => want == Ok::<Matches, TraverseError>(final(matched)@),
                }
            },
{
    let ghost w = walker.window();
    let ghost list = field_list(fields@);
    while fields_look(fields, matched)
        invariant
            walker.wf(),
            walker.window() == w,
            w == old(walker).window(),
            list == field_list(fields@),
            matched@.len() == fields@.len(),
            forall|doc: Seq<u8>| #[trigger]
                w.agrees(doc) ==> walked(doc, list, *cursor, matched@) == walked(
                    doc,
                    list,
                    *old(cursor),
                    old(matched)@,
                ),
        decreases u64::MAX - cursor.next_offset,
    {
        let ghost at = *cursor;
        let ghost held = matched@;
        let mut next: ContainerCursor = *cursor;
        let entry: ChildEntry = match next_child(walker, &mut next) {
            Err(e) => return Err(e),
            // unmatched fields stay null
            Ok(None) => return Ok(()),
            Ok(Some(entry)) => entry,
        };
        let found: Vec<Option<ValueLocation>> = match match_child(walker, entry, fields, matched) {
            Err(e) => {
                proof {
                    if let TraverseError::Pending(miss) = e {
                        assert forall|doc: Seq<u8>| #[trigger] w.agrees(doc) implies within_child(
                            doc,
                            at.kind,
                            at.next_offset,
                            miss.0,
                        ) by {
                            lemma_key_is_within(doc, at, entry, next, miss.0);
                        }
                    }
                }
                return Err(e);
            },
            Ok(found) => found,
        };
        proof {
            assert forall|doc: Seq<u8>| #[trigger] w.agrees(doc) implies {
                &&& at.next_offset < next.next_offset
                &&& walked(doc, list, next, found@) == walked(doc, list, at, held)
            } by {
                lemma_walk_step(doc, list, at, held, entry, next);
            }
        }
        if next.next_offset <= cursor.next_offset {
            // Only where no document agrees with the window.
            return Ok(());
        }
        *matched = found;
        *cursor = next;
    }
    Ok(())
}

/// What an optional projection of one sub-value stands for.
pub open spec fn pick_view(pick: Option<PickState>) -> Option<PickView> {
    match pick {
        Some(p) => Some(p@),
        None => None,
    }
}

/// The doubling run that the projection of field `i` is in: a new one begins with
/// every lookup and with every walk through a value.
pub open spec fn pick_run(i: int, pick: Option<PickView>) -> Option<(int, int)> {
    match pick {
        Some(p) => Some((i, p.phase())),
        None => None,
    }
}

/// The size of the next burst of an optional projection.
pub open spec fn pick_upcoming(pick: Option<PickState>) -> u64 {
    match pick {
        Some(p) => p.upcoming(),
        None => 1,
    }
}

/// Append what stands before the value of a field.
fn push_head(out: &mut Vec<u8>, fields: &Vec<(String, Vec<Segment>)>, i: usize)
    requires
        i < fields@.len(),
    ensures
        final(out)@ == old(out)@ + field_head(field_list(fields@), i as int),
{
    let ghost list = field_list(fields@);
    assert(list[i as int].0 == fields@[i as int].0@);
    if i > 0 {
        out.push(COMMA);
    }
    let key: Vec<u8> = string_text(fields[i].0.as_str());
    push_all(out, &key);
    out.push(COLON);
    assert(out@ =~= old(out)@ + field_head(list, i as int));
}

/// How the value of a field is projected: `None` for `null`.
fn begin_pick(path: &Vec<Segment>, matched: Option<ValueLocation>, child: u64) -> (p: Option<
    PickState,
>)
    ensures
        pick_view(p) == field_pick(steps(path@), matched, child),
        p matches Some(pick) ==> pick@.wf(),
        pick_upcoming(p) == 1,
{
    if path.len() == 0 {
        return Some(PickState::begin(child));
    }
    match matched {
        None => None,
        Some(location) => {
            if path.len() == 1 {
                Some(PickState::Read(location))
            } else {
                Some(PickState::begin(location.start))
            }
        },
    }
}

/// Write the fields from `i` on.
fn emit_fields(
    walker: &mut Walker,
    fields: &Vec<(String, Vec<Segment>)>,
    matched: &Vec<Option<ValueLocation>>,
    child: u64,
    i: &mut usize,
    out: &mut Vec<u8>,
    pick: &mut Option<PickState>,
) -> (r: Result<(), TraverseError>)
    requires
        old(walker).wf(),
        matched@.len() == fields@.len(),
        *old(i) <= fields@.len(),
        *old(pick) matches Some(p) ==> p@.wf() && *old(i) < fields@.len(),
    ensures
        final(walker).wf(),
        final(walker).window() == old(walker).window(),
        *final(i) <= fields@.len(),
        *final(pick) matches Some(p) ==> p@.wf() && *final(i) < fields@.len(),
        pick_upcoming(*final(pick)) == (if pick_run(*final(i) as int, pick_view(*final(pick)))
            == pick_run(*old(i) as int, pick_view(*old(pick))) {
            pick_upcoming(*old(pick))
        } else {
            1
        }),
        r matches Err(TraverseError::Pending(miss)) ==> *final(pick) matches Some(p) && old(
            walker,
        ).window().lacks(p@.keeps_from() as int, miss.0),
        forall|doc: Seq<u8>| #[trigger]
            old(walker).window().agrees(doc) ==> {
                let list = field_list(fields@);
                let want = emitting(
                    doc,
                    list,
                    matched@,
                    child,
                    *old(i) as int,
                    old(out)@,
                    pick_view(*old(pick)),
                );
                match r {
                    Err(TraverseError::Pending(miss)) => {
                        &&& emitting(
                            doc,
                            list,
                            matched@,
                            child,
                            *final(i) as int,
                            final(out)@,
                            pick_view(*final(pick)),
                        ) == want
                        &&& *final(pick) matches Some(p) ==> p@.awaits(
                            doc,
                            sub_path(list[*final(i) as int].1),
                            miss.0,
                        )
                    },
                    Err(e) => want == Err::<Seq<u8>, TraverseError>(e),
                    Ok(()) => want == Ok::<Seq<u8>, TraverseError>(final(out)@),
                }
            },
{
    let ghost w = walker.window();
    let ghost list = field_list(fields@);
    while *i < fields.len()
        invariant
            walker.wf(),
            walker.window() == w,
            w == old(walker).window(),
            list == field_list(fields@),
            matched@.len() == fields@.len(),
            *i <= fields@.len(),
            *pick matches Some(p) ==> p@.wf() && *i < fields@.len(),
            *old(i) <= *i,
            *i == *old(i) ==> *pick == *old(pick) || *old(pick) is None,
            *pick == *old(pick) && *i == *old(i) || pick_upcoming(*pick) == 1,
            forall|doc: Seq<u8>| #[trigger]
                w.agrees(doc) ==> emitting(
                    doc,
                    list,
                    matched@,
                    child,
                    *i as int,
                    out@,
                    pick_view(*pick),
                ) == emitting(
                    doc,
                    list,
                    matched@,
                    child,
                    *old(i) as int,
                    old(out)@,
                    pick_view(*old(pick)),
                ),
        decreases
                fields@.len() - *i,
                (if *pick is None {
                    1int
                } else {
                    0
                }),
    {
        let n: usize = *i;
        assert(list[n as int].1 == steps(fields@[n as int].1@));
        match pick {
            None => {
                push_head(out, fields, n);
                let next: Option<PickState> = begin_pick(&fields[n].1, matched[n], child);
                match next {
                    None => {
                        push_null(out);
                        *i = n + 1;
                    },
                    Some(p) => {
                        *pick = Some(p);
                    },
                }
            },
            Some(p) => {
                let path: &Vec<Segment> = &fields[n].1;
                let from: usize = if path.len() == 0 {
                    0
                } else {
                    1
                };
                let tail: &[Segment] = &path.as_slice()[from..path.len()];
                assert(steps(tail@) =~= sub_path(list[n as int].1));
                match pick_step(walker, tail, p) {
                    Err(e) => return Err(e),
                    Ok(bytes) => {
                        push_all(out, &bytes);
                        *pick = None;
                        *i = n + 1;
                    },
                }
            },
        }
    }
    out.push(RBRACE);
    Ok(())
}

impl ProjectState {
    /// Enter the child, if any field looks for one of its own.
    fn enter(&mut self, walker: &mut Walker, fields: &Vec<(String, Vec<Segment>)>) -> (r: Result<
        (),
        TraverseError,
    >)
        requires
            old(walker).wf(),
            old(self)@ is Enter,
        ensures
            final(walker).wf(),
            final(walker).window() == old(walker).window(),
            final(self).child() == old(self).child(),
            r is Err ==> final(self)@ == old(self)@,
            r is Ok ==> !(final(self)@ is Enter),
            final(self)@.run() is None,
            final(self)@.wf(Selection::Fields(field_list(fields@))),
            r matches Err(TraverseError::Pending(miss)) ==> old(walker).window().lacks(
                old(self).child() as int,
                miss.0,
            ),
            forall|doc: Seq<u8>| #[trigger]
                old(walker).window().agrees(doc) ==> {
                    let select = Selection::Fields(field_list(fields@));
                    let want = old(self)@.answer(doc, select, old(self).child());
                    match r {
                        Err(TraverseError::Pending(miss)) => final(self)@.awaits(
                            doc,
                            select,
                            old(self).child(),
                            miss.0,
                        ),
                        Err(e) => want == Err::<Seq<u8>, TraverseError>(e),
                        Ok(()) => final(self)@.answer(doc, select, old(self).child()) == want,
                    }
                },
    {
        let ghost list = field_list(fields@);
        let mut none: Vec<Option<ValueLocation>> = Vec::new();
        let mut i: usize = 0;
        while i < fields.len()
            invariant
                i <= fields@.len(),
                none@.len() == i,
                forall|k: int| 0 <= k < i ==> #[trigger] none@[k] is None,
            decreases fields@.len() - i,
        {
            none.push(None);
            i = i + 1;
        }
        assert(none@ =~= unmatched(list.len()));
        let mut out: Vec<u8> = Vec::new();
        if fields_look(fields, &none) {
            match enter_container(walker, self.start) {
                Err(e) => return Err(e),
                Ok(Some(cursor)) => {
                    self.phase = ProjectPhase::Walk(cursor, none);
                    return Ok(());
                },
                // unmatched fields stay null
                Ok(None) => {},
            }
        }
        out.push(LBRACE);
        assert(out@ =~= seq![LBRACE]);
        self.phase = ProjectPhase::Emit(0, none, out, None);
        Ok(())
    }

    /// Walk the children of the child while some field looks for one.
    fn walk(&mut self, walker: &mut Walker, fields: &Vec<(String, Vec<Segment>)>) -> (r: Result<
        (),
        TraverseError,
    >)
        requires
            old(walker).wf(),
            old(self)@ is Walk,
            old(self)@.wf(Selection::Fields(field_list(fields@))),
        ensures
            final(walker).wf(),
            final(walker).window() == old(walker).window(),
            final(self).child() == old(self).child(),
            final(self)@ is Walk || final(self)@ is Emit,
            r is Ok ==> final(self)@ is Emit,
            final(self)@.run() is None,
            final(self)@.wf(Selection::Fields(field_list(fields@))),
            r matches Err(TraverseError::Pending(miss)) ==> old(walker).window().lacks(
                final(self)@.keeps_from(old(self).child()) as int,
                miss.0,
            ),
            forall|doc: Seq<u8>| #[trigger]
                old(walker).window().agrees(doc) ==> {
                    let select = Selection::Fields(field_list(fields@));
                    let want = old(self)@.answer(doc, select, old(self).child());
                    match r {
                        Err(TraverseError::Pending(miss)) => {
                            &&& final(self)@.answer(doc, select, old(self).child()) == want
                            &&& final(self)@.awaits(doc, select, old(self).child(), miss.0)
                        },
                        Err(e) => want == Err::<Seq<u8>, TraverseError>(e),
                        Ok(()) => final(self)@.answer(doc, select, old(self).child()) == want,
                    }
                },
    {
        if let ProjectPhase::Walk(cursor, matched) = &mut self.phase {
            match walk_fields(walker, fields, cursor, matched) {
                Err(e) => return Err(e),
                Ok(()) => {},
            }
            let found: Vec<Option<ValueLocation>> = keep_matches(matched);
            let mut out: Vec<u8> = Vec::new();
            out.push(LBRACE);
            assert(out@ =~= seq![LBRACE]);
            self.phase = ProjectPhase::Emit(0, found, out, None);
        }
        Ok(())
    }
}

/// Go on with the projection of named sub-values.
fn project_fields(
    walker: &mut Walker,
    fields: &Vec<(String, Vec<Segment>)>,
    state: &mut ProjectState,
) -> (r: Result<Vec<u8>, TraverseError>)
    requires
        old(walker).wf(),
        old(state)@.wf(Selection::Fields(field_list(fields@))),
    ensures
        final(walker).wf(),
        final(walker).window() == old(walker).window(),
        final(state).child() == old(state).child(),
        final(state)@.wf(Selection::Fields(field_list(fields@))),
        final(state).upcoming() == (if final(state)@.run() == old(state)@.run() {
            old(state).upcoming()
        } else {
            1
        }),
        r matches Err(TraverseError::Pending(miss)) ==> old(walker).window().lacks(
            final(state)@.keeps_from(old(state).child()) as int,
            miss.0,
        ),
        forall|doc: Seq<u8>| #[trigger]
            old(walker).window().agrees(doc) ==> {
                let select = Selection::Fields(field_list(fields@));
                let want = old(state)@.answer(doc, select, old(state).child());
                match r {
                    Err(TraverseError::Pending(miss)) => {
                        &&& final(state)@.answer(doc, select, old(state).child()) == want
                        &&& final(state)@.awaits(doc, select, old(state).child(), miss.0)
                    },
                    Err(e) => want == Err::<Seq<u8>, TraverseError>(e),
                    Ok(bytes) => want == Ok::<Seq<u8>, TraverseError>(bytes@),
                }
            },
{
    if let ProjectPhase::Enter = &state.phase {
        match state.enter(walker, fields) {
            Err(e) => return Err(e),
            Ok(()) => {},
        }
    }
    if let ProjectPhase::Walk(_, _) = &state.phase {
        match state.walk(walker, fields) {
            Err(e) => return Err(e),
            Ok(()) => {},
        }
    }
    let child: u64 = state.start;
    match &mut state.phase {
        ProjectPhase::Emit(i, matched, out, pick) => {
            match emit_fields(walker, fields, matched, child, i, out, pick) {
                Err(e) => Err(e),
                Ok(()) => {
                    let mut text: Vec<u8> = Vec::new();
                    std::mem::swap(out, &mut text);
                    Ok(text)
                },
            }
        },
        _ => Err(TraverseError::Malformed(0)),
    }
}

/// Project a child into its yielded value per `select`: a single sub-path yields the
/// bare sub-value; named sub-paths yield an object of named sub-values in declared
/// order. A step that misses a chunk leaves the projection where it stands.
pub fn project(walker: &mut Walker, select: &CompiledSelect, state: &mut ProjectState) -> (r: Result<
    Vec<u8>,
    TraverseError,
>)
    requires
        old(walker).wf(),
        old(state)@.wf(select@),
    ensures
        final(walker).wf(),
        final(walker).window() == old(walker).window(),
        final(state).child() == old(state).child(),
        final(state)@.wf(select@),
        final(state).upcoming() == (if final(state)@.run() == old(state)@.run() {
            old(state).upcoming()
        } else {
            1
        }),
        r matches Err(TraverseError::Pending(miss)) ==> old(walker).window().lacks(
            final(state)@.keeps_from(old(state).child()) as int,
            miss.0,
        ),
        forall|doc: Seq<u8>| #[trigger]
            old(walker).window().agrees(doc) ==> {
                let want = old(state)@.answer(doc, select@, old(state).child());
                match r {
                    Err(TraverseError::Pending(miss)) => {
                        &&& final(state)@.answer(doc, select@, old(state).child()) == want
                        &&& final(state)@.awaits(doc, select@, old(state).child(), miss.0)
                    },
                    Err(e) => want == Err::<Seq<u8>, TraverseError>(e),
                    Ok(bytes) => want == Ok::<Seq<u8>, TraverseError>(bytes@),
                }
            },
{
    match select {
        CompiledSelect::One(path) => match &mut state.phase {
            ProjectPhase::One(pick) => pick_step(walker, path.as_slice(), pick),
            _ => Err(TraverseError::Malformed(0)),
        },
        CompiledSelect::Fields(fields) => project_fields(walker, fields, state),
    }
}

} // verus!
