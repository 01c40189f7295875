//! What queries answer: from an index that is true of the document a query comes to
//! what the document alone says, and leaves the index true. So any number of
//! queries, in any order and over any chunks, answer as the first would have on a
//! fresh session.

use vstd::prelude::*;

use crate::cache::{
    lemma_hopped_keeps_config, lemma_record_keeps_config, lookup, tabled, BodyView, IndexView,
    KeyView, NodeView,
};
use crate::chunks::WindowView;
use crate::count::{child_count, lemma_child_count};
use crate::path::Step;
use crate::query::{
    extent_at, presence_of, value_bytes, CountingView, ExtentState, GettingView, LocatingView,
    ResolvingView,
};
use crate::resolve::{
    child_at, container_at, law_a_resolution_reads_what_leads_to_its_value, locate, resolution,
    resolve_series, ContainerKind, PathFault, ResolveView, Resolved, ValueLocation,
};
use crate::scan::ByteClass;
use crate::session::{SessionError, SessionView};
use crate::soundness::{
    index_sound, keys_are_text, law_empty_index_is_sound, law_index_changes_no_answer,
    law_index_stays_sound, law_recording_changes_no_lookup, law_seeds_lie_ahead,
    law_stored_close_is_sound, law_stored_count_is_sound, lemma_hopped_is_sound,
    lemma_locate_prefix, lemma_lookup, same_answer, seeded_query,
};
use crate::walker::TraverseError;

verus! {

/// The index of a session is well-formed and true of `doc`.
pub open spec fn session_sound(doc: Seq<u8>, s: SessionView) -> bool {
    &&& s.index.wf()
    &&& index_sound(doc, s.index, s.index.cap > 0)
}

/// Where a path leads in `doc`, for a session that decodes names or not.
pub open spec fn leads_to(doc: Seq<u8>, s: SessionView, key: KeyView) -> Result<
    Resolved,
    TraverseError,
> {
    locate(doc, key.1, 0, key.0, s.index.cap > 0)
}

/// The value of a path in `doc`.
pub open spec fn value_at(doc: Seq<u8>, s: SessionView, key: KeyView) -> Result<
    Option<ValueLocation>,
    SessionError,
> {
    match leads_to(doc, s, key) {
        Err(e) => Err(SessionError::Traverse(e)),
        Ok(Resolved::Absent) => Ok(None),
        Ok(Resolved::NotNavigable(fault)) => Err(SessionError::Path(fault)),
        Ok(Resolved::Found(start)) => match extent_at(doc, start as int) {
            Err(e) => Err(SessionError::Traverse(e)),
            Ok(extent) => Ok(Some(extent.location)),
        },
    }
}

/// The bytes of the value of a path in `doc`.
pub open spec fn bytes_at(doc: Seq<u8>, s: SessionView, key: KeyView) -> Result<
    Option<Seq<u8>>,
    SessionError,
> {
    match value_at(doc, s, key) {
        Err(e) => Err(e),
        Ok(None) => Ok(None),
        Ok(Some(location)) => Ok(Some(value_bytes(doc, location))),
    }
}

/// How many children the container of a path has in `doc`: none where there is no
/// container.
pub open spec fn children_at(doc: Seq<u8>, s: SessionView, key: KeyView) -> Result<
    nat,
    SessionError,
> {
    match leads_to(doc, s, key) {
        Err(e) => Err(SessionError::Traverse(e)),
        Ok(Resolved::Found(start)) => match container_at(doc, start as int) {
            Err(e) => Err(SessionError::Traverse(e)),
            Ok(None) => Ok(0),
            Ok(Some((kind, open))) => match child_count(doc, open + 1) {
                Err(e) => Err(SessionError::Traverse(e)),
                Ok(n) => Ok(n),
            },
        },
        Ok(_) => Ok(0),
    }
}

/// Two answers are the same, or both report that the document ends too early.
pub open spec fn same_outcome<T>(a: Result<T, SessionError>, b: Result<T, SessionError>) -> bool {
    ||| a == b
    ||| {
        &&& a matches Err(SessionError::Traverse(TraverseError::UnexpectedEof(_)))
        &&& b matches Err(SessionError::Traverse(TraverseError::UnexpectedEof(_)))
    }
}

/// A fresh session is true of every document.
pub proof fn law_fresh_session_is_sound(doc: Seq<u8>, s: SessionView)
    requires
        s.index.nodes.len() == 0,
    ensures
        session_sound(doc, s),
{
    law_empty_index_is_sound(doc, s.index, s.index.cap > 0);
}

/// A lookup of a path leads where the path leads in the document, whatever the
/// index holds, and leaves the session true.
pub proof fn law_lookup_answers_from_the_document(
    doc: Seq<u8>,
    s: SessionView,
    key: KeyView,
    base_depth: u32,
)
    requires
        doc.len() <= u64::MAX,
        key.1.len() <= usize::MAX,
        session_sound(doc, s),
    ensures
        ({
            let q = LocatingView::begun(s, key, base_depth);
            let (led, next) = q.answer(doc, s.asked(key.0, key.1));
            &&& same_answer(led, leads_to(doc, s, key))
            &&& session_sound(doc, next)
            &&& next.index.cap == s.index.cap
        }),
{
    let objects = s.index.cap > 0;
    let stride = s.index.interval as int;
    law_index_changes_no_answer(doc, s.index, key.0, key.1, objects, stride);
    law_index_stays_sound(doc, s.index, base_depth, key.0, key.1, objects, stride);
    lemma_hopped_keeps_config(s.index, key.0, key.1, 0);
    lemma_hopped_is_sound(doc, s.index, key.0, key.1, 0, objects);
    let st = seeded_query(s.index, key.0, key.1, objects, stride);
    if let Some(r) = resolution(doc, key.1, st).record {
        lemma_record_keeps_config(s.index.hopped(key.0, key.1, 0), base_depth, key.0, key.1, r);
    }
}

/// A lookup never goes back behind the offset that it begins at: what the index knows
/// lies ahead of it.
pub proof fn law_a_lookup_never_goes_back(
    doc: Seq<u8>,
    s: SessionView,
    key: KeyView,
    base_depth: u32,
)
    requires
        doc.len() <= u64::MAX,
        session_sound(doc, s),
    ensures
        LocatingView::begun(s, key, base_depth).state.seed_ahead(),
        LocatingView::begun(s, key, base_depth).keeps_from() == LocatingView::begun(
            s,
            key,
            base_depth,
        ).state.start,
{
    law_seeds_lie_ahead(
        doc,
        s.index,
        key.0,
        key.1,
        s.index.cap > 0,
        s.index.interval as int,
    );
}

/// A lookup that leads to a value at `v` asks for no chunk that starts at or past
/// `v + 64`, however the chunks arrive, and one that comes to nothing for none that starts
/// a block or more past what that rests on. Neither asks for a chunk that lies wholly
/// before where the index lets it begin.
pub proof fn law_a_lookup_reads_what_leads_to_its_value(
    doc: Seq<u8>,
    s: SessionView,
    key: KeyView,
    base_depth: u32,
    windows: Seq<WindowView>,
    states: Seq<ResolveView>,
    results: Seq<Result<Resolved, TraverseError>>,
    j: int,
)
    requires
        doc.len() <= u64::MAX,
        key.1.len() <= usize::MAX,
        session_sound(doc, s),
        resolve_series(key.1, windows, states, results),
        states[0] == LocatingView::begun(s, key, base_depth).state,
        0 <= j < windows.len(),
        forall|i: int| 0 <= i <= j ==> (#[trigger] windows[i]).agrees(doc),
        forall|i: int|
            0 <= i <= j ==> (#[trigger] results[i]) matches Err(TraverseError::Pending(_)),
    ensures
        ({
            let miss = results[j]->Err_0->Pending_0;
            &&& leads_to(doc, s, key) matches Ok(Resolved::Found(v)) ==> miss.0 < v + 64
            &&& leads_to(doc, s, key) is Ok ==> miss.0 < resolution(
                doc,
                key.1,
                states[0],
            ).rests_on + 64
            &&& states[0].reads_from() < miss.0 + windows[j].chunk_bytes
        }),
{
    law_index_changes_no_answer(
        doc,
        s.index,
        key.0,
        key.1,
        s.index.cap > 0,
        s.index.interval as int,
    );
    law_a_lookup_never_goes_back(doc, s, key, base_depth);
    law_a_resolution_reads_what_leads_to_its_value(doc, key.1, windows, states, results, j);
}

/// A value is read to its end and no further: neither the lookup of it, which leads to
/// where it starts, nor the walk through it asks for a chunk that starts a block or more
/// past its end.
pub proof fn law_a_value_is_read_to_its_end(
    doc: Seq<u8>,
    s: SessionView,
    key: KeyView,
    location: ValueLocation,
    x: ExtentState,
    miss: u64,
)
    requires
        doc.len() <= u64::MAX,
        value_at(doc, s, key) == Ok::<Option<ValueLocation>, SessionError>(Some(location)),
    ensures
        leads_to(doc, s, key) matches Ok(Resolved::Found(v)) && v <= location.start
            <= location.end,
        x.answer(doc) == extent_at(doc, leads_to(doc, s, key)->Ok_0->Found_0 as int) && x.awaits(
            doc,
            miss,
        ) ==> miss < location.end + 64,
{
    let v = leads_to(doc, s, key)->Ok_0->Found_0;
    crate::scan::lemma_run_end(doc, v as int, ByteClass::Whitespace);
    crate::resolve::lemma_value_end(doc, crate::scan::ws_end(doc, v as int));
}

/// `has` answers whether the path leads to a value in the document: never an error
/// of navigation.
pub proof fn law_presence_answers_from_the_document(
    doc: Seq<u8>,
    s: SessionView,
    key: KeyView,
    base_depth: u32,
)
    requires
        doc.len() <= u64::MAX,
        key.1.len() <= usize::MAX,
        session_sound(doc, s),
    ensures
        ({
            let q = LocatingView::begun(s, key, base_depth);
            let (led, next) = q.answer(doc, s.asked(key.0, key.1));
            same_outcome(presence_of(led), presence_of(leads_to(doc, s, key)))
        }),
        leads_to(doc, s, key) is Ok ==> presence_of(leads_to(doc, s, key)) is Ok,
{
    law_lookup_answers_from_the_document(doc, s, key, base_depth);
}

/// A resolved path gives the value that stands there in the document, whatever the
/// index holds, and leaves the session true.
pub proof fn law_resolve_answers_from_the_document(
    doc: Seq<u8>,
    s: SessionView,
    key: KeyView,
    base_depth: u32,
)
    requires
        doc.len() <= u64::MAX,
        key.1.len() <= usize::MAX,
        session_sound(doc, s),
    ensures
        ({
            let q = ResolvingView {
                locating: LocatingView::begun(s, key, base_depth),
                extent: None,
            };
            let (value, next) = q.answer(doc, s.asked(key.0, key.1));
            &&& same_outcome(value, value_at(doc, s, key))
            &&& session_sound(doc, next)
        }),
{
    law_lookup_answers_from_the_document(doc, s, key, base_depth);
    let q = LocatingView::begun(s, key, base_depth);
    let (led, next) = q.answer(doc, s.asked(key.0, key.1));
    if let Ok(Resolved::Found(start)) = led {
        let objects = s.index.cap > 0;
        lemma_lookup(doc, next.index, key, objects);
        crate::scan::lemma_run_end(doc, start as int, ByteClass::Whitespace);
        if next.cached_location(key) is None {
            if let Ok(extent) = extent_at(doc, start as int) {
                if let Some(kind) = extent.kind {
                    law_stored_close_is_sound(
                        doc,
                        next.index,
                        base_depth,
                        key,
                        kind,
                        start,
                        extent.location.start,
                        extent.location.end,
                        objects,
                    );
                }
            }
        }
    }
}

/// `get` gives the bytes of the value that stands there in the document, whatever
/// the index holds, and leaves the session true.
pub proof fn law_get_answers_from_the_document(
    doc: Seq<u8>,
    s: SessionView,
    key: KeyView,
    base_depth: u32,
)
    requires
        doc.len() <= u64::MAX,
        key.1.len() <= usize::MAX,
        session_sound(doc, s),
    ensures
        ({
            let q = GettingView {
                resolving: ResolvingView {
                    locating: LocatingView::begun(s, key, base_depth),
                    extent: None,
                },
                found: None,
            };
            let (bytes, next) = q.answer(doc, s.asked(key.0, key.1));
            &&& same_outcome(bytes, bytes_at(doc, s, key))
            &&& session_sound(doc, next)
        }),
{
    law_resolve_answers_from_the_document(doc, s, key, base_depth);
}

/// A count gives the number of children in the document, whether the index knew it
/// or not, and leaves the session true.
pub proof fn law_count_answers_from_the_document(
    doc: Seq<u8>,
    s: SessionView,
    key: KeyView,
    base_depth: u32,
)
    requires
        doc.len() <= u64::MAX,
        key.1.len() <= usize::MAX,
        session_sound(doc, s),
    ensures
        match s.cached_child_count(key) {
            Some(n) => children_at(doc, s, key) == Ok::<nat, SessionError>(n as nat),
            None => {
                let q = CountingView::Locating(LocatingView::begun(s, key, base_depth));
                let (n, next) = q.answer(doc, s.asked(key.0, key.1));
                &&& same_outcome(n, children_at(doc, s, key))
                &&& session_sound(doc, next)
            },
        },
{
    let objects = s.index.cap > 0;
    lemma_lookup(doc, s.index, key, objects);
    law_lookup_answers_from_the_document(doc, s, key, base_depth);
    let q = LocatingView::begun(s, key, base_depth);
    let (led, next) = q.answer(doc, s.asked(key.0, key.1));
    if let Ok(Resolved::Found(start)) = led {
        crate::scan::lemma_run_end(doc, start as int, ByteClass::Whitespace);
        if let Ok(Some((kind, open))) = container_at(doc, start as int) {
            lemma_child_count(doc, open + 1);
            if let Ok(n) = child_count(doc, open + 1) {
                law_stored_count_is_sound(
                    doc,
                    next.index,
                    base_depth,
                    key,
                    kind,
                    start,
                    open as u64,
                    n as u64,
                    objects,
                );
            }
        }
    }
}

// ---- one session and another

/// Every object that a path goes through has text for keys, as far as they have no
/// escapes.
pub open spec fn path_is_text(doc: Seq<u8>, path: Seq<Step>, seg: int, start: u64) -> bool
    decreases path.len() - seg,
{
    seg < path.len() ==> match container_at(doc, start as int) {
        Ok(Some((kind, open))) => {
            &&& kind is Object ==> keys_are_text(doc, open + 1)
            &&& match child_at(doc, kind, open, path[seg], false) {
                Ok(Ok(Some(v))) => path_is_text(doc, path, seg + 1, v),
                _ => true,
            }
        },
        _ => true,
    }
}

/// A path leads to the same value whether names are decoded on the way or not.
pub proof fn law_decoding_changes_no_path(doc: Seq<u8>, path: Seq<Step>, seg: int, start: u64)
    requires
        doc.len() <= u64::MAX,
        path_is_text(doc, path, seg, start),
    ensures
        locate(doc, path, seg, start, true) == locate(doc, path, seg, start, false),
    decreases path.len() - seg,
{
    if seg < path.len() {
        if let Ok(Some((kind, open))) = container_at(doc, start as int) {
            crate::scan::lemma_run_end(doc, start as int, ByteClass::Whitespace);
            if let (ContainerKind::Object, Step::Member(name)) = (kind, path[seg]) {
                law_recording_changes_no_lookup(doc, open + 1, name);
            }
            if let Ok(Ok(Some(v))) = child_at(doc, kind, open, path[seg], false) {
                law_decoding_changes_no_path(doc, path, seg + 1, v);
            }
        }
    }
}

/// Any two sessions that are true of the document answer a path alike, whatever they
/// have been asked before and whatever their limits are: so a session answers as a
/// fresh one does that keeps no index at all.
pub proof fn law_sessions_answer_alike(
    doc: Seq<u8>,
    s: SessionView,
    t: SessionView,
    key: KeyView,
    base_depth: u32,
)
    requires
        doc.len() <= u64::MAX,
        key.1.len() <= usize::MAX,
        session_sound(doc, s),
        session_sound(doc, t),
        (s.index.cap > 0) == (t.index.cap > 0) || path_is_text(doc, key.1, 0, key.0),
    ensures
        same_answer(
            LocatingView::begun(s, key, base_depth).answer(doc, s.asked(key.0, key.1)).0,
            LocatingView::begun(t, key, base_depth).answer(doc, t.asked(key.0, key.1)).0,
        ),
        leads_to(doc, s, key) == leads_to(doc, t, key),
        value_at(doc, s, key) == value_at(doc, t, key),
        bytes_at(doc, s, key) == bytes_at(doc, t, key),
        children_at(doc, s, key) == children_at(doc, t, key),
{
    if (s.index.cap > 0) != (t.index.cap > 0) {
        law_decoding_changes_no_path(doc, key.1, 0, key.0);
    }
    law_lookup_answers_from_the_document(doc, s, key, base_depth);
    law_lookup_answers_from_the_document(doc, t, key, base_depth);
}

/// Every step of a path names a member that the index has tabled.
pub open spec fn tabled_all_along(index: IndexView, anchor: u64, path: Seq<Step>) -> bool {
    forall|i: int|
        0 <= i < path.len() ==> tabled_step(
            lookup(index.nodes, (anchor, #[trigger] path.take(i))),
            path[i],
        )
}

/// The node of a container tables the member that a step names.
pub open spec fn tabled_step(node: Option<NodeView>, step: Step) -> bool {
    match (node, step) {
        (Some(node), Step::Member(name)) => match node.body {
            BodyView::Object { members, resume } => tabled(members, name) is Some,
            BodyView::Array { .. } => false,
        },
        _ => false,
    }
}

proof fn lemma_hops_all_along(
    index: IndexView,
    anchor: u64,
    path: Seq<Step>,
    seg: int,
    start: u64,
)
    requires
        tabled_all_along(index, anchor, path),
        0 <= seg <= path.len(),
    ensures
        index.hops(anchor, path, seg, start).1 == path.len(),
        index.hops(anchor, path, seg, start).2 is None,
    decreases path.len() - seg,
{
    if seg < path.len() {
        let node = lookup(index.nodes, (anchor, path.take(seg)));
        assert(tabled_step(node, path[seg]));
        let v = tabled(node->0.body->Object_members, path[seg]->Member_0)->0;
        lemma_hops_all_along(index, anchor, path, seg + 1, v);
    }
}

/// A path of tabled members is answered without reading the document: the query begins
/// where the path leads to, so a step of it ends there over any window, an empty one
/// too.
pub proof fn law_a_tabled_path_needs_no_reading(
    doc: Seq<u8>,
    s: SessionView,
    key: KeyView,
    base_depth: u32,
)
    requires
        tabled_all_along(s.index, key.0, key.1),
    ensures
        ({
            let q = LocatingView::begun(s, key, base_depth);
            &&& q.hopped_all()
            &&& q.answer(doc, s.asked(key.0, key.1)).0 == Ok::<Resolved, TraverseError>(
                Resolved::Found(q.state.start),
            )
        }),
{
    lemma_hops_all_along(s.index, key.0, key.1, 0, key.0);
}

// ---- paths from a value inside the document

/// A fault of a path that goes on from another one of `n` steps.
pub open spec fn further_in(fault: PathFault, n: int) -> PathFault {
    match fault {
        PathFault::ThroughScalar { segment } => PathFault::ThroughScalar {
            segment: (segment + n) as usize,
        },
        PathFault::WrongKind { segment } => PathFault::WrongKind {
            segment: (segment + n) as usize,
        },
        PathFault::ScalarTarget => PathFault::ScalarTarget,
    }
}

/// Where a path leads, counted from `n` steps further out.
pub open spec fn led_from(led: Result<Resolved, TraverseError>, n: int) -> Result<
    Resolved,
    TraverseError,
> {
    match led {
        Ok(Resolved::NotNavigable(fault)) => Ok(Resolved::NotNavigable(further_in(fault, n))),
        _ => led,
    }
}

/// An answer, counted from `n` steps further out.
pub open spec fn answer_from<T>(answer: Result<T, SessionError>, n: int) -> Result<
    T,
    SessionError,
> {
    match answer {
        Err(SessionError::Path(fault)) => Err(SessionError::Path(further_in(fault, n))),
        _ => answer,
    }
}

/// The steps of a path go on from its middle as a path of their own.
proof fn lemma_tail_leads(
    doc: Seq<u8>,
    p: Seq<Step>,
    q: Seq<Step>,
    k: int,
    start: u64,
    objects: bool,
)
    requires
        0 <= k <= q.len(),
        p.len() + q.len() <= usize::MAX,
    ensures
        locate(doc, p + q, p.len() + k, start, objects) == led_from(
            locate(doc, q, k, start, objects),
            p.len() as int,
        ),
    decreases q.len() - k,
{
    if k < q.len() {
        assert((p + q)[p.len() + k] == q[k]);
        if let Ok(Some((kind, open))) = container_at(doc, start as int) {
            if let Ok(Ok(Some(v))) = child_at(doc, kind, open, q[k], objects) {
                lemma_tail_leads(doc, p, q, k + 1, v, objects);
            }
        }
    }
}

/// A cursor that has hopped to a value resolves paths relative to it: what it answers
/// is what the whole path answers from where the hop began, up to the number of the
/// step that a fault names.
pub proof fn law_a_hop_is_relative(
    doc: Seq<u8>,
    s: SessionView,
    anchor: u64,
    p: Seq<Step>,
    q: Seq<Step>,
    location: ValueLocation,
)
    requires
        doc.len() <= u64::MAX,
        p.len() + q.len() <= usize::MAX,
        value_at(doc, s, (anchor, p)) == Ok::<Option<ValueLocation>, SessionError>(Some(location)),
    ensures
        presence_of(leads_to(doc, s, (anchor, p + q))) == presence_of(
            leads_to(doc, s, (location.start, q)),
        ),
        value_at(doc, s, (anchor, p + q)) == answer_from(
            value_at(doc, s, (location.start, q)),
            p.len() as int,
        ),
        bytes_at(doc, s, (anchor, p + q)) == answer_from(
            bytes_at(doc, s, (location.start, q)),
            p.len() as int,
        ),
        children_at(doc, s, (anchor, p + q)) == children_at(doc, s, (location.start, q)),
{
    let objects = s.index.cap > 0;
    let v = leads_to(doc, s, (anchor, p))->Ok_0->Found_0;
    let whole = p + q;
    assert(whole.take(p.len() as int) =~= p);
    lemma_locate_prefix(doc, whole, p.len() as int, 0, anchor, objects);
    lemma_tail_leads(doc, p, q, 0, v, objects);
    // The hop stops past the whitespace before the value.
    crate::scan::lemma_run_end(doc, v as int, ByteClass::Whitespace);
    crate::resolve::lemma_ws_idempotent(doc, v as int);
    assert(container_at(doc, v as int) == container_at(doc, location.start as int));
    assert(extent_at(doc, v as int) == extent_at(doc, location.start as int));
}

/// A hop to a value, and a query from there: `has`, `get` and `count` answer what they
/// answer for the whole path from where the hop began. A hop along a path that leads to
/// nothing comes to nothing, and the session is left true either way, so that the
/// cursor the hop began at still answers as before.
pub proof fn law_a_hop_and_a_query(
    doc: Seq<u8>,
    s: SessionView,
    anchor: u64,
    p: Seq<Step>,
    q: Seq<Step>,
    base_depth: u32,
    depth: u32,
)
    requires
        doc.len() <= u64::MAX,
        p.len() + q.len() <= usize::MAX,
        session_sound(doc, s),
    ensures
        ({
            let (hop, next) = (ResolvingView {
                locating: LocatingView::begun(s, (anchor, p), base_depth),
                extent: None,
            }).answer(doc, s.asked(anchor, p));
            &&& session_sound(doc, next)
            &&& next.index.cap == s.index.cap
            &&& bytes_at(doc, next, (anchor, q)) == bytes_at(doc, s, (anchor, q))
            &&& hop is Ok ==> (hop->Ok_0 is None <==> leads_to(doc, s, (anchor, p)) == Ok::<
                Resolved,
                TraverseError,
            >(Resolved::Absent))
            &&& hop matches Ok(Some(location)) ==> {
                let key = (location.start, q);
                let bytes = (GettingView {
                    resolving: ResolvingView {
                        locating: LocatingView::begun(next, key, depth),
                        extent: None,
                    },
                    found: None,
                }).answer(doc, next.asked(key.0, key.1)).0;
                let led = LocatingView::begun(next, key, depth).answer(
                    doc,
                    next.asked(key.0, key.1),
                ).0;
                &&& same_outcome(
                    answer_from(bytes, p.len() as int),
                    bytes_at(doc, s, (anchor, p + q)),
                )
                &&& same_outcome(
                    presence_of(led),
                    presence_of(leads_to(doc, s, (anchor, p + q))),
                )
                &&& children_at(doc, next, key) == children_at(doc, s, (anchor, p + q))
            }
        }),
{
    law_resolve_answers_from_the_document(doc, s, (anchor, p), base_depth);
    law_lookup_answers_from_the_document(doc, s, (anchor, p), base_depth);
    let (hop, next) = (ResolvingView {
        locating: LocatingView::begun(s, (anchor, p), base_depth),
        extent: None,
    }).answer(doc, s.asked(anchor, p));
    if let Ok(Some(location)) = hop {
        law_a_hop_is_relative(doc, s, anchor, p, q, location);
        law_get_answers_from_the_document(doc, next, (location.start, q), depth);
        law_lookup_answers_from_the_document(doc, next, (location.start, q), depth);
    }
}

} // verus!
