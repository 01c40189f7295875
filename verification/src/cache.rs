//! Structural-index cache: a bounded, lazily-built partial skeleton of the
//! document.
//!
//! Caches the *containers* a scan has walked, not whole resolved paths, so a
//! later query landing in an already-entered container starts near the target
//! instead of at the container's open. Each [`ContainerNode`] holds an object
//! child-table (`name -> value_start`) plus a resume offset; arrays keep a sorted
//! set of `(index, offset)` members so any later index resumes from the nearest
//! member at or before it (forward or backward). Nothing here stores source
//! bytes, so the burst-window resident bound is untouched.
//!
//! Memoization over an immutable source: entries are never invalidated, only
//! evicted for memory. Three knobs bound the footprint. Two cap a single node:
//! `object_member_cap` caps an object's tabled members as a dense prefix (past
//! the cap the resume offset freezes at the first un-tabled member, so a later
//! lookup still resumes correctly), and `array_interval` is the element stride
//! between sampled array members (applied upstream in the walker). The third,
//! `slot_budget`, caps the *number* of nodes - without it, a full scan of an
//! array of N objects would mint N nodes and never free them. A table is clamped
//! to the budget too, so that a node always fits.
//!
//! Eviction is **document-depth-first** (deepest container evicted first, LRU
//! tiebreak): the shallow navigational backbone - a big array's member node, a
//! top-level object's table - is reachable from many future queries; deep nodes
//! are narrowly reachable and shed first. Each node carries its document depth
//! (`base_depth + path.len()`) because iteration re-anchors children at their own
//! byte offset, so the relative key path length does *not* reflect tree depth.

use vstd::prelude::*;

use crate::keys::text_eq;
use crate::path::{copy_path, same_path, steps, Segment, Step};
use crate::resolve::{
    member_marks, BodyNotes, ContainerKind, ContainerNotes, MemberMark, RecordBody, ResumePoint,
    ScanRecord, ValueLocation,
};

verus! {

// ---- what a node holds

/// An object's table: names with the offsets of their values, in scan order.
pub type Table = Seq<(Seq<char>, u64)>;

/// What a [`ContainerBody`] holds.
#[allow(inconsistent_fields)]
pub enum BodyView {
    Object { members: Table, resume: u64 },
    Array { members: Seq<(usize, u64)> },
}

/// How a cached hop along one path segment resolves.
pub enum Hop {
    /// O(1) jump into a tabled object member: chain on from `value_start`.
    Into(u64),
    /// Stop chaining; seed the resolver near the target (or `None` to scan from the
    /// container open).
    Stop(Option<ResumePoint>),
}

/// The value of the first entry of a table with that name.
pub open spec fn tabled(table: Table, name: Seq<char>) -> Option<u64>
    decreases table.len(),
{
    if table.len() == 0 {
        None
    } else if table[0].0 == name {
        Some(table[0].1)
    } else {
        tabled(table.drop_first(), name)
    }
}

/// No name occurs twice in a table.
pub open spec fn names_once(table: Table) -> bool {
    forall|i: int, j: int| 0 <= i < j < table.len() ==> table[i].0 != table[j].0
}

/// Array members in ascending order of index, each index once.
pub open spec fn ascending(members: Seq<(usize, u64)>) -> bool {
    forall|i: int, j: int| 0 <= i < j < members.len() ==> members[i].0 < members[j].0
}

/// The member with the greatest index at or below `target`.
pub open spec fn nearest(members: Seq<(usize, u64)>, target: usize) -> Option<(usize, u64)>
    decreases members.len(),
{
    if members.len() == 0 {
        None
    } else if members.last().0 <= target {
        Some(members.last())
    } else {
        nearest(members.drop_last(), target)
    }
}

/// How a hop along `step` resolves.
pub open spec fn hop(body: BodyView, step: Step) -> Hop {
    match (step, body) {
        (Step::Member(name), BodyView::Object { members, resume }) => match tabled(members, name) {
            Some(v) => Hop::Into(v),
            // The table covers the dense prefix `[open, resume]`, so an un-tabled
            // member is at or after `resume`.
            None => Hop::Stop(Some(ResumePoint::Object { offset: resume })),
        },
        (Step::Element(index), BodyView::Array { members }) => match nearest(members, index) {
            Some((at, offset)) => Hop::Stop(Some(ResumePoint::Array { index: at, offset })),
            None => Hop::Stop(None),
        },
        // The kinds do not match: the resolver will say so.
        _ => Hop::Stop(None),
    }
}

/// A table with the members of a scan added in order, up to `cap`; and where the
/// first member that found no place begins, if one did. A name that is there
/// already stays as it is.
pub open spec fn merge_table(table: Table, new: Seq<MemberMark>, cap: nat) -> (Table, Option<u64>)
    decreases new.len(),
{
    if new.len() == 0 {
        (table, None)
    } else if tabled(table, new[0].0) is Some {
        merge_table(table, new.drop_first(), cap)
    } else if table.len() >= cap {
        (table, Some(new[0].1))
    } else {
        merge_table(table.push((new[0].0, new[0].2)), new.drop_first(), cap)
    }
}

pub open spec fn greater(a: u64, b: u64) -> u64 {
    if a >= b {
        a
    } else {
        b
    }
}

/// The offset to resume from once a scan is merged: where the first un-tabled
/// member begins if the cap was hit; else the scan's own hint, or its last
/// member. It never moves back.
pub open spec fn merge_resume(
    resume: u64,
    frozen: Option<u64>,
    new: Seq<MemberMark>,
    hint: Option<u64>,
) -> u64 {
    match (frozen, hint) {
        (Some(at), _) => greater(resume, at),
        (None, Some(at)) => greater(resume, at),
        (None, None) => if new.len() > 0 {
            greater(resume, new.last().1)
        } else {
            resume
        },
    }
}

/// How many members have an index below `index`, where they ascend.
pub open spec fn rank(members: Seq<(usize, u64)>, index: usize) -> int
    decreases members.len(),
{
    if members.len() == 0 {
        0
    } else if members.last().0 < index {
        members.len() as int
    } else {
        rank(members.drop_last(), index)
    }
}

/// Ascending members with one more, unless its index is there already.
pub open spec fn with_member(members: Seq<(usize, u64)>, m: (usize, u64)) -> Seq<(usize, u64)> {
    let p = rank(members, m.0);
    if p < members.len() && members[p].0 == m.0 {
        members
    } else {
        members.insert(p, m)
    }
}

/// Ascending members with those of a scan added in order.
pub open spec fn merge_members(members: Seq<(usize, u64)>, new: Seq<(usize, u64)>) -> Seq<
    (usize, u64),
>
    decreases new.len(),
{
    if new.len() == 0 {
        members
    } else {
        merge_members(with_member(members, new[0]), new.drop_first())
    }
}

/// A body with an object scan merged into it. An array body stays as it is.
pub open spec fn merged_object(
    body: BodyView,
    new: Seq<MemberMark>,
    hint: Option<u64>,
    cap: nat,
) -> BodyView {
    match body {
        BodyView::Object { members, resume } => {
            let (table, frozen) = merge_table(members, new, cap);
            BodyView::Object { members: table, resume: merge_resume(resume, frozen, new, hint) }
        },
        BodyView::Array { .. } => body,
    }
}

/// A body with an array scan merged into it. An object body stays as it is.
pub open spec fn merged_array(body: BodyView, new: Seq<(usize, u64)>) -> BodyView {
    match body {
        BodyView::Array { members } => BodyView::Array { members: merge_members(members, new) },
        BodyView::Object { .. } => body,
    }
}

/// A body that knows nothing yet: an object scan starts just past the open `{`.
pub open spec fn fresh_body(kind: ContainerKind, value_start: u64) -> BodyView {
    match kind {
        ContainerKind::Object => BodyView::Object {
            members: Seq::empty(),
            resume: if value_start < u64::MAX {
                (value_start + 1) as u64
            } else {
                u64::MAX
            },
        },
        ContainerKind::Array => BodyView::Array { members: Seq::empty() },
    }
}

pub proof fn lemma_rank(members: Seq<(usize, u64)>, index: usize, p: int)
    requires
        ascending(members),
        0 <= p <= members.len(),
        forall|i: int| 0 <= i < p ==> (#[trigger] members[i]).0 < index,
        forall|i: int| p <= i < members.len() ==> (#[trigger] members[i]).0 >= index,
    ensures
        rank(members, index) == p,
    decreases members.len(),
{
    if members.len() > 0 {
        if members.last().0 >= index {
            lemma_rank(members.drop_last(), index, p);
        }
    }
}

pub proof fn lemma_rank_split(members: Seq<(usize, u64)>, index: usize)
    requires
        ascending(members),
    ensures
        0 <= rank(members, index) <= members.len(),
        forall|i: int| 0 <= i < rank(members, index) ==> (#[trigger] members[i]).0 < index,
        forall|i: int|
            rank(members, index) <= i < members.len() ==> (#[trigger] members[i]).0 >= index,
    decreases members.len(),
{
    if members.len() > 0 {
        if members.last().0 >= index {
            let m = members.drop_last();
            lemma_rank_split(m, index);
            assert forall|i: int| 0 <= i < rank(members, index) implies (#[trigger] members[i]).0
                < index by {
                assert(m[i] == members[i]);
            }
            assert forall|i: int| rank(members, index) <= i < members.len() implies (
            #[trigger] members[i]).0 >= index by {
                if i < m.len() {
                    assert(m[i] == members[i]);
                }
            }
        }
    }
}

pub proof fn lemma_with_member(members: Seq<(usize, u64)>, m: (usize, u64))
    requires
        ascending(members),
    ensures
        ascending(with_member(members, m)),
        forall|i: int|
            0 <= i < with_member(members, m).len() ==> {
                let x = #[trigger] with_member(members, m)[i];
                x == m || members.contains(x)
            },
{
    lemma_rank_split(members, m.0);
    let p = rank(members, m.0);
    let out = with_member(members, m);
    if !(p < members.len() && members[p].0 == m.0) {
        assert forall|i: int, j: int| 0 <= i < j < out.len() implies out[i].0 < out[j].0 by {
            if i < p && j < p {
                assert(out[i] == members[i] && out[j] == members[j]);
            } else if i < p && j == p {
                assert(out[i] == members[i] && out[j] == m);
            } else if i < p {
                assert(out[i] == members[i] && out[j] == members[j - 1]);
            } else if i == p {
                assert(out[i] == m && out[j] == members[j - 1]);
                assert(members[p].0 <= members[j - 1].0);
            } else {
                assert(out[i] == members[i - 1] && out[j] == members[j - 1]);
            }
        }
        assert forall|i: int| 0 <= i < out.len() implies (#[trigger] out[i] == m
            || members.contains(out[i])) by {
            if i < p {
                assert(out[i] == members[i]);
            } else if i > p {
                assert(out[i] == members[i - 1]);
            }
        }
    }
}

/// Merging keeps the members ascending, and adds none that the scan did not have.
pub proof fn lemma_merge_members(members: Seq<(usize, u64)>, new: Seq<(usize, u64)>)
    requires
        ascending(members),
    ensures
        ascending(merge_members(members, new)),
        forall|x: (usize, u64)| #[trigger]
            merge_members(members, new).contains(x) ==> members.contains(x) || new.contains(x),
    decreases new.len(),
{
    if new.len() > 0 {
        let m = with_member(members, new[0]);
        lemma_with_member(members, new[0]);
        lemma_merge_members(m, new.drop_first());
        assert forall|x: (usize, u64)| #[trigger]
            merge_members(members, new).contains(x) implies members.contains(x) || new.contains(
            x,
        ) by {
            if m.contains(x) {
                let i = choose|i: int| 0 <= i < m.len() && m[i] == x;
                assert(m[i] == new[0] || members.contains(m[i]));
                assert(new[0] == x ==> new.contains(x));
            } else {
                let i = choose|i: int| 0 <= i < new.drop_first().len() && new.drop_first()[i] == x;
                assert(new[i + 1] == x);
            }
        }
    }
}

pub proof fn lemma_nearest(members: Seq<(usize, u64)>, target: usize, p: int)
    requires
        0 <= p <= members.len(),
        forall|i: int| 0 <= i < p ==> (#[trigger] members[i]).0 <= target,
        forall|i: int| p <= i < members.len() ==> (#[trigger] members[i]).0 > target,
    ensures
        nearest(members, target) == (if p > 0 {
            Some(members[p - 1])
        } else {
            None
        }),
    decreases members.len(),
{
    if members.len() > 0 && members.last().0 > target {
        lemma_nearest(members.drop_last(), target, p);
    }
}

pub proof fn lemma_tabled_skip(table: Table, name: Seq<char>, i: int)
    requires
        0 <= i <= table.len(),
        forall|k: int| 0 <= k < i ==> (#[trigger] table[k]).0 != name,
    ensures
        tabled(table, name) == tabled(table.skip(i), name),
    decreases i,
{
    if i > 0 {
        let rest = table.drop_first();
        assert forall|k: int| 0 <= k < i - 1 implies (#[trigger] rest[k]).0 != name by {
            assert(rest[k] == table[k + 1]);
        }
        lemma_tabled_skip(rest, name, i - 1);
        assert(rest.skip(i - 1) =~= table.skip(i));
    } else {
        assert(table.skip(0) =~= table);
    }
}

/// A name that is not tabled is the name of no entry.
proof fn lemma_untabled(table: Table, name: Seq<char>)
    requires
        tabled(table, name) is None,
    ensures
        forall|i: int| 0 <= i < table.len() ==> (#[trigger] table[i]).0 != name,
    decreases table.len(),
{
    if table.len() > 0 {
        let rest = table.drop_first();
        lemma_untabled(rest, name);
        assert forall|i: int| 0 <= i < table.len() implies (#[trigger] table[i]).0 != name by {
            if i > 0 {
                assert(rest[i - 1] == table[i]);
            }
        }
    }
}

/// A table's entries as names and offsets.
pub open spec fn table_view(members: Seq<(String, u64)>) -> Table {
    members.map_values(|m: (String, u64)| (m.0@, m.1))
}

#[allow(inconsistent_fields)]
#[derive(Debug)]
pub enum ContainerBody {
    Object {
        members: Vec<(String, u64)>,
        // High-water member offset: a later member scan resumes here.
        resume: u64,
    },
    Array {
        /// Resume members `(index, offset)`, sorted ascending by index, deduped.
        members: Vec<(usize, u64)>,
    },
}

impl View for ContainerBody {
    type V = BodyView;

    open spec fn view(&self) -> BodyView {
        match self {
            ContainerBody::Object { members, resume } => BodyView::Object {
                members: table_view(members@),
                resume: *resume,
            },
            ContainerBody::Array { members } => BodyView::Array { members: members@ },
        }
    }
}

impl BodyView {
    /// A table names nothing twice, and array members ascend.
    pub open spec fn wf(self) -> bool {
        match self {
            BodyView::Object { members, resume } => names_once(members),
            BodyView::Array { members } => ascending(members),
        }
    }

    /// How many members are tabled. Array members don't count.
    pub open spec fn tabled_count(self) -> nat {
        match self {
            BodyView::Object { members, resume } => members.len(),
            BodyView::Array { .. } => 0,
        }
    }
}

impl ContainerBody {
    pub fn for_kind(kind: ContainerKind, value_start: u64) -> (b: Self)
        ensures
            b@ == fresh_body(kind, value_start),
            b@.wf(),
    {
        match kind {
            // Fresh resume = just past the open `{`, i.e. scan from the container start.
            ContainerKind::Object => {
                let b = ContainerBody::Object {
                    members: Vec::new(),
                    resume: value_start.saturating_add(1),
                };
                assert(b@->Object_members =~= Seq::empty());
                b
            },
            ContainerKind::Array => {
                let b = ContainerBody::Array { members: Vec::new() };
                assert(b@->Array_members =~= Seq::empty());
                b
            },
        }
    }

    /// `value_start` of a tabled object member, or `None` (untabled, or array body).
    pub fn object_member(&self, name: &str) -> (r: Option<u64>)
        ensures
            r == (match self@ {
                BodyView::Object { members, resume } => tabled(members, name@),
                BodyView::Array { .. } => None,
            }),
    {
        match self {
            ContainerBody::Object { members, .. } => find_member(members, name),
            ContainerBody::Array { .. } => None,
        }
    }

    /// The greatest array member with `index <= target`, or `None` (object body).
    /// Binary search: array members are kept sorted by index.
    pub fn nearest_array_member(&self, target: usize) -> (r: Option<(usize, u64)>)
        requires
            self@.wf(),
        ensures
            r == (match self@ {
                BodyView::Array { members } => nearest(members, target),
                BodyView::Object { .. } => None,
            }),
    {
        match self {
            ContainerBody::Array { members } => {
                let mut lo: usize = 0;
                let mut hi: usize = members.len();
                while lo < hi
                    invariant
                        lo <= hi <= members@.len(),
                        ascending(members@),
                        forall|i: int| 0 <= i < lo ==> (#[trigger] members@[i]).0 <= target,
                        forall|i: int|
                            hi <= i < members@.len() ==> (#[trigger] members@[i]).0 > target,
                    decreases hi - lo,
                {
                    let mid: usize = lo + (hi - lo) / 2;
                    if members[mid].0 <= target {
                        lo = mid + 1;
                    } else {
                        hi = mid;
                    }
                }
                proof {
                    lemma_nearest(members@, target, lo as int);
                }
                if lo > 0 {
                    Some(members[lo - 1])
                } else {
                    None
                }
            },
            ContainerBody::Object { .. } => None,
        }
    }

    /// How a hop along `segment` resolves.
    pub fn hop(&self, segment: &Segment) -> (h: Hop)
        requires
            self@.wf(),
        ensures
            h == hop(self@, segment@),
    {
        match (segment, self) {
            (Segment::Member(name), ContainerBody::Object { resume, .. }) => {
                match self.object_member(name.as_str()) {
                    Some(v) => Hop::Into(v),
                    None => Hop::Stop(Some(ResumePoint::Object { offset: *resume })),
                }
            },
            (Segment::Element(index), ContainerBody::Array { .. }) => {
                match self.nearest_array_member(*index) {
                    Some((at, offset)) => Hop::Stop(
                        Some(ResumePoint::Array { index: at, offset }),
                    ),
                    None => Hop::Stop(None),
                }
            },
            _ => Hop::Stop(None),
        }
    }

    /// Merge object members (scan order) up to `cap`, advancing the resume offset to
    /// the high-water boundary (`resume_hint` = matched member's start, or the
    /// close). On hitting the cap the resume freezes at the first un-tabled member,
    /// keeping the table a dense prefix. No-op on an array body.
    pub fn merge_object(
        &mut self,
        new: &[(String, u64, u64)],
        resume_hint: Option<u64>,
        cap: usize,
    )
        ensures
            final(self)@ == merged_object(
                old(self)@,
                member_marks(new@),
                resume_hint,
                cap as nat,
            ),
            old(self)@.wf() ==> final(self)@.wf(),
    {
        match self {
            ContainerBody::Object { members, resume } => {
                proof {
                    if names_once(table_view(members@)) {
                        law_table_names_nothing_twice(
                            table_view(members@),
                            member_marks(new@),
                            cap as nat,
                        );
                    }
                }
                let frozen: Option<u64> = table_members(members, new, cap);
                *resume = advance(*resume, frozen, new, resume_hint);
            },
            ContainerBody::Array { .. } => {},
        }
    }

    /// Merge `new` array members into the sorted set (dedup by index). Unbounded
    /// here: the bounding stride is applied upstream at sampling time. No-op on an
    /// object body.
    pub fn merge_array(&mut self, new: &[(usize, u64)])
        requires
            old(self)@.wf(),
        ensures
            final(self)@ == merged_array(old(self)@, new@),
            final(self)@.wf(),
    {
        match self {
            ContainerBody::Object { .. } => {},
            ContainerBody::Array { members } => {
                let ghost before = members@;
                let mut i: usize = 0;
                assert(new@.skip(0) =~= new@);
                while i < new.len()
                    invariant
                        i <= new@.len(),
                        ascending(members@),
                        merge_members(before, new@) == merge_members(
                            members@,
                            new@.skip(i as int),
                        ),
                    decreases new@.len() - i,
                {
                    proof {
                        let rest = new@.skip(i as int);
                        assert(rest[0] == new@[i as int]);
                        assert(rest.drop_first() =~= new@.skip(i + 1));
                        lemma_with_member(members@, new@[i as int]);
                    }
                    insert_member(members, new[i]);
                    i = i + 1;
                }
                assert(new@.skip(new@.len() as int) =~= Seq::empty());
            },
        }
    }
}

/// The value of the first entry with that name.
pub(crate) fn find_member(members: &Vec<(String, u64)>, name: &str) -> (r: Option<u64>)
    ensures
        r == tabled(table_view(members@), name@),
{
    let ghost table = table_view(members@);
    let mut i: usize = 0;
    while i < members.len()
        invariant
            i <= members@.len(),
            table == table_view(members@),
            forall|k: int| 0 <= k < i ==> (#[trigger] table[k]).0 != name@,
        decreases members@.len() - i,
    {
        if text_eq(members[i].0.as_str(), name) {
            proof {
                lemma_tabled_skip(table, name@, i as int);
                assert(table.skip(i as int)[0] == table[i as int]);
            }
            return Some(members[i].1);
        }
        i = i + 1;
    }
    proof {
        lemma_tabled_skip(table, name@, i as int);
    }
    None
}

/// Add the members of a scan to a table, in order and up to `cap`; where the first
/// member that found no place begins, if one did.
pub(crate) fn table_members(
    members: &mut Vec<(String, u64)>,
    new: &[(String, u64, u64)],
    cap: usize,
) -> (frozen: Option<u64>)
    ensures
        (table_view(final(members)@), frozen) == merge_table(
            table_view(old(members)@),
            member_marks(new@),
            cap as nat,
        ),
{
    let ghost marks = member_marks(new@);
    let ghost table = table_view(members@);
    let mut frozen: Option<u64> = None;
    let mut i: usize = 0;
    assert(marks.skip(0) =~= marks);
    while frozen.is_none() && i < new.len()
        invariant
            i <= new@.len(),
            marks == member_marks(new@),
            match frozen {
                None => merge_table(table, marks, cap as nat) == merge_table(
                    table_view(members@),
                    marks.skip(i as int),
                    cap as nat,
                ),
                Some(at) => merge_table(table, marks, cap as nat) == (
                    table_view(members@),
                    Some(at),
                ),
            },
        decreases
                new@.len() - i,
                (if frozen is None {
                    1int
                } else {
                    0
                }),
    {
        let ghost rest = marks.skip(i as int);
        assert(rest[0] == marks[i as int]);
        assert(rest.drop_first() =~= marks.skip(i + 1));
        let known: Option<u64> = find_member(members, new[i].0.as_str());
        if known.is_some() {
            // already tabled (a prior scan's prefix)
            i = i + 1;
        } else if members.len() >= cap {
            frozen = Some(new[i].1);
        } else {
            let ghost before = table_view(members@);
            members.push((new[i].0.clone(), new[i].2));
            assert(table_view(members@) =~= before.push((rest[0].0, rest[0].2)));
            i = i + 1;
        }
    }
    proof {
        if frozen is None {
            assert(marks.skip(new@.len() as int) =~= Seq::empty());
        }
    }
    frozen
}

/// The offset to resume from once a scan is merged.
pub(crate) fn advance(
    resume: u64,
    frozen: Option<u64>,
    new: &[(String, u64, u64)],
    hint: Option<u64>,
) -> (r: u64)
    ensures
        r == merge_resume(resume, frozen, member_marks(new@), hint),
{
    let mark: Option<u64> = match (frozen, hint) {
        (Some(at), _) => Some(at),
        (None, Some(at)) => Some(at),
        (None, None) => {
            if new.len() > 0 {
                assert(member_marks(new@).last() == member_marks(new@)[new@.len() - 1]);
                Some(new[new.len() - 1].1)
            } else {
                None
            }
        },
    };
    match mark {
        Some(at) => if resume < at {
            at
        } else {
            resume
        },
        None => resume,
    }
}

/// Add a member at its place, unless its index is there already.
fn insert_member(members: &mut Vec<(usize, u64)>, m: (usize, u64))
    requires
        ascending(old(members)@),
    ensures
        final(members)@ == with_member(old(members)@, m),
{
    let mut lo: usize = 0;
    let mut hi: usize = members.len();
    while lo < hi
        invariant
            members@ == old(members)@,
            lo <= hi <= members@.len(),
            ascending(members@),
            forall|i: int| 0 <= i < lo ==> (#[trigger] members@[i]).0 < m.0,
            forall|i: int| hi <= i < members@.len() ==> (#[trigger] members@[i]).0 >= m.0,
        decreases hi - lo,
    {
        let mid: usize = lo + (hi - lo) / 2;
        if members[mid].0 < m.0 {
            lo = mid + 1;
        } else {
            hi = mid;
        }
    }
    proof {
        lemma_rank(members@, m.0, lo as int);
    }
    if lo < members.len() && members[lo].0 == m.0 {
        return;
    }
    members.insert(lo, m);
}

/// What a [`ContainerNode`] holds.
pub struct NodeView {
    pub value_start: u64,
    pub close: Option<u64>,
    pub child_count: Option<u64>,
    pub depth: u32,
    pub last_used: u64,
    pub body: BodyView,
}

impl NodeView {
    /// Weight toward the budget: one slot for the node plus one per tabled member.
    pub open spec fn cost(self) -> nat {
        1 + self.body.tabled_count()
    }
}

/// A node that knows nothing yet.
pub open spec fn fresh_node(
    kind: ContainerKind,
    value_start: u64,
    depth: u32,
    last_used: u64,
) -> NodeView {
    NodeView {
        value_start,
        close: None,
        child_count: None,
        depth,
        last_used,
        body: fresh_body(kind, value_start),
    }
}

/// A walked container: the offsets/scalars learned about it, plus its
/// kind-specific [`ContainerBody`].
#[derive(Debug)]
pub struct ContainerNode {
    value_start: u64,
    close: Option<u64>,
    child_count: Option<u64>,
    /// Document-tree depth (`base_depth + path.len()`). Primary eviction key:
    /// deepest evicted first.
    depth: u32,
    /// Recency clock at the last touch/write; LRU tiebreak within a depth.
    last_used: u64,
    body: ContainerBody,
}

impl View for ContainerNode {
    type V = NodeView;

    closed spec fn view(&self) -> NodeView {
        NodeView {
            value_start: self.value_start,
            close: self.close,
            child_count: self.child_count,
            depth: self.depth,
            last_used: self.last_used,
            body: self.body@,
        }
    }
}

impl ContainerNode {
    pub fn new(kind: ContainerKind, value_start: u64, depth: u32, last_used: u64) -> (n: Self)
        ensures
            n@ == fresh_node(kind, value_start, depth, last_used),
            n@.body.wf(),
    {
        ContainerNode {
            value_start,
            close: None,
            child_count: None,
            depth,
            last_used,
            body: ContainerBody::for_kind(kind, value_start),
        }
    }

    pub fn child_count(&self) -> (n: Option<u64>)
        ensures
            n == self@.child_count,
    {
        self.child_count
    }

    /// Weight toward `slot_budget`: one slot for the node plus one per tabled object
    /// member. Array members aren't counted - `array_interval` already bounds them.
    pub fn slot_cost(&self) -> (n: u128)
        ensures
            n == self@.cost(),
            n <= usize::MAX + 1,
    {
        1 + match &self.body {
            ContainerBody::Object { members, .. } => members.len() as u128,
            ContainerBody::Array { .. } => 0,
        }
    }

    pub fn hop_for(&self, segment: &Segment) -> (h: Hop)
        requires
            self@.body.wf(),
        ensures
            h == hop(self@.body, segment@),
    {
        self.body.hop(segment)
    }

    /// `value_start` of a tabled object member, or `None` if not in the table.
    pub fn object_member(&self, name: &str) -> (r: Option<u64>)
        ensures
            r == (match self@.body {
                BodyView::Object { members, resume } => tabled(members, name@),
                BodyView::Array { .. } => None,
            }),
    {
        self.body.object_member(name)
    }

    /// The greatest array member with `index <= target`, if any.
    pub fn nearest_array_member(&self, target: usize) -> (r: Option<(usize, u64)>)
        requires
            self@.body.wf(),
        ensures
            r == (match self@.body {
                BodyView::Array { members } => nearest(members, target),
                BodyView::Object { .. } => None,
            }),
    {
        self.body.nearest_array_member(target)
    }

    /// The container's full `[start, end)` once its close is known.
    pub fn location(&self) -> (r: Option<ValueLocation>)
        ensures
            r == (match self@.close {
                Some(end) => Some(ValueLocation { start: self@.value_start, end }),
                None => None,
            }),
    {
        match self.close {
            Some(end) => Some(ValueLocation { start: self.value_start, end }),
            None => None,
        }
    }

    /// Object high-water resume offset (a later member scan resumes here).
    pub fn object_resume(&self) -> (at: u64)
        ensures
            at == (match self@.body {
                BodyView::Object { members, resume } => resume,
                BodyView::Array { .. } => 0,
            }),
    {
        match &self.body {
            ContainerBody::Object { resume, .. } => *resume,
            ContainerBody::Array { .. } => 0,
        }
    }

    pub fn array_members(&self) -> (r: Vec<(usize, u64)>)
        ensures
            r@ == (match self@.body {
                BodyView::Array { members } => members,
                BodyView::Object { .. } => Seq::empty(),
            }),
    {
        match &self.body {
            ContainerBody::Array { members } => {
                let mut out: Vec<(usize, u64)> = Vec::new();
                let mut i: usize = 0;
                while i < members.len()
                    invariant
                        i <= members@.len(),
                        out@ == members@.take(i as int),
                    decreases members@.len() - i,
                {
                    out.push(members[i]);
                    i = i + 1;
                    assert(out@ =~= members@.take(i as int));
                }
                assert(members@.take(i as int) =~= members@);
                out
            },
            ContainerBody::Object { .. } => Vec::new(),
        }
    }

    pub fn object_member_count(&self) -> (n: usize)
        ensures
            n == self@.body.tabled_count(),
    {
        match &self.body {
            ContainerBody::Object { members, .. } => members.len(),
            ContainerBody::Array { .. } => 0,
        }
    }
}

// ---- the index

/// What names a node: the anchor of the query that entered the container, and the
/// path from there.
pub type KeyView = (u64, Seq<Step>);

/// The nodes of an index, each with its key.
pub type Nodes = Seq<(KeyView, NodeView)>;

pub struct NodeKey {
    anchor: u64,
    path: Vec<Segment>,
}

impl View for NodeKey {
    type V = KeyView;

    closed spec fn view(&self) -> KeyView {
        (self.anchor, steps(self.path@))
    }
}

impl NodeKey {
    pub fn new(anchor: u64, path: &[Segment]) -> (k: Self)
        ensures
            k@ == (anchor, steps(path@)),
    {
        NodeKey { anchor, path: copy_path(path) }
    }

    /// Whether the key names `path` from `anchor`.
    pub fn names(&self, anchor: u64, path: &[Segment]) -> (r: bool)
        ensures
            r == (self@ == (anchor, steps(path@))),
    {
        self.anchor == anchor && same_path(self.path.as_slice(), path)
    }
}

/// The place of a key among nodes, or their number if it is not there.
pub open spec fn place<V>(nodes: Seq<(KeyView, V)>, key: KeyView) -> int
    decreases nodes.len(),
{
    if nodes.len() == 0 {
        0
    } else if nodes[0].0 == key {
        0
    } else {
        1 + place(nodes.drop_first(), key)
    }
}

/// The node of a key.
pub open spec fn lookup<V>(nodes: Seq<(KeyView, V)>, key: KeyView) -> Option<V> {
    let i = place(nodes, key);
    if i < nodes.len() {
        Some(nodes[i].1)
    } else {
        None
    }
}

/// The nodes with another node for a key.
pub open spec fn written<V>(nodes: Seq<(KeyView, V)>, key: KeyView, node: V) -> Seq<
    (KeyView, V),
> {
    let i = place(nodes, key);
    if i < nodes.len() {
        nodes.update(i, (key, node))
    } else {
        nodes.push((key, node))
    }
}

/// The slots that nodes take up together.
pub open spec fn slots(nodes: Nodes) -> nat
    decreases nodes.len(),
{
    if nodes.len() == 0 {
        0
    } else {
        slots(nodes.drop_last()) + nodes.last().1.cost()
    }
}

/// `a` is evicted before `b`: it is deeper, or as deep and used less recently.
pub open spec fn sheds_before(a: NodeView, b: NodeView) -> bool {
    a.depth > b.depth || (a.depth == b.depth && a.last_used < b.last_used)
}

/// The place of the node that is evicted first among the first `n`.
pub open spec fn victim(nodes: Nodes, n: int) -> int
    decreases n,
{
    if n <= 1 {
        0
    } else {
        let best = victim(nodes, n - 1);
        if sheds_before(nodes[n - 1].1, nodes[best].1) {
            n - 1
        } else {
            best
        }
    }
}

/// The nodes once enough are evicted, one after the other, to take up at most
/// `low` slots.
pub open spec fn shed(nodes: Nodes, low: nat) -> Nodes
    decreases nodes.len(),
{
    if slots(nodes) <= low || nodes.len() == 0 {
        nodes
    } else {
        proof {
            lemma_victim(nodes, nodes.len() as int);
        }
        shed(nodes.remove(victim(nodes, nodes.len() as int)), low)
    }
}

/// The slots that an eviction leaves at most: seven eighths of the budget.
pub open spec fn low_water(budget: nat) -> nat {
    (budget - budget / 8) as nat
}

/// The nodes once the budget is kept: as they are within it, evicted down to the
/// low-water mark beyond it.
pub open spec fn settled(nodes: Nodes, budget: nat) -> Nodes {
    if slots(nodes) <= budget {
        nodes
    } else {
        shed(nodes, low_water(budget))
    }
}

/// What a [`StructuralIndex`] holds.
pub struct IndexView {
    pub budget: nat,
    /// Most members that a table holds.
    pub cap: nat,
    pub interval: nat,
    pub tick: nat,
    pub nodes: Nodes,
}

impl IndexView {
    /// Something is cached at all: there is a budget, and objects or arrays are
    /// indexed.
    pub open spec fn enabled(self) -> bool {
        self.budget > 0 && (self.cap > 0 || self.interval > 0)
    }

    /// No key occurs twice, bodies are well-formed, no node was used past the clock,
    /// no table is longer than its cap, and the nodes keep within the budget.
    pub open spec fn wf(self) -> bool {
        &&& forall|i: int, j: int|
            0 <= i < j < self.nodes.len() ==> self.nodes[i].0 != self.nodes[j].0
        &&& forall|i: int| 0 <= i < self.nodes.len() ==> (#[trigger] self.nodes[i]).1.body.wf()
        &&& forall|i: int|
            0 <= i < self.nodes.len() ==> (#[trigger] self.nodes[i]).1.last_used <= self.tick
        &&& forall|i: int|
            0 <= i < self.nodes.len() ==> (#[trigger] self.nodes[i]).1.body.tabled_count()
                <= self.table_cap()
        &&& slots(self.nodes) <= self.budget
    }

    /// The longest table that still leaves its node within the budget.
    pub open spec fn table_cap(self) -> nat {
        if self.cap < self.budget {
            self.cap
        } else if self.budget > 0 {
            (self.budget - 1) as nat
        } else {
            0
        }
    }

    /// The index after a write to the node of a key, which is made if it is not
    /// there: `node` is what the write turns it into.
    pub open spec fn after_write(self, key: KeyView, node: NodeView) -> IndexView {
        IndexView {
            tick: self.tick + 1,
            nodes: settled(
                written(
                    self.nodes,
                    key,
                    NodeView { last_used: (self.tick + 1) as u64, ..node },
                ),
                self.budget,
            ),
            ..self
        }
    }

    /// The node that a write to a key starts from.
    pub open spec fn before_write(
        self,
        key: KeyView,
        kind: ContainerKind,
        value_start: u64,
        base_depth: u32,
    ) -> NodeView {
        match lookup(self.nodes, key) {
            Some(node) => node,
            None => fresh_node(
                kind,
                value_start,
                (base_depth + key.1.len()) as u32,
                (self.tick + 1) as u64,
            ),
        }
    }

    /// The index after an object scan is written back.
    pub open spec fn with_object_scan(
        self,
        base_depth: u32,
        key: KeyView,
        value_start: u64,
        members: Seq<MemberMark>,
        resume: Option<u64>,
    ) -> IndexView {
        if self.enabled() {
            let node = self.before_write(key, ContainerKind::Object, value_start, base_depth);
            self.after_write(
                key,
                NodeView {
                    body: merged_object(node.body, members, resume, self.table_cap()),
                    ..node
                },
            )
        } else {
            self
        }
    }

    /// The index after an array scan is written back.
    pub open spec fn with_array_scan(
        self,
        base_depth: u32,
        key: KeyView,
        value_start: u64,
        members: Seq<(usize, u64)>,
    ) -> IndexView {
        if self.enabled() {
            let node = self.before_write(key, ContainerKind::Array, value_start, base_depth);
            self.after_write(key, NodeView { body: merged_array(node.body, members), ..node })
        } else {
            self
        }
    }

    /// The index after a container's close is written back.
    pub open spec fn with_close(
        self,
        base_depth: u32,
        key: KeyView,
        kind: ContainerKind,
        value_start: u64,
        close: u64,
    ) -> IndexView {
        if self.enabled() {
            let node = self.before_write(key, kind, value_start, base_depth);
            self.after_write(key, NodeView { close: Some(close), ..node })
        } else {
            self
        }
    }

    /// The index after a container's child count is written back.
    pub open spec fn with_child_count(
        self,
        base_depth: u32,
        key: KeyView,
        kind: ContainerKind,
        value_start: u64,
        count: u64,
    ) -> IndexView {
        if self.enabled() {
            let node = self.before_write(key, kind, value_start, base_depth);
            self.after_write(key, NodeView { child_count: Some(count), ..node })
        } else {
            self
        }
    }

    /// The index after one container of a scan record is written back.
    #[verifier::opaque]
    pub open spec fn with_container(
        self,
        base_depth: u32,
        anchor: u64,
        path: Seq<Step>,
        c: ContainerNotes,
    ) -> IndexView {
        let key = (anchor, path.take(c.seg as int));
        match c.body {
            BodyNotes::Object(notes) => self.with_object_scan(
                base_depth,
                key,
                c.value_start,
                notes.members,
                notes.resume,
            ),
            BodyNotes::Array(members) => self.with_array_scan(
                base_depth,
                key,
                c.value_start,
                members,
            ),
        }
    }

    /// The index after a scan record is written back, container by container.
    pub open spec fn with_record(
        self,
        base_depth: u32,
        anchor: u64,
        path: Seq<Step>,
        record: Seq<ContainerNotes>,
    ) -> IndexView
        decreases record.len(),
    {
        if record.len() == 0 {
            self
        } else {
            self.with_container(base_depth, anchor, path, record[0]).with_record(
                base_depth,
                anchor,
                path,
                record.drop_first(),
            )
        }
    }

    /// The index after a touch of the node of a key.
    pub open spec fn touched(self, key: KeyView) -> IndexView {
        let i = place(self.nodes, key);
        IndexView {
            tick: self.tick + 1,
            nodes: if i < self.nodes.len() {
                self.nodes.update(
                    i,
                    (
                        self.nodes[i].0,
                        NodeView { last_used: (self.tick + 1) as u64, ..self.nodes[i].1 },
                    ),
                )
            } else {
                self.nodes
            },
            ..self
        }
    }

    /// The cached hops from `seg` on, when the value of `path[..seg]` starts at
    /// `start`: the deepest value that they lead to, its segment, and where the
    /// resolver goes on in it.
    pub open spec fn hops(self, anchor: u64, path: Seq<Step>, seg: int, start: u64) -> (
        u64,
        int,
        Option<ResumePoint>,
    )
        decreases path.len() - seg,
    {
        if seg >= path.len() {
            (start, seg, None)
        } else {
            match lookup(self.nodes, (anchor, path.take(seg))) {
                None => (start, seg, None),
                Some(node) => match hop(node.body, path[seg]) {
                    Hop::Into(v) => self.hops(anchor, path, seg + 1, v),
                    Hop::Stop(seed) => (start, seg, seed),
                },
            }
        }
    }

    /// The index after the hops from `seg` on have touched the nodes they used.
    pub open spec fn hopped(self, anchor: u64, path: Seq<Step>, seg: int) -> IndexView
        decreases path.len() - seg,
    {
        if seg >= path.len() {
            self
        } else {
            let key = (anchor, path.take(seg));
            match lookup(self.nodes, key) {
                None => self,
                Some(node) => match hop(node.body, path[seg]) {
                    Hop::Into(v) => self.touched(key).hopped(anchor, path, seg + 1),
                    Hop::Stop(_) => self.touched(key),
                },
            }
        }
    }
}

pub proof fn lemma_place<V>(nodes: Seq<(KeyView, V)>, key: KeyView)
    ensures
        0 <= place(nodes, key) <= nodes.len(),
        place(nodes, key) < nodes.len() ==> nodes[place(nodes, key)].0 == key,
        forall|i: int| 0 <= i < place(nodes, key) ==> (#[trigger] nodes[i]).0 != key,
    decreases nodes.len(),
{
    if nodes.len() > 0 && nodes[0].0 != key {
        let rest = nodes.drop_first();
        lemma_place(rest, key);
        assert forall|i: int| 0 <= i < place(nodes, key) implies (#[trigger] nodes[i]).0 != key by {
            if i > 0 {
                assert(rest[i - 1] == nodes[i]);
            }
        }
    }
}

pub proof fn lemma_place_is<V>(nodes: Seq<(KeyView, V)>, key: KeyView, p: int)
    requires
        0 <= p <= nodes.len(),
        p < nodes.len() ==> nodes[p].0 == key,
        forall|i: int| 0 <= i < p ==> (#[trigger] nodes[i]).0 != key,
    ensures
        place(nodes, key) == p,
{
    lemma_place(nodes, key);
}

pub proof fn lemma_slots_update(nodes: Nodes, i: int, x: (KeyView, NodeView))
    requires
        0 <= i < nodes.len(),
    ensures
        slots(nodes.update(i, x)) == slots(nodes) - nodes[i].1.cost() + x.1.cost(),
        slots(nodes) >= nodes[i].1.cost(),
    decreases nodes.len(),
{
    let after = nodes.update(i, x);
    if i < nodes.len() - 1 {
        lemma_slots_update(nodes.drop_last(), i, x);
        assert(after.drop_last() =~= nodes.drop_last().update(i, x));
    } else {
        assert(after.drop_last() =~= nodes.drop_last());
    }
}

pub proof fn lemma_slots_remove(nodes: Nodes, i: int)
    requires
        0 <= i < nodes.len(),
    ensures
        slots(nodes.remove(i)) == slots(nodes) - nodes[i].1.cost(),
    decreases nodes.len(),
{
    let after = nodes.remove(i);
    if i < nodes.len() - 1 {
        lemma_slots_remove(nodes.drop_last(), i);
        assert(after.drop_last() =~= nodes.drop_last().remove(i));
        assert(after.last() == nodes.last());
    } else {
        assert(after =~= nodes.drop_last());
    }
}

pub proof fn lemma_slots_push(nodes: Nodes, x: (KeyView, NodeView))
    ensures
        slots(nodes.push(x)) == slots(nodes) + x.1.cost(),
{
    assert(nodes.push(x).drop_last() =~= nodes);
}

/// The victim is a node, and none of those looked at sheds before it.
pub proof fn lemma_victim(nodes: Nodes, n: int)
    requires
        0 < n <= nodes.len(),
    ensures
        0 <= victim(nodes, n) < n,
        forall|i: int| 0 <= i < n ==> !sheds_before((#[trigger] nodes[i]).1, nodes[victim(nodes, n)].1),
    decreases n,
{
    if n > 1 {
        lemma_victim(nodes, n - 1);
    }
}

/// Evicting leaves a part of the nodes, within the mark.
pub proof fn lemma_shed(nodes: Nodes, low: nat)
    ensures
        slots(shed(nodes, low)) <= low,
        shed(nodes, low).len() <= nodes.len(),
        forall|i: int|
            0 <= i < shed(nodes, low).len() ==> nodes.contains(#[trigger] shed(nodes, low)[i]),
        (forall|i: int, j: int| 0 <= i < j < nodes.len() ==> nodes[i].0 != nodes[j].0) ==> (forall|
            i: int,
            j: int,
        |
            0 <= i < j < shed(nodes, low).len() ==> shed(nodes, low)[i].0 != shed(nodes, low)[j].0),
    decreases nodes.len(),
{
    if slots(nodes) <= low || nodes.len() == 0 {
    } else {
        let n = nodes.len() as int;
        lemma_victim(nodes, n);
        let v = victim(nodes, n);
        let rest = nodes.remove(v);
        assert(rest.len() < nodes.len());
        lemma_shed(rest, low);
        let out = shed(nodes, low);
        assert(out == shed(rest, low));
        assert forall|i: int| 0 <= i < out.len() implies nodes.contains(#[trigger] out[i]) by {
            assert(rest.contains(out[i]));
            let k = choose|k: int| 0 <= k < rest.len() && rest[k] == out[i];
            assert(rest[k] == nodes[if k < v {
                k
            } else {
                k + 1
            }]);
        }
        if forall|i: int, j: int| 0 <= i < j < nodes.len() ==> nodes[i].0 != nodes[j].0 {
            assert forall|i: int, j: int| 0 <= i < j < rest.len() implies rest[i].0 != rest[j].0 by {
                assert(rest[i] == nodes[if i < v {
                    i
                } else {
                    i + 1
                }]);
                assert(rest[j] == nodes[if j < v {
                    j
                } else {
                    j + 1
                }]);
            }
        }
    }
}

/// The nodes that a list of entries holds.
pub open spec fn nodes_view(nodes: Seq<(NodeKey, ContainerNode)>) -> Nodes {
    nodes.map_values(|e: (NodeKey, ContainerNode)| (e.0@, e.1@))
}

/// A flat map of container nodes keyed by `(anchor, path)`, bounded by a global
/// `slot_budget` with depth-first eviction. No invalidation (the source is
/// immutable); nodes only leave via eviction.
pub struct StructuralIndex {
    /// Max combined slots before eviction kicks in; `0` disables the cache.
    slot_budget: usize,
    /// `sum(slot_cost)` across all nodes, tracked incrementally on every write.
    slots_used: u128,
    /// Monotonic recency clock; the largest value is the most-recently-used.
    tick: u64,
    /// Max tabled members per object (`usize::MAX` = unbounded; `0` tables none,
    /// resume parks at the open).
    object_member_cap: usize,
    /// Element stride between sampled array members (`0` = none). Held for
    /// `is_enabled`; the stride itself is applied at sampling time.
    array_interval: usize,
    nodes: Vec<(NodeKey, ContainerNode)>,
}

impl View for StructuralIndex {
    type V = IndexView;

    closed spec fn view(&self) -> IndexView {
        IndexView {
            budget: self.slot_budget as nat,
            cap: self.object_member_cap as nat,
            interval: self.array_interval as nat,
            tick: self.tick as nat,
            nodes: nodes_view(self.nodes@),
        }
    }
}

impl StructuralIndex {
    /// The view is well-formed, and the slots are counted.
    pub closed spec fn wf(&self) -> bool {
        &&& self@.wf()
        &&& self.slots_used == slots(self@.nodes)
    }

    /// What a well-formed index shows is well-formed: no key occurs twice, array
    /// members ascend, and the nodes keep within the budget.
    pub proof fn lemma_wf(&self)
        requires
            self.wf(),
        ensures
            self@.wf(),
            self@.budget <= usize::MAX,
            self@.cap <= usize::MAX,
            self@.interval <= usize::MAX,
            self@.tick <= u64::MAX,
    {
    }

    pub fn new(slot_budget: usize, object_member_cap: usize, array_interval: usize) -> (c: Self)
        ensures
            c.wf(),
            c@ == (IndexView {
                budget: slot_budget as nat,
                cap: object_member_cap as nat,
                interval: array_interval as nat,
                tick: 0,
                nodes: Seq::empty(),
            }),
    {
        let c = StructuralIndex {
            slot_budget,
            slots_used: 0,
            tick: 0,
            object_member_cap,
            array_interval,
            nodes: Vec::new(),
        };
        assert(c@.nodes =~= Seq::empty());
        c
    }

    pub fn is_enabled(&self) -> (r: bool)
        ensures
            r == self@.enabled(),
    {
        self.slot_budget > 0 && (self.object_member_cap > 0 || self.array_interval > 0)
    }

    /// How often the recency clock has ticked.
    pub fn clock(&self) -> (t: u64)
        ensures
            t == self@.tick,
    {
        self.tick
    }

    fn next_tick(&mut self) -> (t: u64)
        requires
            old(self).wf(),
            old(self)@.tick < u64::MAX,
        ensures
            final(self).wf(),
            t == old(self)@.tick + 1,
            final(self)@ == (IndexView { tick: old(self)@.tick + 1, ..old(self)@ }),
            final(self).nodes == old(self).nodes,
            final(self).slots_used == old(self).slots_used,
    {
        self.tick = self.tick + 1;
        self.tick
    }

    /// Where the node of a key is.
    fn find(&self, anchor: u64, path: &[Segment]) -> (r: Option<usize>)
        ensures
            ({
                let p = place(self@.nodes, (anchor, steps(path@)));
                match r {
                    Some(i) => i == p && i < self.nodes@.len(),
                    None => p == self@.nodes.len(),
                }
            }),
            self@.nodes.len() == self.nodes@.len(),
    {
        let ghost key = (anchor, steps(path@));
        let mut i: usize = 0;
        while i < self.nodes.len()
            invariant
                i <= self.nodes@.len(),
                key == (anchor, steps(path@)),
                forall|k: int| 0 <= k < i ==> (#[trigger] self@.nodes[k]).0 != key,
            decreases self.nodes@.len() - i,
        {
            if self.nodes[i].0.names(anchor, path) {
                proof {
                    assert(self@.nodes[i as int].0 == key);
                    lemma_place_is(self@.nodes, key, i as int);
                }
                return Some(i);
            }
            i = i + 1;
        }
        proof {
            lemma_place_is(self@.nodes, key, i as int);
        }
        None
    }

    pub fn get(&self, anchor: u64, path: &[Segment]) -> (r: Option<&ContainerNode>)
        ensures
            match r {
                Some(node) => lookup(self@.nodes, (anchor, steps(path@))) == Some(node@),
                None => lookup(self@.nodes, (anchor, steps(path@))) is None,
            },
    {
        match self.find(anchor, path) {
            Some(i) => {
                assert(self@.nodes[i as int].1 == self.nodes@[i as int].1@);
                Some(&self.nodes[i].1)
            },
            None => None,
        }
    }

    /// Walk cached container hops from `anchor` along `path`, returning the deepest
    /// `(start, segment_idx, hint)` to seed the resolver with. Each tabled object
    /// member is an O(1) hop; the first uncached level returns its container's start
    /// plus a resume point so the resolver picks up near the target, not at the open.
    pub fn chain_hops(&mut self, anchor: u64, path: &[Segment]) -> (r: (
        u64,
        usize,
        Option<ResumePoint>,
    ))
        requires
            old(self).wf(),
            old(self)@.tick + path@.len() <= u64::MAX,
        ensures
            final(self).wf(),
            final(self)@ == old(self)@.hopped(anchor, steps(path@), 0),
            ({
                let (start, seg, seed) = old(self)@.hops(anchor, steps(path@), 0, anchor);
                r.0 == start && r.1 == seg && r.2 == seed
            }),
            r.1 <= path@.len(),
            final(self)@.tick <= old(self)@.tick + path@.len(),
    {
        let ghost names = steps(path@);
        let mut start: u64 = anchor;
        let mut seg: usize = 0;
        while seg < path.len()
            invariant
                seg <= path@.len(),
                self.wf(),
                names == steps(path@),
                self@.tick + path@.len() - seg <= u64::MAX,
                self@.tick <= old(self)@.tick + seg,
                old(self)@.hopped(anchor, names, 0) == self@.hopped(anchor, names, seg as int),
                old(self)@.hops(anchor, names, 0, anchor) == self@.hops(
                    anchor,
                    names,
                    seg as int,
                    start,
                ),
            decreases path@.len() - seg,
        {
            let prefix: &[Segment] = &path[0..seg];
            assert(steps(prefix@) =~= names.take(seg as int));
            let ghost key = (anchor, names.take(seg as int));
            let i: usize = match self.find(anchor, prefix) {
                Some(i) => i,
                None => return (start, seg, None),
            };
            let hop: Hop = {
                assert(self@.nodes[i as int] == (self.nodes@[i as int].0@, self.nodes@[i as int].1@));
                self.nodes[i].1.hop_for(&path[seg])
            };
            // Bump recency on the hit so hot containers outlive stale ones in their tier.
            let ghost before = self@;
            self.touch(i);
            proof {
                lemma_touched(before, key);
                assert(self@ == before.touched(key));
            }
            match hop {
                Hop::Into(v) => {
                    proof {
                        lemma_touched_hops(before, key, anchor, names, seg + 1, v);
                    }
                    start = v;
                    seg = seg + 1;
                },
                Hop::Stop(seed) => return (start, seg, seed),
            }
        }
        (start, seg, None)  // whole path hopped: `start` is the resolved value
    }

    /// Note that the node at `i` was used.
    fn touch(&mut self, i: usize)
        requires
            old(self).wf(),
            old(self)@.tick < u64::MAX,
            i < old(self)@.nodes.len(),
        ensures
            final(self).wf(),
            final(self)@ == (IndexView {
                tick: old(self)@.tick + 1,
                nodes: old(self)@.nodes.update(
                    i as int,
                    (
                        old(self)@.nodes[i as int].0,
                        NodeView {
                            last_used: (old(self)@.tick + 1) as u64,
                            ..old(self)@.nodes[i as int].1
                        },
                    ),
                ),
                ..old(self)@
            }),
    {
        let ghost before = self@;
        let tick: u64 = self.next_tick();
        let ghost at = before.nodes[i as int];
        assert(at == (self.nodes@[i as int].0@, self.nodes@[i as int].1@));
        let entry = &mut self.nodes[i];
        entry.1.last_used = tick;
        proof {
            let x = (at.0, NodeView { last_used: tick, ..at.1 });
            assert(self@.nodes =~= before.nodes.update(i as int, x));
            lemma_slots_update(before.nodes, i as int, x);
        }
    }
}

/// Touching a node changes no key, no body and no place.
pub proof fn lemma_touched(index: IndexView, key: KeyView)
    ensures
        index.touched(key).nodes.len() == index.nodes.len(),
        forall|i: int|
            0 <= i < index.nodes.len() ==> {
                &&& (#[trigger] index.touched(key).nodes[i]).0 == index.nodes[i].0
                &&& index.touched(key).nodes[i].1.body == index.nodes[i].1.body
            },
        forall|k: KeyView| #[trigger]
            place(index.touched(key).nodes, k) == place(index.nodes, k),
        forall|k: KeyView|
            match (#[trigger] lookup(index.touched(key).nodes, k), lookup(index.nodes, k)) {
                (Some(a), Some(b)) => a.body == b.body,
                (None, None) => true,
                _ => false,
            },
{
    lemma_place(index.nodes, key);
    let after = index.touched(key).nodes;
    assert forall|k: KeyView| #[trigger] place(after, k) == place(index.nodes, k) by {
        lemma_place(index.nodes, k);
        let p = place(index.nodes, k);
        assert forall|i: int| 0 <= i < p implies (#[trigger] after[i]).0 != k by {
            assert(after[i].0 == index.nodes[i].0);
        }
        lemma_place_is(after, k, p);
    }
    assert forall|k: KeyView|
        match (#[trigger] lookup(after, k), lookup(index.nodes, k)) {
            (Some(a), Some(b)) => a.body == b.body,
            (None, None) => true,
            _ => false,
        } by {
        lemma_place(index.nodes, k);
        assert(place(after, k) == place(index.nodes, k));
    }
}

/// Queries and write-backs leave the limits of an index as they are.
pub proof fn lemma_hopped_keeps_config(index: IndexView, anchor: u64, path: Seq<Step>, seg: int)
    ensures
        index.hopped(anchor, path, seg).budget == index.budget,
        index.hopped(anchor, path, seg).cap == index.cap,
        index.hopped(anchor, path, seg).interval == index.interval,
    decreases path.len() - seg,
{
    if seg < path.len() {
        let key = (anchor, path.take(seg));
        if let Some(node) = lookup(index.nodes, key) {
            if let Hop::Into(v) = hop(node.body, path[seg]) {
                lemma_hopped_keeps_config(index.touched(key), anchor, path, seg + 1);
            }
        }
    }
}

pub proof fn lemma_record_keeps_config(
    index: IndexView,
    base_depth: u32,
    anchor: u64,
    path: Seq<Step>,
    record: Seq<ContainerNotes>,
)
    ensures
        index.with_record(base_depth, anchor, path, record).budget == index.budget,
        index.with_record(base_depth, anchor, path, record).cap == index.cap,
        index.with_record(base_depth, anchor, path, record).interval == index.interval,
    decreases record.len(),
{
    if record.len() > 0 {
        reveal(IndexView::with_container);
        let next = index.with_container(base_depth, anchor, path, record[0]);
        lemma_record_keeps_config(next, base_depth, anchor, path, record.drop_first());
    }
}

/// Touching a node changes no hop.
pub proof fn lemma_touched_hops(
    index: IndexView,
    key: KeyView,
    anchor: u64,
    path: Seq<Step>,
    seg: int,
    start: u64,
)
    ensures
        index.touched(key).hops(anchor, path, seg, start) == index.hops(anchor, path, seg, start),
    decreases path.len() - seg,
{
    if seg < path.len() {
        lemma_touched(index, key);
        let k = (anchor, path.take(seg));
        let a = lookup(index.touched(key).nodes, k);
        let b = lookup(index.nodes, k);
        if let Some(node) = b {
            assert(a is Some);
            if let Hop::Into(v) = hop(node.body, path[seg]) {
                lemma_touched_hops(index, key, anchor, path, seg + 1, v);
            }
        }
    }
}

/// A write changes the node of its key and no other, and no key occurs twice.
pub proof fn lemma_written<V>(nodes: Seq<(KeyView, V)>, key: KeyView, node: V)
    requires
        forall|i: int, j: int| 0 <= i < j < nodes.len() ==> nodes[i].0 != nodes[j].0,
    ensures
        forall|i: int, j: int|
            0 <= i < j < written(nodes, key, node).len() ==> written(nodes, key, node)[i].0
                != written(nodes, key, node)[j].0,
        forall|i: int|
            0 <= i < written(nodes, key, node).len() ==> {
                let x = #[trigger] written(nodes, key, node)[i];
                x == (key, node) || nodes.contains(x)
            },
        lookup(written(nodes, key, node), key) == Some(node),
        forall|k: KeyView|
            k != key ==> #[trigger] lookup(written(nodes, key, node), k) == lookup(nodes, k),
{
    lemma_place(nodes, key);
    let p = place(nodes, key);
    let out = written(nodes, key, node);
    assert forall|i: int, j: int| 0 <= i < j < out.len() implies out[i].0 != out[j].0 by {
        assert(i < nodes.len() ==> out[i].0 == nodes[i].0);
        assert(j < nodes.len() ==> out[j].0 == nodes[j].0);
    }
    assert forall|i: int| 0 <= i < out.len() implies (#[trigger] out[i] == (key, node)
        || nodes.contains(out[i])) by {
        if i != p {
            assert(out[i] == nodes[i]);
        }
    }
    assert forall|i: int| 0 <= i < p implies (#[trigger] out[i]).0 != key by {
        assert(out[i] == nodes[i]);
    }
    lemma_place_is(out, key, p);
    assert forall|k: KeyView| k != key implies #[trigger] lookup(out, k) == lookup(nodes, k) by {
        lemma_place(nodes, k);
        let q = place(nodes, k);
        if q < nodes.len() {
            assert(q != p);
            assert(out[q] == nodes[q]);
            assert forall|i: int| 0 <= i < q implies (#[trigger] out[i]).0 != k by {
                assert(out[i].0 == nodes[i].0);
            }
            lemma_place_is(out, k, q);
        } else {
            assert forall|i: int| 0 <= i < out.len() implies (#[trigger] out[i]).0 != k by {
                if i < nodes.len() {
                    assert(out[i].0 == nodes[i].0);
                }
            }
            lemma_place_is(out, k, out.len() as int);
        }
    }
}

impl StructuralIndex {
    /// The place of the node of a key, which is made if it is not there. Its
    /// recency is the next tick.
    fn open_write(
        &mut self,
        base_depth: u32,
        anchor: u64,
        path: &[Segment],
        kind: ContainerKind,
        value_start: u64,
    ) -> (i: usize)
        requires
            old(self).wf(),
            old(self)@.tick < u64::MAX,
            base_depth + path@.len() <= u32::MAX,
        ensures
            final(self).slots_used == slots(final(self)@.nodes),
            slots(final(self)@.nodes) <= slots(old(self)@.nodes) + 1,
            ({
                let key = (anchor, steps(path@));
                let node = old(self)@.before_write(key, kind, value_start, base_depth);
                &&& i == place(old(self)@.nodes, key)
                &&& i < final(self)@.nodes.len()
                &&& final(self)@ == (IndexView {
                    tick: old(self)@.tick + 1,
                    nodes: written(
                        old(self)@.nodes,
                        key,
                        NodeView { last_used: (old(self)@.tick + 1) as u64, ..node },
                    ),
                    ..old(self)@
                })
                &&& final(self)@.nodes[i as int].1.body.wf()
                &&& final(self)@.nodes[i as int].1.body.tabled_count() <= old(self)@.table_cap()
            }),
    {
        let ghost before = self@;
        let ghost key = (anchor, steps(path@));
        let ghost node = before.before_write(key, kind, value_start, base_depth);
        proof {
            lemma_place(before.nodes, key);
        }
        match self.find(anchor, path) {
            Some(i) => {
                assert(before.nodes[i as int].1.body.wf());
                self.touch(i);
                proof {
                    let x = (key, NodeView { last_used: (before.tick + 1) as u64, ..node });
                    lemma_slots_update(before.nodes, i as int, x);
                    assert(self@.nodes =~= written(before.nodes, key, x.1));
                }
                i
            },
            None => {
                let depth: u32 = base_depth + path.len() as u32;
                let tick: u64 = self.next_tick();
                let i: usize = self.nodes.len();
                let fresh = ContainerNode::new(kind, value_start, depth, tick);
                self.nodes.push((NodeKey::new(anchor, path), fresh));
                self.slots_used = self.slots_used + 1;
                proof {
                    let x = (key, NodeView { last_used: (before.tick + 1) as u64, ..node });
                    assert(x.1 == node);
                    assert(self@.nodes =~= before.nodes.push(x));
                    lemma_slots_push(before.nodes, x);
                    assert(x.1.cost() == 1);
                    assert(self@.nodes[i as int] == x);
                }
                i
            },
        }
    }

    /// Bring the nodes back within the budget.
    ///
    /// Depth-first batch eviction: when over `slot_budget`, drop nodes deepest-first
    /// (LRU tiebreak) down to a low-water mark (~7/8 budget); shallow backbone nodes
    /// are shed last.
    fn evict_if_over_budget(&mut self)
        requires
            old(self).slots_used == slots(old(self)@.nodes),
            forall|i: int, j: int|
                0 <= i < j < old(self)@.nodes.len() ==> old(self)@.nodes[i].0
                    != old(self)@.nodes[j].0,
            forall|i: int|
                0 <= i < old(self)@.nodes.len() ==> (#[trigger] old(self)@.nodes[i]).1.body.wf(),
            forall|i: int|
                0 <= i < old(self)@.nodes.len() ==> (#[trigger] old(self)@.nodes[i]).1.last_used
                    <= old(self)@.tick,
            forall|i: int|
                0 <= i < old(self)@.nodes.len() ==> (
                #[trigger] old(self)@.nodes[i]).1.body.tabled_count() <= old(self)@.table_cap(),
        ensures
            final(self).wf(),
            final(self)@ == (IndexView {
                nodes: settled(old(self)@.nodes, old(self)@.budget),
                ..old(self)@
            }),
    {
        if self.slots_used <= self.slot_budget as u128 {
            return;
        }
        let ghost before = self@;
        let low: u128 = (self.slot_budget - self.slot_budget / 8) as u128;
        assert(low == low_water(before.budget));
        proof {
            lemma_shed(before.nodes, low as nat);
        }
        while self.slots_used > low && self.nodes.len() > 0
            invariant
                self.slots_used == slots(self@.nodes),
                shed(self@.nodes, low as nat) == shed(before.nodes, low as nat),
                self@ == (IndexView { nodes: self@.nodes, ..before }),
            decreases self.nodes@.len(),
        {
            let ghost at = self@.nodes;
            let v: usize = self.first_victim();
            proof {
                lemma_victim(at, at.len() as int);
                lemma_slots_remove(at, v as int);
                lemma_slots_update(at, v as int, at[v as int]);
                assert(at[v as int] == (self.nodes@[v as int].0@, self.nodes@[v as int].1@));
            }
            let cost: u128 = self.nodes[v].1.slot_cost();
            self.nodes.remove(v);
            self.slots_used = self.slots_used - cost;
            assert(self@.nodes =~= at.remove(v as int));
        }
        assert(self@.nodes == shed(before.nodes, low as nat)) by {
            if self@.nodes.len() == 0 {
                assert(slots(self@.nodes) == 0);
            }
        }
        assert forall|i: int| 0 <= i < self@.nodes.len() implies (
        #[trigger] self@.nodes[i]).1.body.wf() && self@.nodes[i].1.last_used <= self@.tick
            && self@.nodes[i].1.body.tabled_count() <= self@.table_cap() by {
            assert(before.nodes.contains(self@.nodes[i]));
        }
    }

    /// The place of the node that is evicted first.
    fn first_victim(&self) -> (v: usize)
        requires
            self.nodes@.len() > 0,
        ensures
            v == victim(self@.nodes, self@.nodes.len() as int),
            v < self.nodes@.len(),
    {
        let mut best: usize = 0;
        let mut n: usize = 1;
        while n < self.nodes.len()
            invariant
                0 < n <= self.nodes@.len(),
                best < n,
                best == victim(self@.nodes, n as int),
            decreases self.nodes@.len() - n,
        {
            let a: &ContainerNode = &self.nodes[n].1;
            let b: &ContainerNode = &self.nodes[best].1;
            assert(self@.nodes[n as int].1 == a@);
            assert(self@.nodes[best as int].1 == b@);
            if a.depth > b.depth || (a.depth == b.depth && a.last_used < b.last_used) {
                best = n;
            }
            n = n + 1;
        }
        best
    }

    /// Drain a scan's collected child offsets into the cache, one node per entered
    /// container.
    pub fn apply_scan_record(
        &mut self,
        base_depth: u32,
        anchor: u64,
        path: &[Segment],
        scan_record: &ScanRecord,
    )
        requires
            old(self).wf(),
            old(self)@.tick + scan_record@.len() <= u64::MAX,
            base_depth + path@.len() <= u32::MAX,
            forall|i: int|
                0 <= i < scan_record@.len() ==> (#[trigger] scan_record@[i]).seg <= path@.len(),
        ensures
            final(self).wf(),
            final(self)@ == old(self)@.with_record(
                base_depth,
                anchor,
                steps(path@),
                scan_record@,
            ),
            final(self)@.tick <= old(self)@.tick + scan_record@.len(),
    {
        let ghost names = steps(path@);
        let ghost record = scan_record@;
        let mut i: usize = 0;
        assert(record.skip(0) =~= record);
        while i < scan_record.containers.len()
            invariant
                i <= scan_record.containers@.len(),
                record == scan_record@,
                names == steps(path@),
                self.wf(),
                self@.tick + record.len() - i <= u64::MAX,
                self@.tick <= old(self)@.tick + i,
                base_depth + path@.len() <= u32::MAX,
                forall|k: int| 0 <= k < record.len() ==> (#[trigger] record[k]).seg <= path@.len(),
                self@.with_record(base_depth, anchor, names, record.skip(i as int)) == old(
                    self,
                )@.with_record(base_depth, anchor, names, record),
            decreases scan_record.containers@.len() - i,
        {
            let ghost rest = record.skip(i as int);
            assert(rest[0] == record[i as int]);
            assert(rest.drop_first() =~= record.skip(i + 1));
            let c = &scan_record.containers[i];
            assert(record[i as int] == c@);
            let prefix: &[Segment] = &path[0..c.seg];
            assert(steps(prefix@) =~= names.take(c.seg as int));
            proof {
                reveal(IndexView::with_container);
            }
            match &c.body {
                RecordBody::Object { members, resume } => self.merge_object_scan(
                    base_depth,
                    anchor,
                    prefix,
                    c.value_start,
                    members.as_slice(),
                    *resume,
                ),
                RecordBody::Array { members } => self.merge_array_scan(
                    base_depth,
                    anchor,
                    prefix,
                    c.value_start,
                    members.as_slice(),
                ),
            }
            i = i + 1;
        }
        assert(record.skip(i as int) =~= Seq::empty());
    }

    /// Write back an object scan: merge the members seen (scan order) up to the cap,
    /// advancing the resume offset to the high-water boundary.
    pub fn merge_object_scan(
        &mut self,
        base_depth: u32,
        anchor: u64,
        path: &[Segment],
        value_start: u64,
        members: &[(String, u64, u64)],
        resume: Option<u64>,
    )
        requires
            old(self).wf(),
            old(self)@.tick < u64::MAX,
            base_depth + path@.len() <= u32::MAX,
        ensures
            final(self).wf(),
            final(self)@ == old(self)@.with_object_scan(
                base_depth,
                (anchor, steps(path@)),
                value_start,
                member_marks(members@),
                resume,
            ),
            final(self)@.tick <= old(self)@.tick + 1,
    {
        if !self.is_enabled() {
            return;
        }
        let cap: usize = if self.object_member_cap < self.slot_budget {
            self.object_member_cap
        } else {
            self.slot_budget - 1
        };
        let ghost before = self@;
        let ghost key = (anchor, steps(path@));
        let i: usize = self.open_write(
            base_depth,
            anchor,
            path,
            ContainerKind::Object,
            value_start,
        );
        let ghost open = self@;
        let cost: u128 = self.cost_at(i);
        {
            let entry = &mut self.nodes[i];
            entry.1.body.merge_object(members, resume, cap);
        }
        let ghost node = NodeView {
            body: merged_object(
                open.nodes[i as int].1.body,
                member_marks(members@),
                resume,
                cap as nat,
            ),
            ..open.nodes[i as int].1
        };
        proof {
            lemma_place(before.nodes, key);
            assert(self@.nodes =~= open.nodes.update(i as int, (key, node)));
            lemma_merged_object(
                open.nodes[i as int].1.body,
                member_marks(members@),
                resume,
                cap as nat,
            );
        }
        self.close_write(i, cost, Ghost(before), Ghost(open), Ghost(key), Ghost(node));
    }

    /// Write back an array scan: merge its `(index, offset)` array members into the
    /// node's sorted set.
    pub fn merge_array_scan(
        &mut self,
        base_depth: u32,
        anchor: u64,
        path: &[Segment],
        value_start: u64,
        new_members: &[(usize, u64)],
    )
        requires
            old(self).wf(),
            old(self)@.tick < u64::MAX,
            base_depth + path@.len() <= u32::MAX,
        ensures
            final(self).wf(),
            final(self)@ == old(self)@.with_array_scan(
                base_depth,
                (anchor, steps(path@)),
                value_start,
                new_members@,
            ),
            final(self)@.tick <= old(self)@.tick + 1,
    {
        if !self.is_enabled() {
            return;
        }
        let ghost before = self@;
        let ghost key = (anchor, steps(path@));
        let i: usize = self.open_write(
            base_depth,
            anchor,
            path,
            ContainerKind::Array,
            value_start,
        );
        let ghost open = self@;
        let cost: u128 = self.cost_at(i);
        {
            let entry = &mut self.nodes[i];
            entry.1.body.merge_array(new_members);
        }
        let ghost node = NodeView {
            body: merged_array(open.nodes[i as int].1.body, new_members@),
            ..open.nodes[i as int].1
        };
        proof {
            lemma_place(before.nodes, key);
            assert(self@.nodes =~= open.nodes.update(i as int, (key, node)));
        }
        self.close_write(i, cost, Ghost(before), Ghost(open), Ghost(key), Ghost(node));
    }

    /// Record a container's matching-close offset (`}`/`]` + 1).
    pub fn store_close(
        &mut self,
        base_depth: u32,
        anchor: u64,
        path: &[Segment],
        kind: ContainerKind,
        value_start: u64,
        close: u64,
    )
        requires
            old(self).wf(),
            old(self)@.tick < u64::MAX,
            base_depth + path@.len() <= u32::MAX,
        ensures
            final(self).wf(),
            final(self)@ == old(self)@.with_close(
                base_depth,
                (anchor, steps(path@)),
                kind,
                value_start,
                close,
            ),
            final(self)@.tick <= old(self)@.tick + 1,
    {
        if !self.is_enabled() {
            return;
        }
        let ghost before = self@;
        let ghost key = (anchor, steps(path@));
        let i: usize = self.open_write(base_depth, anchor, path, kind, value_start);
        let ghost open = self@;
        let cost: u128 = self.cost_at(i);
        {
            let entry = &mut self.nodes[i];
            entry.1.close = Some(close);
        }
        let ghost node = NodeView { close: Some(close), ..open.nodes[i as int].1 };
        proof {
            lemma_place(before.nodes, key);
            assert(self@.nodes =~= open.nodes.update(i as int, (key, node)));
        }
        self.close_write(i, cost, Ghost(before), Ghost(open), Ghost(key), Ghost(node));
    }

    pub fn store_child_count(
        &mut self,
        base_depth: u32,
        anchor: u64,
        path: &[Segment],
        kind: ContainerKind,
        value_start: u64,
        count: u64,
    )
        requires
            old(self).wf(),
            old(self)@.tick < u64::MAX,
            base_depth + path@.len() <= u32::MAX,
        ensures
            final(self).wf(),
            final(self)@ == old(self)@.with_child_count(
                base_depth,
                (anchor, steps(path@)),
                kind,
                value_start,
                count,
            ),
            final(self)@.tick <= old(self)@.tick + 1,
    {
        if !self.is_enabled() {
            return;
        }
        let ghost before = self@;
        let ghost key = (anchor, steps(path@));
        let i: usize = self.open_write(base_depth, anchor, path, kind, value_start);
        let ghost open = self@;
        let cost: u128 = self.cost_at(i);
        {
            let entry = &mut self.nodes[i];
            entry.1.child_count = Some(count);
        }
        let ghost node = NodeView { child_count: Some(count), ..open.nodes[i as int].1 };
        proof {
            lemma_place(before.nodes, key);
            assert(self@.nodes =~= open.nodes.update(i as int, (key, node)));
        }
        self.close_write(i, cost, Ghost(before), Ghost(open), Ghost(key), Ghost(node));
    }

    fn cost_at(&self, i: usize) -> (n: u128)
        requires
            i < self@.nodes.len(),
        ensures
            n == self@.nodes[i as int].1.cost(),
            n <= usize::MAX + 1,
    {
        assert(self@.nodes[i as int].1 == self.nodes@[i as int].1@);
        self.nodes[i].1.slot_cost()
    }

    /// Count the slots of a node that was just written, and keep the budget.
    fn close_write(
        &mut self,
        i: usize,
        cost: u128,
        Ghost(before): Ghost<IndexView>,
        Ghost(open): Ghost<IndexView>,
        Ghost(key): Ghost<KeyView>,
        Ghost(node): Ghost<NodeView>,
    )
        requires
            before.wf(),
            before.budget <= usize::MAX,
            i == place(before.nodes, key),
            i < open.nodes.len(),
            slots(open.nodes) <= slots(before.nodes) + 1,
            open == (IndexView {
                tick: before.tick + 1,
                nodes: written(before.nodes, key, open.nodes[i as int].1),
                ..before
            }),
            old(self)@ == (IndexView {
                nodes: open.nodes.update(i as int, (key, node)),
                ..open
            }),
            old(self).slots_used == slots(open.nodes),
            cost == open.nodes[i as int].1.cost(),
            node.body.wf(),
            node.body.tabled_count() <= before.table_cap(),
            node.last_used == (before.tick + 1) as u64,
        ensures
            final(self).wf(),
            final(self)@ == before.after_write(key, node),
    {
        let after: u128 = self.cost_at(i);
        proof {
            lemma_slots_update(open.nodes, i as int, (key, node));
            lemma_place(before.nodes, key);
            assert(self@.nodes =~= written(before.nodes, key, node));
            lemma_written(before.nodes, key, node);
            assert forall|k: int| 0 <= k < self@.nodes.len() implies (
            #[trigger] self@.nodes[k]).1.body.wf() && self@.nodes[k].1.last_used <= self@.tick
                && self@.nodes[k].1.body.tabled_count() <= self@.table_cap() by {
                let x = self@.nodes[k];
                assert(x == (key, node) || before.nodes.contains(x));
            }
        }
        self.slots_used = self.slots_used - cost + after;
        self.evict_if_over_budget();
    }

    pub fn node_count(&self) -> (n: usize)
        ensures
            n == self@.nodes.len(),
    {
        self.nodes.len()
    }

    pub fn slots_used(&self) -> (n: usize)
        requires
            self.wf(),
        ensures
            n == slots(self@.nodes),
            n <= self@.budget,
    {
        self.slots_used as usize
    }

    /// Recompute `slots_used` from scratch, to check the incremental accounting.
    pub fn recomputed_slots_used(&self) -> (n: usize)
        requires
            self.wf(),
        ensures
            n == slots(self@.nodes),
    {
        let mut n: u128 = 0;
        let mut i: usize = 0;
        assert(self@.nodes.take(0) =~= Seq::empty());
        while i < self.nodes.len()
            invariant
                self.wf(),
                i <= self.nodes@.len(),
                n == slots(self@.nodes.take(i as int)),
                n <= slots(self@.nodes),
                slots(self@.nodes) <= usize::MAX,
            decreases self.nodes@.len() - i,
        {
            proof {
                assert(self@.nodes.take(i + 1).drop_last() =~= self@.nodes.take(i as int));
                lemma_slots_take(self@.nodes, i + 1);
            }
            n = n + self.cost_at(i);
            i = i + 1;
        }
        assert(self@.nodes.take(i as int) =~= self@.nodes);
        n as usize
    }
}

/// A part of the nodes takes up no more slots than all of them.
proof fn lemma_slots_take(nodes: Nodes, n: int)
    requires
        0 <= n <= nodes.len(),
    ensures
        slots(nodes.take(n)) <= slots(nodes),
    decreases nodes.len(),
{
    if n < nodes.len() {
        assert(nodes.drop_last().take(n) =~= nodes.take(n));
        lemma_slots_take(nodes.drop_last(), n);
    } else {
        assert(nodes.take(n) =~= nodes);
    }
}

/// Eviction is depth-first: no node is kept that sheds before one that is
/// evicted, so the deepest go first, and of those as deep the least recently
/// used.
pub proof fn law_eviction_is_depth_first(
    nodes: Nodes,
    low: nat,
    kept: (KeyView, NodeView),
    gone: (KeyView, NodeView),
)
    requires
        shed(nodes, low).contains(kept),
        nodes.contains(gone),
        !shed(nodes, low).contains(gone),
    ensures
        !sheds_before(kept.1, gone.1),
    decreases nodes.len(),
{
    if slots(nodes) > low && nodes.len() > 0 {
        let n = nodes.len() as int;
        lemma_victim(nodes, n);
        let v = victim(nodes, n);
        let rest = nodes.remove(v);
        lemma_shed(rest, low);
        let i = choose|i: int| 0 <= i < shed(rest, low).len() && shed(rest, low)[i] == kept;
        assert(rest.contains(shed(rest, low)[i]));
        let k = choose|k: int| 0 <= k < rest.len() && rest[k] == kept;
        assert(nodes[if k < v {
            k
        } else {
            k + 1
        }] == kept);
        if nodes[v] != gone {
            let g = choose|g: int| 0 <= g < nodes.len() && nodes[g] == gone;
            assert(rest[if g < v {
                g
            } else {
                g - 1
            }] == gone);
            law_eviction_is_depth_first(rest, low, kept, gone);
        }
    }
}

/// No more is evicted than has to be: with the last node that was evicted the
/// nodes would still take up too many slots.
pub proof fn law_eviction_stops_in_time(nodes: Nodes, low: nat)
    requires
        forall|i: int, j: int| 0 <= i < j < nodes.len() ==> nodes[i].0 != nodes[j].0,
    ensures
        shed(nodes, low) == nodes || exists|i: int|
            0 <= i < nodes.len() && !shed(nodes, low).contains(#[trigger] nodes[i]) && slots(
                shed(nodes, low),
            ) + nodes[i].1.cost() > low,
    decreases nodes.len(),
{
    if slots(nodes) > low && nodes.len() > 0 {
        let n = nodes.len() as int;
        lemma_victim(nodes, n);
        let v = victim(nodes, n);
        let rest = nodes.remove(v);
        lemma_slots_remove(nodes, v);
        assert forall|i: int, j: int| 0 <= i < j < rest.len() implies rest[i].0 != rest[j].0 by {
            assert(rest[i] == nodes[if i < v {
                i
            } else {
                i + 1
            }]);
            assert(rest[j] == nodes[if j < v {
                j
            } else {
                j + 1
            }]);
        }
        law_eviction_stops_in_time(rest, low);
        if shed(rest, low) == rest {
            assert(!rest.contains(nodes[v])) by {
                if rest.contains(nodes[v]) {
                    let k = choose|k: int| 0 <= k < rest.len() && rest[k] == nodes[v];
                    assert(rest[k] == nodes[if k < v {
                        k
                    } else {
                        k + 1
                    }]);
                }
            }
            assert(slots(shed(nodes, low)) + nodes[v].1.cost() > low);
        } else {
            let i = choose|i: int|
                0 <= i < rest.len() && !shed(rest, low).contains(#[trigger] rest[i]) && slots(
                    shed(rest, low),
                ) + rest[i].1.cost() > low;
            let j = if i < v {
                i
            } else {
                i + 1
            };
            assert(nodes[j] == rest[i]);
        }
    }
}

/// An eviction removes nothing else: what is kept is what was there.
pub proof fn law_eviction_only_removes(nodes: Nodes, low: nat, kept: (KeyView, NodeView))
    requires
        shed(nodes, low).contains(kept),
    ensures
        nodes.contains(kept),
        slots(shed(nodes, low)) <= low,
{
    lemma_shed(nodes, low);
    let i = choose|i: int| 0 <= i < shed(nodes, low).len() && shed(nodes, low)[i] == kept;
    assert(nodes.contains(shed(nodes, low)[i]));
}

/// A table never grows past its cap, and an entry that it holds stays as it is.
pub proof fn law_table_keeps_its_cap(table: Table, new: Seq<MemberMark>, cap: nat)
    ensures
        table.len() <= merge_table(table, new, cap).0.len(),
        table.len() <= cap ==> merge_table(table, new, cap).0.len() <= cap,
        merge_table(table, new, cap).0.take(table.len() as int) == table,
    decreases new.len(),
{
    assert(table.take(table.len() as int) =~= table);
    if new.len() > 0 {
        if tabled(table, new[0].0) is Some {
            law_table_keeps_its_cap(table, new.drop_first(), cap);
        } else if table.len() < cap {
            let grown = table.push((new[0].0, new[0].2));
            law_table_keeps_its_cap(grown, new.drop_first(), cap);
            let out = merge_table(table, new, cap).0;
            assert(out.take(table.len() as int) =~= out.take(grown.len() as int).take(
                table.len() as int,
            ));
            assert(grown.take(table.len() as int) =~= table);
        }
    }
}

/// A table names nothing twice, whatever is merged into it.
pub proof fn law_table_names_nothing_twice(table: Table, new: Seq<MemberMark>, cap: nat)
    requires
        names_once(table),
    ensures
        names_once(merge_table(table, new, cap).0),
    decreases new.len(),
{
    if new.len() > 0 {
        if tabled(table, new[0].0) is Some {
            law_table_names_nothing_twice(table, new.drop_first(), cap);
        } else if table.len() < cap {
            lemma_untabled(table, new[0].0);
            law_table_names_nothing_twice(
                table.push((new[0].0, new[0].2)),
                new.drop_first(),
                cap,
            );
        }
    }
}

/// A merge keeps a body well-formed and its table within the cap.
pub proof fn lemma_merged_object(
    body: BodyView,
    new: Seq<MemberMark>,
    hint: Option<u64>,
    cap: nat,
)
    requires
        body.wf(),
        body.tabled_count() <= cap,
    ensures
        merged_object(body, new, hint, cap).wf(),
        merged_object(body, new, hint, cap).tabled_count() <= cap,
{
    if let BodyView::Object { members, resume } = body {
        law_table_names_nothing_twice(members, new, cap);
        law_table_keeps_its_cap(members, new, cap);
    }
}

/// A touched node is last in line for eviction among those as deep or deeper: each
/// of them sheds before it, and where an eviction takes it, only shallower nodes
/// are left.
pub proof fn law_a_touched_node_sheds_last(index: IndexView, key: KeyView, low: nat)
    requires
        index.wf(),
        index.tick < u64::MAX,
        lookup(index.nodes, key) is Some,
    ensures
        ({
            let nodes = index.touched(key).nodes;
            let touched = lookup(nodes, key)->0;
            &&& lookup(nodes, key) is Some
            &&& touched.last_used == index.tick + 1
            &&& forall|i: int|
                0 <= i < nodes.len() && (#[trigger] nodes[i]).0 != key && nodes[i].1.depth
                    >= touched.depth ==> sheds_before(nodes[i].1, touched)
            &&& !shed(nodes, low).contains((key, touched)) ==> forall|i: int|
                0 <= i < shed(nodes, low).len() ==> (#[trigger] shed(nodes, low)[i]).1.depth
                    < touched.depth
        }),
{
    let nodes = index.touched(key).nodes;
    let touched = lookup(nodes, key)->0;
    let p = place(index.nodes, key);
    lemma_place(index.nodes, key);
    assert forall|i: int| 0 <= i < p implies (#[trigger] nodes[i]).0 != key by {
        assert(nodes[i] == index.nodes[i]);
    }
    lemma_place_is(nodes, key, p);
    assert(nodes[p] == (key, touched));
    assert forall|i: int|
        0 <= i < nodes.len() && (#[trigger] nodes[i]).0 != key && nodes[i].1.depth
            >= touched.depth implies sheds_before(nodes[i].1, touched) by {
        assert(nodes[i] == index.nodes[i]);
    }
    if !shed(nodes, low).contains((key, touched)) {
        lemma_shed(nodes, low);
        assert forall|i: int| 0 <= i < shed(nodes, low).len() implies (#[trigger] shed(
            nodes,
            low,
        )[i]).1.depth < touched.depth by {
            let kept = shed(nodes, low)[i];
            assert(shed(nodes, low).contains(kept));
            assert(nodes.contains(kept));
            law_eviction_is_depth_first(nodes, low, kept, (key, touched));
            let k = choose|k: int| 0 <= k < nodes.len() && nodes[k] == kept;
            assert(k != p);
            assert(nodes[k].0 == index.nodes[k].0);
            assert(index.nodes[p].0 == key);
        }
    }
}

/// The resume offset of an object never moves back.
pub proof fn law_resume_never_moves_back(
    resume: u64,
    frozen: Option<u64>,
    new: Seq<MemberMark>,
    hint: Option<u64>,
)
    ensures
        resume <= merge_resume(resume, frozen, new, hint),
{
}

} // verus!
