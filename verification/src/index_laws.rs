//! What the structural index keeps over a series of writes: a scan record is written
//! back container by container, an index that is switched off stays empty, and the
//! table of an object stays a dense prefix of its members.

use vstd::prelude::*;

use crate::cache::{
    fresh_body, law_resume_never_moves_back, law_table_keeps_its_cap, lemma_merged_object,
    lemma_place, lemma_shed, lemma_written, lookup, low_water, merge_table, merged_object, place,
    settled, slots, tabled, written, BodyView, IndexView, KeyView, NodeView, Table,
};
use crate::path::Step;
use crate::resolve::{BodyNotes, ContainerKind, ContainerNotes, MemberMark};
use crate::soundness::lemma_tabled_push;

verus! {

// ---- writes

/// One write to an index.
pub enum IndexWrite {
    ObjectScan {
        base_depth: u32,
        key: KeyView,
        value_start: u64,
        members: Seq<MemberMark>,
        resume: Option<u64>,
    },
    ArrayScan { base_depth: u32, key: KeyView, value_start: u64, marks: Seq<(usize, u64)> },
    Close { base_depth: u32, key: KeyView, kind: ContainerKind, value_start: u64, close: u64 },
    ChildCount { base_depth: u32, key: KeyView, kind: ContainerKind, value_start: u64, count: u64 },
}

impl IndexView {
    /// The index after a write.
    pub open spec fn with_write(self, w: IndexWrite) -> IndexView {
        match w {
            IndexWrite::ObjectScan { base_depth, key, value_start, members, resume } =>
                self.with_object_scan(base_depth, key, value_start, members, resume),
            IndexWrite::ArrayScan { base_depth, key, value_start, marks } => self.with_array_scan(
                base_depth,
                key,
                value_start,
                marks,
            ),
            IndexWrite::Close { base_depth, key, kind, value_start, close } => self.with_close(
                base_depth,
                key,
                kind,
                value_start,
                close,
            ),
            IndexWrite::ChildCount { base_depth, key, kind, value_start, count } =>
                self.with_child_count(base_depth, key, kind, value_start, count),
        }
    }

    /// The index after writes, one after the other.
    pub open spec fn with_writes(self, writes: Seq<IndexWrite>) -> IndexView
        decreases writes.len(),
    {
        if writes.len() == 0 {
            self
        } else {
            self.with_write(writes[0]).with_writes(writes.drop_first())
        }
    }
}

/// The write that one container of a scan record stands for: an object scan or an
/// array scan, at the part of the path that leads to the container.
pub open spec fn write_of(
    base_depth: u32,
    anchor: u64,
    path: Seq<Step>,
    c: ContainerNotes,
) -> IndexWrite {
    let key = (anchor, path.take(c.seg as int));
    match c.body {
        BodyNotes::Object(notes) => IndexWrite::ObjectScan {
            base_depth,
            key,
            value_start: c.value_start,
            members: notes.members,
            resume: notes.resume,
        },
        BodyNotes::Array(marks) => IndexWrite::ArrayScan {
            base_depth,
            key,
            value_start: c.value_start,
            marks,
        },
    }
}

/// Writing back a scan record is writing back its object scans and array scans in
/// order, each at the part of the path that leads to its container.
pub proof fn law_a_record_is_its_scans(
    index: IndexView,
    base_depth: u32,
    anchor: u64,
    path: Seq<Step>,
    record: Seq<ContainerNotes>,
)
    ensures
        index.with_record(base_depth, anchor, path, record) == index.with_writes(
            record.map_values(|c: ContainerNotes| write_of(base_depth, anchor, path, c)),
        ),
    decreases record.len(),
{
    let writes = record.map_values(|c: ContainerNotes| write_of(base_depth, anchor, path, c));
    if record.len() > 0 {
        reveal(IndexView::with_container);
        let rest = record.drop_first();
        law_a_record_is_its_scans(
            index.with_container(base_depth, anchor, path, record[0]),
            base_depth,
            anchor,
            path,
            rest,
        );
        assert(writes.drop_first() =~= rest.map_values(
            |c: ContainerNotes| write_of(base_depth, anchor, path, c),
        ));
    }
}

/// An index is switched on if and only if it has a budget and indexes objects or
/// arrays.
pub proof fn law_what_switches_an_index_on(index: IndexView)
    ensures
        index.enabled() <==> index.budget > 0 && (index.cap > 0 || index.interval > 0),
{
}

/// An index that is switched off stays as it is under every write. One that has held
/// nothing knows no node and takes up no slot.
pub proof fn law_a_disabled_index_stays_empty(
    index: IndexView,
    writes: Seq<IndexWrite>,
    key: KeyView,
)
    requires
        !index.enabled(),
    ensures
        index.with_writes(writes) == index,
        index.nodes.len() == 0 ==> {
            &&& lookup(index.with_writes(writes).nodes, key) is None
            &&& slots(index.with_writes(writes).nodes) == 0
        },
    decreases writes.len(),
{
    if writes.len() > 0 {
        law_a_disabled_index_stays_empty(index, writes.drop_first(), key);
    }
    lemma_place(index.nodes, key);
}

// ---- the table of an object

/// `all` lists the members of the object that opens at `open`, in order: no name
/// occurs twice.
pub open spec fn members_of_object(all: Seq<MemberMark>, open: u64) -> bool {
    &&& forall|i: int| 0 <= i < all.len() ==> open < (#[trigger] all[i]).1
    &&& forall|i: int, j: int|
        0 <= i < j < all.len() ==> (#[trigger] all[i]).1 < (#[trigger] all[j]).1
    &&& forall|i: int, j: int|
        0 <= i < j < all.len() ==> (#[trigger] all[i]).0 != (#[trigger] all[j]).0
}

/// The table of a body is a dense prefix of the members of its object: those that
/// begin before the resume offset are all there, nothing else is there that is not a
/// member, and there are no more entries than the cap allows.
pub open spec fn dense_prefix(body: BodyView, all: Seq<MemberMark>, cap: nat) -> bool {
    match body {
        BodyView::Object { members, resume } => {
            &&& members.len() <= cap
            &&& forall|k: int|
                0 <= k < all.len() && (#[trigger] all[k]).1 < resume ==> tabled(members, all[k].0)
                    == Some(all[k].2)
            &&& forall|name: Seq<char>| #[trigger]
                tabled(members, name) is Some ==> is_member(all, name, tabled(members, name)->0)
        },
        BodyView::Array { .. } => false,
    }
}

/// A member of that name has its value at that offset.
pub open spec fn is_member(all: Seq<MemberMark>, name: Seq<char>, value_start: u64) -> bool {
    exists|k: int| 0 <= k < all.len() && (#[trigger] all[k]).0 == name && all[k].2 == value_start
}

/// A scan of an object: the members `from..to`, and where it ended if it knows.
pub struct MemberSpan {
    pub from: int,
    pub to: int,
    pub ended: Option<u64>,
}

/// A scan goes over members one after the other, from one at or before the resume
/// offset on, and ended before the next one.
pub open spec fn scan_fits(all: Seq<MemberMark>, resume: u64, scan: MemberSpan) -> bool {
    &&& 0 <= scan.from <= scan.to <= all.len()
    &&& forall|k: int| 0 <= k < scan.from ==> (#[trigger] all[k]).1 < resume
    &&& scan.ended matches Some(at) ==> forall|k: int|
        scan.to <= k < all.len() ==> at <= (#[trigger] all[k]).1
}

/// The index after scans of the object of a key are written back.
pub open spec fn after_scans(
    index: IndexView,
    base_depth: u32,
    key: KeyView,
    open: u64,
    all: Seq<MemberMark>,
    scans: Seq<MemberSpan>,
) -> IndexView
    decreases scans.len(),
{
    if scans.len() == 0 {
        index
    } else {
        let scan = scans[0];
        after_scans(
            index.with_object_scan(
                base_depth,
                key,
                open,
                all.subrange(scan.from, scan.to),
                scan.ended,
            ),
            base_depth,
            key,
            open,
            all,
            scans.drop_first(),
        )
    }
}

/// Each of the scans starts at or before where the table is dense by then, and the
/// node of the object is not evicted in between.
pub open spec fn scans_fit(
    index: IndexView,
    base_depth: u32,
    key: KeyView,
    open: u64,
    all: Seq<MemberMark>,
    scans: Seq<MemberSpan>,
) -> bool
    decreases scans.len(),
{
    scans.len() > 0 ==> {
        let scan = scans[0];
        let next = index.with_object_scan(
            base_depth,
            key,
            open,
            all.subrange(scan.from, scan.to),
            scan.ended,
        );
        &&& scan_fits(all, resume_of(index, base_depth, key, open), scan)
        &&& lookup(next.nodes, key) is Some
        &&& scans_fit(next, base_depth, key, open, all, scans.drop_first())
    }
}

/// What the index knows of the object of a key, which opens at `open`.
pub open spec fn body_of(index: IndexView, base_depth: u32, key: KeyView, open: u64) -> BodyView {
    index.before_write(key, ContainerKind::Object, open, base_depth).body
}

/// The table of the object of a key.
pub open spec fn table_of(index: IndexView, base_depth: u32, key: KeyView, open: u64) -> Table {
    match body_of(index, base_depth, key, open) {
        BodyView::Object { members, resume } => members,
        BodyView::Array { .. } => Seq::empty(),
    }
}

/// Where a scan of the object of a key resumes.
pub open spec fn resume_of(index: IndexView, base_depth: u32, key: KeyView, open: u64) -> u64 {
    match body_of(index, base_depth, key, open) {
        BodyView::Object { members, resume } => resume,
        BodyView::Array { .. } => 0,
    }
}

/// Before anything is known of an object, its table is a dense prefix.
pub proof fn law_an_unknown_object_has_a_dense_prefix(all: Seq<MemberMark>, open: u64, cap: nat)
    requires
        members_of_object(all, open),
    ensures
        dense_prefix(fresh_body(ContainerKind::Object, open), all, cap),
{
}

/// The table of an object stays a dense prefix of its members over any series of
/// scans: every member that begins before the resume offset is tabled with the offset
/// of its value, there are no more entries than the cap allows, the resume offset
/// never moves back, and nothing that is tabled is lost or changed.
pub proof fn law_the_table_stays_a_dense_prefix(
    index: IndexView,
    base_depth: u32,
    key: KeyView,
    open: u64,
    all: Seq<MemberMark>,
    scans: Seq<MemberSpan>,
)
    requires
        index.wf(),
        index.enabled(),
        members_of_object(all, open),
        dense_prefix(body_of(index, base_depth, key, open), all, index.table_cap()),
        scans_fit(index, base_depth, key, open, all, scans),
    ensures
        ({
            let out = after_scans(index, base_depth, key, open, all, scans);
            &&& dense_prefix(body_of(out, base_depth, key, open), all, index.table_cap())
            &&& resume_of(index, base_depth, key, open) <= resume_of(out, base_depth, key, open)
            &&& forall|name: Seq<char>| #[trigger]
                tabled(table_of(index, base_depth, key, open), name) is Some ==> tabled(
                    table_of(out, base_depth, key, open),
                    name,
                ) == tabled(table_of(index, base_depth, key, open), name)
        }),
    decreases scans.len(),
{
    if scans.len() > 0 {
        let scan = scans[0];
        let new = all.subrange(scan.from, scan.to);
        let cap = index.table_cap();
        let body = body_of(index, base_depth, key, open);
        let next = index.with_object_scan(base_depth, key, open, new, scan.ended);
        lemma_scan_is_merged(index, base_depth, key, open, new, scan.ended);
        lemma_merge_keeps_dense(body, all, open, cap, scan);
        law_the_table_stays_a_dense_prefix(next, base_depth, key, open, all, scans.drop_first());
    }
}

/// A scan that is written back is merged into what was known, if its node is not
/// evicted.
proof fn lemma_scan_is_merged(
    index: IndexView,
    base_depth: u32,
    key: KeyView,
    open: u64,
    new: Seq<MemberMark>,
    ended: Option<u64>,
)
    requires
        index.wf(),
        index.enabled(),
        lookup(index.with_object_scan(base_depth, key, open, new, ended).nodes, key) is Some,
        body_of(index, base_depth, key, open) is Object,
    ensures
        ({
            let next = index.with_object_scan(base_depth, key, open, new, ended);
            &&& next.wf()
            &&& next.enabled()
            &&& next.table_cap() == index.table_cap()
            &&& body_of(next, base_depth, key, open) == merged_object(
                body_of(index, base_depth, key, open),
                new,
                ended,
                index.table_cap(),
            )
        }),
{
    let next = index.with_object_scan(base_depth, key, open, new, ended);
    let before = index.before_write(key, ContainerKind::Object, open, base_depth);
    let node = NodeView {
        body: merged_object(before.body, new, ended, index.table_cap()),
        last_used: (index.tick + 1) as u64,
        ..before
    };
    let nodes = written(index.nodes, key, node);
    lemma_place(index.nodes, key);
    lemma_merged_object(before.body, new, ended, index.table_cap());
    lemma_written(index.nodes, key, node);
    lemma_shed(nodes, low_water(index.budget));
    assert(next.nodes == settled(nodes, index.budget));
    assert(forall|i: int| 0 <= i < next.nodes.len() ==> nodes.contains(#[trigger] next.nodes[i]));
    assert forall|i: int| 0 <= i < next.nodes.len() implies (
    #[trigger] next.nodes[i]).1.body.wf() && next.nodes[i].1.last_used <= next.tick
        && next.nodes[i].1.body.tabled_count() <= next.table_cap() by {
        let x = next.nodes[i];
        let j = choose|j: int| 0 <= j < nodes.len() && nodes[j] == x;
        assert(nodes[j] == (key, node) || index.nodes.contains(nodes[j]));
    }
    lemma_place(next.nodes, key);
    let p = place(next.nodes, key);
    let x = next.nodes[p];
    let j = choose|j: int| 0 <= j < nodes.len() && nodes[j] == x;
    lemma_place(nodes, key);
    let q = place(nodes, key);
    assert(nodes[q] == (key, node));
    assert(j == q);
}

/// Merging a scan that fits keeps a table dense, and loses nothing.
proof fn lemma_merge_keeps_dense(
    body: BodyView,
    all: Seq<MemberMark>,
    open: u64,
    cap: nat,
    scan: MemberSpan,
)
    requires
        members_of_object(all, open),
        dense_prefix(body, all, cap),
        body matches BodyView::Object { members, resume } ==> scan_fits(all, resume, scan),
    ensures
        ({
            let out = merged_object(body, all.subrange(scan.from, scan.to), scan.ended, cap);
            &&& dense_prefix(out, all, cap)
            &&& body->resume <= out->resume
            &&& forall|name: Seq<char>| #[trigger]
                tabled(body->Object_members, name) is Some ==> tabled(out->Object_members, name)
                    == tabled(body->Object_members, name)
        }),
{
    let members = body->Object_members;
    let resume = body->resume;
    let new = all.subrange(scan.from, scan.to);
    let (table, frozen) = merge_table(members, new, cap);
    law_table_keeps_its_cap(members, new, cap);
    law_resume_never_moves_back(resume, frozen, new, scan.ended);
    lemma_merge_table(members, all, scan.from, scan.to, cap);
    let out = merged_object(body, new, scan.ended, cap);
    assert forall|k: int| 0 <= k < all.len() && (#[trigger] all[k]).1 < out->resume implies tabled(
        table,
        all[k].0,
    ) == Some(all[k].2) by {
        if all[k].1 < resume {
            assert(tabled(members, all[k].0) is Some);
        } else if frozen is None {
            if scan.ended is None && k >= scan.to && new.len() > 0 {
                assert(new.last() == all[scan.to - 1]);
            }
        }
    }
}

/// A table that holds members only, with consecutive members merged into it: it holds
/// all of them up to the first that found no place.
proof fn lemma_merge_table(table: Table, all: Seq<MemberMark>, from: int, to: int, cap: nat)
    requires
        0 <= from <= to <= all.len(),
        forall|i: int, j: int|
            0 <= i < j < all.len() ==> (#[trigger] all[i]).1 < (#[trigger] all[j]).1,
        forall|i: int, j: int|
            0 <= i < j < all.len() ==> (#[trigger] all[i]).0 != (#[trigger] all[j]).0,
        forall|name: Seq<char>| #[trigger]
            tabled(table, name) is Some ==> is_member(all, name, tabled(table, name)->0),
    ensures
        ({
            let (out, frozen) = merge_table(table, all.subrange(from, to), cap);
            &&& forall|name: Seq<char>| #[trigger]
                tabled(out, name) is Some ==> is_member(all, name, tabled(out, name)->0)
            &&& forall|name: Seq<char>|
                tabled(table, name) is Some ==> #[trigger] tabled(out, name) == tabled(table, name)
            &&& match frozen {
                None => forall|k: int|
                    from <= k < to ==> tabled(out, (#[trigger] all[k]).0) == Some(all[k].2),
                Some(at) => forall|k: int|
                    from <= k < to && (#[trigger] all[k]).1 < at ==> tabled(out, all[k].0) == Some(
                        all[k].2,
                    ),
            }
            &&& frozen matches Some(at) ==> exists|k: int|
                from <= k < to && (#[trigger] all[k]).1 == at
        }),
    decreases to - from,
{
    let new = all.subrange(from, to);
    if from < to {
        assert(new[0] == all[from]);
        assert(new.drop_first() =~= all.subrange(from + 1, to));
        if tabled(table, new[0].0) is Some {
            assert(is_member(all, all[from].0, tabled(table, all[from].0)->0));
            lemma_merge_table(table, all, from + 1, to, cap);
        } else if table.len() < cap {
            let grown = table.push((new[0].0, new[0].2));
            assert forall|name: Seq<char>| #[trigger] tabled(grown, name) == (if tabled(
                table,
                name,
            ) is Some {
                tabled(table, name)
            } else if name == all[from].0 {
                Some(all[from].2)
            } else {
                None
            }) by {
                lemma_tabled_push(table, (new[0].0, new[0].2), name);
            }
            lemma_merge_table(grown, all, from + 1, to, cap);
            assert(tabled(grown, all[from].0) == Some(all[from].2));
        }
    }
}

} // verus!
