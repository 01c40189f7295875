//! What an index remembers: what is written into it is read back from it, as long as it is
//! not evicted, and a lookup goes by what was written.

use vstd::prelude::*;

use crate::bounds::{law_what_nodes_cost, members_held};
use crate::cache::{
    ascending, hop, lemma_merge_members, lemma_place, lemma_rank_split, lemma_slots_push,
    lemma_slots_update, lemma_touched, lemma_touched_hops, lemma_with_member, lemma_written, lookup,
    merge_members, merge_resume, merge_table, merged_object, nearest, place, rank, slots, tabled,
    with_member, written, BodyView, Hop, IndexView, KeyView, NodeView, Table,
};
use crate::index_cache::{trimmed, weights, CacheView, Frontier};
use crate::count::child_count;
use crate::path::Step;
use crate::query::{CountingView, ExtentState, LocatingView, ResolvingView};
use crate::resolve::{
    cold_record, container_at, cursor_at, law_cold_resolution, locate, ContainerKind,
    ContainerNotes, MemberMark, ResumePoint, ValueLocation,
};
use crate::session::SessionView;
use crate::stream::{BatchEnd, BatchView, StreamView};

verus! {

// ---- tables

/// A table gives the offset that stands first under a name.
pub proof fn law_a_table_goes_by_name(table: Table, name: Seq<char>)
    ensures
        match tabled(table, name) {
            Some(v) => exists|i: int|
                0 <= i < table.len() && #[trigger] table[i] == (name, v) && forall|j: int|
                    0 <= j < i ==> (#[trigger] table[j]).0 != name,
            None => forall|i: int| 0 <= i < table.len() ==> (#[trigger] table[i]).0 != name,
        },
    decreases table.len(),
{
    if table.len() > 0 {
        if table[0].0 == name {
            assert(table[0] == (name, tabled(table, name)->0));
        } else {
            let rest = table.drop_first();
            law_a_table_goes_by_name(rest, name);
            match tabled(table, name) {
                Some(v) => {
                    let i = choose|i: int|
                        0 <= i < rest.len() && #[trigger] rest[i] == (name, v) && forall|j: int|
                            0 <= j < i ==> (#[trigger] rest[j]).0 != name;
                    assert(table[i + 1] == (name, v));
                    assert forall|j: int| 0 <= j < i + 1 implies (#[trigger] table[j]).0
                        != name by {
                        if j > 0 {
                            assert(rest[j - 1] == table[j]);
                        }
                    }
                },
                None => {
                    assert forall|i: int| 0 <= i < table.len() implies (#[trigger] table[i]).0
                        != name by {
                        if i > 0 {
                            assert(rest[i - 1] == table[i]);
                        }
                    }
                },
            }
        }
    }
}

/// Whether a table has an entry under a name.
pub open spec fn has_name(table: Table, name: Seq<char>) -> bool {
    exists|i: int| 0 <= i < table.len() && (#[trigger] table[i]).0 == name
}

/// A table takes the members that are new to it, in order and with the offsets of their
/// values, until it is full; the first one that it then has no room for is named by where
/// it begins.
pub proof fn law_a_table_takes_what_is_new(table: Table, new: Seq<MemberMark>, cap: nat)
    ensures
        ({
            let (out, frozen) = merge_table(table, new, cap);
            &&& out.len() >= table.len()
            &&& out.take(table.len() as int) == table
            &&& match frozen {
                None => forall|k: int|
                    0 <= k < new.len() ==> has_name(out, (#[trigger] new[k]).0),
                Some(at) => out.len() >= cap && exists|n: int|
                    0 <= n < new.len() && (#[trigger] new[n]).1 == at && !has_name(out, new[n].0)
                        && forall|k: int| 0 <= k < n ==> has_name(out, (#[trigger] new[k]).0),
            }
            &&& forall|i: int|
                table.len() <= i < out.len() ==> exists|k: int|
                    0 <= k < new.len() && #[trigger] out[i] == (new[k].0, (#[trigger] new[k]).2)
            &&& table.len() + new.len() <= cap ==> frozen is None
        }),
    decreases new.len(),
{
    let (out, frozen) = merge_table(table, new, cap);
    if new.len() == 0 {
        assert(out.take(table.len() as int) =~= table);
    } else {
        let rest = new.drop_first();
        law_a_table_goes_by_name(table, new[0].0);
        if tabled(table, new[0].0) is Some {
            law_a_table_takes_what_is_new(table, rest, cap);
            let v = tabled(table, new[0].0)->0;
            let i = choose|i: int| 0 <= i < table.len() && #[trigger] table[i] == (new[0].0, v);
            assert(out.take(table.len() as int)[i] == table[i]);
            assert(out[i].0 == new[0].0);
            assert(has_name(out, new[0].0));
            lemma_taken(table, table, new, out, frozen, cap);
        } else if table.len() >= cap {
            assert(out.take(table.len() as int) =~= table);
            assert(new[0].1 == frozen->0);
        } else {
            let more = table.push((new[0].0, new[0].2));
            law_a_table_takes_what_is_new(more, rest, cap);
            let n = table.len() as int;
            assert(out.take(more.len() as int)[n] == more[n]);
            assert(out[n] == (new[0].0, new[0].2));
            assert(has_name(out, new[0].0));
            assert(out.take(n) =~= table) by {
                assert forall|i: int| 0 <= i < n implies out.take(n)[i] == table[i] by {
                    assert(out.take(more.len() as int)[i] == more[i]);
                }
            }
            lemma_taken(table, more, new, out, frozen, cap);
        }
    }
}

proof fn lemma_taken(
    table: Table,
    more: Table,
    new: Seq<MemberMark>,
    out: Table,
    frozen: Option<u64>,
    cap: nat,
)
    requires
        new.len() > 0,
        more == table || more == table.push((new[0].0, new[0].2)),
        has_name(out, new[0].0),
        more.len() <= out.len(),
        more != table ==> out[table.len() as int] == (new[0].0, new[0].2),
        ({
            let rest = new.drop_first();
            &&& match frozen {
                None => forall|k: int|
                    0 <= k < rest.len() ==> has_name(out, (#[trigger] rest[k]).0),
                Some(at) => out.len() >= cap && exists|n: int|
                    0 <= n < rest.len() && (#[trigger] rest[n]).1 == at && !has_name(
                        out,
                        rest[n].0,
                    ) && forall|k: int| 0 <= k < n ==> has_name(out, (#[trigger] rest[k]).0),
            }
            &&& forall|i: int|
                more.len() <= i < out.len() ==> exists|k: int|
                    0 <= k < rest.len() && #[trigger] out[i] == (rest[k].0, (#[trigger] rest[k]).2)
        }),
    ensures
        match frozen {
            None => forall|k: int| 0 <= k < new.len() ==> has_name(out, (#[trigger] new[k]).0),
            Some(at) => out.len() >= cap && exists|n: int|
                0 <= n < new.len() && (#[trigger] new[n]).1 == at && !has_name(out, new[n].0)
                    && forall|k: int| 0 <= k < n ==> has_name(out, (#[trigger] new[k]).0),
        },
        forall|i: int|
            table.len() <= i < out.len() ==> exists|k: int|
                0 <= k < new.len() && #[trigger] out[i] == (new[k].0, (#[trigger] new[k]).2),
{
    let rest = new.drop_first();
    match frozen {
        None => {
            assert forall|k: int| 0 <= k < new.len() implies has_name(
                out,
                (#[trigger] new[k]).0,
            ) by {
                if k > 0 {
                    assert(rest[k - 1] == new[k]);
                }
            }
        },
        Some(at) => {
            let n = choose|n: int|
                0 <= n < rest.len() && (#[trigger] rest[n]).1 == at && !has_name(out, rest[n].0)
                    && forall|k: int| 0 <= k < n ==> has_name(out, (#[trigger] rest[k]).0);
            assert(new[n + 1] == rest[n]);
            assert forall|k: int| 0 <= k < n + 1 implies has_name(out, (#[trigger] new[k]).0) by {
                if k > 0 {
                    assert(rest[k - 1] == new[k]);
                }
            }
        },
    }
    assert forall|i: int| table.len() <= i < out.len() implies exists|k: int|
        0 <= k < new.len() && #[trigger] out[i] == (new[k].0, (#[trigger] new[k]).2) by {
        if i < more.len() {
            assert(out[i] == (new[0].0, new[0].2));
        } else {
            let k = choose|k: int|
                0 <= k < rest.len() && #[trigger] out[i] == (rest[k].0, (#[trigger] rest[k]).2);
            assert(new[k + 1] == rest[k]);
        }
    }
}

/// A scan resumes at the latest of where it did so far and where the new one got to: at the
/// member that the table has no room for, at the place that is given, or at the last member
/// that was passed.
pub proof fn law_where_a_scan_resumes(
    resume: u64,
    frozen: Option<u64>,
    new: Seq<MemberMark>,
    hint: Option<u64>,
)
    ensures
        ({
            let out = merge_resume(resume, frozen, new, hint);
            &&& out >= resume
            &&& frozen matches Some(at) ==> out >= at && (out == at || out == resume)
            &&& frozen is None && hint is Some ==> out >= hint->0 && (out == hint->0 || out
                == resume)
            &&& frozen is None && hint is None && new.len() > 0 ==> out >= new.last().1 && (out
                == new.last().1 || out == resume)
            &&& frozen is None && hint is None && new.len() == 0 ==> out == resume
        }),
{
}

// ---- landmarks

/// The landmark for an element is the last one that does not lie behind it.
pub proof fn law_the_nearest_landmark(members: Seq<(usize, u64)>, target: usize)
    requires
        forall|i: int, j: int| 0 <= i < j < members.len() ==> members[i].0 < members[j].0,
    ensures
        match nearest(members, target) {
            Some(m) => members.contains(m) && m.0 <= target && forall|i: int|
                0 <= i < members.len() && (#[trigger] members[i]).0 <= target ==> members[i].0
                    <= m.0,
            None => forall|i: int| 0 <= i < members.len() ==> (#[trigger] members[i]).0 > target,
        },
    decreases members.len(),
{
    if members.len() > 0 {
        let rest = members.drop_last();
        if members.last().0 > target {
            law_the_nearest_landmark(rest, target);
            if let Some(m) = nearest(members, target) {
                let k = choose|k: int| 0 <= k < rest.len() && rest[k] == m;
                assert(members[k] == m);
            }
            assert forall|i: int|
                0 <= i < members.len() && (#[trigger] members[i]).0 <= target implies i
                < rest.len() && rest[i] == members[i] by {}
            assert forall|i: int| 0 <= i < rest.len() implies #[trigger] rest[i] == members[i] by {}
        } else {
            assert(members[members.len() - 1] == members.last());
        }
    }
}

/// Whether an element has a landmark.
pub open spec fn has_landmark(members: Seq<(usize, u64)>, index: usize) -> bool {
    exists|i: int| 0 <= i < members.len() && (#[trigger] members[i]).0 == index
}

proof fn lemma_one_landmark(members: Seq<(usize, u64)>, m: (usize, u64))
    requires
        ascending(members),
    ensures
        ascending(with_member(members, m)),
        has_landmark(with_member(members, m), m.0),
        forall|x: (usize, u64)| #[trigger]
            members.contains(x) ==> with_member(members, m).contains(x),
{
    lemma_with_member(members, m);
    lemma_rank_split(members, m.0);
    let p = rank(members, m.0);
    let out = with_member(members, m);
    let had = p < members.len() && members[p].0 == m.0;
    assert(p < out.len() && out[p].0 == m.0);
    assert forall|x: (usize, u64)| #[trigger] members.contains(x) implies out.contains(x) by {
        let i = choose|i: int| 0 <= i < members.len() && members[i] == x;
        if had || i < p {
            assert(out[i] == x);
        } else {
            assert(out[i + 1] == x);
        }
    }
}

/// Landmarks stay in order; none is lost or changed by new ones, each element of the new
/// ones has one afterwards, and there are no others.
pub proof fn law_landmarks_are_kept(members: Seq<(usize, u64)>, new: Seq<(usize, u64)>)
    requires
        forall|i: int, j: int| 0 <= i < j < members.len() ==> members[i].0 < members[j].0,
    ensures
        ({
            let out = merge_members(members, new);
            &&& forall|i: int, j: int| 0 <= i < j < out.len() ==> out[i].0 < out[j].0
            &&& forall|x: (usize, u64)| #[trigger] members.contains(x) ==> out.contains(x)
            &&& forall|k: int| 0 <= k < new.len() ==> has_landmark(out, (#[trigger] new[k]).0)
            &&& forall|x: (usize, u64)| #[trigger]
                out.contains(x) ==> members.contains(x) || new.contains(x)
        }),
    decreases new.len(),
{
    let out = merge_members(members, new);
    assert(ascending(members));
    lemma_merge_members(members, new);
    assert(ascending(out));
    if new.len() > 0 {
        let m = new[0];
        let mid = with_member(members, m);
        let rest = new.drop_first();
        lemma_one_landmark(members, m);
        law_landmarks_are_kept(mid, rest);
        assert forall|k: int| 0 <= k < new.len() implies has_landmark(
            out,
            (#[trigger] new[k]).0,
        ) by {
            if k > 0 {
                assert(rest[k - 1] == new[k]);
            } else {
                let p = choose|p: int| 0 <= p < mid.len() && (#[trigger] mid[p]).0 == m.0;
                assert(mid.contains(mid[p]));
                assert(out.contains(mid[p]));
                let i = choose|i: int| 0 <= i < out.len() && out[i] == mid[p];
                assert(out[i].0 == m.0);
            }
        }
    }
}

/// A step into an object goes where its table says, or on from where its scan resumes; a
/// step into an array starts from its landmark; and what is known of the other kind of
/// container is of no use.
pub proof fn law_where_a_step_starts(body: BodyView, name: Seq<char>, index: usize)
    ensures
        match body {
            BodyView::Object { members, resume } => {
                &&& tabled(members, name) matches Some(v) ==> hop(body, Step::Member(name))
                    == Hop::Into(v)
                &&& tabled(members, name) is None ==> hop(body, Step::Member(name)) == Hop::Stop(
                    Some(ResumePoint::Object { offset: resume }),
                )
                &&& hop(body, Step::Element(index)) == Hop::Stop(None)
            },
            BodyView::Array { members } => {
                &&& nearest(members, index) matches Some(m) ==> hop(body, Step::Element(index))
                    == Hop::Stop(Some(ResumePoint::Array { index: m.0, offset: m.1 }))
                &&& nearest(members, index) is None ==> hop(body, Step::Element(index))
                    == Hop::Stop(None)
                &&& hop(body, Step::Member(name)) == Hop::Stop(None)
            },
        },
{
}

// ---- nodes

/// A lookup gives the node that stands under a key, where no key stands twice.
pub proof fn law_a_lookup_goes_by_key(index: IndexView, key: KeyView, node: NodeView)
    requires
        index.wf(),
    ensures
        lookup(index.nodes, key) == Some(node) <==> index.nodes.contains((key, node)),
{
    lemma_place(index.nodes, key);
    let p = place(index.nodes, key);
    if lookup(index.nodes, key) == Some(node) {
        assert(index.nodes[p] == (key, node));
    }
    if index.nodes.contains((key, node)) {
        let i = choose|i: int| 0 <= i < index.nodes.len() && index.nodes[i] == (key, node);
        assert(p <= i);
    }
}

/// A lookup marks every node that it goes by as used, in the order in which it comes to
/// them: those that it hops through and the one that it starts from.
pub proof fn law_a_lookup_marks_what_it_uses(
    index: IndexView,
    anchor: u64,
    path: Seq<Step>,
    seg: int,
    start: u64,
    n: int,
)
    requires
        0 <= seg <= n <= index.hops(anchor, path, seg, start).1,
        n < path.len(),
        index.tick + path.len() - seg < u64::MAX,
    ensures
        match lookup(index.nodes, (anchor, path.take(n))) {
            Some(node) => lookup(
                index.hopped(anchor, path, seg).nodes,
                (anchor, path.take(n)),
            ) == Some(NodeView { last_used: (index.tick + 1 + n - seg) as u64, ..node }),
            None => lookup(index.hopped(anchor, path, seg).nodes, (anchor, path.take(n))) is None,
        },
    decreases path.len() - seg,
{
    let key = (anchor, path.take(seg));
    if let Some(node) = lookup(index.nodes, key) {
        let touched = index.touched(key);
        lemma_marked(index, key);
        if let Hop::Into(v) = hop(node.body, path[seg]) {
            lemma_touched_hops(index, key, anchor, path, seg + 1, v);
            if n > seg {
                law_a_lookup_marks_what_it_uses(touched, anchor, path, seg + 1, v, n);
                assert(path.take(n).len() != path.take(seg).len());
            } else {
                lemma_outer_stays(touched, anchor, path, seg + 1, key);
            }
        }
    }
}

proof fn lemma_marked(index: IndexView, key: KeyView)
    ensures
        lookup(index.touched(key).nodes, key) == (match lookup(index.nodes, key) {
            Some(node) => Some(NodeView { last_used: (index.tick + 1) as u64, ..node }),
            None => None,
        }),
        forall|k: KeyView|
            k != key ==> #[trigger] lookup(index.touched(key).nodes, k) == lookup(index.nodes, k),
{
    lemma_touched(index, key);
    lemma_place(index.nodes, key);
    assert(place(index.touched(key).nodes, key) == place(index.nodes, key));
    assert forall|k: KeyView| k != key implies #[trigger] lookup(index.touched(key).nodes, k)
        == lookup(index.nodes, k) by {
        lemma_place(index.nodes, k);
        assert(place(index.touched(key).nodes, k) == place(index.nodes, k));
    }
}

proof fn lemma_outer_stays(
    index: IndexView,
    anchor: u64,
    path: Seq<Step>,
    seg: int,
    outer: KeyView,
)
    requires
        0 <= seg <= path.len(),
        outer.1.len() < seg,
    ensures
        lookup(index.hopped(anchor, path, seg).nodes, outer) == lookup(index.nodes, outer),
    decreases path.len() - seg,
{
    if seg < path.len() {
        let key = (anchor, path.take(seg));
        if let Some(node) = lookup(index.nodes, key) {
            lemma_marked(index, key);
            assert(key.1.len() != outer.1.len());
            if let Hop::Into(v) = hop(node.body, path[seg]) {
                lemma_outer_stays(index.touched(key), anchor, path, seg + 1, outer);
            }
        }
    }
}

/// Whether an index has room for one more node that tables so many members.
pub open spec fn has_room_for(index: IndexView, members: nat) -> bool {
    index.nodes.len() + members_held(index.nodes) + 1 + members <= index.budget
}

proof fn lemma_kept(index: IndexView, key: KeyView, node: NodeView, more: nat)
    requires
        index.wf(),
        has_room_for(index, more),
        match lookup(index.nodes, key) {
            Some(was) => node.cost() <= was.cost() + more,
            None => node.cost() <= 1 + more,
        },
    ensures
        index.after_write(key, node).nodes == written(
            index.nodes,
            key,
            NodeView { last_used: (index.tick + 1) as u64, ..node },
        ),
{
    law_what_nodes_cost(index.nodes);
    lemma_place(index.nodes, key);
    let made = NodeView { last_used: (index.tick + 1) as u64, ..node };
    let p = place(index.nodes, key);
    if p < index.nodes.len() {
        lemma_slots_update(index.nodes, p, (key, made));
    } else {
        lemma_slots_push(index.nodes, (key, made));
    }
}

/// The close and the child count of a container, once written, are read back; the rest of
/// what is known of it stays, and so does what is known of every other one.
pub proof fn law_what_is_stored_is_read_back(
    index: IndexView,
    base_depth: u32,
    key: KeyView,
    kind: ContainerKind,
    value_start: u64,
    n: u64,
    other: KeyView,
)
    requires
        index.wf(),
        index.tick < u64::MAX,
        index.budget > 0,
        index.cap > 0 || index.interval > 0,
        has_room_for(index, 0),
        other != key,
    ensures
        ({
            let was = index.before_write(key, kind, value_start, base_depth);
            let closed = index.with_close(base_depth, key, kind, value_start, n);
            let counted = index.with_child_count(base_depth, key, kind, value_start, n);
            &&& lookup(closed.nodes, key) == Some(
                NodeView { close: Some(n), last_used: (index.tick + 1) as u64, ..was },
            )
            &&& lookup(counted.nodes, key) == Some(
                NodeView { child_count: Some(n), last_used: (index.tick + 1) as u64, ..was },
            )
            &&& lookup(closed.nodes, other) == lookup(index.nodes, other)
            &&& lookup(counted.nodes, other) == lookup(index.nodes, other)
            &&& closed.tick == index.tick + 1 && counted.tick == index.tick + 1
            &&& lookup(index.nodes, key) matches Some(node) ==> was == node
        }),
{
    let was = index.before_write(key, kind, value_start, base_depth);
    let a = NodeView { close: Some(n), ..was };
    let b = NodeView { child_count: Some(n), ..was };
    lemma_kept(index, key, a, 0);
    lemma_kept(index, key, b, 0);
    lemma_written(index.nodes, key, NodeView { last_used: (index.tick + 1) as u64, ..a });
    lemma_written(index.nodes, key, NodeView { last_used: (index.tick + 1) as u64, ..b });
}

/// What a scan found of a container is read back, put together with what was known of it;
/// what is known of every other container stays.
pub proof fn law_what_is_scanned_is_read_back(
    index: IndexView,
    base_depth: u32,
    key: KeyView,
    value_start: u64,
    marks: Seq<MemberMark>,
    resume: Option<u64>,
    landmarks: Seq<(usize, u64)>,
    other: KeyView,
)
    requires
        index.wf(),
        index.tick < u64::MAX,
        index.budget > 0,
        index.cap > 0 || index.interval > 0,
        has_room_for(index, marks.len()),
        other != key,
    ensures
        ({
            let now = index.with_object_scan(base_depth, key, value_start, marks, resume).nodes;
            let was = index.before_write(key, ContainerKind::Object, value_start, base_depth);
            &&& lookup(now, other) == lookup(index.nodes, other)
            &&& lookup(now, key) matches Some(node) && node.value_start == was.value_start
                && node.depth == was.depth && node.close == was.close && node.child_count
                == was.child_count && match (was.body, node.body) {
                (
                    BodyView::Object { members: old_table, resume: old_resume },
                    BodyView::Object { members: new_table, resume: new_resume },
                ) => {
                    let (table, frozen) = merge_table(old_table, marks, index.table_cap());
                    new_table == table && new_resume == merge_resume(
                        old_resume,
                        frozen,
                        marks,
                        resume,
                    )
                },
                (a, b) => a == b,
            }
        }),
        ({
            let now = index.with_array_scan(base_depth, key, value_start, landmarks).nodes;
            let was = index.before_write(key, ContainerKind::Array, value_start, base_depth);
            &&& lookup(now, other) == lookup(index.nodes, other)
            &&& lookup(now, key) matches Some(node) && node.value_start == was.value_start
                && node.depth == was.depth && node.close == was.close && node.child_count
                == was.child_count && match (was.body, node.body) {
                (
                    BodyView::Array { members: old_marks },
                    BodyView::Array { members: new_marks },
                ) => new_marks == merge_members(old_marks, landmarks),
                (a, b) => a == b,
            }
        }),
{
    let was = index.before_write(key, ContainerKind::Object, value_start, base_depth);
    let a = NodeView {
        body: merged_object(was.body, marks, resume, index.table_cap()),
        ..was
    };
    if let BodyView::Object { members, resume: r } = was.body {
        lemma_table_grows(members, marks, index.table_cap());
    }
    lemma_kept(index, key, a, marks.len());
    lemma_written(index.nodes, key, NodeView { last_used: (index.tick + 1) as u64, ..a });
    let before = index.before_write(key, ContainerKind::Array, value_start, base_depth);
    let b = NodeView { body: crate::cache::merged_array(before.body, landmarks), ..before };
    lemma_kept(index, key, b, marks.len());
    lemma_written(index.nodes, key, NodeView { last_used: (index.tick + 1) as u64, ..b });
}

proof fn lemma_table_grows(table: Table, new: Seq<MemberMark>, cap: nat)
    ensures
        merge_table(table, new, cap).0.len() <= table.len() + new.len(),
    decreases new.len(),
{
    if new.len() > 0 {
        let rest = new.drop_first();
        lemma_table_grows(table, rest, cap);
        lemma_table_grows(table.push((new[0].0, new[0].2)), rest, cap);
    }
}

/// A session knows the place and the child count of a container once they were stored.
pub proof fn law_a_session_knows_what_it_stored(
    session: SessionView,
    base_depth: u32,
    key: KeyView,
    kind: ContainerKind,
    value_start: u64,
    n: u64,
)
    requires
        session.index.wf(),
        session.index.tick < u64::MAX,
        session.index.budget > 0,
        session.index.cap > 0 || session.index.interval > 0,
        has_room_for(session.index, 0),
    ensures
        ({
            let index = session.index;
            let start = match lookup(index.nodes, key) {
                Some(node) => node.value_start,
                None => value_start,
            };
            let closed = session.with_index(
                index.with_close(base_depth, key, kind, value_start, n),
            );
            let counted = session.with_index(
                index.with_child_count(base_depth, key, kind, value_start, n),
            );
            &&& closed.cached_location(key) == Some(ValueLocation { start, end: n })
            &&& counted.cached_child_count(key) == Some(n)
            &&& closed.cached_child_count(key) == session.cached_child_count(key)
            &&& counted.cached_location(key) == session.cached_location(key)
        }),
{
    let other = (key.0, key.1.push(Step::Element(0)));
    assert(other.1.len() != key.1.len());
    law_what_is_stored_is_read_back(session.index, base_depth, key, kind, value_start, n, other);
}

/// A stream notes elements at the stride that the session was made with, and none where the
/// index is switched off.
pub proof fn law_at_what_stride_elements_are_noted(session: SessionView)
    ensures
        session.index.budget > 0 ==> session.sampling_interval() == session.index.interval,
        session.index.budget == 0 ==> session.sampling_interval() == 0,
{
}

/// A session's lookups note members where the index tables members, and elements at its
/// stride; and they begin at the anchor where the index holds nothing.
pub proof fn law_what_a_lookup_notes(session: SessionView, key: KeyView, base_depth: u32)
    ensures
        ({
            let q = LocatingView::begun(session, key, base_depth);
            &&& q.state.notes_objects() <==> session.index.cap > 0
            &&& q.state.notes_stride() == session.index.interval
            &&& q.key == key && q.base_depth == base_depth
            &&& session.index.nodes.len() == 0 ==> q.state.seg == 0 && q.state.start == key.0
                && q.state.seed is None
        }),
{
    lemma_place(session.index.nodes, (key.0, key.1.take(0)));
}

/// A lookup over an index that holds nothing writes back what it noted of each container on
/// the way, if the document is not at fault; otherwise it leaves the session as it is.
pub proof fn law_a_first_lookup_is_written_back(
    doc: Seq<u8>,
    session: SessionView,
    key: KeyView,
    base_depth: u32,
)
    requires
        doc.len() <= u64::MAX,
        key.1.len() <= usize::MAX,
        session.index.nodes.len() == 0,
        session.index.cap > 0 || session.index.interval > 0,
    ensures
        ({
            let objects = session.index.cap > 0;
            let stride = session.index.interval as int;
            let after = LocatingView::begun(session, key, base_depth).answer(doc, session).1;
            match locate(doc, key.1, 0, key.0, objects) {
                Ok(_) => after.index == session.index.with_record(
                    base_depth,
                    key.0,
                    key.1,
                    cold_record(doc, key.1, 0, key.0, objects, stride),
                ),
                Err(_) => after == session,
            }
        }),
{
    let q = LocatingView::begun(session, key, base_depth);
    law_what_a_lookup_notes(session, key, base_depth);
    law_cold_resolution(doc, key.1, q.state);
    let r = cold_record(
        doc,
        key.1,
        0,
        key.0,
        session.index.cap > 0,
        session.index.interval as int,
    );
    assert(Seq::<ContainerNotes>::empty() + r =~= r);
}

/// A container that was counted is known by its count from then on.
pub proof fn law_a_count_is_remembered(
    doc: Seq<u8>,
    q: LocatingView,
    start: u64,
    session: SessionView,
)
    requires
        doc.len() <= u64::MAX,
        session.index.wf(),
        session.index.tick < u64::MAX,
        session.index.budget > 0,
        session.index.cap > 0 || session.index.interval > 0,
        has_room_for(session.index, 0),
        container_at(doc, start as int) matches Ok(Some(_)),
    ensures
        ({
            let (n, after) = CountingView::Entering(q, start).answer(doc, session);
            n matches Ok(n) ==> after.cached_child_count(q.key) == Some(n as u64)
        }),
{
    if let Ok(Some(cursor)) = cursor_at(doc, start as int) {
        let open = (cursor.next_offset - 1) as u64;
        if let Ok(n) = child_count(doc, cursor.next_offset as int) {
            law_a_session_knows_what_it_stored(
                session,
                q.base_depth,
                q.key,
                cursor.kind,
                open,
                n as u64,
            );
        }
    }
}

/// A container whose end was looked for is known by its place from then on.
pub proof fn law_an_extent_is_remembered(
    doc: Seq<u8>,
    q: LocatingView,
    x: ExtentState,
    session: SessionView,
)
    requires
        session.index.wf(),
        session.index.tick < u64::MAX,
        session.index.budget > 0,
        session.index.cap > 0 || session.index.interval > 0,
        has_room_for(session.index, 0),
        lookup(session.index.nodes, q.key) is None,
        x.answer(doc) matches Ok(extent) && extent.kind is Some,
    ensures
        ({
            let r = ResolvingView { locating: q, extent: Some(x) };
            let (found, after) = r.answer(doc, session);
            found matches Ok(Some(at)) && after.cached_location(q.key) == Some(at)
        }),
{
    let extent = x.answer(doc)->Ok_0;
    law_a_session_knows_what_it_stored(
        session,
        q.base_depth,
        q.key,
        extent.kind->0,
        extent.location.start,
        extent.location.end,
    );
}

/// A stream that came to the end of its container leaves behind how many children it gave
/// and where the container closes, besides the landmarks; one that did not leaves the
/// landmarks alone.
pub proof fn law_what_a_batch_leaves(
    stream: StreamView,
    session: SessionView,
    end: BatchEnd,
    batch: BatchView,
    open: u64,
)
    requires
        session.index.wf(),
        session.index.tick + 2 < u64::MAX,
        session.index.budget > 0,
        session.index.cap > 0 || session.index.interval > 0,
        has_room_for(session.index, 0),
        lookup(session.index.nodes, stream.key) is None,
        stream.base == Some(open),
        stream.base_depth + stream.key.1.len() <= u32::MAX,
    ensures
        ({
            let after = stream.stored(session, end, batch);
            &&& end is Exhausted ==> after.cached_child_count(stream.key) == Some(
                batch.yielded as u64,
            ) && after.cached_location(stream.key) == Some(
                ValueLocation { start: open, end: (batch.cursor.next_offset + 1) as u64 },
            )
            &&& !(end is Exhausted) && batch.landmarks.len() == 0 ==> after == session
            &&& !(end is Exhausted) ==> after.cached_child_count(stream.key) is None
                && after.cached_location(stream.key) is None
            &&& !(end is Exhausted) && batch.landmarks.len() > 0 ==> (lookup(
                after.index.nodes,
                stream.key,
            ) matches Some(node) && node.body == (BodyView::Array {
                members: merge_members(Seq::empty(), batch.landmarks),
            }))
        }),
{
    let index = session.index;
    let key = stream.key;
    let depth = stream.base_depth;
    let kind = batch.cursor.kind;
    let close = (batch.cursor.next_offset + 1) as u64;
    let other = (key.0, key.1.push(Step::Element(0)));
    assert(other.1.len() != key.1.len());
    let none = Seq::<MemberMark>::empty();
    law_what_nodes_cost(index.nodes);
    if end is Exhausted {
        let a = index.with_child_count(depth, key, kind, open, batch.yielded as u64);
        law_what_is_stored_is_read_back(
            index,
            depth,
            key,
            kind,
            open,
            batch.yielded as u64,
            other,
        );
        let fresh = index.before_write(key, kind, open, depth);
        let counted = NodeView { child_count: Some(batch.yielded as u64), ..fresh };
        lemma_stays(index, key, counted);
        let b = a.with_close(depth, key, kind, open, close);
        let was = a.before_write(key, kind, open, depth);
        let closed = NodeView { close: Some(close), ..was };
        lemma_stays(a, key, closed);
        if batch.landmarks.len() > 0 {
            let before = b.before_write(key, ContainerKind::Array, open, depth);
            let noted = NodeView {
                body: crate::cache::merged_array(before.body, batch.landmarks),
                ..before
            };
            lemma_stays(b, key, noted);
        }
    } else if batch.landmarks.len() > 0 {
        law_what_is_scanned_is_read_back(
            index,
            depth,
            key,
            open,
            none,
            None,
            batch.landmarks,
            other,
        );
    }
}

/// A node that is written without tabling more than it did, or as a new one that tables
/// nothing, stays where there is room for it.
proof fn lemma_stays(index: IndexView, key: KeyView, node: NodeView)
    requires
        forall|i: int, j: int|
            0 <= i < j < index.nodes.len() ==> index.nodes[i].0 != index.nodes[j].0,
        match lookup(index.nodes, key) {
            Some(was) => slots(index.nodes) <= index.budget && node.cost() == was.cost(),
            None => slots(index.nodes) + 1 <= index.budget && node.cost() == 1,
        },
    ensures
        ({
            let after = index.after_write(key, node);
            &&& lookup(after.nodes, key) == Some(
                NodeView { last_used: (index.tick + 1) as u64, ..node },
            )
            &&& slots(after.nodes) <= after.budget
            &&& forall|i: int, j: int|
                0 <= i < j < after.nodes.len() ==> after.nodes[i].0 != after.nodes[j].0
        }),
{
    lemma_place(index.nodes, key);
    let made = NodeView { last_used: (index.tick + 1) as u64, ..node };
    let p = place(index.nodes, key);
    if p < index.nodes.len() {
        lemma_slots_update(index.nodes, p, (key, made));
    } else {
        lemma_slots_push(index.nodes, (key, made));
    }
    lemma_written(index.nodes, key, made);
}

// ---- the cache of containers

/// How many members the nodes of a cache hold together.
pub open spec fn cached_members(nodes: crate::index_cache::Nodes) -> nat
    decreases nodes.len(),
{
    if nodes.len() == 0 {
        0
    } else {
        cached_members(nodes.drop_last()) + nodes.last().1.members.len()
    }
}

/// A cache weighs one for each node and one for every member that it holds.
pub proof fn law_what_a_cache_weighs(nodes: crate::index_cache::Nodes)
    ensures
        weights(nodes) == nodes.len() + cached_members(nodes),
    decreases nodes.len(),
{
    if nodes.len() > 0 {
        law_what_a_cache_weighs(nodes.drop_last());
    }
}

/// Nodes are evicted from a cache only where it holds more than its budget, and then until
/// it does not.
pub proof fn law_when_a_cache_evicts(nodes: crate::index_cache::Nodes, budget: nat)
    ensures
        nodes.len() + cached_members(nodes) <= budget ==> trimmed(nodes, budget) == nodes,
        trimmed(nodes, budget).len() + cached_members(trimmed(nodes, budget)) <= budget,
    decreases nodes.len(),
{
    law_what_a_cache_weighs(nodes);
    if weights(nodes) > budget && nodes.len() > 0 {
        let n = nodes.len() as int;
        crate::index_cache::lemma_stalest(nodes, n);
        law_when_a_cache_evicts(nodes.remove(crate::index_cache::stalest(nodes, n)), budget);
    }
}

/// A node that is written into a cache with room for it is read back, and the others stay.
pub proof fn law_a_cache_gives_back_what_is_written(
    cache: CacheView,
    key: KeyView,
    node: crate::index_cache::NodeView,
    other: KeyView,
)
    requires
        cache.wf(),
        cache.budget > 0,
        cache.tick < u64::MAX,
        cache.nodes.len() + cached_members(cache.nodes) + 1 + node.members.len() <= cache.budget,
        other != key,
    ensures
        ({
            let now = cache.after_write(key, node);
            &&& lookup(now.nodes, key) == Some(
                crate::index_cache::NodeView { last_used: (cache.tick + 1) as u64, ..node },
            )
            &&& lookup(now.nodes, other) == lookup(cache.nodes, other)
            &&& now.tick == cache.tick + 1
        }),
{
    let made = crate::index_cache::NodeView { last_used: (cache.tick + 1) as u64, ..node };
    let open = written(cache.nodes, key, made);
    lemma_written(cache.nodes, key, made);
    lemma_place(cache.nodes, key);
    let p = place(cache.nodes, key);
    law_what_a_cache_weighs(cache.nodes);
    law_what_a_cache_weighs(open);
    if p < cache.nodes.len() {
        crate::index_cache::lemma_weights_update(cache.nodes, p, (key, made));
    } else {
        crate::index_cache::lemma_weights_push(cache.nodes, (key, made));
    }
}

/// A cache knows nothing of a new container but where it opens: its frontier lies just past
/// that.
pub proof fn law_what_a_new_entry_knows(
    cache: CacheView,
    key: KeyView,
    kind: ContainerKind,
    value_start: u64,
)
    requires
        lookup(cache.nodes, key) is None,
        value_start < u64::MAX,
    ensures
        ({
            let node = cache.before_write(key, kind, value_start);
            &&& node.kind == kind && node.value_start == value_start
            &&& node.close is None && node.child_count is None && node.members.len() == 0
            &&& match node.frontier {
                Frontier::Object { offset } => kind is Object && offset == value_start + 1,
                Frontier::Array { index, offset } => kind is Array && index == 0 && offset
                    == value_start + 1,
            }
        }),
{
}

/// The frontier of an array moves to a landmark that does not lie behind it; that of an
/// object moves as a scan of it resumes.
pub proof fn law_where_a_frontier_moves(
    node: crate::index_cache::NodeView,
    value_start: u64,
    new: Seq<MemberMark>,
    terminal: Option<u64>,
    cap: nat,
    landmark: (usize, u64),
)
    ensures
        node.frontier matches Frontier::Array { index, offset } ==> {
            let out = node.with_array(Some(landmark));
            &&& landmark.0 >= index ==> out == (crate::index_cache::NodeView {
                frontier: Frontier::Array { index: landmark.0, offset: landmark.1 },
                ..node
            })
            &&& landmark.0 < index ==> out == node
        },
        node.with_array(None) == node,
        node.frontier matches Frontier::Object { offset } ==> {
            let out = node.with_object(value_start, new, terminal, cap);
            let (table, frozen) = merge_table(node.members, new, cap);
            out == (crate::index_cache::NodeView {
                members: table,
                frontier: Frontier::Object {
                    offset: merge_resume(offset, frozen, new, terminal),
                },
                ..node
            })
        },
{
}

} // verus!
