//! Starting a lookup in the middle of a container: a scan that is seeded where one of
//! the children begins, at or before the child that is looked for, resolves as a scan
//! of the whole container does.

use vstd::prelude::*;

use crate::children::{
    children_nest, cursor_after, first_child, lemma_cursor_is_sound, lemma_members_passed,
    lemma_yielded, passed_over,
};
use crate::path::Step;
use crate::resolve::{
    array_scan, container_at, element_at, fresh_scan, law_cold_resolution, law_scanning_resolution,
    lemma_ws_idempotent, locate, object_scan, resolution, seeded_scan,
    ContainerKind, PathFault, ResolveView, Resolved, ResumePoint,
};
use crate::scan::{lemma_run_end, ws_end, ByteClass};
use crate::soundness::{
    element_sound, lemma_whitespace_is_sound, same_answer, same_scan, seeded_found,
};
use crate::walker::TraverseError;

verus! {

/// The child after `n` others of a container begins at `offset`: just past the opening
/// byte or the separator before it, or past the whitespace there.
pub open spec fn child_begins(
    doc: Seq<u8>,
    kind: ContainerKind,
    open: int,
    n: nat,
    offset: u64,
) -> bool {
    &&& cursor_after(doc, first_child(kind, open), n) matches Some(c)
    &&& offset == c.next_offset || offset == ws_end(doc, c.next_offset as int)
}

/// A seed that a lookup of `step` can start from, in the container that opens at
/// `open`: none of the members before it has the name that is looked for, and no
/// element before it the index.
pub open spec fn seed_fits(
    doc: Seq<u8>,
    kind: ContainerKind,
    open: int,
    step: Step,
    objects: bool,
    n: usize,
    seed: ResumePoint,
) -> bool {
    match seed {
        ResumePoint::Object { offset } => {
            &&& kind is Object
            &&& child_begins(doc, kind, open, n as nat, offset)
            &&& step matches Step::Member(name) ==> passed_over(
                doc,
                first_child(kind, open),
                n as nat,
                name,
                objects,
            )
        },
        ResumePoint::Array { index, offset } => {
            &&& kind is Array
            &&& index == n
            &&& child_begins(doc, kind, open, n as nat, offset)
            &&& children_nest(doc, first_child(kind, open), n as nat)
            &&& step matches Step::Element(target) ==> n <= target
        },
    }
}

/// A seed bears on the container at hand alone: from the child that is found there the
/// path goes on as any path does.
pub proof fn law_a_seed_bears_on_one_container(
    doc: Seq<u8>,
    path: Seq<Step>,
    st: ResolveView,
    seed: ResumePoint,
)
    requires
        doc.len() <= u64::MAX,
        path.len() <= usize::MAX,
        st.wf(),
        st.scan is None,
        st.seed == Some(seed),
        st.seg < path.len(),
        st.objects || st.stride > 0 <==> st.record is Some,
    ensures
        resolution(doc, path, st).outcome == (match (seeded_scan(seed).kind, path[st.seg]) {
            (ContainerKind::Object, Step::Element(_)) | (ContainerKind::Array, Step::Member(_)) =>
                Ok(Resolved::NotNavigable(PathFault::WrongKind { segment: st.seg as usize })),
            _ => match seeded_found(doc, seeded_scan(seed), path[st.seg], st.objects) {
                Err(e) => Err(e),
                Ok(None) => Ok(Resolved::Absent),
                Ok(Some(v)) => locate(doc, path, st.seg + 1, v, st.objects),
            },
        }),
{
    law_scanning_resolution(doc, path, st, st.start, seeded_scan(seed));
}

/// A resolution that is seeded where a child begins, at or before the one that is
/// looked for, comes to what it comes to without a seed.
pub proof fn law_a_seed_changes_no_answer(
    doc: Seq<u8>,
    path: Seq<Step>,
    st: ResolveView,
    kind: ContainerKind,
    open: int,
    n: usize,
    seed: ResumePoint,
)
    requires
        doc.len() <= u64::MAX,
        path.len() <= usize::MAX,
        st.wf(),
        st.scan is None,
        st.seed == Some(seed),
        st.seg < path.len(),
        st.objects || st.stride > 0 <==> st.record is Some,
        container_at(doc, st.start as int) == Ok::<Option<(ContainerKind, int)>, TraverseError>(
            Some((kind, open)),
        ),
        seed_fits(doc, kind, open, path[st.seg], st.objects, n, seed),
    ensures
        ({
            let cold = resolution(doc, path, ResolveView { seed: None, ..st }).outcome;
            &&& kind is Object ==> resolution(doc, path, st).outcome == cold
            &&& same_answer(resolution(doc, path, st).outcome, cold)
        }),
{
    let first = first_child(kind, open);
    let c = cursor_after(doc, first, n as nat)->0;
    let scan = seeded_scan(seed);
    lemma_run_end(doc, st.start as int, ByteClass::Whitespace);
    lemma_yielded(doc, first, n as nat);
    lemma_run_end(doc, c.next_offset as int, ByteClass::Whitespace);
    law_a_seed_bears_on_one_container(doc, path, st, seed);
    law_cold_resolution(doc, path, ResolveView { seed: None, ..st });
    match (kind, path[st.seg]) {
        (ContainerKind::Object, Step::Member(name)) => {
            lemma_members_passed(doc, first, n as nat, name, st.objects);
            lemma_ws_idempotent(doc, c.next_offset as int);
            assert(object_scan(doc, scan.offset as int, name, st.objects).outcome == object_scan(
                doc,
                c.next_offset as int,
                name,
                st.objects,
            ).outcome);
        },
        (ContainerKind::Array, Step::Element(target)) => {
            let from = fresh_scan(ContainerKind::Array, open);
            lemma_cursor_is_sound(doc, open, n);
            lemma_whitespace_is_sound(doc, from, n, c.next_offset);
            assert(element_sound(doc, from, (n, scan.offset)));
            assert(same_scan(
                array_scan(doc, scan, target, 0).outcome,
                element_at(doc, open, target),
            ));
        },
        _ => {},
    }
}

} // verus!
