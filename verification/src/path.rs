//! Steps into a document.

use vstd::prelude::*;

use crate::keys::text_eq;

verus! {

/// A single path step: an object member by name, or an array element by index.
#[derive(Debug, PartialEq, Eq, Hash)]
pub enum Segment {
    Member(String),
    Element(usize),
}

/// What a [`Segment`] names.
pub enum Step {
    Member(Seq<char>),
    Element(usize),
}

impl View for Segment {
    type V = Step;

    open spec fn view(&self) -> Step {
        match self {
            Segment::Member(name) => Step::Member(name@),
            Segment::Element(index) => Step::Element(*index),
        }
    }
}

/// The steps that a path names.
pub open spec fn steps(path: Seq<Segment>) -> Seq<Step> {
    path.map_values(|s: Segment| s@)
}

impl Clone for Segment {
    fn clone(&self) -> (s: Self)
        ensures
            s@ == self@,
    {
        match self {
            Segment::Member(name) => Segment::Member(name.clone()),
            Segment::Element(index) => Segment::Element(*index),
        }
    }
}

impl Segment {
    /// Whether two segments name the same step.
    pub fn same(&self, other: &Segment) -> (r: bool)
        ensures
            r == (self@ == other@),
    {
        match (self, other) {
            (Segment::Member(a), Segment::Member(b)) => text_eq(a.as_str(), b.as_str()),
            (Segment::Element(a), Segment::Element(b)) => *a == *b,
            _ => false,
        }
    }
}

/// A copy of a path.
pub fn copy_path(path: &[Segment]) -> (out: Vec<Segment>)
    ensures
        steps(out@) == steps(path@),
{
    let mut out: Vec<Segment> = Vec::new();
    let mut i: usize = 0;
    while i < path.len()
        invariant
            i <= path@.len(),
            out@.len() == i,
            forall|k: int| 0 <= k < i ==> #[trigger] out@[k]@ == path@[k]@,
        decreases path@.len() - i,
    {
        out.push(path[i].clone());
        i = i + 1;
    }
    assert(steps(out@) =~= steps(path@));
    out
}

/// Whether two paths name the same steps.
pub fn same_path(a: &[Segment], b: &[Segment]) -> (r: bool)
    ensures
        r == (steps(a@) == steps(b@)),
{
    if a.len() != b.len() {
        assert(steps(a@).len() != steps(b@).len());
        return false;
    }
    let mut i: usize = 0;
    while i < a.len()
        invariant
            i <= a@.len(),
            a@.len() == b@.len(),
            forall|k: int| 0 <= k < i ==> #[trigger] a@[k]@ == b@[k]@,
        decreases a@.len() - i,
    {
        if !a[i].same(&b[i]) {
            assert(steps(a@)[i as int] != steps(b@)[i as int]);
            return false;
        }
        i = i + 1;
    }
    assert(steps(a@) =~= steps(b@));
    true
}

} // verus!
