//! What a stream yields of each child: the whole of it, one sub-value, or an object
//! of named sub-values. Non-selected parts of a child never materialize.

use vstd::prelude::*;
use vstd::string::StringExecFns;

use crate::path::{steps, Segment, Step};

verus! {

/// Which sub-values of a child are extracted.
#[derive(Debug)]
pub enum CompiledSelect {
    /// Yield the bare sub-value at this sub-path.
    One(Vec<Segment>),
    /// Yield an object of sub-values in declared key order.
    Fields(Vec<(String, Vec<Segment>)>),
}

/// What a [`CompiledSelect`] names.
pub enum Selection {
    One(Seq<Step>),
    Fields(Seq<(Seq<char>, Seq<Step>)>),
}

/// The fields of a selection, by their keys and sub-paths.
pub open spec fn field_list(fields: Seq<(String, Vec<Segment>)>) -> Seq<(Seq<char>, Seq<Step>)> {
    fields.map_values(|f: (String, Vec<Segment>)| (f.0@, steps(f.1@)))
}

impl View for CompiledSelect {
    type V = Selection;

    open spec fn view(&self) -> Selection {
        match self {
            CompiledSelect::One(path) => Selection::One(steps(path@)),
            CompiledSelect::Fields(fields) => Selection::Fields(field_list(fields@)),
        }
    }
}

/// A selection that could not be read.
#[derive(Debug)]
pub enum SelectError {
    Json(String),
}

impl SelectError {
    /// The text of [`SelectError::message`].
    pub open spec fn spec_message(self) -> Seq<char> {
        match self {
            SelectError::Json(reason) => "invalid select JSON: "@ + reason@,
        }
    }

    /// The error in words.
    pub fn message(&self) -> (s: String)
        ensures
            s@ == self.spec_message(),
    {
        let mut s: String = String::new();
        match self {
            SelectError::Json(reason) => {
                s.append("invalid select JSON: ");
                s.append(reason.as_str());
            },
        }
        assert(s@ =~= self.spec_message());
        s
    }
}

} // verus!
