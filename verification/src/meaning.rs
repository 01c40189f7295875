//! What the operations give on a JSON text, told by its values alone: a path leads to the
//! value that its steps name, `get` gives that value as it is written, and a container has
//! as many children as it lists.

use vstd::prelude::*;

use crate::answers::{
    law_count_answers_from_the_document, law_get_answers_from_the_document,
    law_lookup_answers_from_the_document, law_presence_answers_from_the_document,
    law_resolve_answers_from_the_document, leads_to, session_sound,
};
use crate::cache::KeyView;
use crate::children::{
    child_hit, child_nests, children_nest, cursor_after, first_child,
    law_count_is_the_number_of_children, law_first_of_a_name_is_found, law_iteration_is_indexing,
    passed_over,
};
use crate::count::child_count;
use crate::json::{
    first_named, holds, is_blank, lemma_first_named, lemma_valid_entry, named, reached, spells,
    stands, string_token, valid, valid_key, written, Entry, Json, Key, Reached,
};
use crate::keys::quoted;
use crate::path::Step;
use crate::query::{
    extent_at, offset_of, presence_of, value_bytes, CountingView, GettingView, LocatingView,
    ResolvingView,
};
use crate::reading::{
    child_of, cursor_before, law_a_cursor_gives_the_children, law_a_value_ends_with_its_text,
    law_whitespace_is_passed_over, lemma_child_holds, lemma_children_have_bytes, lemma_first_byte,
    lemma_last_byte, lemma_value_is_level, value_start,
};
use crate::resolve::{
    child_at, child_step, container_at, element_at, key_hit, locate, ContainerKind, PathFault,
    Resolved,
};
use crate::scan::ws_end;
use crate::session::{SessionError, SessionView};
use crate::walker::TraverseError;

verus! {

/// A container stands in the document from `open` on.
pub open spec fn container_stands(
    doc: Seq<u8>,
    open: int,
    kind: ContainerKind,
    entries: Seq<Entry>,
    blank: Seq<u8>,
) -> bool {
    &&& doc.len() <= usize::MAX
    &&& valid(Json::Container(kind, entries, blank))
    &&& stands(doc, open, written(Json::Container(kind, entries, blank)))
}

pub proof fn lemma_cursors(
    doc: Seq<u8>,
    open: int,
    kind: ContainerKind,
    entries: Seq<Entry>,
    blank: Seq<u8>,
    k: nat,
)
    requires
        container_stands(doc, open, kind, entries, blank),
        k <= entries.len(),
    ensures
        entries.len() <= usize::MAX,
        0 <= open < doc.len(),
        cursor_after(doc, first_child(kind, open), k) matches Some(c) && cursor_before(
            open,
            kind,
            entries,
            k as int,
            c,
        ),
    decreases k,
{
    let v = Json::Container(kind, entries, blank);
    lemma_children_have_bytes(kind, entries);
    lemma_first_byte(v);
    assert(written(v).len() >= entries.len());
    if k > 0 {
        lemma_cursors(doc, open, kind, entries, blank, (k - 1) as nat);
        let c = cursor_after(doc, first_child(kind, open), (k - 1) as nat)->0;
        law_a_cursor_gives_the_children(doc, open, kind, entries, blank, k - 1, c);
    }
}

/// The child that a cursor gives after `k` others.
pub proof fn lemma_nth_child(
    doc: Seq<u8>,
    open: int,
    kind: ContainerKind,
    entries: Seq<Entry>,
    blank: Seq<u8>,
    k: nat,
)
    requires
        container_stands(doc, open, kind, entries, blank),
        k <= entries.len(),
    ensures
        entries.len() <= usize::MAX,
        0 <= open < doc.len(),
        cursor_after(doc, first_child(kind, open), k) is Some,
        ({
            let c = cursor_after(doc, first_child(kind, open), k)->0;
            match child_step(doc, c) {
                Ok((Some(child), _)) => k < entries.len() && child == child_of(
                    open,
                    kind,
                    entries,
                    k as int,
                ),
                Ok((None, _)) => k == entries.len(),
                Err(_) => false,
            }
        }),
{
    lemma_cursors(doc, open, kind, entries, blank, k);
    let c = cursor_after(doc, first_child(kind, open), k)->0;
    law_a_cursor_gives_the_children(doc, open, kind, entries, blank, k as int, c);
}

pub proof fn lemma_children_nest(
    doc: Seq<u8>,
    open: int,
    kind: ContainerKind,
    entries: Seq<Entry>,
    blank: Seq<u8>,
    n: nat,
)
    requires
        container_stands(doc, open, kind, entries, blank),
    ensures
        children_nest(doc, first_child(kind, open), n),
{
    let first = first_child(kind, open);
    assert forall|k: nat| k < n implies ((#[trigger] cursor_after(doc, first, k)) matches Some(c)
        ==> child_nests(doc, c)) by {
        if k <= entries.len() {
            lemma_nth_child(doc, open, kind, entries, blank, k);
            if k < entries.len() {
                lemma_child_holds(doc, open, kind, entries, blank, k as int);
                lemma_value_is_level(
                    doc,
                    open + 1 + value_start(entries, k as int),
                    entries[k as int].value,
                );
            }
        } else {
            lemma_no_more_cursors(doc, open, kind, entries, blank, k);
        }
    }
}

proof fn lemma_no_more_cursors(
    doc: Seq<u8>,
    open: int,
    kind: ContainerKind,
    entries: Seq<Entry>,
    blank: Seq<u8>,
    k: nat,
)
    requires
        container_stands(doc, open, kind, entries, blank),
        k > entries.len(),
    ensures
        cursor_after(doc, first_child(kind, open), k) is None,
    decreases k,
{
    if k == entries.len() + 1 {
        lemma_nth_child(doc, open, kind, entries, blank, entries.len());
    } else {
        lemma_no_more_cursors(doc, open, kind, entries, blank, (k - 1) as nat);
    }
}

/// A container has as many children as it lists.
pub proof fn law_a_count_is_the_number_of_children(
    doc: Seq<u8>,
    open: int,
    kind: ContainerKind,
    entries: Seq<Entry>,
    blank: Seq<u8>,
)
    requires
        doc.len() <= usize::MAX,
        valid(Json::Container(kind, entries, blank)),
        stands(doc, open, written(Json::Container(kind, entries, blank))),
    ensures
        child_count(doc, open + 1) == Ok::<nat, TraverseError>(entries.len()),
{
    let n = entries.len();
    lemma_nth_child(doc, open, kind, entries, blank, n);
    lemma_children_nest(doc, open, kind, entries, blank, n);
    law_count_is_the_number_of_children(doc, kind, open, n);
    if n > 0 {
        let e = entries[n - 1];
        lemma_cursors(doc, open, kind, entries, blank, n);
        lemma_child_holds(doc, open, kind, entries, blank, n - 1);
        lemma_last_byte(e.value);
        let c = cursor_after(doc, first_child(kind, open), n)->0;
        let to = open + 1 + value_start(entries, n - 1) + written(e.value).len();
        let before = c.next_offset - 1;
        if e.after.len() > 0 {
            lemma_valid_entry(kind, entries, n - 1);
            assert(doc[to + (e.after.len() - 1)] == e.after[e.after.len() - 1]);
        } else {
            assert(doc[to - written(e.value).len() + (written(e.value).len() - 1)] == written(
                e.value,
            )[written(e.value).len() - 1]);
        }
    }
}

/// A key that spells a name is a hit for it, and no other is.
pub proof fn lemma_key_hit(key: Key, name: Seq<char>, recording: bool)
    requires
        valid_key(key),
    ensures
        key_hit(key.interior, name, recording) == Some(spells(key.interior, name)),
{
    let s = key.interior;
    assert(quoted(s) == string_token(s));
    if !s.contains(0x5c) {
        vstd::utf8::decode_utf8_encode_utf8(s);
        vstd::utf8::encode_utf8_decode_utf8(name);
    }
}

/// The first of the children of a name is the one that is found.
proof fn lemma_member(
    doc: Seq<u8>,
    open: int,
    entries: Seq<Entry>,
    blank: Seq<u8>,
    name: Seq<char>,
    recording: bool,
)
    requires
        container_stands(doc, open, ContainerKind::Object, entries, blank),
    ensures
        child_at(doc, ContainerKind::Object, open, Step::Member(name), recording) == Ok::<
            Result<Option<u64>, TraverseError>,
            (),
        >(
            Ok(
                match first_named(entries, name) {
                    Some(k) => Some((open + 1 + value_start(entries, k)) as u64),
                    None => None,
                },
            ),
        ),
{
    let kind = ContainerKind::Object;
    let first = first_child(kind, open);
    lemma_first_named(entries, name);
    let n: nat = match first_named(entries, name) {
        Some(k) => k as nat,
        None => entries.len(),
    };
    assert forall|k: nat| k <= n && k < entries.len() implies child_hit(
        doc,
        (#[trigger] cursor_after(doc, first, k))->0,
        name,
        recording,
    ) == Some(spells(entries[k as int].key->0.interior, name)) && cursor_after(
        doc,
        first,
        k,
    ) is Some by {
        lemma_nth_child(doc, open, kind, entries, blank, k);
        lemma_valid_entry(kind, entries, k as int);
        lemma_key_hit(entries[k as int].key->0, name, recording);
        lemma_child_key(doc, open, entries, blank, k as int);
    }
    assert(passed_over(doc, first, n, name, recording)) by {
        assert forall|k: nat| k < n implies ((#[trigger] cursor_after(doc, first, k)) matches Some(
            c,
        ) ==> child_hit(doc, c, name, recording) == Some(false)) by {
            lemma_valid_entry(kind, entries, k as int);
            assert(entries[k as int].key is Some);
        }
    }
    lemma_nth_child(doc, open, kind, entries, blank, n);
    law_first_of_a_name_is_found(doc, open, n, name, recording);
}

/// What stands between the quotes of a key that a cursor gives.
pub proof fn lemma_child_key(doc: Seq<u8>, open: int, entries: Seq<Entry>, blank: Seq<u8>, k: int)
    requires
        container_stands(doc, open, ContainerKind::Object, entries, blank),
        0 <= k < entries.len(),
    ensures
        crate::children::key_interior(
            doc,
            child_of(open, ContainerKind::Object, entries, k),
        ) == entries[k].key->0.interior,
{
    crate::reading::lemma_key_stands(doc, open, entries, blank, k);
}

/// The element of an index is the one that stands at that place.
proof fn lemma_element(
    doc: Seq<u8>,
    open: int,
    entries: Seq<Entry>,
    blank: Seq<u8>,
    index: usize,
)
    requires
        container_stands(doc, open, ContainerKind::Array, entries, blank),
    ensures
        element_at(doc, open, index) == Ok::<Option<u64>, TraverseError>(
            if index < entries.len() {
                Some((open + 1 + value_start(entries, index as int)) as u64)
            } else {
                None
            },
        ),
{
    let kind = ContainerKind::Array;
    let n = if index < entries.len() {
        index as nat
    } else {
        entries.len()
    };
    lemma_nth_child(doc, open, kind, entries, blank, n);
    lemma_children_nest(doc, open, kind, entries, blank, n);
    law_iteration_is_indexing(doc, open, n as usize);
    if index > entries.len() {
        crate::children::lemma_no_more_elements(doc, open, n as usize, index);
    }
}

// ---- paths

/// The value stands in the document from `at` on, after whitespace if there is any.
pub open spec fn found_at(doc: Seq<u8>, at: int, v: Json) -> bool {
    exists|blank: Seq<u8>|
        is_blank(blank) && #[trigger] stands(doc, at, blank) && holds(doc, at + blank.len(), v)
}

/// Whitespace before a value is passed over, and the value is what is found.
pub proof fn lemma_found(doc: Seq<u8>, at: int, v: Json)
    requires
        doc.len() <= u64::MAX,
        valid(v),
        found_at(doc, at, v),
    ensures
        0 <= at <= ws_end(doc, at) < doc.len(),
        holds(doc, ws_end(doc, at), v),
        doc[ws_end(doc, at)] == written(v)[0],
{
    let blank = choose|blank: Seq<u8>|
        is_blank(blank) && #[trigger] stands(doc, at, blank) && holds(doc, at + blank.len(), v);
    let p = at + blank.len();
    lemma_first_byte(v);
    assert(doc[p + 0] == written(v)[0]);
    let one = seq![doc[p]];
    assert(is_blank(one) ==> (one[0] == 0x20 || one[0] == 0x09 || one[0] == 0x0a || one[0]
        == 0x0d));
    law_whitespace_is_passed_over(doc, at, blank);
}

/// The value that is found at an offset, by its text: from its first byte to its last.
pub proof fn law_a_value_is_found_whole(doc: Seq<u8>, at: int, v: Json)
    requires
        doc.len() <= u64::MAX,
        valid(v),
        found_at(doc, at, v),
    ensures
        extent_at(doc, at) matches Ok(x) && {
            &&& value_bytes(doc, x.location) == written(v)
            &&& x.location.end <= doc.len()
            &&& x.kind == (match v {
                Json::Container(kind, _, _) => Some(kind),
                _ => None,
            })
        },
{
    lemma_found(doc, at, v);
    lemma_first_byte(v);
    let p = ws_end(doc, at);
    law_a_value_ends_with_its_text(doc, p, v);
    let x = extent_at(doc, at)->Ok_0;
    let n = written(v).len();
    assert forall|i: int| 0 <= i < n implies doc.subrange(p, p + n)[i] == written(v)[i] by {
        assert(doc[p + i] == written(v)[i]);
    }
    assert(doc.subrange(p, p + n) =~= written(v));
    assert(value_bytes(doc, x.location) =~= doc.subrange(p, p + n));
}

/// A path leads to the value that its steps name, one after the other, and to nothing where
/// there is none.
pub proof fn law_a_path_leads_to_what_it_names(
    doc: Seq<u8>,
    path: Seq<Step>,
    seg: int,
    start: u64,
    v: Json,
    objects: bool,
)
    requires
        doc.len() <= usize::MAX,
        valid(v),
        found_at(doc, start as int, v),
        0 <= seg,
    ensures
        match reached(v, path, seg) {
            Reached::Value(u) => locate(doc, path, seg, start, objects) matches Ok(
                Resolved::Found(at),
            ) && valid(u) && found_at(doc, at as int, u),
            Reached::Nothing => locate(doc, path, seg, start, objects) == Ok::<
                Resolved,
                TraverseError,
            >(Resolved::Absent),
            Reached::Scalar(at) => locate(doc, path, seg, start, objects) == Ok::<
                Resolved,
                TraverseError,
            >(Resolved::NotNavigable(PathFault::ThroughScalar { segment: at as usize })),
            Reached::Mismatch(at) => locate(doc, path, seg, start, objects) == Ok::<
                Resolved,
                TraverseError,
            >(Resolved::NotNavigable(PathFault::WrongKind { segment: at as usize })),
        },
    decreases v,
{
    if seg < path.len() {
        lemma_found(doc, start as int, v);
        lemma_first_byte(v);
        let open = ws_end(doc, start as int);
        if let Json::Container(kind, entries, blank) = v {
            assert(container_at(doc, start as int) == Ok::<
                Option<(ContainerKind, int)>,
                TraverseError,
            >(Some((kind, open))));
            match (kind, path[seg]) {
                (ContainerKind::Object, Step::Member(name)) => {
                    lemma_member(doc, open, entries, blank, name, objects);
                    lemma_first_named(entries, name);
                },
                (ContainerKind::Array, Step::Element(index)) => {
                    lemma_element(doc, open, entries, blank, index);
                },
                _ => {},
            }
            if kind is Array == path[seg] is Element {
                if let Some(k) = named(kind, entries, path[seg]) {
                    lemma_child_holds(doc, open, kind, entries, blank, k);
                    let at = open + 1 + value_start(entries, k);
                    assert(stands(doc, at, Seq::<u8>::empty()));
                    assert(at + Seq::<u8>::empty().len() == at);
                    assert(found_at(doc, at, entries[k].value));
                    law_a_path_leads_to_what_it_names(
                        doc,
                        path,
                        seg + 1,
                        at as u64,
                        entries[k].value,
                        objects,
                    );
                }
            }
        }
    }
}

// ---- what a session answers

/// What a query for the bytes of a path comes to: the value as it is written, nothing where
/// there is none, and the fault where the path does not fit the values on its way.
pub open spec fn got(v: Json, path: Seq<Step>) -> Result<Option<Seq<u8>>, SessionError> {
    match reached(v, path, 0) {
        Reached::Value(u) => Ok(Some(written(u))),
        Reached::Nothing => Ok(None),
        Reached::Scalar(at) => Err(
            SessionError::Path(PathFault::ThroughScalar { segment: at as usize }),
        ),
        Reached::Mismatch(at) => Err(
            SessionError::Path(PathFault::WrongKind { segment: at as usize }),
        ),
    }
}

/// `get` gives the value that a path names, byte by byte as it is written, whatever was
/// asked before and however the chunks arrive.
pub proof fn law_get_gives_the_value_as_written(
    doc: Seq<u8>,
    s: SessionView,
    key: KeyView,
    base_depth: u32,
    v: Json,
)
    requires
        doc.len() <= usize::MAX,
        key.1.len() <= usize::MAX,
        session_sound(doc, s),
        valid(v),
        found_at(doc, key.0 as int, v),
    ensures
        ({
            let q = GettingView {
                resolving: ResolvingView {
                    locating: LocatingView::begun(s, key, base_depth),
                    extent: None,
                },
                found: None,
            };
            q.answer(doc, s.asked(key.0, key.1)).0 == got(v, key.1)
        }),
{
    law_get_answers_from_the_document(doc, s, key, base_depth);
    law_a_path_leads_to_what_it_names(doc, key.1, 0, key.0, v, s.index.cap > 0);
    if let Reached::Value(u) = reached(v, key.1, 0) {
        let at = leads_to(doc, s, key)->Ok_0->Found_0;
        law_a_value_is_found_whole(doc, at as int, u);
    }
}

/// `has` says whether a path leads to a value. A path that does not fit leads to none.
pub proof fn law_has_says_whether_there_is_a_value(
    doc: Seq<u8>,
    s: SessionView,
    key: KeyView,
    base_depth: u32,
    v: Json,
)
    requires
        doc.len() <= usize::MAX,
        key.1.len() <= usize::MAX,
        session_sound(doc, s),
        valid(v),
        found_at(doc, key.0 as int, v),
    ensures
        presence_of(
            LocatingView::begun(s, key, base_depth).answer(doc, s.asked(key.0, key.1)).0,
        ) == Ok::<bool, SessionError>(reached(v, key.1, 0) is Value),
{
    law_presence_answers_from_the_document(doc, s, key, base_depth);
    law_a_path_leads_to_what_it_names(doc, key.1, 0, key.0, v, s.index.cap > 0);
}

/// A lookup gives the offset at which the value that a path names is found, no offset where
/// there is none, and the fault where the path does not fit.
pub proof fn law_a_lookup_gives_the_offset_of_the_value(
    doc: Seq<u8>,
    s: SessionView,
    key: KeyView,
    base_depth: u32,
    v: Json,
)
    requires
        doc.len() <= usize::MAX,
        key.1.len() <= usize::MAX,
        session_sound(doc, s),
        valid(v),
        found_at(doc, key.0 as int, v),
    ensures
        match offset_of(
            LocatingView::begun(s, key, base_depth).answer(doc, s.asked(key.0, key.1)).0,
        ) {
            Ok(Some(at)) => reached(v, key.1, 0) matches Reached::Value(u) && found_at(
                doc,
                at as int,
                u,
            ),
            Ok(None) => reached(v, key.1, 0) is Nothing,
            Err(e) => got(v, key.1) == Err::<Option<Seq<u8>>, SessionError>(e),
        },
{
    law_lookup_answers_from_the_document(doc, s, key, base_depth);
    law_a_path_leads_to_what_it_names(doc, key.1, 0, key.0, v, s.index.cap > 0);
}

/// `resolve` gives where the value that a path names stands: its text is what lies there,
/// and queries that start from there find that value.
pub proof fn law_resolve_gives_the_place_of_the_value(
    doc: Seq<u8>,
    s: SessionView,
    key: KeyView,
    base_depth: u32,
    v: Json,
)
    requires
        doc.len() <= usize::MAX,
        key.1.len() <= usize::MAX,
        session_sound(doc, s),
        valid(v),
        found_at(doc, key.0 as int, v),
    ensures
        ({
            let q = ResolvingView {
                locating: LocatingView::begun(s, key, base_depth),
                extent: None,
            };
            match q.answer(doc, s.asked(key.0, key.1)).0 {
                Ok(Some(location)) => {
                    &&& location.start <= location.end <= doc.len()
                    &&& reached(v, key.1, 0) matches Reached::Value(u) && valid(u) && found_at(
                        doc,
                        location.start as int,
                        u,
                    )
                    &&& got(v, key.1) == Ok::<Option<Seq<u8>>, SessionError>(
                        Some(doc.subrange(location.start as int, location.end as int)),
                    )
                },
                Ok(None) => got(v, key.1) == Ok::<Option<Seq<u8>>, SessionError>(None),
                Err(e) => got(v, key.1) == Err::<Option<Seq<u8>>, SessionError>(e),
            }
        }),
{
    law_resolve_answers_from_the_document(doc, s, key, base_depth);
    law_a_path_leads_to_what_it_names(doc, key.1, 0, key.0, v, s.index.cap > 0);
    if let Reached::Value(u) = reached(v, key.1, 0) {
        let at = leads_to(doc, s, key)->Ok_0->Found_0;
        law_a_value_is_found_whole(doc, at as int, u);
        lemma_found(doc, at as int, u);
        let x = extent_at(doc, at as int)->Ok_0;
        law_a_value_ends_with_its_text(doc, ws_end(doc, at as int), u);
        assert(stands(doc, ws_end(doc, at as int), Seq::<u8>::empty()));
        assert(ws_end(doc, at as int) + Seq::<u8>::empty().len() == x.location.start);
        assert(value_bytes(doc, x.location) =~= doc.subrange(
            x.location.start as int,
            x.location.end as int,
        ));
    }
}

/// How many children the value has that a path names: none where it is no container, or
/// where there is no value.
pub open spec fn children_of(v: Json, path: Seq<Step>) -> nat {
    match reached(v, path, 0) {
        Reached::Value(Json::Container(_, entries, _)) => entries.len(),
        _ => 0,
    }
}

/// `count` gives the number of children of the container that a path names.
pub proof fn law_count_gives_the_number_of_children(
    doc: Seq<u8>,
    s: SessionView,
    key: KeyView,
    base_depth: u32,
    v: Json,
)
    requires
        doc.len() <= usize::MAX,
        key.1.len() <= usize::MAX,
        session_sound(doc, s),
        valid(v),
        found_at(doc, key.0 as int, v),
    ensures
        match s.cached_child_count(key) {
            Some(n) => n == children_of(v, key.1),
            None => {
                let q = CountingView::Locating(LocatingView::begun(s, key, base_depth));
                q.answer(doc, s.asked(key.0, key.1)).0 == Ok::<nat, SessionError>(
                    children_of(v, key.1),
                )
            },
        },
{
    law_count_answers_from_the_document(doc, s, key, base_depth);
    law_a_path_leads_to_what_it_names(doc, key.1, 0, key.0, v, s.index.cap > 0);
    if let Reached::Value(u) = reached(v, key.1, 0) {
        let at = leads_to(doc, s, key)->Ok_0->Found_0;
        lemma_found(doc, at as int, u);
        lemma_first_byte(u);
        if let Json::Container(kind, entries, blank) = u {
            law_a_count_is_the_number_of_children(
                doc,
                ws_end(doc, at as int),
                kind,
                entries,
                blank,
            );
        }
    }
}

} // verus!
