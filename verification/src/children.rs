//! Going through a container child by child agrees with looking a child up and with
//! counting: the nth child of an array is its element n, a member is found by its
//! name, and a container has as many children as a cursor gives.
//!
//! A cursor skips a nested container by the brackets of its own kind alone, while a
//! scan for separators counts brackets of both kinds. The two agree where the
//! brackets of every nested container match.

use vstd::prelude::*;

use crate::count::{child_count, separators};
use crate::resolve::{
    array_scan, child_step, element_at, entry_key, follow, fresh_scan, key_hit, law_cursor_advances,
    lemma_entry_key, lemma_follow, lemma_member_value, member_value, object_scan, seeded_scan,
    ChildEntry, ChildKey, ContainerCursor, ContainerKind, EntryKey, ResumePoint,
};
use crate::scan::{
    comma_run, comma_step, ends_array, inside, is_array_structural, is_closer, is_opener,
    is_primitive, is_whitespace, lemma_comma_left, lemma_comma_split, lemma_nest_split,
    lemma_run_end, lex_step, nest_run, outside, separates, string_run, ws_end, ByteClass, CommaRun,
    Commas, Lex, Nest, NestRun, BACKSLASH, COMMA, LBRACE, LBRACKET, QUOTE, RBRACE, RBRACKET,
};
use crate::soundness::{
    element_sound, lemma_boundary_is_sound, lemma_comma_count, lemma_whitespace_is_sound,
};
use crate::walker::{value_end, TraverseError};

verus! {

// ---- spans between separators

/// The bytes `at..to` of a container hold no separator of it and close whatever
/// they open.
pub open spec fn level(doc: Seq<u8>, at: int, to: int) -> bool {
    let s = Commas { lex: outside(), depth: 0, left: 2 };
    comma_run(doc, at, to, s) == CommaRun::Open(s)
}

/// A scan that passes no separator does not depend on how many it looks for.
proof fn lemma_any_left(doc: Seq<u8>, at: int, to: int, s: Commas, left: nat)
    requires
        s.left > 0,
        left > 0,
        comma_run(doc, at, to, s) matches CommaRun::Open(m) && m.left == s.left,
    ensures
        comma_run(doc, at, to, Commas { left, ..s }) == CommaRun::Open(
            Commas { left, ..comma_run(doc, at, to, s)->Open_0 },
        ),
    decreases to - at,
{
    if at < to {
        let b = doc[at];
        let t = Commas { left, ..s };
        let n = comma_step(s, b);
        if separates(s, b) {
            lemma_comma_left(doc, at + 1, to, n);
        } else {
            lemma_any_left(doc, at + 1, to, n, left);
            assert(comma_step(t, b) == (Commas { left, ..n }));
        }
    }
}

proof fn lemma_level_join(doc: Seq<u8>, at: int, mid: int, to: int)
    requires
        at <= mid <= to,
        level(doc, at, mid),
        level(doc, mid, to),
    ensures
        level(doc, at, to),
{
    lemma_comma_split(doc, at, mid, to, Commas { lex: outside(), depth: 0, left: 2 });
}

/// Bytes that neither open, close, separate, quote nor escape make a level span.
proof fn lemma_plain_is_level(doc: Seq<u8>, at: int, to: int)
    requires
        forall|i: int|
            at <= i < to ==> !is_array_structural(#[trigger] doc[i]) && doc[i] != QUOTE && doc[i]
                != BACKSLASH,
    ensures
        level(doc, at, to),
    decreases to - at,
{
    if at < to {
        assert(!is_array_structural(doc[at]));
        lemma_plain_is_level(doc, at + 1, to);
        let s = Commas { lex: outside(), depth: 0, left: 2 };
        assert(comma_step(s, doc[at]) == s);
    }
}

proof fn lemma_whitespace_is_level(doc: Seq<u8>, at: int)
    ensures
        level(doc, at, ws_end(doc, at)),
        at <= ws_end(doc, at),
{
    lemma_run_end(doc, at, ByteClass::Whitespace);
    assert forall|i: int| at <= i < ws_end(doc, at) implies !is_array_structural(#[trigger] doc[i])
        && doc[i] != QUOTE && doc[i] != BACKSLASH by {
        assert(is_whitespace(doc[i]));
    }
    lemma_plain_is_level(doc, at, ws_end(doc, at));
}

/// Inside a string nothing separates, opens or closes.
proof fn lemma_string_is_level(doc: Seq<u8>, at: int, s: Commas)
    requires
        s.lex.inside,
        string_run(doc, at, doc.len() as int, s.lex) is Closed,
    ensures
        ({
            let k = string_run(doc, at, doc.len() as int, s.lex)->Closed_0;
            &&& at <= k < doc.len()
            &&& comma_run(doc, at, k + 1, s) == CommaRun::Open(Commas { lex: outside(), ..s })
        }),
    decreases doc.len() - at,
{
    let b = doc[at];
    let n = lex_step(s.lex, b);
    if n.inside {
        lemma_string_is_level(doc, at + 1, Commas { lex: n, ..s });
        assert(comma_step(s, b) == (Commas { lex: n, ..s }));
    } else {
        assert(b == QUOTE);
        assert(comma_step(s, b) == (Commas { lex: n, ..s }));
        assert(comma_run(doc, at + 1, at + 1, Commas { lex: n, ..s }) == CommaRun::Open(
            Commas { lex: n, ..s },
        ));
    }
}

/// A whole string literal is a level span.
proof fn lemma_literal_is_level(doc: Seq<u8>, open: int)
    requires
        0 <= open < doc.len(),
        doc[open] == QUOTE,
        string_run(doc, open + 1, doc.len() as int, inside()) is Closed,
    ensures
        ({
            let k = string_run(doc, open + 1, doc.len() as int, inside())->Closed_0;
            &&& open < k < doc.len()
            &&& level(doc, open, k + 1)
        }),
{
    let s = Commas { lex: outside(), depth: 0, left: 2 };
    lemma_string_is_level(doc, open + 1, Commas { lex: inside(), ..s });
    assert(comma_step(s, doc[open]) == (Commas { lex: inside(), ..s }));
}

/// The brackets of the value at `start..end` match: a value that is no container
/// has none.
pub open spec fn nests(doc: Seq<u8>, start: int, end: int) -> bool {
    0 <= start < doc.len() && is_opener(doc[start]) ==> level(doc, start, end)
}

proof fn lemma_value_is_level(doc: Seq<u8>, start: int, end: int)
    requires
        0 <= start,
        doc.len() <= u64::MAX,
        value_end(doc, start) == Ok::<u64, TraverseError>(end as u64),
        0 <= end <= u64::MAX,
        nests(doc, start, end),
    ensures
        level(doc, start, end),
{
    if !is_opener(doc[start]) {
        if doc[start] == QUOTE {
            lemma_literal_is_level(doc, start);
        } else {
            lemma_run_end(doc, start, ByteClass::Primitive);
            assert forall|i: int| start <= i < end implies !is_array_structural(#[trigger] doc[i])
                && doc[i] != QUOTE && doc[i] != BACKSLASH by {
                assert(is_primitive(doc[i]));
            }
            lemma_plain_is_level(doc, start, end);
        }
    }
}

// ---- one child

/// The closing byte of a container.
pub open spec fn closer(kind: ContainerKind) -> u8 {
    match kind {
        ContainerKind::Object => RBRACE,
        ContainerKind::Array => RBRACKET,
    }
}

/// The brackets of the child that a cursor comes to match.
pub open spec fn child_nests(doc: Seq<u8>, cursor: ContainerCursor) -> bool {
    child_step(doc, cursor) matches Ok((Some(child), _)) ==> nests(
        doc,
        child.location.start as int,
        child.location.end as int,
    )
}

/// The cursor stands just past a separator.
pub open spec fn past_separator(doc: Seq<u8>, cursor: ContainerCursor) -> bool {
    doc[cursor.next_offset - 1] == COMMA
}

/// A byte that ends a level span is no separator.
proof fn lemma_level_ends(doc: Seq<u8>, at: int, to: int, s: Commas)
    requires
        at < to,
        s.left > 1,
        comma_run(doc, at, to, s) matches CommaRun::Open(m) && m == (Commas {
            lex: outside(),
            depth: 0,
            left: s.left,
        }),
    ensures
        doc[to - 1] != COMMA,
    decreases to - at,
{
    let n = comma_step(s, doc[at]);
    if at + 1 < to {
        if separates(s, doc[at]) {
            lemma_comma_left(doc, at + 1, to, n);
        }
        lemma_level_ends(doc, at + 1, to, n);
    } else {
        assert(comma_run(doc, at + 1, to, n) == CommaRun::Open(n));
    }
}

/// Between two places where a cursor stops lies one child and, unless it is the
/// last one, one separator.
proof fn lemma_one_child(doc: Seq<u8>, cursor: ContainerCursor)
    requires
        doc.len() <= u64::MAX,
        child_step(doc, cursor) matches Ok((Some(_), _)),
        child_nests(doc, cursor),
    ensures
        ({
            let next = child_step(doc, cursor)->Ok_0.1;
            let at = cursor.next_offset as int;
            let to = next.next_offset as int;
            &&& at < to <= doc.len()
            &&& next.kind == cursor.kind
            &&& if past_separator(doc, next) {
                level(doc, at, to - 1)
            } else {
                level(doc, at, to) && to < doc.len() && doc[to] == closer(cursor.kind)
            }
        }),
{
    let at = cursor.next_offset as int;
    let (child, next) = child_step(doc, cursor)->Ok_0;
    let close = closer(cursor.kind);
    let start = child->0.location.start as int;
    lemma_run_end(doc, at, ByteClass::Whitespace);
    lemma_entry_key(doc, at);
    lemma_whitespace_is_level(doc, at);
    match cursor.kind {
        ContainerKind::Object => {
            if let EntryKey::Key(o, c) = entry_key(doc, at) {
                lemma_member_value(doc, c);
                lemma_literal_is_level(doc, o);
                lemma_level_join(doc, at, o, c + 1);
                let colon = ws_end(doc, c + 1);
                lemma_run_end(doc, c + 1, ByteClass::Whitespace);
                lemma_whitespace_is_level(doc, c + 1);
                lemma_level_join(doc, at, c + 1, colon);
                lemma_plain_is_level(doc, colon, colon + 1);
                lemma_level_join(doc, at, colon, colon + 1);
                lemma_whitespace_is_level(doc, colon + 1);
                lemma_run_end(doc, colon + 1, ByteClass::Whitespace);
                lemma_level_join(doc, at, colon + 1, start);
                assert(member_value(doc, c) == Ok::<int, TraverseError>(start));
            }
        },
        ContainerKind::Array => {},
    }
    assert(level(doc, at, start));
    lemma_follow(doc, start, close);
    let f = follow(doc, start, close)->Ok_0;
    lemma_value_is_level(doc, start, f.end);
    lemma_level_join(doc, at, start, f.end);
    lemma_whitespace_is_level(doc, f.end);
    lemma_level_join(doc, at, f.end, f.at);
    if f.last {
        assert(at < f.at);
        lemma_level_ends(doc, at, f.at, Commas { lex: outside(), depth: 0, left: 2 });
    }
}

// ---- all of them

/// The cursor once it has given `n` children; `None` where there are fewer.
pub open spec fn cursor_after(doc: Seq<u8>, first: ContainerCursor, n: nat) -> Option<
    ContainerCursor,
>
    decreases n,
{
    if n == 0 {
        Some(first)
    } else {
        match cursor_after(doc, first, (n - 1) as nat) {
            None => None,
            Some(c) => match child_step(doc, c) {
                Ok((Some(_), next)) => Some(next),
                _ => None,
            },
        }
    }
}

/// The brackets of the first `n` children match.
pub open spec fn children_nest(doc: Seq<u8>, first: ContainerCursor, n: nat) -> bool {
    forall|k: nat|
        k < n ==> ((#[trigger] cursor_after(doc, first, k)) matches Some(c) ==> child_nests(doc, c))
}

/// Past a level span a scan for separators stands as before it.
proof fn lemma_past_level(doc: Seq<u8>, at: int, to: int, left: nat)
    requires
        at <= to <= doc.len(),
        left > 0,
        level(doc, at, to),
    ensures
        ({
            let s = Commas { lex: outside(), depth: 0, left };
            comma_run(doc, at, doc.len() as int, s) == comma_run(doc, to, doc.len() as int, s)
        }),
{
    let s = Commas { lex: outside(), depth: 0, left };
    lemma_any_left(doc, at, to, Commas { lex: outside(), depth: 0, left: 2 }, left);
    lemma_comma_split(doc, at, to, doc.len() as int, s);
}

/// A span without separators adds none to a count.
proof fn lemma_none_to_count(doc: Seq<u8>, at: int, to: int, s: Commas)
    requires
        at <= to <= doc.len(),
        s.left == 2,
        comma_run(doc, at, to, s) matches CommaRun::Open(m) && m.left == s.left,
    ensures
        ({
            let m = comma_run(doc, at, to, s)->Open_0;
            separators(doc, at, s.lex, s.depth) == separators(doc, to, m.lex, m.depth)
        }),
    decreases to - at,
{
    if at < to {
        let b = doc[at];
        let n = comma_step(s, b);
        if separates(s, b) {
            lemma_comma_left(doc, at + 1, to, n);
        } else {
            lemma_none_to_count(doc, at + 1, to, n);
        }
    }
}

/// A separator at the end of a level span adds one.
proof fn lemma_one_to_count(doc: Seq<u8>, at: int, to: int)
    requires
        at <= to < doc.len(),
        level(doc, at, to),
        doc[to] == COMMA || is_closer(doc[to]),
    ensures
        doc[to] == COMMA ==> separators(doc, at, outside(), 0) == (match separators(
            doc,
            to + 1,
            outside(),
            0,
        ) {
            Some(n) => Some((n + 1) as nat),
            None => None,
        }),
        is_closer(doc[to]) ==> separators(doc, at, outside(), 0) == Some(0nat),
{
    let s = Commas { lex: outside(), depth: 0, left: 2 };
    lemma_none_to_count(doc, at, to, s);
    assert(lex_step(outside(), doc[to]) == outside());
}

/// What a scan for `n` separators, and a count of them, make of the first `n`
/// children.
proof fn lemma_children(doc: Seq<u8>, first: ContainerCursor, n: nat)
    requires
        doc.len() <= u64::MAX,
        n > 0,
        cursor_after(doc, first, n) is Some,
        children_nest(doc, first, n),
    ensures
        ({
            let c = cursor_after(doc, first, n)->0;
            let at = first.next_offset as int;
            let run = comma_run(
                doc,
                at,
                doc.len() as int,
                Commas { lex: outside(), depth: 0, left: n },
            );
            &&& c.kind == first.kind
            &&& at < c.next_offset <= doc.len()
            &&& if past_separator(doc, c) {
                &&& run == CommaRun::Found(c.next_offset as int)
                &&& separators(doc, at, outside(), 0) == (match separators(
                    doc,
                    c.next_offset as int,
                    outside(),
                    0,
                ) {
                    Some(more) => Some((more + n) as nat),
                    None => None,
                })
            } else {
                &&& c.next_offset < doc.len()
                &&& doc[c.next_offset as int] == closer(c.kind)
                &&& run == CommaRun::Closed(1)
                &&& separators(doc, at, outside(), 0) == Some((n - 1) as nat)
            }
        }),
    decreases n,
{
    let before = cursor_after(doc, first, (n - 1) as nat)->0;
    let at = first.next_offset as int;
    let from = before.next_offset as int;
    let len = doc.len() as int;
    let one = Commas { lex: outside(), depth: 0, left: 1 };
    assert(child_nests(doc, before));
    lemma_one_child(doc, before);
    let c = child_step(doc, before)->Ok_0.1;
    let to = c.next_offset as int;
    let stop = if past_separator(doc, c) {
        to - 1
    } else {
        to
    };
    lemma_past_level(doc, from, stop, 1);
    lemma_one_to_count(doc, from, stop);
    assert(lex_step(outside(), doc[stop]) == outside());
    assert(comma_run(doc, from, len, one) == (if past_separator(doc, c) {
        CommaRun::Found(to)
    } else {
        CommaRun::Closed(1)
    }));
    if n > 1 {
        lemma_children(doc, first, (n - 1) as nat);
        if !past_separator(doc, before) {
            // At the closing byte there is no further child.
            lemma_run_end(doc, from, ByteClass::Whitespace);
            assert(ws_end(doc, from) == from);
            assert(false);
        }
        lemma_comma_count(
            doc,
            at,
            len,
            Commas { lex: outside(), depth: 0, left: (n - 1) as nat },
            n,
        );
    }
}

/// A cursor numbers the children of an array from where it starts.
proof fn lemma_children_numbered(doc: Seq<u8>, first: ContainerCursor, n: nat)
    requires
        first.kind is Array,
        first.index + n <= usize::MAX,
        cursor_after(doc, first, n) is Some,
    ensures
        cursor_after(doc, first, n)->0.index == first.index + n,
        cursor_after(doc, first, n)->0.kind is Array,
    decreases n,
{
    if n > 0 {
        lemma_children_numbered(doc, first, (n - 1) as nat);
    }
}

/// A cursor at the first child of the container that opens at `open`.
pub open spec fn first_child(kind: ContainerKind, open: int) -> ContainerCursor {
    ContainerCursor { kind, next_offset: (open + 1) as u64, index: 0 }
}

/// The child that a cursor over an array gives after `n` others is the element that
/// the index `n` names, and where the cursor has come to the end of the array there
/// is no such element.
pub proof fn law_iteration_is_indexing(doc: Seq<u8>, open: int, n: usize)
    requires
        doc.len() <= u64::MAX,
        0 <= open < doc.len(),
        cursor_after(doc, first_child(ContainerKind::Array, open), n as nat) is Some,
        children_nest(doc, first_child(ContainerKind::Array, open), n as nat),
    ensures
        match child_step(
            doc,
            cursor_after(doc, first_child(ContainerKind::Array, open), n as nat)->0,
        ) {
            Ok((Some(child), _)) => {
                &&& child.key == ChildKey::Index(n)
                &&& element_at(doc, open, n) == Ok::<Option<u64>, TraverseError>(
                    Some(child.location.start),
                )
            },
            Ok((None, _)) => element_at(doc, open, n) == Ok::<Option<u64>, TraverseError>(None),
            Err(_) => true,
        },
{
    let first = first_child(ContainerKind::Array, open);
    lemma_children_numbered(doc, first, n as nat);
    if n > 0 {
        lemma_children(doc, first, n as nat);
        let c = cursor_after(doc, first, n as nat)->0;
        assert(fresh_scan(ContainerKind::Array, open).commas(n) == (Commas {
            lex: outside(),
            depth: 0,
            left: n as nat,
        }));
        if !past_separator(doc, c) {
            lemma_run_end(doc, c.next_offset as int, ByteClass::Whitespace);
            assert(ws_end(doc, c.next_offset as int) == c.next_offset);
        }
    }
}

/// Where a container closes before the separators looked for, it closes before more
/// of them.
proof fn lemma_closed_before_more(doc: Seq<u8>, at: int, to: int, s: Commas, more: nat)
    requires
        0 < s.left <= more,
        comma_run(doc, at, to, s) is Closed,
    ensures
        comma_run(doc, at, to, Commas { left: more, ..s }) is Closed,
    decreases to - at,
{
    if at < to && !ends_array(s, doc[at]) {
        let big = Commas { left: more, ..s };
        let n = comma_step(s, doc[at]);
        let step = if separates(s, doc[at]) {
            (more - 1) as nat
        } else {
            more
        };
        lemma_closed_before_more(doc, at + 1, to, n, step);
        assert(comma_step(big, doc[at]) == (Commas { left: step, ..n }));
    }
}

/// A lookup can go on from where a cursor over an array stands.
pub proof fn lemma_cursor_is_sound(doc: Seq<u8>, open: int, n: usize)
    requires
        doc.len() <= u64::MAX,
        0 <= open < doc.len(),
        cursor_after(doc, first_child(ContainerKind::Array, open), n as nat) is Some,
        children_nest(doc, first_child(ContainerKind::Array, open), n as nat),
    ensures
        ({
            let c = cursor_after(doc, first_child(ContainerKind::Array, open), n as nat)->0;
            &&& c.index == n
            &&& c.next_offset <= doc.len()
            &&& element_sound(doc, fresh_scan(ContainerKind::Array, open), (n, c.next_offset))
        }),
{
    let first = first_child(ContainerKind::Array, open);
    let scan = fresh_scan(ContainerKind::Array, open);
    let c = cursor_after(doc, first, n as nat)->0;
    let at = c.next_offset as int;
    lemma_children_numbered(doc, first, n as nat);
    if n > 0 {
        lemma_children(doc, first, n as nat);
        assert(scan.commas(n) == (Commas { lex: outside(), depth: 0, left: n as nat }));
        if past_separator(doc, c) {
            lemma_boundary_is_sound(doc, scan, n, c.next_offset);
        } else {
            // At the closing byte there are no elements to find, from here or from the open.
            let seeded = seeded_scan(ResumePoint::Array { index: n, offset: c.next_offset });
            lemma_run_end(doc, at, ByteClass::Whitespace);
            assert(ws_end(doc, at) == at);
            assert forall|m: usize| m >= n implies crate::soundness::same_scan(
                #[trigger] array_scan(doc, seeded, m, 0).outcome,
                array_scan(doc, scan, m, 0).outcome,
            ) by {
                lemma_closed_before_more(
                    doc,
                    open + 1,
                    doc.len() as int,
                    scan.commas(n),
                    m as nat,
                );
                assert(scan.commas(m) == (Commas { left: m as nat, ..scan.commas(n) }));
                assert(lex_step(outside(), doc[at]) == outside());
            }
        }
    } else {
        assert(seeded_scan(ResumePoint::Array { index: 0, offset: scan.offset }) == scan);
        assert(element_sound(doc, scan, (0, scan.offset)));
    }
}

/// A cursor that has given `n` children has passed `n` bytes at least.
pub proof fn lemma_yielded(doc: Seq<u8>, first: ContainerCursor, n: nat)
    requires
        doc.len() <= u64::MAX,
        first.next_offset <= doc.len(),
        cursor_after(doc, first, n) is Some,
    ensures
        first.next_offset + n <= cursor_after(doc, first, n)->0.next_offset <= doc.len(),
        cursor_after(doc, first, n)->0.kind == first.kind,
    decreases n,
{
    if n > 0 {
        lemma_yielded(doc, first, (n - 1) as nat);
        law_cursor_advances(doc, cursor_after(doc, first, (n - 1) as nat)->0);
    }
}

/// Where a cursor over an array has come to the end, there are no further elements.
pub proof fn lemma_no_more_elements(doc: Seq<u8>, open: int, n: usize, j: usize)
    requires
        doc.len() <= u64::MAX,
        0 <= open < doc.len(),
        n <= j,
        cursor_after(doc, first_child(ContainerKind::Array, open), n as nat) is Some,
        children_nest(doc, first_child(ContainerKind::Array, open), n as nat),
        child_step(
            doc,
            cursor_after(doc, first_child(ContainerKind::Array, open), n as nat)->0,
        ) matches Ok((None, _)),
    ensures
        element_at(doc, open, j) == Ok::<Option<u64>, TraverseError>(None),
{
    let scan = fresh_scan(ContainerKind::Array, open);
    let c = cursor_after(doc, first_child(ContainerKind::Array, open), n as nat)->0;
    let at = c.next_offset as int;
    let seeded = seeded_scan(ResumePoint::Array { index: n, offset: c.next_offset });
    lemma_cursor_is_sound(doc, open, n);
    lemma_children_numbered(doc, first_child(ContainerKind::Array, open), n as nat);
    assert(crate::soundness::same_scan(
        array_scan(doc, seeded, j, 0).outcome,
        array_scan(doc, scan, j, 0).outcome,
    ));
    if j > n {
        let end = ws_end(doc, at);
        lemma_run_end(doc, at, ByteClass::Whitespace);
        lemma_whitespace_is_level(doc, at);
        lemma_past_level(doc, at, end, (j - n) as nat);
        assert(seeded.commas(j) == (Commas { lex: outside(), depth: 0, left: (j - n) as nat }));
        assert(lex_step(outside(), doc[end]) == outside());
    }
}

/// A lookup can go on from any child that a cursor over an array gave: every element
/// at or past it is found from there as it is from the array's open.
pub proof fn law_children_can_be_resumed_from(doc: Seq<u8>, open: int, n: usize)
    requires
        doc.len() <= u64::MAX,
        0 <= open < doc.len(),
        cursor_after(doc, first_child(ContainerKind::Array, open), n as nat) is Some,
        children_nest(doc, first_child(ContainerKind::Array, open), n as nat),
        child_step(
            doc,
            cursor_after(doc, first_child(ContainerKind::Array, open), n as nat)->0,
        ) matches Ok((Some(_), _)),
    ensures
        ({
            let c = cursor_after(doc, first_child(ContainerKind::Array, open), n as nat)->0;
            let start = child_step(doc, c)->Ok_0.0->0.location.start;
            &&& element_sound(doc, fresh_scan(ContainerKind::Array, open), (n, start))
            &&& start <= doc.len()
        }),
{
    let first = first_child(ContainerKind::Array, open);
    let c = cursor_after(doc, first, n as nat)->0;
    lemma_cursor_is_sound(doc, open, n);
    lemma_children_numbered(doc, first, n as nat);
    lemma_run_end(doc, c.next_offset as int, ByteClass::Whitespace);
    lemma_whitespace_is_sound(doc, fresh_scan(ContainerKind::Array, open), n, c.next_offset);
}

/// A container has as many children as a cursor gives before it comes to the end. A
/// separator before the closing byte counts as one more.
pub proof fn law_count_is_the_number_of_children(
    doc: Seq<u8>,
    kind: ContainerKind,
    open: int,
    n: nat,
)
    requires
        doc.len() <= u64::MAX,
        0 <= open < doc.len(),
        cursor_after(doc, first_child(kind, open), n) is Some,
        children_nest(doc, first_child(kind, open), n),
        child_step(doc, cursor_after(doc, first_child(kind, open), n)->0) matches Ok((None, _)),
    ensures
        child_count(doc, open + 1) == Ok::<nat, TraverseError>(
            if n > 0 && past_separator(doc, cursor_after(doc, first_child(kind, open), n)->0) {
                n + 1
            } else {
                n
            },
        ),
{
    let first = first_child(kind, open);
    let at = open + 1;
    let c = cursor_after(doc, first, n)->0;
    let o = ws_end(doc, at);
    lemma_run_end(doc, at, ByteClass::Whitespace);
    if n > 0 {
        lemma_children(doc, first, n);
        lemma_first_is_no_closer(doc, first, n);
        lemma_whitespace_is_level(doc, at);
        lemma_none_to_count(doc, at, o, Commas { lex: outside(), depth: 0, left: 2 });
        let end = ws_end(doc, c.next_offset as int);
        lemma_run_end(doc, c.next_offset as int, ByteClass::Whitespace);
        lemma_entry_key(doc, c.next_offset as int);
        if past_separator(doc, c) {
            lemma_whitespace_is_level(doc, c.next_offset as int);
            lemma_one_to_count(doc, c.next_offset as int, end);
        }
    }
}

/// Where a container has a child, it does not close at once.
proof fn lemma_first_is_no_closer(doc: Seq<u8>, first: ContainerCursor, n: nat)
    requires
        doc.len() <= u64::MAX,
        n > 0,
        cursor_after(doc, first, n) is Some,
    ensures
        ws_end(doc, first.next_offset as int) < doc.len(),
        !is_closer(doc[ws_end(doc, first.next_offset as int)]),
    decreases n,
{
    if n > 1 {
        lemma_first_is_no_closer(doc, first, (n - 1) as nat);
    } else {
        assert(cursor_after(doc, first, 0) == Some(first));
        let o = ws_end(doc, first.next_offset as int);
        lemma_run_end(doc, first.next_offset as int, ByteClass::Whitespace);
        if first.kind is Array && doc[o] == RBRACE {
            lemma_run_end(doc, o, ByteClass::Primitive);
            lemma_run_end(doc, o, ByteClass::Whitespace);
        }
    }
}

// ---- the end of the container

/// The opening byte of a container.
pub open spec fn opener(kind: ContainerKind) -> u8 {
    match kind {
        ContainerKind::Object => LBRACE,
        ContainerKind::Array => LBRACKET,
    }
}

/// The bytes `at..to` close every container of the kind that they open, and no
/// other.
pub open spec fn balanced(doc: Seq<u8>, at: int, to: int, kind: ContainerKind) -> bool {
    let s = Nest { lex: outside(), depth: 1 };
    nest_run(doc, at, to, s, opener(kind), closer(kind)) == NestRun::Open(s)
}

/// The child that a cursor comes to closes every container of the cursor's kind that
/// it opens.
pub open spec fn child_balances(doc: Seq<u8>, cursor: ContainerCursor) -> bool {
    child_step(doc, cursor) matches Ok((Some(child), _)) ==> {
        let start = child.location.start as int;
        is_opener(doc[start]) ==> balanced(
            doc,
            start,
            child.location.end as int,
            cursor.kind,
        )
    }
}

/// The first `n` children do.
pub open spec fn children_balance(doc: Seq<u8>, first: ContainerCursor, n: nat) -> bool {
    forall|k: nat|
        k < n ==> ((#[trigger] cursor_after(doc, first, k)) matches Some(c) ==> child_balances(
            doc,
            c,
        ))
}

proof fn lemma_balanced_join(doc: Seq<u8>, at: int, mid: int, to: int, kind: ContainerKind)
    requires
        at <= mid <= to,
        balanced(doc, at, mid, kind),
        balanced(doc, mid, to, kind),
    ensures
        balanced(doc, at, to, kind),
{
    lemma_nest_split(
        doc,
        at,
        mid,
        to,
        Nest { lex: outside(), depth: 1 },
        opener(kind),
        closer(kind),
    );
}

/// Bytes that neither open, close, quote nor escape are balanced.
proof fn lemma_plain_is_balanced(doc: Seq<u8>, at: int, to: int, kind: ContainerKind)
    requires
        forall|i: int|
            at <= i < to ==> !is_opener(#[trigger] doc[i]) && !is_closer(doc[i]) && doc[i] != QUOTE
                && doc[i] != BACKSLASH,
    ensures
        balanced(doc, at, to, kind),
    decreases to - at,
{
    if at < to {
        assert(!is_opener(doc[at]));
        lemma_plain_is_balanced(doc, at + 1, to, kind);
        assert(lex_step(outside(), doc[at]) == outside());
    }
}

proof fn lemma_whitespace_is_balanced(doc: Seq<u8>, at: int, kind: ContainerKind)
    ensures
        balanced(doc, at, ws_end(doc, at), kind),
        at <= ws_end(doc, at),
{
    lemma_run_end(doc, at, ByteClass::Whitespace);
    assert forall|i: int| at <= i < ws_end(doc, at) implies !is_opener(#[trigger] doc[i])
        && !is_closer(doc[i]) && doc[i] != QUOTE && doc[i] != BACKSLASH by {
        assert(is_whitespace(doc[i]));
    }
    lemma_plain_is_balanced(doc, at, ws_end(doc, at), kind);
}

/// Inside a string nothing opens or closes.
proof fn lemma_string_is_balanced(doc: Seq<u8>, at: int, lex: Lex, kind: ContainerKind)
    requires
        lex.inside,
        string_run(doc, at, doc.len() as int, lex) is Closed,
    ensures
        ({
            let k = string_run(doc, at, doc.len() as int, lex)->Closed_0;
            &&& at <= k < doc.len()
            &&& nest_run(doc, at, k + 1, Nest { lex, depth: 1 }, opener(kind), closer(kind))
                == NestRun::Open(Nest { lex: outside(), depth: 1 })
        }),
    decreases doc.len() - at,
{
    let n = lex_step(lex, doc[at]);
    if n.inside {
        lemma_string_is_balanced(doc, at + 1, n, kind);
    } else {
        let s = Nest { lex: n, depth: 1 };
        assert(doc[at] == QUOTE);
        assert(nest_run(doc, at + 1, at + 1, s, opener(kind), closer(kind)) == NestRun::Open(s));
    }
}

proof fn lemma_literal_is_balanced(doc: Seq<u8>, open: int, kind: ContainerKind)
    requires
        0 <= open < doc.len(),
        doc[open] == QUOTE,
        string_run(doc, open + 1, doc.len() as int, inside()) is Closed,
    ensures
        ({
            let k = string_run(doc, open + 1, doc.len() as int, inside())->Closed_0;
            &&& open < k < doc.len()
            &&& balanced(doc, open, k + 1, kind)
        }),
{
    lemma_string_is_balanced(doc, open + 1, inside(), kind);
    assert(lex_step(outside(), doc[open]) == inside());
}

/// Between two places where a cursor stops nothing of its kind stays open.
proof fn lemma_child_is_balanced(doc: Seq<u8>, cursor: ContainerCursor)
    requires
        doc.len() <= u64::MAX,
        child_step(doc, cursor) matches Ok((Some(_), _)),
        child_balances(doc, cursor),
    ensures
        ({
            let next = child_step(doc, cursor)->Ok_0.1;
            &&& next.kind == cursor.kind
            &&& cursor.next_offset < next.next_offset <= doc.len()
            &&& balanced(doc, cursor.next_offset as int, next.next_offset as int, cursor.kind)
        }),
{
    let kind = cursor.kind;
    let at = cursor.next_offset as int;
    let (child, next) = child_step(doc, cursor)->Ok_0;
    let start = child->0.location.start as int;
    law_cursor_advances(doc, cursor);
    lemma_run_end(doc, at, ByteClass::Whitespace);
    lemma_entry_key(doc, at);
    lemma_whitespace_is_balanced(doc, at, kind);
    match kind {
        ContainerKind::Object => {
            if let EntryKey::Key(o, c) = entry_key(doc, at) {
                lemma_member_value(doc, c);
                lemma_literal_is_balanced(doc, o, kind);
                lemma_balanced_join(doc, at, o, c + 1, kind);
                let colon = ws_end(doc, c + 1);
                lemma_whitespace_is_balanced(doc, c + 1, kind);
                lemma_balanced_join(doc, at, c + 1, colon, kind);
                lemma_plain_is_balanced(doc, colon, colon + 1, kind);
                lemma_balanced_join(doc, at, colon, colon + 1, kind);
                lemma_whitespace_is_balanced(doc, colon + 1, kind);
                lemma_balanced_join(doc, at, colon + 1, start, kind);
                assert(member_value(doc, c) == Ok::<int, TraverseError>(start));
            }
        },
        ContainerKind::Array => {},
    }
    assert(balanced(doc, at, start, kind));
    lemma_follow(doc, start, closer(kind));
    let f = follow(doc, start, closer(kind))->Ok_0;
    if !is_opener(doc[start]) {
        if doc[start] == QUOTE {
            lemma_literal_is_balanced(doc, start, kind);
        } else {
            lemma_run_end(doc, start, ByteClass::Primitive);
            assert forall|i: int| start <= i < f.end implies !is_opener(#[trigger] doc[i])
                && !is_closer(doc[i]) && doc[i] != QUOTE && doc[i] != BACKSLASH by {
                assert(is_primitive(doc[i]));
            }
            lemma_plain_is_balanced(doc, start, f.end, kind);
        }
    }
    lemma_balanced_join(doc, at, start, f.end, kind);
    lemma_whitespace_is_balanced(doc, f.end, kind);
    lemma_balanced_join(doc, at, f.end, f.at, kind);
    if !f.last {
        lemma_plain_is_balanced(doc, f.at, f.at + 1, kind);
        lemma_balanced_join(doc, at, f.at, f.at + 1, kind);
    }
}

proof fn lemma_children_are_balanced(doc: Seq<u8>, first: ContainerCursor, n: nat)
    requires
        doc.len() <= u64::MAX,
        first.next_offset <= doc.len(),
        cursor_after(doc, first, n) is Some,
        children_balance(doc, first, n),
    ensures
        ({
            let c = cursor_after(doc, first, n)->0;
            &&& c.kind == first.kind
            &&& first.next_offset <= c.next_offset <= doc.len()
            &&& balanced(doc, first.next_offset as int, c.next_offset as int, first.kind)
        }),
    decreases n,
{
    if n > 0 {
        lemma_children_are_balanced(doc, first, (n - 1) as nat);
        let c = cursor_after(doc, first, (n - 1) as nat)->0;
        assert(child_balances(doc, c));
        lemma_child_is_balanced(doc, c);
        lemma_balanced_join(
            doc,
            first.next_offset as int,
            c.next_offset as int,
            cursor_after(doc, first, n)->0.next_offset as int,
            first.kind,
        );
    }
}

/// A cursor comes to its end at the byte that ends the container.
pub proof fn law_iteration_ends_at_the_close(
    doc: Seq<u8>,
    kind: ContainerKind,
    open: int,
    n: nat,
)
    requires
        doc.len() <= u64::MAX,
        0 <= open < doc.len(),
        doc[open] == opener(kind),
        cursor_after(doc, first_child(kind, open), n) is Some,
        children_balance(doc, first_child(kind, open), n),
        child_step(doc, cursor_after(doc, first_child(kind, open), n)->0) matches Ok((None, _)),
    ensures
        ({
            let c = cursor_after(doc, first_child(kind, open), n)->0;
            let end = child_step(doc, c)->Ok_0.1;
            &&& end.next_offset < doc.len()
            &&& value_end(doc, open) == Ok::<u64, TraverseError>((end.next_offset + 1) as u64)
        }),
{
    let first = first_child(kind, open);
    let at = open + 1;
    let c = cursor_after(doc, first, n)->0;
    let end = child_step(doc, c)->Ok_0.1.next_offset as int;
    let s = Nest { lex: outside(), depth: 1 };
    lemma_children_are_balanced(doc, first, n);
    lemma_whitespace_is_balanced(doc, c.next_offset as int, kind);
    lemma_run_end(doc, c.next_offset as int, ByteClass::Whitespace);
    lemma_entry_key(doc, c.next_offset as int);
    lemma_balanced_join(doc, at, c.next_offset as int, end, kind);
    lemma_nest_split(doc, at, end, doc.len() as int, s, opener(kind), closer(kind));
    assert(lex_step(outside(), doc[end]) == outside());
}

// ---- members by their names

/// The interior of a member's key.
pub open spec fn key_interior(doc: Seq<u8>, child: ChildEntry) -> Seq<u8> {
    match child.key {
        ChildKey::Member { start, close } => doc.subrange(start + 1, close as int),
        ChildKey::Index(_) => Seq::empty(),
    }
}

/// Whether the member that a cursor comes to has the name, `None` where its key is
/// malformed.
pub open spec fn child_hit(
    doc: Seq<u8>,
    cursor: ContainerCursor,
    name: Seq<char>,
    recording: bool,
) -> Option<bool> {
    match child_step(doc, cursor) {
        Ok((Some(child), _)) => key_hit(key_interior(doc, child), name, recording),
        _ => None,
    }
}

/// None of the first `n` members has the name.
pub open spec fn passed_over(
    doc: Seq<u8>,
    first: ContainerCursor,
    n: nat,
    name: Seq<char>,
    recording: bool,
) -> bool {
    forall|k: nat|
        k < n ==> ((#[trigger] cursor_after(doc, first, k)) matches Some(c) ==> child_hit(
            doc,
            c,
            name,
            recording,
        ) == Some(false))
}

/// Past members of other names a lookup goes on from where the cursor stands.
pub proof fn lemma_members_passed(
    doc: Seq<u8>,
    first: ContainerCursor,
    n: nat,
    name: Seq<char>,
    recording: bool,
)
    requires
        doc.len() <= u64::MAX,
        first.kind is Object,
        cursor_after(doc, first, n) is Some,
        passed_over(doc, first, n, name, recording),
    ensures
        cursor_after(doc, first, n)->0.kind is Object,
        object_scan(doc, first.next_offset as int, name, recording).outcome == object_scan(
            doc,
            cursor_after(doc, first, n)->0.next_offset as int,
            name,
            recording,
        ).outcome,
    decreases n,
{
    if n > 0 {
        lemma_members_passed(doc, first, (n - 1) as nat, name, recording);
        let c = cursor_after(doc, first, (n - 1) as nat)->0;
        let at = c.next_offset as int;
        assert(child_hit(doc, c, name, recording) == Some(false));
        lemma_entry_key(doc, at);
        if let EntryKey::Key(o, k) = entry_key(doc, at) {
            lemma_member_value(doc, k);
            if let Ok(v) = member_value(doc, k) {
                lemma_follow(doc, v, RBRACE);
                let f = follow(doc, v, RBRACE)->Ok_0;
                if f.last {
                    lemma_run_end(doc, f.at, ByteClass::Whitespace);
                    assert(ws_end(doc, f.at) == f.at);
                }
            }
        }
    }
}

/// A lookup of a name finds the first member that a cursor over the object gives
/// under that name, and nothing where the cursor comes to the end without one.
pub proof fn law_first_of_a_name_is_found(
    doc: Seq<u8>,
    open: int,
    n: nat,
    name: Seq<char>,
    recording: bool,
)
    requires
        doc.len() <= u64::MAX,
        0 <= open < doc.len(),
        cursor_after(doc, first_child(ContainerKind::Object, open), n) is Some,
        passed_over(doc, first_child(ContainerKind::Object, open), n, name, recording),
    ensures
        ({
            let c = cursor_after(doc, first_child(ContainerKind::Object, open), n)->0;
            let found = object_scan(doc, open + 1, name, recording).outcome;
            match child_step(doc, c) {
                Ok((Some(child), _)) => child_hit(doc, c, name, recording) == Some(true) ==> found
                    == Ok::<Option<u64>, TraverseError>(Some(child.location.start)),
                Ok((None, _)) => found == Ok::<Option<u64>, TraverseError>(None),
                Err(_) => true,
            }
        }),
{
    let first = first_child(ContainerKind::Object, open);
    lemma_members_passed(doc, first, n, name, recording);
    let c = cursor_after(doc, first, n)->0;
    lemma_entry_key(doc, c.next_offset as int);
}

} // verus!
