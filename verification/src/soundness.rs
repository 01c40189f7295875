//! Using the index changes no answer: what it holds of a document stays true of
//! it, and a query that starts from it comes to what it would have come to from
//! the container's open.

use vstd::prelude::*;
use vstd::utf8::valid_utf8;

use crate::cache::{
    hop, lemma_merge_members, lemma_place, lookup, merge_members, merge_resume, merge_table,
    merged_array, merged_object, nearest, place, settled, slots, tabled, written, BodyView, Hop,
    IndexView, KeyView, NodeView, Nodes, Table,
};
use crate::count::child_count;
use crate::path::Step;
use crate::resolve::{
    array_scan, array_walk, child_at, cold_record, container_at, element_at, entry_key, follow,
    fresh_scan, key_hit, locate, member_value, noted_name, object_scan, resolution, scanned_notes,
    seeded_scan, ContainerKind, ContainerNotes, EntryKey, MemberMark, ResolveView, Resolved,
    ResumePoint, SegmentScan,
};
use crate::scan::{
    comma_run, comma_step, ends_array, lex, outside, separates, ws_end, ByteClass, CommaRun, Commas,
    BACKSLASH, RBRACE, RBRACKET,
};
use crate::walker::{doc_marks, value_end, TraverseError};

verus! {

// ---- objects

/// What the table and the resume offset say of the object that opens at `open`
/// is true: a tabled name is found where the table says, and any other name is
/// found from the resume offset as it is from the open.
pub open spec fn object_sound(doc: Seq<u8>, open: int, table: Table, resume: u64) -> bool {
    forall|name: Seq<char>|
        object_scan(doc, open + 1, name, true).outcome == (match #[trigger] tabled(table, name) {
            Some(v) => Ok::<Option<u64>, TraverseError>(Some(v)),
            None => object_scan(doc, resume as int, name, true).outcome,
        })
}

/// A name is not among the first `n` members of a record.
pub open spec fn unseen(members: Seq<MemberMark>, n: int, name: Seq<char>) -> bool {
    forall|i: int| 0 <= i < n ==> (#[trigger] members[i]).0 != name
}

/// The members that a scan for one name recorded tell what a scan for another
/// name comes to: the first member of that name is found; past members of other
/// names the scan goes on; and at the end of the object there is nothing more.
pub open spec fn members_tell(doc: Seq<u8>, at: int, target: Seq<char>, name: Seq<char>) -> bool {
    let scan = object_scan(doc, at, target, true);
    let other = object_scan(doc, at, name, true).outcome;
    let n = scan.members.len() as int;
    &&& forall|j: int|
        0 <= j < n && unseen(scan.members, j, name) && (#[trigger] scan.members[j]).0 == name
            ==> other == Ok::<Option<u64>, TraverseError>(Some(scan.members[j].2))
    &&& forall|j: int|
        0 <= j < n && unseen(scan.members, j, name) ==> other == object_scan(
            doc,
            (#[trigger] scan.members[j]).1 as int,
            name,
            true,
        ).outcome
    &&& scan.outcome is Ok ==> scan.resume is Some
    &&& scan.outcome is Err ==> scan.resume is None
    &&& scan.outcome matches Ok(Some(_)) ==> n > 0 && scan.resume == Some(scan.members[n - 1].1)
    &&& scan.outcome matches Ok(None) ==> unseen(scan.members, n, name) ==> {
        &&& other == Ok::<Option<u64>, TraverseError>(None)
        &&& object_scan(doc, scan.resume->0 as int, name, true).outcome == Ok::<
            Option<u64>,
            TraverseError,
        >(None)
    }
}

proof fn lemma_members(doc: Seq<u8>, at: int, target: Seq<char>, name: Seq<char>)
    requires
        0 <= at <= u64::MAX,
        doc.len() <= u64::MAX,
    ensures
        members_tell(doc, at, target, name),
    decreases doc.len() - at,
{
    let scan = object_scan(doc, at, target, true);
    crate::resolve::lemma_entry_key(doc, at);
    match entry_key(doc, at) {
        EntryKey::Fault(e) => {
            assert(members_tell(doc, at, target, name));
        },
        EntryKey::Close(o) => {
            lemma_at_close(doc, at, o, name);
            assert(members_tell(doc, at, target, name));
        },
        EntryKey::Key(o, c) => {
            let interior = doc.subrange(o + 1, c);
            match (key_hit(interior, target, true), member_value(doc, c)) {
                (Some(hit), Ok(v)) => {
                    let mark = (noted_name(interior), at as u64, v as u64);
                    crate::resolve::lemma_member_value(doc, c);
                    crate::resolve::lemma_follow(doc, v, RBRACE);
                    if hit {
                        assert(scan.members == seq![mark]);
                        assert(scan.members[0] == mark);
                        assert(members_tell(doc, at, target, name));
                    } else {
                        match follow(doc, v, RBRACE) {
                            Err(e) => {
                                assert(members_tell(doc, at, target, name));
                            },
                            Ok(f) => {
                                if f.last {
                                    assert(scan.members == seq![mark]);
                                    assert(scan.members[0] == mark);
                                    lemma_at_close(doc, f.end, f.at, name);
                                    assert(unseen(scan.members, 1, name) ==> mark.0 != name);
                                    assert(members_tell(doc, at, target, name));
                                } else {
                                    lemma_members(doc, f.at + 1, target, name);
                                    lemma_members_step(doc, at, f.at + 1, mark, target, name);
                                }
                            },
                        }
                    }
                },
                _ => {
                    assert(members_tell(doc, at, target, name));
                },
            }
        },
    }
}

/// At the closing brace there is no member.
proof fn lemma_at_close(doc: Seq<u8>, at: int, close: int, name: Seq<char>)
    requires
        0 <= at <= close < doc.len(),
        doc.len() <= u64::MAX,
        ws_end(doc, at) == close,
        doc[close] == RBRACE,
    ensures
        object_scan(doc, close, name, true).outcome == Ok::<Option<u64>, TraverseError>(None),
{
    crate::scan::lemma_run_end(doc, close, ByteClass::Whitespace);
    assert(ws_end(doc, close) == close);
    assert(entry_key(doc, close) == EntryKey::Close(close));
}

/// The inductive step of [`lemma_members`]: an entry that is neither the one
/// looked for nor the last, before the entries from `next` on.
proof fn lemma_members_step(
    doc: Seq<u8>,
    at: int,
    next: int,
    mark: MemberMark,
    target: Seq<char>,
    name: Seq<char>,
)
    requires
        0 <= at < next,
        at <= u64::MAX,
        doc.len() <= u64::MAX,
        mark.1 == at as u64,
        ({
            let scan = object_scan(doc, at, target, true);
            let rest = object_scan(doc, next, target, true);
            &&& scan.members == seq![mark] + rest.members
            &&& scan.outcome == rest.outcome
            &&& scan.resume == rest.resume
        }),
        object_scan(doc, at, name, true).outcome == (if mark.0 == name {
            Ok::<Option<u64>, TraverseError>(Some(mark.2))
        } else {
            object_scan(doc, next, name, true).outcome
        }),
        members_tell(doc, next, target, name),
    ensures
        members_tell(doc, at, target, name),
{
    let scan = object_scan(doc, at, target, true);
    let rest = object_scan(doc, next, target, true);
    let n = scan.members.len() as int;
    assert(scan.members[0] == mark);
    assert forall|j: int| 0 <= j < rest.members.len() implies #[trigger] rest.members[j]
        == scan.members[j + 1] by {}
    assert forall|j: int| 0 < j <= n && unseen(scan.members, j, name) implies mark.0 != name
        && #[trigger] unseen(rest.members, j - 1, name) by {
        assert(scan.members[0].0 != name);
        assert forall|i: int| 0 <= i < j - 1 implies (#[trigger] rest.members[i]).0 != name by {
            assert(scan.members[i + 1].0 != name);
        }
    }
    assert forall|j: int|
        0 <= j < n && unseen(scan.members, j, name) && (#[trigger] scan.members[j]).0
            == name implies object_scan(doc, at, name, true).outcome == Ok::<
        Option<u64>,
        TraverseError,
    >(Some(scan.members[j].2)) by {
        if j > 0 {
            assert(unseen(rest.members, j - 1, name));
            assert(rest.members[j - 1] == scan.members[j]);
        }
    }
    assert forall|j: int| 0 <= j < n && unseen(scan.members, j, name) implies object_scan(
        doc,
        at,
        name,
        true,
    ).outcome == object_scan(doc, (#[trigger] scan.members[j]).1 as int, name, true).outcome by {
        if j > 0 {
            assert(unseen(rest.members, j - 1, name));
            assert(rest.members[j - 1] == scan.members[j]);
        }
    }
    if scan.outcome matches Ok(None) && unseen(scan.members, n, name) {
        assert(unseen(rest.members, n - 1, name));
    }
    if scan.outcome matches Ok(Some(_)) {
        assert(rest.members[n - 2] == scan.members[n - 1]);
    }
}

/// An entry that is added to a table gives way to those that are there.
pub proof fn lemma_tabled_push(table: Table, entry: (Seq<char>, u64), name: Seq<char>)
    ensures
        tabled(table.push(entry), name) == (match tabled(table, name) {
            Some(v) => Some(v),
            None => if entry.0 == name {
                Some(entry.1)
            } else {
                None
            },
        }),
    decreases table.len(),
{
    let out = table.push(entry);
    if table.len() == 0 {
        assert(out.drop_first() =~= Seq::empty());
        assert(tabled(out.drop_first(), name) is None);
    } else {
        assert(out[0] == table[0]);
        assert(out.drop_first() =~= table.drop_first().push(entry));
        lemma_tabled_push(table.drop_first(), entry, name);
    }
}

/// What merging the members of a scan does to a table: an entry stays as it is;
/// a new entry is the first member of its name; and every member has an entry up
/// to the first that found no place.
proof fn lemma_merge_table(table: Table, new: Seq<MemberMark>, cap: nat, name: Seq<char>)
    ensures
        ({
            let (out, frozen) = merge_table(table, new, cap);
            &&& tabled(table, name) is Some ==> tabled(out, name) == tabled(table, name)
            &&& tabled(table, name) is None && tabled(out, name) is Some ==> exists|j: int|
                0 <= j < new.len() && unseen(new, j, name) && (#[trigger] new[j]).0 == name
                    && tabled(out, name) == Some(new[j].2)
            &&& frozen is None ==> (tabled(out, name) is None ==> unseen(
                new,
                new.len() as int,
                name,
            ))
            &&& frozen matches Some(at) ==> exists|k: int|
                0 <= k < new.len() && (#[trigger] new[k]).1 == at && (tabled(out, name) is None
                    ==> unseen(new, k, name))
        }),
    decreases new.len(),
{
    let (out, frozen) = merge_table(table, new, cap);
    if new.len() > 0 {
        let rest = new.drop_first();
        assert forall|i: int| 0 <= i < rest.len() implies #[trigger] rest[i] == new[i + 1] by {}
        if tabled(table, new[0].0) is Some {
            lemma_merge_table(table, rest, cap, name);
            lemma_merge_table(table, rest, cap, new[0].0);
            lemma_merge_table_shift(table, table, new, cap, name);
        } else if table.len() >= cap {
            assert(new[0].1 == frozen->0);
        } else {
            let entry = (new[0].0, new[0].2);
            let grown = table.push(entry);
            lemma_tabled_push(table, entry, name);
            lemma_tabled_push(table, entry, new[0].0);
            lemma_merge_table(grown, rest, cap, name);
            lemma_merge_table(grown, rest, cap, new[0].0);
            lemma_merge_table_shift(table, grown, new, cap, name);
            if tabled(table, name) is None && new[0].0 == name {
                assert(tabled(out, name) == Some(new[0].2));
                assert(unseen(new, 0, name));
            }
        }
    }
}

/// The inductive step of [`lemma_merge_table`]: what holds of the members past
/// the first holds of all, with their places moved by one.
proof fn lemma_merge_table_shift(
    table: Table,
    grown: Table,
    new: Seq<MemberMark>,
    cap: nat,
    name: Seq<char>,
)
    requires
        new.len() > 0,
        tabled(grown, new[0].0) is Some,
        ({
            let rest = new.drop_first();
            let (out, frozen) = merge_table(grown, rest, cap);
            &&& merge_table(table, new, cap) == (out, frozen)
            &&& tabled(out, new[0].0) is Some
            &&& tabled(grown, name) is None && tabled(out, name) is Some ==> exists|j: int|
                0 <= j < rest.len() && unseen(rest, j, name) && (#[trigger] rest[j]).0 == name
                    && tabled(out, name) == Some(rest[j].2)
            &&& frozen is None ==> (tabled(out, name) is None ==> unseen(
                rest,
                rest.len() as int,
                name,
            ))
            &&& frozen matches Some(at) ==> exists|k: int|
                0 <= k < rest.len() && (#[trigger] rest[k]).1 == at && (tabled(out, name) is None
                    ==> unseen(rest, k, name))
        }),
    ensures
        ({
            let (out, frozen) = merge_table(table, new, cap);
            &&& tabled(grown, name) is None && tabled(out, name) is Some ==> exists|j: int|
                0 <= j < new.len() && unseen(new, j, name) && (#[trigger] new[j]).0 == name
                    && tabled(out, name) == Some(new[j].2)
            &&& frozen is None ==> (tabled(out, name) is None ==> unseen(
                new,
                new.len() as int,
                name,
            ))
            &&& frozen matches Some(at) ==> exists|k: int|
                0 <= k < new.len() && (#[trigger] new[k]).1 == at && (tabled(out, name) is None
                    ==> unseen(new, k, name))
        }),
{
    let rest = new.drop_first();
    let (out, frozen) = merge_table(grown, rest, cap);
    assert forall|i: int| 0 <= i < rest.len() implies #[trigger] rest[i] == new[i + 1] by {}
    assert forall|j: int|
        0 <= j <= rest.len() && new[0].0 != name && unseen(rest, j, name) implies #[trigger] unseen(
        new,
        j + 1,
        name,
    ) by {
        assert forall|i: int| 0 <= i < j + 1 implies (#[trigger] new[i]).0 != name by {
            if i > 0 {
                assert(rest[i - 1] == new[i]);
            }
        }
    }
    if tabled(grown, name) is None && tabled(out, name) is Some {
        let j = choose|j: int|
            0 <= j < rest.len() && unseen(rest, j, name) && (#[trigger] rest[j]).0 == name
                && tabled(out, name) == Some(rest[j].2);
        assert(new[j + 1] == rest[j]);
        assert(new[0].0 != name);
        assert(unseen(new, j + 1, name));
    }
    if frozen is None && tabled(out, name) is None {
        assert(new[0].0 != name);
        assert(unseen(new, rest.len() as int + 1, name));
    }
    if let Some(at) = frozen {
        let k = choose|k: int|
            0 <= k < rest.len() && (#[trigger] rest[k]).1 == at && (tabled(out, name) is None
                ==> unseen(rest, k, name));
        assert(new[k + 1] == rest[k]);
        if tabled(out, name) is None {
            assert(new[0].0 != name);
            assert(unseen(new, k + 1, name));
        }
    }
}

/// Merging the record of a scan keeps what the index holds of an object true,
/// when the scan began at the open or at the resume offset.
pub proof fn law_object_merge_is_sound(
    doc: Seq<u8>,
    open: int,
    table: Table,
    resume: u64,
    from: int,
    target: Seq<char>,
    cap: nat,
)
    requires
        doc.len() <= u64::MAX,
        0 <= open < doc.len(),
        object_sound(doc, open, table, resume),
        from == open + 1 || from == resume,
    ensures
        ({
            let scan = object_scan(doc, from, target, true);
            let (out, frozen) = merge_table(table, scan.members, cap);
            object_sound(doc, open, out, merge_resume(resume, frozen, scan.members, scan.resume))
        }),
{
    let scan = object_scan(doc, from, target, true);
    let new = scan.members;
    let (out, frozen) = merge_table(table, new, cap);
    let next = merge_resume(resume, frozen, new, scan.resume);
    assert forall|name: Seq<char>|
        object_scan(doc, open + 1, name, true).outcome == (match #[trigger] tabled(out, name) {
            Some(v) => Ok::<Option<u64>, TraverseError>(Some(v)),
            None => object_scan(doc, next as int, name, true).outcome,
        }) by {
        lemma_merge_table(table, new, cap, name);
        lemma_members(doc, from, target, name);
        let whole = object_scan(doc, open + 1, name, true).outcome;
        if tabled(table, name) is Some {
            assert(whole == Ok::<Option<u64>, TraverseError>(Some(tabled(table, name)->0)));
        } else {
            assert(whole == object_scan(doc, resume as int, name, true).outcome);
            let here = object_scan(doc, from, name, true).outcome;
            assert(whole == here);
            if tabled(out, name) is Some {
                let j = choose|j: int|
                    0 <= j < new.len() && unseen(new, j, name) && (#[trigger] new[j]).0 == name
                        && tabled(out, name) == Some(new[j].2);
                assert(here == Ok::<Option<u64>, TraverseError>(Some(new[j].2)));
            } else if next != resume {
                let n = new.len() as int;
                match frozen {
                    Some(at) => {
                        let k = choose|k: int|
                            0 <= k < new.len() && (#[trigger] new[k]).1 == at && (tabled(
                                out,
                                name,
                            ) is None ==> unseen(new, k, name));
                        assert(unseen(new, k, name));
                        assert(here == object_scan(doc, new[k].1 as int, name, true).outcome);
                    },
                    None => {
                        assert(unseen(new, n, name));
                        match scan.outcome {
                            Ok(Some(_)) => {
                                assert(unseen(new, n - 1, name));
                                assert(here == object_scan(
                                    doc,
                                    new[n - 1].1 as int,
                                    name,
                                    true,
                                ).outcome);
                            },
                            Ok(None) => {},
                            Err(_) => {
                                assert(unseen(new, n - 1, name));
                                assert(here == object_scan(
                                    doc,
                                    new[n - 1].1 as int,
                                    name,
                                    true,
                                ).outcome);
                            },
                        }
                    },
                }
            }
        }
    }
}

/// Every key of the object from `at` on that has no escape is text.
pub open spec fn keys_are_text(doc: Seq<u8>, at: int) -> bool
    decreases doc.len() - at,
        when 0 <= at && doc.len() <= u64::MAX
{
    match entry_key(doc, at) {
        EntryKey::Key(o, c) => {
            let interior = doc.subrange(o + 1, c);
            &&& interior.contains(BACKSLASH) || valid_utf8(interior)
            &&& match member_value(doc, c) {
                Ok(v) => match follow(doc, v, RBRACE) {
                    Ok(f) => f.last || {
                        proof {
                            crate::resolve::lemma_entry_key(doc, at);
                            crate::resolve::lemma_member_value(doc, c);
                            crate::resolve::lemma_follow(doc, v, RBRACE);
                        }
                        keys_are_text(doc, f.at + 1)
                    },
                    Err(_) => true,
                },
                Err(_) => true,
            }
        },
        _ => true,
    }
}

/// Recording the members of an object does not change which one is found, nor that a
/// malformed key is reported.
pub proof fn law_recording_changes_no_lookup(doc: Seq<u8>, at: int, target: Seq<char>)
    requires
        0 <= at,
        doc.len() <= u64::MAX,
        keys_are_text(doc, at),
    ensures
        object_scan(doc, at, target, true).outcome == object_scan(doc, at, target, false).outcome,
    decreases doc.len() - at,
{
    crate::resolve::lemma_entry_key(doc, at);
    if let EntryKey::Key(o, c) = entry_key(doc, at) {
        let interior = doc.subrange(o + 1, c);
        crate::keys::law_compare_is_decoding(interior, target);
        crate::resolve::lemma_member_value(doc, c);
        if let Ok(v) = member_value(doc, c) {
            crate::resolve::lemma_follow(doc, v, RBRACE);
            if let Ok(f) = follow(doc, v, RBRACE) {
                if !f.last {
                    law_recording_changes_no_lookup(doc, f.at + 1, target);
                }
            }
        }
    }
}

// ---- arrays

/// Two scans come to the same: the same outcome, or both run into the end of the
/// document. Where a scan then stands depends on where it began.
pub open spec fn same_scan(
    a: Result<Option<u64>, TraverseError>,
    b: Result<Option<u64>, TraverseError>,
) -> bool {
    a == b || (a matches Err(TraverseError::UnexpectedEof(_)) && b matches Err(
        TraverseError::UnexpectedEof(_),
    ))
}

/// From element `member.0` at `member.1` on, every element at or past it is found
/// as it is by the scan `from`.
pub open spec fn element_sound(doc: Seq<u8>, from: SegmentScan, member: (usize, u64)) -> bool {
    forall|n: usize|
        n >= member.0 ==> same_scan(
            #[trigger] array_scan(
                doc,
                seeded_scan(ResumePoint::Array { index: member.0, offset: member.1 }),
                n,
                0,
            ).outcome,
            array_scan(doc, from, n, 0).outcome,
        )
}

/// A scan for more separators passes where a scan for fewer of them ends, and
/// goes on from there outside any string and any nested container.
pub proof fn lemma_comma_count(doc: Seq<u8>, at: int, to: int, s: Commas, more: nat)
    requires
        0 < s.left <= more,
        comma_run(doc, at, to, s) matches CommaRun::Found(_),
    ensures
        ({
            let p = comma_run(doc, at, to, s)->Found_0;
            comma_run(doc, at, to, Commas { left: more, ..s }) == (if more == s.left {
                CommaRun::Found(p)
            } else {
                comma_run(
                    doc,
                    p,
                    to,
                    Commas { lex: outside(), depth: 0, left: (more - s.left) as nat },
                )
            })
        }),
    decreases to - at,
{
    if at < to && !ends_array(s, doc[at]) {
        let big = Commas { left: more, ..s };
        if separates(s, doc[at]) {
            if s.left > 1 {
                lemma_comma_count(
                    doc,
                    at + 1,
                    to,
                    comma_step(s, doc[at]),
                    (more - 1) as nat,
                );
                assert(comma_step(big, doc[at]) == (Commas {
                    left: (more - 1) as nat,
                    ..comma_step(s, doc[at])
                }));
            } else if more > 1 {
                assert(comma_step(big, doc[at]) == (Commas {
                    lex: outside(),
                    depth: 0,
                    left: (more - 1) as nat,
                }));
            }
        } else {
            lemma_comma_count(doc, at + 1, to, comma_step(s, doc[at]), more);
            assert(comma_step(big, doc[at]) == (Commas {
                left: more,
                ..comma_step(s, doc[at])
            }));
        }
    }
}

/// A sampled element begins where a scan for the separators before it ends.
proof fn lemma_mark_is_found(
    doc: Seq<u8>,
    at: int,
    s: Commas,
    index: int,
    stride: int,
    k: int,
)
    requires
        0 <= at,
        doc.len() <= u64::MAX,
        s.left > 0,
        0 <= index,
        index + s.left <= usize::MAX,
        0 <= k < doc_marks(doc, at, s, index, stride).len(),
    ensures
        ({
            let mark = doc_marks(doc, at, s, index, stride)[k];
            &&& index < mark.0 <= index + s.left
            &&& comma_run(
                doc,
                at,
                doc.len() as int,
                Commas { left: (mark.0 - index) as nat, ..s },
            ) == CommaRun::Found(mark.1 as int)
        }),
    decreases doc.len() - at,
{
    let b = doc[at];
    let marks = doc_marks(doc, at, s, index, stride);
    let n = comma_step(s, b);
    if separates(s, b) {
        let head = if (index + 1) % stride == 0 {
            seq![((index + 1) as usize, (0 + at + 1) as u64)]
        } else {
            Seq::empty()
        };
        if s.left > 1 {
            let rest = doc_marks(doc, at + 1, n, index + 1, stride);
            assert(marks == head + rest);
            if k >= head.len() {
                let j = k - head.len();
                assert(marks[k] == rest[j]);
                lemma_mark_is_found(doc, at + 1, n, index + 1, stride, j);
                let mark = rest[j];
                let t = Commas { left: (mark.0 - index) as nat, ..s };
                assert(comma_step(t, b) == (Commas { left: (mark.0 - index - 1) as nat, ..n }));
            }
        }
    } else {
        lemma_mark_is_found(doc, at + 1, n, index, stride, k);
        let mark = marks[k];
        let t = Commas { left: (mark.0 - index) as nat, ..s };
        assert(comma_step(t, b) == (Commas { left: (mark.0 - index) as nat, ..n }));
    }
}

/// Whitespace outside strings changes nothing for the lexer.
proof fn lemma_lex_ws(doc: Seq<u8>, at: int, to: int)
    requires
        forall|i: int| at <= i < to ==> crate::scan::is_whitespace(#[trigger] doc[i]),
    ensures
        lex(doc, at, to, outside()) == outside(),
    decreases to - at,
{
    if at < to {
        lemma_lex_ws(doc, at, to - 1);
        assert(crate::scan::is_whitespace(doc[to - 1]));
    }
}

/// Whitespace before an element changes nothing for a scan for separators.
proof fn lemma_comma_ws(doc: Seq<u8>, at: int, left: nat)
    requires
        0 <= at <= doc.len(),
    ensures
        ({
            let s = Commas { lex: outside(), depth: 0, left };
            comma_run(doc, at, doc.len() as int, s) == comma_run(
                doc,
                ws_end(doc, at),
                doc.len() as int,
                s,
            )
        }),
{
    let s = Commas { lex: outside(), depth: 0, left };
    let o = ws_end(doc, at);
    crate::scan::lemma_run_end(doc, at, ByteClass::Whitespace);
    assert forall|i: int| at <= i < o implies crate::scan::is_whitespace(#[trigger] doc[i]) by {
        assert(crate::scan::in_class(ByteClass::Whitespace, doc[i]));
    }
    lemma_lex_ws(doc, at, o);
    crate::scan::lemma_comma_quiet(doc, at, o, doc.len() as int, s, 0, 0, 0);
}

/// Going through an array without an element to look for finds none.
proof fn lemma_walk_without_hit(doc: Seq<u8>, at: int)
    requires
        0 <= at,
        doc.len() <= u64::MAX,
    ensures
        array_walk(doc, at, false) matches Ok(found) ==> found is None,
    decreases doc.len() - at,
{
    let o = ws_end(doc, at);
    crate::scan::lemma_run_end(doc, at, ByteClass::Whitespace);
    if o < doc.len() && doc[o] != RBRACKET {
        crate::resolve::lemma_follow(doc, o, RBRACKET);
        if let Ok(f) = follow(doc, o, RBRACKET) {
            if !f.last {
                lemma_walk_without_hit(doc, f.at + 1);
            }
        }
    }
}

/// The scan `at` stands at the boundary of an element.
pub open spec fn at_boundary(scan: SegmentScan) -> bool {
    &&& scan.kind is Array
    &&& scan.depth == 0
    &&& scan.carry == (crate::simd::ScanCarry { prev_escaped: 0, inside_string: 0 })
}

/// Every element that a scan from a boundary records can be resumed from: what is
/// found from it is found by the scan.
pub proof fn law_recorded_elements_are_sound(
    doc: Seq<u8>,
    scan: SegmentScan,
    target: usize,
    stride: int,
    k: int,
)
    requires
        doc.len() <= u64::MAX,
        at_boundary(scan),
        scan.offset <= doc.len(),
        0 <= k < array_scan(doc, scan, target, stride).members.len(),
    ensures
        element_sound(doc, scan, array_scan(doc, scan, target, stride).members[k]),
        scan.index <= array_scan(doc, scan, target, stride).members[k].0,
        scan.offset <= array_scan(doc, scan, target, stride).members[k].1 <= doc.len(),
{
    let found = array_scan(doc, scan, target, stride);
    let m = found.members[k];
    let len = doc.len() as int;
    let at = scan.offset as int;
    if scan.index < target {
        let s = scan.commas(target);
        let marks = doc_marks(doc, at, s, scan.index as int, stride);
        if k < marks.len() {
            assert(m == marks[k]);
            lemma_mark_is_found(doc, at, s, scan.index as int, stride, k);
            crate::scan::lemma_comma_left(
                doc,
                at,
                len,
                Commas { left: (m.0 - scan.index) as nat, ..s },
            );
            lemma_boundary_is_sound(doc, scan, m.0, m.1);
        } else {
            // The element looked for, past its whitespace.
            let p = comma_run(doc, at, len, s)->Found_0;
            crate::scan::lemma_comma_left(doc, at, len, s);
            crate::scan::lemma_run_end(doc, p, ByteClass::Whitespace);
            assert(m == (target, ws_end(doc, p) as u64));
            lemma_boundary_is_sound(doc, scan, target, p as u64);
            lemma_whitespace_is_sound(doc, scan, target, p as u64);
        }
    } else {
        lemma_walk_without_hit(doc, at);
        assert(scan.index == target);
        crate::scan::lemma_run_end(doc, at, ByteClass::Whitespace);
        assert(m == (target, ws_end(doc, at) as u64));
        assert(element_sound(doc, scan, (target, scan.offset))) by {
            assert(seeded_scan(ResumePoint::Array { index: target, offset: scan.offset }) == scan);
        }
        lemma_whitespace_is_sound(doc, scan, target, scan.offset);
    }
}

/// An element boundary that a scan passes can be resumed from.
pub proof fn lemma_boundary_is_sound(doc: Seq<u8>, scan: SegmentScan, index: usize, p: u64)
    requires
        doc.len() <= u64::MAX,
        at_boundary(scan),
        scan.index < index,
        p <= doc.len(),
        comma_run(doc, scan.offset as int, doc.len() as int, scan.commas(index))
            == CommaRun::Found(p as int),
    ensures
        element_sound(doc, scan, (index, p)),
{
    let seeded = seeded_scan(ResumePoint::Array { index, offset: p });
    let len = doc.len() as int;
    assert forall|n: usize| n >= index implies same_scan(
        #[trigger] array_scan(doc, seeded, n, 0).outcome,
        array_scan(doc, scan, n, 0).outcome,
    ) by {
        lemma_comma_count(
            doc,
            scan.offset as int,
            len,
            scan.commas(index),
            (n - scan.index) as nat,
        );
        assert(scan.commas(n) == (Commas {
            left: (n - scan.index) as nat,
            ..scan.commas(index)
        }));
        if n > index {
            assert(seeded.commas(n) == (Commas {
                lex: outside(),
                depth: 0,
                left: (n - index) as nat,
            }));
        }
    }
}

/// Where an element boundary can be resumed from, so can the first byte of its
/// element.
pub proof fn lemma_whitespace_is_sound(doc: Seq<u8>, scan: SegmentScan, index: usize, p: u64)
    requires
        doc.len() <= u64::MAX,
        p <= doc.len(),
        element_sound(doc, scan, (index, p)),
    ensures
        element_sound(doc, scan, (index, ws_end(doc, p as int) as u64)),
{
    let o = ws_end(doc, p as int);
    crate::scan::lemma_run_end(doc, p as int, ByteClass::Whitespace);
    crate::scan::lemma_run_end(doc, o, ByteClass::Whitespace);
    let a = seeded_scan(ResumePoint::Array { index, offset: p });
    let b = seeded_scan(ResumePoint::Array { index, offset: o as u64 });
    assert forall|n: usize| n >= index implies same_scan(
        #[trigger] array_scan(doc, b, n, 0).outcome,
        array_scan(doc, scan, n, 0).outcome,
    ) by {
        assert(same_scan(
            array_scan(doc, a, n, 0).outcome,
            array_scan(doc, scan, n, 0).outcome,
        ));
        if n > index {
            lemma_comma_ws(doc, p as int, (n - index) as nat);
            assert(a.commas(n) == b.commas(n));
        } else {
            assert(ws_end(doc, o) == o);
            assert(array_walk(doc, p as int, true) == array_walk(doc, o, true));
        }
    }
}

// ---- the index

/// The kind of container that a body is of.
pub open spec fn body_kind(body: BodyView) -> ContainerKind {
    match body {
        BodyView::Object { .. } => ContainerKind::Object,
        BodyView::Array { .. } => ContainerKind::Array,
    }
}

/// What a body says of the container that opens at `open` is true. Where the
/// names of members are not decoded, none is tabled.
pub open spec fn body_sound(doc: Seq<u8>, open: int, body: BodyView, objects: bool) -> bool {
    match body {
        BodyView::Object { members, resume } => if objects {
            open < resume && object_sound(doc, open, members, resume)
        } else {
            members.len() == 0 && resume == open + 1
        },
        BodyView::Array { members } => forall|i: int|
            0 <= i < members.len() ==> {
                &&& element_sound(doc, fresh_scan(ContainerKind::Array, open), #[trigger] members[i])
                &&& open < members[i].1 <= doc.len()
            },
    }
}

/// A node speaks of the container that its key leads to, and what it says is
/// true.
pub open spec fn node_sound(doc: Seq<u8>, key: KeyView, node: NodeView, objects: bool) -> bool {
    &&& locate(doc, key.1, 0, key.0, objects) matches Ok(Resolved::Found(s))
    &&& container_at(doc, s as int) == Ok::<Option<(ContainerKind, int)>, TraverseError>(
        Some((body_kind(node.body), node.value_start as int)),
    )
    &&& body_sound(doc, node.value_start as int, node.body, objects)
    &&& node.close matches Some(close) ==> value_end(doc, node.value_start as int) == Ok::<
        u64,
        TraverseError,
    >(close)
    &&& node.child_count matches Some(n) ==> child_count(doc, node.value_start + 1) == Ok::<
        nat,
        TraverseError,
    >(n as nat)
}

/// Every node of an index is true of `doc`.
#[verifier::opaque]
pub open spec fn index_sound(doc: Seq<u8>, index: IndexView, objects: bool) -> bool {
    forall|i: int|
        0 <= i < index.nodes.len() ==> node_sound(
            doc,
            (#[trigger] index.nodes[i]).0,
            index.nodes[i].1,
            objects,
        )
}

/// Two resolutions come to the same: the same outcome, or both run into the end
/// of the document.
pub open spec fn same_answer(
    a: Result<Resolved, TraverseError>,
    b: Result<Resolved, TraverseError>,
) -> bool {
    a == b || (a matches Err(TraverseError::UnexpectedEof(_)) && b matches Err(
        TraverseError::UnexpectedEof(_),
    ))
}

/// A node that is looked up in a true index is true.
pub proof fn lemma_lookup(doc: Seq<u8>, index: IndexView, key: KeyView, objects: bool)
    requires
        index_sound(doc, index, objects),
    ensures
        lookup(index.nodes, key) matches Some(node) ==> node_sound(doc, key, node, objects),
{
    reveal(index_sound);
    lemma_place(index.nodes, key);
    let i = place(index.nodes, key);
    if i < index.nodes.len() {
        assert(node_sound(doc, index.nodes[i].0, index.nodes[i].1, objects));
    }
}

/// A path leads on from where its prefix leads.
pub proof fn lemma_locate_prefix(
    doc: Seq<u8>,
    path: Seq<Step>,
    k: int,
    seg: int,
    start: u64,
    objects: bool,
)
    requires
        0 <= seg <= k <= path.len(),
        locate(doc, path.take(k), seg, start, objects) matches Ok(Resolved::Found(_)),
    ensures
        locate(doc, path, seg, start, objects) == locate(
            doc,
            path,
            k,
            locate(doc, path.take(k), seg, start, objects)->Ok_0->Found_0,
            objects,
        ),
    decreases k - seg,
{
    if seg < k {
        assert(path.take(k)[seg] == path[seg]);
        if let Ok(Some((kind, open))) = container_at(doc, start as int) {
            if let Ok(Ok(Some(v))) = child_at(doc, kind, open, path[seg], objects) {
                lemma_locate_prefix(doc, path, k, seg + 1, v, objects);
            }
        }
    }
}

/// A prefix that leads to a container, and a child of it, make a longer prefix.
proof fn lemma_locate_extend(
    doc: Seq<u8>,
    path: Seq<Step>,
    k: int,
    anchor: u64,
    start: u64,
    kind: ContainerKind,
    open: int,
    v: u64,
    objects: bool,
)
    requires
        0 <= k < path.len(),
        locate(doc, path.take(k), 0, anchor, objects) == Ok::<Resolved, TraverseError>(
            Resolved::Found(start),
        ),
        container_at(doc, start as int) == Ok::<Option<(ContainerKind, int)>, TraverseError>(
            Some((kind, open)),
        ),
        child_at(doc, kind, open, path[k], objects) == Ok::<
            Result<Option<u64>, TraverseError>,
            (),
        >(Ok(Some(v))),
    ensures
        locate(doc, path.take(k + 1), 0, anchor, objects) == Ok::<Resolved, TraverseError>(
            Resolved::Found(v),
        ),
{
    let longer = path.take(k + 1);
    assert(longer.take(k) =~= path.take(k));
    lemma_locate_prefix(doc, longer, k, 0, anchor, objects);
    assert(longer[k] == path[k]);
    assert(locate(doc, longer, k + 1, v, objects) == Ok::<Resolved, TraverseError>(
        Resolved::Found(v),
    ));
}

/// What cached hops lead to: the value of the prefix that they cover, and a seed
/// out of the node of that prefix.
proof fn lemma_hops(
    doc: Seq<u8>,
    index: IndexView,
    anchor: u64,
    path: Seq<Step>,
    seg: int,
    start: u64,
    objects: bool,
)
    requires
        index_sound(doc, index, objects),
        0 <= seg <= path.len(),
        locate(doc, path.take(seg), 0, anchor, objects) == Ok::<Resolved, TraverseError>(
            Resolved::Found(start),
        ),
    ensures
        ({
            let (v, k, seed) = index.hops(anchor, path, seg, start);
            &&& seg <= k <= path.len()
            &&& locate(doc, path.take(k), 0, anchor, objects) == Ok::<Resolved, TraverseError>(
                Resolved::Found(v),
            )
            &&& seed is Some ==> k < path.len() && {
                let node = lookup(index.nodes, (anchor, path.take(k)));
                node is Some && hop(node->0.body, path[k]) == Hop::Stop(seed)
            }
        }),
    decreases path.len() - seg,
{
    if seg < path.len() {
        let key = (anchor, path.take(seg));
        if let Some(node) = lookup(index.nodes, key) {
            lemma_lookup(doc, index, key, objects);
            if let Hop::Into(v) = hop(node.body, path[seg]) {
                let open = node.value_start as int;
                match (path[seg], node.body) {
                    (Step::Member(name), BodyView::Object { members, resume }) => {
                        assert(tabled(members, name) == Some(v));
                        assert(objects);
                    },
                    _ => {},
                }
                lemma_locate_extend(
                    doc,
                    path,
                    seg,
                    anchor,
                    start,
                    body_kind(node.body),
                    open,
                    v,
                    objects,
                );
                lemma_hops(doc, index, anchor, path, seg + 1, v, objects);
            }
        }
    }
}

/// The state in which a query starts from the hops of an index.
pub open spec fn seeded_query(
    index: IndexView,
    anchor: u64,
    path: Seq<Step>,
    objects: bool,
    stride: int,
) -> ResolveView {
    let (start, seg, seed) = index.hops(anchor, path, 0, anchor);
    ResolveView {
        seg,
        start,
        scan: None,
        seed,
        record: if objects || stride > 0 {
            Some(Seq::empty())
        } else {
            None
        },
        objects,
        stride,
    }
}

/// The member nearest to a target is one of the members, at or below the target.
proof fn lemma_nearest_is_member(members: Seq<(usize, u64)>, target: usize)
    ensures
        nearest(members, target) matches Some(m) ==> m.0 <= target && exists|i: int|
            0 <= i < members.len() && #[trigger] members[i] == m,
    decreases members.len(),
{
    if members.len() > 0 {
        if members.last().0 <= target {
            assert(members[members.len() - 1] == members.last());
        } else {
            let rest = members.drop_last();
            lemma_nearest_is_member(rest, target);
            if let Some(m) = nearest(rest, target) {
                let i = choose|i: int| 0 <= i < rest.len() && #[trigger] rest[i] == m;
                assert(members[i] == m);
            }
        }
    }
}

/// A seed out of an index that is true of the document lies past the start of the
/// container that it is for, so that a query does not go back behind where it starts.
pub proof fn law_seeds_lie_ahead(
    doc: Seq<u8>,
    index: IndexView,
    anchor: u64,
    path: Seq<Step>,
    objects: bool,
    stride: int,
)
    requires
        doc.len() <= u64::MAX,
        index_sound(doc, index, objects),
    ensures
        seeded_query(index, anchor, path, objects, stride).seed_ahead(),
{
    let st = seeded_query(index, anchor, path, objects, stride);
    assert(path.take(0).len() == 0);
    lemma_hops(doc, index, anchor, path, 0, anchor, objects);
    if let Some(seed) = st.seed {
        let key = (anchor, path.take(st.seg));
        lemma_lookup(doc, index, key, objects);
        let node = lookup(index.nodes, key)->0;
        crate::scan::lemma_run_end(doc, st.start as int, ByteClass::Whitespace);
        if let (Step::Element(n), BodyView::Array { members }) = (path[st.seg], node.body) {
            lemma_nearest_is_member(members, n);
            let m = nearest(members, n)->0;
            let j = choose|j: int| 0 <= j < members.len() && #[trigger] members[j] == m;
            assert(node.value_start < members[j].1);
        }
    }
}

/// A query that starts from an index that is true of the document comes to what
/// it comes to without one: the index changes no answer.
pub proof fn law_index_changes_no_answer(
    doc: Seq<u8>,
    index: IndexView,
    anchor: u64,
    path: Seq<Step>,
    objects: bool,
    stride: int,
)
    requires
        doc.len() <= u64::MAX,
        path.len() <= usize::MAX,
        stride >= 0,
        index_sound(doc, index, objects),
    ensures
        same_answer(
            resolution(
                doc,
                path,
                seeded_query(index, anchor, path, objects, stride),
            ).outcome,
            locate(doc, path, 0, anchor, objects),
        ),
{
    let st = seeded_query(index, anchor, path, objects, stride);
    assert(path.take(0).len() == 0);
    lemma_hops(doc, index, anchor, path, 0, anchor, objects);
    lemma_locate_prefix(doc, path, st.seg, 0, anchor, objects);
    match st.seed {
        None => {
            crate::resolve::law_cold_resolution(doc, path, st);
        },
        Some(seed) => {
            let key = (anchor, path.take(st.seg));
            lemma_lookup(doc, index, key, objects);
            let node = lookup(index.nodes, key)->0;
            let scan = seeded_scan(seed);
            crate::resolve::law_scanning_resolution(doc, path, st, st.start, scan);
            match (path[st.seg], node.body) {
                (Step::Member(name), BodyView::Object { members, resume }) => {
                    assert(tabled(members, name) is None);
                },
                (Step::Element(n), BodyView::Array { members }) => {
                    lemma_nearest_is_member(members, n);
                    let m = nearest(members, n)->0;
                    let open = node.value_start as int;
                    assert(element_sound(doc, fresh_scan(ContainerKind::Array, open), m));
                    assert(same_scan(
                        array_scan(doc, scan, n, 0).outcome,
                        element_at(doc, open, n),
                    ));
                },
                _ => {},
            }
        },
    }
}

/// Keeping the budget leaves nothing untrue in an index, nor any key twice.
proof fn lemma_settled(nodes: Nodes, budget: nat)
    requires
        forall|i: int, j: int| 0 <= i < j < nodes.len() ==> nodes[i].0 != nodes[j].0,
    ensures
        forall|i: int|
            0 <= i < settled(nodes, budget).len() ==> nodes.contains(
                #[trigger] settled(nodes, budget)[i],
            ),
        forall|i: int, j: int|
            0 <= i < j < settled(nodes, budget).len() ==> settled(nodes, budget)[i].0 != settled(
                nodes,
                budget,
            )[j].0,
        slots(settled(nodes, budget)) <= budget,
{
    crate::cache::lemma_shed(nodes, crate::cache::low_water(budget));
    if slots(nodes) <= budget {
        assert forall|i: int| 0 <= i < nodes.len() implies nodes.contains(#[trigger] nodes[i]) by {}
    }
}

/// A write of a true node keeps an index true and well-formed.
proof fn lemma_after_write(
    doc: Seq<u8>,
    index: IndexView,
    key: KeyView,
    node: NodeView,
    objects: bool,
)
    requires
        index.wf(),
        index_sound(doc, index, objects),
        node_sound(doc, key, node, objects),
        node.body.wf(),
        node.body.tabled_count() <= index.table_cap(),
    ensures
        index.after_write(key, node).wf(),
        index_sound(doc, index.after_write(key, node), objects),
{
    reveal(index_sound);
    let fresh = NodeView { last_used: (index.tick + 1) as u64, ..node };
    let nodes = written(index.nodes, key, fresh);
    crate::cache::lemma_written(index.nodes, key, fresh);
    lemma_settled(nodes, index.budget);
    let out = settled(nodes, index.budget);
    assert(node_sound(doc, key, fresh, objects));
    assert forall|i: int| 0 <= i < out.len() implies node_sound(
        doc,
        (#[trigger] out[i]).0,
        out[i].1,
        objects,
    ) && out[i].1.body.wf() && out[i].1.last_used <= index.tick + 1
        && out[i].1.body.tabled_count() <= index.table_cap() by {
        assert(nodes.contains(out[i]));
        let j = choose|j: int| 0 <= j < nodes.len() && nodes[j] == out[i];
        let x = nodes[j];
        assert(x == (key, fresh) || index.nodes.contains(x));
        if x != (key, fresh) {
            let k = choose|k: int| 0 <= k < index.nodes.len() && index.nodes[k] == x;
            assert(node_sound(doc, index.nodes[k].0, index.nodes[k].1, objects));
        }
    }
}

/// The scan that a query makes of the container that a key leads to: from its
/// first child on, or from where the node of the key says.
pub open spec fn scan_of(
    index: IndexView,
    key: KeyView,
    kind: ContainerKind,
    open: int,
    scan: SegmentScan,
) -> bool {
    scan == fresh_scan(kind, open) || {
        &&& lookup(index.nodes, key) is Some
        &&& match lookup(index.nodes, key)->0.body {
            BodyView::Object { members, resume } => kind is Object && scan == seeded_scan(
                ResumePoint::Object { offset: resume },
            ),
            BodyView::Array { members } => kind is Array && exists|i: int|
                0 <= i < members.len() && scan == seeded_scan(
                    ResumePoint::Array {
                        index: (#[trigger] members[i]).0,
                        offset: members[i].1,
                    },
                ),
        }
    }
}

/// The node that a write starts from is true.
proof fn lemma_before_write(
    doc: Seq<u8>,
    index: IndexView,
    base_depth: u32,
    key: KeyView,
    kind: ContainerKind,
    value_start: u64,
    start: u64,
    objects: bool,
)
    requires
        doc.len() <= u64::MAX,
        index.wf(),
        index_sound(doc, index, objects),
        locate(doc, key.1, 0, key.0, objects) == Ok::<Resolved, TraverseError>(
            Resolved::Found(start),
        ),
        container_at(doc, start as int) matches Ok(Some((k, open))) && k == kind && (lookup(
            index.nodes,
            key,
        ) is None ==> value_start == open),
    ensures
        ({
            let node = index.before_write(key, kind, value_start, base_depth);
            &&& node_sound(doc, key, node, objects)
            &&& node.body.wf()
            &&& node.body.tabled_count() <= index.table_cap()
            &&& body_kind(node.body) == kind
            &&& container_at(doc, start as int) == Ok::<
                Option<(ContainerKind, int)>,
                TraverseError,
            >(Some((kind, node.value_start as int)))
        }),
{
    crate::scan::lemma_run_end(doc, start as int, ByteClass::Whitespace);
    lemma_place(index.nodes, key);
    if lookup(index.nodes, key) is Some {
        lemma_lookup(doc, index, key, objects);
    } else {
        assert(tabled(Seq::empty(), Seq::empty()) is None);
        assert forall|name: Seq<char>| #[trigger] tabled(Seq::empty(), name) is None by {}
    }
}

/// Writing back what a scan of a container recorded keeps an index true.
proof fn lemma_container_is_sound(
    doc: Seq<u8>,
    index: IndexView,
    base_depth: u32,
    anchor: u64,
    path: Seq<Step>,
    c: ContainerNotes,
    start: u64,
    kind: ContainerKind,
    open: int,
    scan: SegmentScan,
    step: Step,
    objects: bool,
    stride: int,
)
    requires
        doc.len() <= u64::MAX,
        index.wf(),
        index_sound(doc, index, objects),
        c.seg <= path.len(),
        locate(doc, path.take(c.seg as int), 0, anchor, objects) == Ok::<Resolved, TraverseError>(
            Resolved::Found(start),
        ),
        container_at(doc, start as int) == Ok::<Option<(ContainerKind, int)>, TraverseError>(
            Some((kind, open)),
        ),
        c.body == scanned_notes(doc, scan, step, objects, stride),
        scan_of(index, (anchor, path.take(c.seg as int)), kind, open, scan),
        lookup(index.nodes, (anchor, path.take(c.seg as int))) is None ==> c.value_start == open,
    ensures
        index.with_container(base_depth, anchor, path, c).wf(),
        index_sound(doc, index.with_container(base_depth, anchor, path, c), objects),
{
    reveal(IndexView::with_container);
    if index.enabled() {
        let key = (anchor, path.take(c.seg as int));
        let node = index.before_write(key, kind, c.value_start, base_depth);
        crate::scan::lemma_run_end(doc, start as int, ByteClass::Whitespace);
        assert(0 <= open < doc.len());
        lemma_before_write(doc, index, base_depth, key, kind, c.value_start, start, objects);
        match kind {
            ContainerKind::Object => {
                let notes = c.body->Object_0;
                let body = merged_object(node.body, notes.members, notes.resume, index.table_cap());
                lemma_object_notes(doc, open, node.body, scan, step, objects, stride, index.table_cap());
                crate::cache::lemma_merged_object(
                    node.body,
                    notes.members,
                    notes.resume,
                    index.table_cap(),
                );
                lemma_after_write(doc, index, key, NodeView { body, ..node }, objects);
            },
            ContainerKind::Array => {
                let notes = c.body->Array_0;
                let body = merged_array(node.body, notes);
                lemma_array_notes(doc, open, node.body, scan, step, objects, stride);
                lemma_after_write(doc, index, key, NodeView { body, ..node }, objects);
            },
        }
    }
}

proof fn lemma_object_notes(
    doc: Seq<u8>,
    open: int,
    body: BodyView,
    scan: SegmentScan,
    step: Step,
    objects: bool,
    stride: int,
    cap: nat,
)
    requires
        doc.len() <= u64::MAX,
        0 <= open < doc.len(),
        body is Object,
        body_sound(doc, open, body, objects),
        scan.kind is Object,
        scan.offset == open + 1 || scan.offset == body->resume,
    ensures
        scanned_notes(doc, scan, step, objects, stride) is Object,
        ({
            let notes = scanned_notes(doc, scan, step, objects, stride)->Object_0;
            body_sound(
                doc,
                open,
                merged_object(body, notes.members, notes.resume, cap),
                objects,
            )
        }),
{
    let notes = scanned_notes(doc, scan, step, objects, stride)->Object_0;
    match step {
        Step::Member(name) if objects => {
            let found = object_scan(doc, scan.offset as int, name, true);
            assert(notes.members =~= found.members);
            law_object_merge_is_sound(
                doc,
                open,
                body->Object_members,
                body->resume,
                scan.offset as int,
                name,
                cap,
            );
        },
        _ => {
            assert(notes.members.len() == 0 && notes.resume is None);
        },
    }
}

proof fn lemma_array_notes(
    doc: Seq<u8>,
    open: int,
    body: BodyView,
    scan: SegmentScan,
    step: Step,
    objects: bool,
    stride: int,
)
    requires
        doc.len() <= u64::MAX,
        0 <= open < doc.len(),
        body is Array,
        body.wf(),
        body_sound(doc, open, body, objects),
        scan.kind is Array,
        scan == fresh_scan(ContainerKind::Array, open) || exists|i: int|
            0 <= i < body->Array_members.len() && scan == seeded_scan(
                ResumePoint::Array {
                    index: (#[trigger] body->Array_members[i]).0,
                    offset: body->Array_members[i].1,
                },
            ),
    ensures
        scanned_notes(doc, scan, step, objects, stride) is Array,
        ({
            let notes = scanned_notes(doc, scan, step, objects, stride)->Array_0;
            &&& body_sound(doc, open, merged_array(body, notes), objects)
            &&& merged_array(body, notes).wf()
        }),
{
    let notes = scanned_notes(doc, scan, step, objects, stride)->Array_0;
    let members = body->Array_members;
    let out = merge_members(members, notes);
    let fresh = fresh_scan(ContainerKind::Array, open);
    lemma_merge_members(members, notes);
    assert forall|i: int| 0 <= i < out.len() implies element_sound(doc, fresh, #[trigger] out[i])
        && open < out[i].1 <= doc.len() by {
        let x = out[i];
        assert(out.contains(x));
        if members.contains(x) {
            let j = choose|j: int| 0 <= j < members.len() && members[j] == x;
            assert(element_sound(doc, fresh, members[j]));
        } else {
            assert(notes.contains(x));
            let j = choose|j: int| 0 <= j < notes.len() && notes[j] == x;
            let n = step->Element_0;
            let found = array_scan(doc, scan, n, stride);
            assert(notes =~= found.members);
            assert(open < scan.offset <= doc.len()) by {
                if scan != fresh {
                    let k = choose|k: int|
                        0 <= k < members.len() && scan == seeded_scan(
                            ResumePoint::Array {
                                index: (#[trigger] members[k]).0,
                                offset: members[k].1,
                            },
                        );
                    assert(open < members[k].1 <= doc.len());
                }
            }
            law_recorded_elements_are_sound(doc, scan, n, stride, j);
            if scan != fresh {
                let k = choose|k: int|
                    0 <= k < members.len() && scan == seeded_scan(
                        ResumePoint::Array {
                            index: (#[trigger] members[k]).0,
                            offset: members[k].1,
                        },
                    );
                assert(element_sound(doc, fresh, members[k]));
                lemma_element_chain(doc, fresh, members[k], scan, x);
            }
        }
    }
}

/// An element that can be resumed from by a scan that itself resumes from an
/// element of the array can be resumed from as well.
proof fn lemma_element_chain(
    doc: Seq<u8>,
    fresh: SegmentScan,
    member: (usize, u64),
    scan: SegmentScan,
    x: (usize, u64),
)
    requires
        scan == seeded_scan(ResumePoint::Array { index: member.0, offset: member.1 }),
        element_sound(doc, fresh, member),
        element_sound(doc, scan, x),
        member.0 <= x.0,
    ensures
        element_sound(doc, fresh, x),
{
    let seeded = seeded_scan(ResumePoint::Array { index: x.0, offset: x.1 });
    assert forall|n: usize| n >= x.0 implies same_scan(
        #[trigger] array_scan(doc, seeded, n, 0).outcome,
        array_scan(doc, fresh, n, 0).outcome,
    ) by {
        assert(same_scan(
            array_scan(doc, scan, n, 0).outcome,
            array_scan(doc, fresh, n, 0).outcome,
        ));
    }
}

/// Writing back the containers that a resolution entered cold keeps an index
/// true.
proof fn lemma_cold_record_is_sound(
    doc: Seq<u8>,
    index: IndexView,
    base_depth: u32,
    anchor: u64,
    path: Seq<Step>,
    seg: int,
    start: u64,
    objects: bool,
    stride: int,
)
    requires
        doc.len() <= u64::MAX,
        path.len() <= usize::MAX,
        index.wf(),
        index_sound(doc, index, objects),
        0 <= seg <= path.len(),
        locate(doc, path.take(seg), 0, anchor, objects) == Ok::<Resolved, TraverseError>(
            Resolved::Found(start),
        ),
    ensures
        ({
            let record = cold_record(doc, path, seg, start, objects, stride);
            let out = index.with_record(base_depth, anchor, path, record);
            out.wf() && index_sound(doc, out, objects)
        }),
    decreases path.len() - seg,
{
    let record = cold_record(doc, path, seg, start, objects, stride);
    if seg < path.len() {
        if let Ok(Some((kind, open))) = container_at(doc, start as int) {
            crate::scan::lemma_run_end(doc, start as int, ByteClass::Whitespace);
            let scan = fresh_scan(kind, open);
            let c = record[0];
            lemma_container_is_sound(
                doc,
                index,
                base_depth,
                anchor,
                path,
                c,
                start,
                kind,
                open,
                scan,
                path[seg],
                objects,
                stride,
            );
            let next = index.with_container(base_depth, anchor, path, c);
            match child_at(doc, kind, open, path[seg], objects) {
                Ok(Ok(Some(v))) => {
                    lemma_locate_extend(doc, path, seg, anchor, start, kind, open, v, objects);
                    lemma_cold_record_is_sound(
                        doc,
                        next,
                        base_depth,
                        anchor,
                        path,
                        seg + 1,
                        v,
                        objects,
                        stride,
                    );
                    assert(record.drop_first() =~= cold_record(
                        doc,
                        path,
                        seg + 1,
                        v,
                        objects,
                        stride,
                    ));
                },
                _ => {
                    assert(record =~= seq![c]);
                    assert(record.drop_first() =~= Seq::empty());
                    assert(next.with_record(base_depth, anchor, path, Seq::empty()) == next);
                },
            }
            assert(index.with_record(base_depth, anchor, path, record) == next.with_record(
                base_depth,
                anchor,
                path,
                record.drop_first(),
            ));
        } else {
            assert(record =~= Seq::empty());
        }
    } else {
        assert(record =~= Seq::empty());
    }
}

/// Hops change no body.
pub proof fn lemma_hopped_is_sound(
    doc: Seq<u8>,
    index: IndexView,
    anchor: u64,
    path: Seq<Step>,
    seg: int,
    objects: bool,
)
    requires
        index.wf(),
        index_sound(doc, index, objects),
    ensures
        index.hopped(anchor, path, seg).wf(),
        index_sound(doc, index.hopped(anchor, path, seg), objects),
        forall|k: KeyView|
            match (
                #[trigger] lookup(index.hopped(anchor, path, seg).nodes, k),
                lookup(index.nodes, k),
            ) {
                (Some(a), Some(b)) => a.body == b.body,
                (None, None) => true,
                _ => false,
            },
    decreases path.len() - seg,
{
    reveal(index_sound);
    if seg < path.len() {
        let key = (anchor, path.take(seg));
        if let Some(node) = lookup(index.nodes, key) {
            let next = index.touched(key);
            lemma_place(index.nodes, key);
            crate::cache::lemma_touched(index, key);
            let i = place(index.nodes, key);
            crate::cache::lemma_slots_update(index.nodes, i, next.nodes[i]);
            assert forall|j: int| 0 <= j < next.nodes.len() implies node_sound(
                doc,
                (#[trigger] next.nodes[j]).0,
                next.nodes[j].1,
                objects,
            ) && next.nodes[j].1.body.wf() && next.nodes[j].1.last_used <= next.tick
                && next.nodes[j].1.body.tabled_count() <= next.table_cap() by {
                assert(node_sound(doc, index.nodes[j].0, index.nodes[j].1, objects));
            }
            if let Hop::Into(v) = hop(node.body, path[seg]) {
                lemma_hopped_is_sound(doc, next, anchor, path, seg + 1, objects);
            }
        }
    }
}

/// A seed out of a true index starts a scan of the container that the hops lead
/// to, and the scan finds the child that is there.
proof fn lemma_seed(
    doc: Seq<u8>,
    index: IndexView,
    anchor: u64,
    path: Seq<Step>,
    objects: bool,
    stride: int,
)
    requires
        doc.len() <= u64::MAX,
        index_sound(doc, index, objects),
        seeded_query(index, anchor, path, objects, stride).seed is Some,
    ensures
        ({
            let st = seeded_query(index, anchor, path, objects, stride);
            let scan = seeded_scan(st.seed->0);
            let key = (anchor, path.take(st.seg));
            &&& 0 <= st.seg < path.len()
            &&& lookup(index.nodes, key) is Some
            &&& locate(doc, path.take(st.seg), 0, anchor, objects) == Ok::<Resolved, TraverseError>(
                Resolved::Found(st.start),
            )
            &&& container_at(doc, st.start as int) matches Ok(Some((kind, open)))
            &&& 0 <= open < doc.len()
            &&& scan_of(index, key, kind, open, scan)
            &&& scan.kind == kind
            &&& scan.wf()
            &&& seeded_found(doc, scan, path[st.seg], objects) matches Ok(Some(v)) ==> child_at(
                doc,
                kind,
                open,
                path[st.seg],
                objects,
            ) == Ok::<Result<Option<u64>, TraverseError>, ()>(Ok(Some(v)))
        }),
{
    let st = seeded_query(index, anchor, path, objects, stride);
    assert(path.take(0).len() == 0);
    lemma_hops(doc, index, anchor, path, 0, anchor, objects);
    let key = (anchor, path.take(st.seg));
    lemma_lookup(doc, index, key, objects);
    let node = lookup(index.nodes, key)->0;
    let scan = seeded_scan(st.seed->0);
    let open = node.value_start as int;
    crate::scan::lemma_run_end(doc, st.start as int, ByteClass::Whitespace);
    match (path[st.seg], node.body) {
        (Step::Element(n), BodyView::Array { members }) => {
            lemma_nearest_is_member(members, n);
            let m = nearest(members, n)->0;
            let j = choose|j: int| 0 <= j < members.len() && #[trigger] members[j] == m;
            assert(scan == seeded_scan(
                ResumePoint::Array { index: members[j].0, offset: members[j].1 },
            ));
            assert(element_sound(doc, fresh_scan(ContainerKind::Array, open), m));
            assert(same_scan(array_scan(doc, scan, n, 0).outcome, element_at(doc, open, n)));
        },
        (Step::Member(name), BodyView::Object { members, resume }) => {
            assert(tabled(members, name) is None);
        },
        _ => {},
    }
}

/// What a scan finds of the child that a step names.
pub open spec fn seeded_found(doc: Seq<u8>, scan: SegmentScan, step: Step, objects: bool) -> Result<
    Option<u64>,
    TraverseError,
> {
    match (scan.kind, step) {
        (ContainerKind::Object, Step::Member(name)) => object_scan(
            doc,
            scan.offset as int,
            name,
            objects,
        ).outcome,
        (ContainerKind::Array, Step::Element(n)) => array_scan(doc, scan, n, 0).outcome,
        _ => Ok(None),
    }
}

/// What a seeded query records: the container that it was seeded in, and those
/// that it entered from there.
proof fn lemma_seeded_record(
    doc: Seq<u8>,
    index: IndexView,
    anchor: u64,
    path: Seq<Step>,
    objects: bool,
    stride: int,
)
    requires
        doc.len() <= u64::MAX,
        path.len() <= usize::MAX,
        stride >= 0,
        index_sound(doc, index, objects),
        seeded_query(index, anchor, path, objects, stride).seed is Some,
    ensures
        ({
            let st = seeded_query(index, anchor, path, objects, stride);
            let scan = seeded_scan(st.seed->0);
            let c = ContainerNotes {
                seg: st.seg as usize,
                value_start: st.start,
                body: scanned_notes(doc, scan, path[st.seg], objects, stride),
            };
            let rest = match seeded_found(doc, scan, path[st.seg], objects) {
                Ok(Some(v)) => cold_record(doc, path, st.seg + 1, v, objects, stride),
                _ => Seq::empty(),
            };
            resolution(doc, path, st).record == (if objects || stride > 0 {
                Some(seq![c] + rest)
            } else {
                None
            })
        }),
{
    let st = seeded_query(index, anchor, path, objects, stride);
    lemma_seed(doc, index, anchor, path, objects, stride);
    let scan = seeded_scan(st.seed->0);
    crate::resolve::law_scanning_resolution(doc, path, st, st.start, scan);
    let c = ContainerNotes {
        seg: st.seg as usize,
        value_start: st.start,
        body: scanned_notes(doc, scan, path[st.seg], objects, stride),
    };
    let none = Seq::<ContainerNotes>::empty();
    assert(none + seq![c] =~= seq![c] + none);
    if let Ok(Some(v)) = seeded_found(doc, scan, path[st.seg], objects) {
        let rest = cold_record(doc, path, st.seg + 1, v, objects, stride);
        assert(none + (seq![c] + rest) =~= seq![c] + rest);
    }
}

/// Writing back the containers that a query recorded from a seed on keeps an
/// index true.
proof fn lemma_seeded_record_is_sound(
    doc: Seq<u8>,
    index: IndexView,
    base_depth: u32,
    anchor: u64,
    path: Seq<Step>,
    objects: bool,
    stride: int,
)
    requires
        doc.len() <= u64::MAX,
        path.len() <= usize::MAX,
        stride >= 0,
        index.wf(),
        index_sound(doc, index, objects),
        seeded_query(index, anchor, path, objects, stride).seed is Some,
    ensures
        ({
            let st = seeded_query(index, anchor, path, objects, stride);
            let record = resolution(doc, path, st).record;
            &&& record is Some <==> objects || stride > 0
            &&& record matches Some(r) ==> {
                let out = index.hopped(anchor, path, 0).with_record(base_depth, anchor, path, r);
                out.wf() && index_sound(doc, out, objects)
            }
        }),
{
    let st = seeded_query(index, anchor, path, objects, stride);
    let now = index.hopped(anchor, path, 0);
    lemma_seed(doc, index, anchor, path, objects, stride);
    lemma_seeded_record(doc, index, anchor, path, objects, stride);
    lemma_hopped_is_sound(doc, index, anchor, path, 0, objects);
    let key = (anchor, path.take(st.seg));
    let scan = seeded_scan(st.seed->0);
    let c = ContainerNotes {
        seg: st.seg as usize,
        value_start: st.start,
        body: scanned_notes(doc, scan, path[st.seg], objects, stride),
    };
    let (kind, open) = container_at(doc, st.start as int)->Ok_0->0;
    assert(lookup(now.nodes, key) is Some);
    assert(lookup(now.nodes, key)->0.body == lookup(index.nodes, key)->0.body);
    assert(scan_of(now, key, kind, open, scan));
    lemma_container_is_sound(
        doc,
        now,
        base_depth,
        anchor,
        path,
        c,
        st.start,
        kind,
        open,
        scan,
        path[st.seg],
        objects,
        stride,
    );
    let next = now.with_container(base_depth, anchor, path, c);
    match seeded_found(doc, scan, path[st.seg], objects) {
        Ok(Some(v)) => {
            let rest = cold_record(doc, path, st.seg + 1, v, objects, stride);
            lemma_locate_extend(doc, path, st.seg, anchor, st.start, kind, open, v, objects);
            lemma_cold_record_is_sound(
                doc,
                next,
                base_depth,
                anchor,
                path,
                st.seg + 1,
                v,
                objects,
                stride,
            );
            let record = seq![c] + rest;
            assert(record[0] == c);
            assert(record.drop_first() =~= rest);
        },
        _ => {
            let record = seq![c] + Seq::<ContainerNotes>::empty();
            assert(record[0] == c);
            assert(record.drop_first() =~= Seq::<ContainerNotes>::empty());
            assert(next.with_record(base_depth, anchor, path, Seq::empty()) == next);
        },
    }
}

/// Writing back what a query recorded, a query that itself may have started from
/// the index, keeps the index true of the document. So it stays true through any
/// number of queries, and with [`law_index_changes_no_answer`] none of them is
/// answered otherwise than without an index.
pub proof fn law_index_stays_sound(
    doc: Seq<u8>,
    index: IndexView,
    base_depth: u32,
    anchor: u64,
    path: Seq<Step>,
    objects: bool,
    stride: int,
)
    requires
        doc.len() <= u64::MAX,
        path.len() <= usize::MAX,
        stride >= 0,
        index.wf(),
        index_sound(doc, index, objects),
    ensures
        index_sound(doc, index.hopped(anchor, path, 0), objects),
        ({
            let st = seeded_query(index, anchor, path, objects, stride);
            let record = resolution(doc, path, st).record;
            &&& record is Some <==> objects || stride > 0
            &&& record matches Some(r) ==> {
                let out = index.hopped(anchor, path, 0).with_record(base_depth, anchor, path, r);
                out.wf() && index_sound(doc, out, objects)
            }
        }),
{
    let st = seeded_query(index, anchor, path, objects, stride);
    let now = index.hopped(anchor, path, 0);
    assert(path.take(0).len() == 0);
    lemma_hops(doc, index, anchor, path, 0, anchor, objects);
    lemma_hopped_is_sound(doc, index, anchor, path, 0, objects);
    let none = Seq::<ContainerNotes>::empty();
    match st.seed {
        None => {
            crate::resolve::law_cold_resolution(doc, path, st);
            let record = cold_record(doc, path, st.seg, st.start, objects, stride);
            assert(none + record =~= record);
            lemma_cold_record_is_sound(
                doc,
                now,
                base_depth,
                anchor,
                path,
                st.seg,
                st.start,
                objects,
                stride,
            );
            assert(st.record matches Some(r) ==> r == none);
            assert(resolution(doc, path, st).record matches Some(r) ==> r == record);
        },
        Some(seed) => {
            lemma_seeded_record_is_sound(doc, index, base_depth, anchor, path, objects, stride);
        },
    }
}

/// An index without nodes is true of every document.
pub proof fn law_empty_index_is_sound(doc: Seq<u8>, index: IndexView, objects: bool)
    requires
        index.nodes.len() == 0,
    ensures
        index_sound(doc, index, objects),
{
    reveal(index_sound);
}

/// Writing back where a container closes keeps an index true.
pub proof fn law_stored_close_is_sound(
    doc: Seq<u8>,
    index: IndexView,
    base_depth: u32,
    key: KeyView,
    kind: ContainerKind,
    start: u64,
    open: u64,
    close: u64,
    objects: bool,
)
    requires
        doc.len() <= u64::MAX,
        index.wf(),
        index_sound(doc, index, objects),
        locate(doc, key.1, 0, key.0, objects) == Ok::<Resolved, TraverseError>(
            Resolved::Found(start),
        ),
        container_at(doc, start as int) == Ok::<Option<(ContainerKind, int)>, TraverseError>(
            Some((kind, open as int)),
        ),
        value_end(doc, open as int) == Ok::<u64, TraverseError>(close),
    ensures
        index.with_close(base_depth, key, kind, open, close).wf(),
        index_sound(doc, index.with_close(base_depth, key, kind, open, close), objects),
{
    if index.enabled() {
        lemma_before_write(doc, index, base_depth, key, kind, open, start, objects);
        let node = index.before_write(key, kind, open, base_depth);
        lemma_after_write(doc, index, key, NodeView { close: Some(close), ..node }, objects);
    }
}

/// Writing back how many children a container has keeps an index true.
pub proof fn law_stored_count_is_sound(
    doc: Seq<u8>,
    index: IndexView,
    base_depth: u32,
    key: KeyView,
    kind: ContainerKind,
    start: u64,
    open: u64,
    count: u64,
    objects: bool,
)
    requires
        doc.len() <= u64::MAX,
        index.wf(),
        index_sound(doc, index, objects),
        locate(doc, key.1, 0, key.0, objects) == Ok::<Resolved, TraverseError>(
            Resolved::Found(start),
        ),
        container_at(doc, start as int) == Ok::<Option<(ContainerKind, int)>, TraverseError>(
            Some((kind, open as int)),
        ),
        child_count(doc, open + 1) == Ok::<nat, TraverseError>(count as nat),
    ensures
        index.with_child_count(base_depth, key, kind, open, count).wf(),
        index_sound(doc, index.with_child_count(base_depth, key, kind, open, count), objects),
{
    if index.enabled() {
        lemma_before_write(doc, index, base_depth, key, kind, open, start, objects);
        let node = index.before_write(key, kind, open, base_depth);
        lemma_after_write(
            doc,
            index,
            key,
            NodeView { child_count: Some(count), ..node },
            objects,
        );
    }
}

/// Writing back elements from which a later lookup can go on as from the array's
/// open keeps an index true.
pub proof fn law_stored_elements_are_sound(
    doc: Seq<u8>,
    index: IndexView,
    base_depth: u32,
    key: KeyView,
    start: u64,
    open: u64,
    members: Seq<(usize, u64)>,
    objects: bool,
)
    requires
        doc.len() <= u64::MAX,
        index.wf(),
        index_sound(doc, index, objects),
        locate(doc, key.1, 0, key.0, objects) == Ok::<Resolved, TraverseError>(
            Resolved::Found(start),
        ),
        container_at(doc, start as int) == Ok::<Option<(ContainerKind, int)>, TraverseError>(
            Some((ContainerKind::Array, open as int)),
        ),
        forall|i: int|
            0 <= i < members.len() ==> {
                &&& element_sound(
                    doc,
                    fresh_scan(ContainerKind::Array, open as int),
                    #[trigger] members[i],
                )
                &&& open < members[i].1 <= doc.len()
            },
    ensures
        index.with_array_scan(base_depth, key, open, members).wf(),
        index_sound(doc, index.with_array_scan(base_depth, key, open, members), objects),
{
    if index.enabled() {
        lemma_before_write(
            doc,
            index,
            base_depth,
            key,
            ContainerKind::Array,
            open,
            start,
            objects,
        );
        let node = index.before_write(key, ContainerKind::Array, open, base_depth);
        let held = node.body->Array_members;
        let all = merge_members(held, members);
        lemma_merge_members(held, members);
        assert forall|i: int| 0 <= i < all.len() implies {
            &&& element_sound(
                doc,
                fresh_scan(ContainerKind::Array, open as int),
                #[trigger] all[i],
            )
            &&& open < all[i].1 <= doc.len()
        } by {
            assert(all.contains(all[i]));
            if held.contains(all[i]) {
                let j = choose|j: int| 0 <= j < held.len() && held[j] == all[i];
                assert(element_sound(
                    doc,
                    fresh_scan(ContainerKind::Array, open as int),
                    held[j],
                ));
            } else {
                let j = choose|j: int| 0 <= j < members.len() && members[j] == all[i];
                assert(element_sound(
                    doc,
                    fresh_scan(ContainerKind::Array, open as int),
                    members[j],
                ));
            }
        }
        lemma_after_write(
            doc,
            index,
            key,
            NodeView { body: merged_array(node.body, members), ..node },
            objects,
        );
    }
}

} // verus!
