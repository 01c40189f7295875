//! What selections extract and what streams yield on a JSON text, told by its values alone.

use vstd::prelude::*;

use crate::answers::{law_lookup_answers_from_the_document, leads_to, session_sound};
use crate::children::{children_nest, cursor_after, first_child};
use crate::eval::{
    answers_to, emitted, field_head, law_pick_is_projection, legible, looks, matches_in, projected,
    unmatched, walked, with_child, Fields, Matches,
};
use crate::items::{
    batch_text, child_item, items_from, joined, law_a_stream_yields_its_items_once, nth_batch,
};
use crate::json::{
    comma_joined, digits_value, holds, is_decimal, lemma_valid_entry, reached, spells, stands,
    string_token, valid, valid_key, written, Entry, Json, Key, Reached,
};
use crate::keys::{json_string, json_text};
use crate::meaning::{
    container_stands, found_at, law_a_path_leads_to_what_it_names, law_a_value_is_found_whole,
    lemma_children_nest, lemma_cursors, lemma_found, lemma_key_hit, lemma_nth_child,
};
use crate::path::Step;
use crate::projection::{field_value, law_fields_are_projections};
use crate::query::{extent_at, value_bytes};
use crate::reading::{
    child_of, cursor_before, law_a_cursor_gives_the_children, lemma_child_holds, lemma_first_byte,
    lemma_key_stands, value_start,
};
use crate::resolve::{
    child_step, container_at, cursor_at, locate, ChildEntry, ChildKey, ContainerCursor,
    ContainerKind, PathFault, Resolved,
};
use crate::scan::ws_end;
use crate::select::Selection;
use crate::session::{SessionError, SessionView};
use crate::stream::{
    filled, index_text, item_begun, item_text, key_text, wanted_key, BatchEnd, BatchView,
    StreamConfig, StreamView,
};
use crate::walker::{doc_range, TraverseError};

verus! {

/// The text `null`, letter by letter.
pub open spec fn none_text() -> Seq<u8> {
    seq![0x6eu8, 0x75, 0x6c, 0x6c]
}

// ---- indices

/// An index is written in decimal: its digits, the most significant first and without a
/// zero in front, spell it.
pub proof fn law_an_index_is_written_in_decimal(n: nat)
    ensures
        is_decimal(index_text(n), n as int),
    decreases n,
{
    let t = index_text(n);
    if n < 10 {
        assert(t.drop_last() =~= Seq::empty());
        assert(digits_value(t.drop_last()) == 0);
    } else {
        law_an_index_is_written_in_decimal(n / 10);
        let init = index_text(n / 10);
        assert(t.drop_last() =~= init);
        assert forall|i: int| 0 <= i < t.len() implies 0x30 <= #[trigger] t[i] <= 0x39 by {
            if i < init.len() {
                assert(t[i] == init[i]);
            }
        }
        assert(t[0] == init[0]);
        if t[0] == 0x30 {
            assert(init.len() == 1);
            assert(init.drop_last() =~= Seq::empty());
            assert(digits_value(init.drop_last()) == 0);
            assert(digits_value(init) == 0);
        }
    }
}

// ---- one sub-value

/// Where a path leads to a value, the projection is that value's own bytes in the
/// document; where it leads to none, it is `null`.
pub proof fn law_a_projection_is_the_source(
    doc: Seq<u8>,
    path: Seq<Step>,
    start: u64,
)
    requires
        doc.len() <= u64::MAX,
        path.len() <= usize::MAX,
    ensures
        match locate(doc, path, 0, start, false) {
            Ok(Resolved::Found(at)) => match extent_at(doc, at as int) {
                Ok(x) => {
                    &&& x.location.start <= x.location.end <= doc.len()
                    &&& projected(doc, Selection::One(path), start) == Ok::<
                        Seq<u8>,
                        TraverseError,
                    >(doc.subrange(x.location.start as int, x.location.end as int))
                },
                Err(e) => projected(doc, Selection::One(path), start) == Err::<
                    Seq<u8>,
                    TraverseError,
                >(e),
            },
            Ok(_) => projected(doc, Selection::One(path), start) == Ok::<Seq<u8>, TraverseError>(
                none_text(),
            ),
            Err(e) => projected(doc, Selection::One(path), start) == Err::<
                Seq<u8>,
                TraverseError,
            >(e),
        },
{
    law_pick_is_projection(doc, path, start);
    if let Ok(Resolved::Found(at)) = locate(doc, path, 0, start, false) {
        crate::scan::lemma_run_end(doc, at as int, crate::scan::ByteClass::Whitespace);
        crate::resolve::lemma_value_end(doc, ws_end(doc, at as int));
        if let Ok(x) = extent_at(doc, at as int) {
            assert(value_bytes(doc, x.location) =~= doc.subrange(
                x.location.start as int,
                x.location.end as int,
            ));
        }
    }
}

// ---- named sub-values

/// The members of the object that named sub-values make, each in writing.
pub open spec fn field_texts(fields: Fields, values: Seq<Seq<u8>>) -> Seq<Seq<u8>> {
    Seq::new(fields.len(), |i: int| json_text(fields[i].0) + seq![0x3au8] + values[i])
}

/// The object that named sub-values make.
pub open spec fn fields_object(fields: Fields, values: Seq<Seq<u8>>) -> Seq<u8> {
    seq![0x7bu8] + comma_joined(field_texts(fields, values)) + seq![0x7du8]
}

proof fn lemma_emitted(
    doc: Seq<u8>,
    fields: Fields,
    matched: Matches,
    child: u64,
    i: int,
    out: Seq<u8>,
    values: Seq<Seq<u8>>,
)
    requires
        matched.len() == fields.len(),
        values.len() == fields.len(),
        0 <= i <= fields.len(),
        forall|j: int|
            i <= j < fields.len() ==> field_value(
                doc,
                #[trigger] fields[j].1,
                matched[j],
                child,
            ) == Ok::<Seq<u8>, TraverseError>(values[j]),
        out == seq![0x7bu8] + comma_joined(field_texts(fields, values).take(i)),
    ensures
        emitted(doc, fields, matched, child, i, out) == Ok::<Seq<u8>, TraverseError>(
            fields_object(fields, values),
        ),
    decreases fields.len() - i,
{
    let texts = field_texts(fields, values);
    if i < fields.len() {
        let upto = texts.take(i + 1);
        assert(upto.drop_last() =~= texts.take(i));
        assert(upto.last() == texts[i]);
        let next = out + field_head(fields, i) + values[i];
        assert(field_value(doc, fields[i].1, matched[i], child) == Ok::<Seq<u8>, TraverseError>(
            values[i],
        ));
        if i > 0 {
            assert(comma_joined(upto) == comma_joined(texts.take(i)) + seq![0x2cu8] + texts[i]);
        } else {
            assert(comma_joined(texts.take(0)) =~= Seq::empty());
            assert(comma_joined(upto) == texts[0]);
        }
        assert(next =~= seq![0x7bu8] + comma_joined(upto));
        lemma_emitted(doc, fields, matched, child, i + 1, next, values);
    } else {
        assert(texts.take(i) =~= texts);
        assert(out.push(0x7du8) =~= fields_object(fields, values));
    }
}

/// Named sub-values make an object in the order in which they are named: for each the key,
/// a colon and what a projection of its own path gives, `null` where that leads to nothing,
/// with commas between. In an array the brackets of every element must match.
pub proof fn law_named_fields_make_an_object(
    doc: Seq<u8>,
    fields: Fields,
    child: u64,
    values: Seq<Seq<u8>>,
)
    requires
        doc.len() <= u64::MAX,
        values.len() == fields.len(),
        forall|i: int|
            0 <= i < fields.len() ==> {
                &&& (#[trigger] fields[i]).1.len() <= usize::MAX
                &&& projected(doc, Selection::One(fields[i].1), child) == Ok::<
                    Seq<u8>,
                    TraverseError,
                >(values[i])
            },
        container_at(doc, child as int) matches Ok(c) && (c matches Some((kind, open)) ==> kind
            is Array ==> {
            &&& doc.len() <= usize::MAX
            &&& forall|k: nat| #[trigger]
                children_nest(doc, first_child(ContainerKind::Array, open), k)
        }),
        matches_in(doc, fields, child) is Ok,
    ensures
        projected(doc, Selection::Fields(fields), child) == Ok::<Seq<u8>, TraverseError>(
            fields_object(fields, values),
        ),
{
    let matched = matches_in(doc, fields, child)->Ok_0;
    assert forall|j: int| 0 <= j < fields.len() implies field_value(
        doc,
        #[trigger] fields[j].1,
        matched[j],
        child,
    ) == Ok::<Seq<u8>, TraverseError>(values[j]) by {
        assert(fields[j].1.len() <= usize::MAX);
        law_fields_are_projections(doc, fields, child, j);
        law_pick_is_projection(doc, fields[j].1, child);
    }
    if fields.len() > 0 {
        law_fields_are_projections(doc, fields, child, 0);
    } else {
        assert forall|i: int| !(0 <= i < fields.len() && #[trigger] looks(
            fields,
            unmatched(fields.len()),
            i,
        )) by {}
    }
    let texts = field_texts(fields, values);
    assert(texts.take(0) =~= Seq::empty());
    assert(seq![0x7bu8] =~= seq![0x7bu8] + comma_joined(texts.take(0)));
    lemma_emitted(doc, fields, matched, child, 0, seq![0x7bu8], values);
}

// ---- selections on a JSON text

/// What a selection extracts from a value: the whole of it where nothing is selected, the
/// value that a path names, or an object of the values that paths name; `null` for what is
/// not there.
pub open spec fn extracted(u: Json, select: Option<Selection>) -> Seq<u8> {
    match select {
        None => written(u),
        Some(Selection::One(path)) => picked(u, path),
        Some(Selection::Fields(fields)) => fields_object(
            fields,
            Seq::new(fields.len(), |i: int| picked(u, fields[i].1)),
        ),
    }
}

/// The value that a path names, in writing; `null` where there is none.
pub open spec fn picked(u: Json, path: Seq<Step>) -> Seq<u8> {
    match reached(u, path, 0) {
        Reached::Value(w) => written(w),
        _ => seq![0x6eu8, 0x75, 0x6c, 0x6c],
    }
}

/// The paths of a selection are no longer than a machine word counts.
pub open spec fn fits(select: Selection) -> bool {
    match select {
        Selection::One(path) => path.len() <= usize::MAX,
        Selection::Fields(fields) => forall|i: int|
            0 <= i < fields.len() ==> (#[trigger] fields[i]).1.len() <= usize::MAX,
    }
}

proof fn lemma_walked(
    doc: Seq<u8>,
    open: int,
    kind: ContainerKind,
    entries: Seq<Entry>,
    blank: Seq<u8>,
    k: int,
    fields: Fields,
    cursor: ContainerCursor,
    matched: Matches,
)
    requires
        container_stands(doc, open, kind, entries, blank),
        0 <= k <= entries.len(),
        cursor_before(open, kind, entries, k, cursor),
        matched.len() == fields.len(),
    ensures
        walked(doc, fields, cursor, matched) is Ok,
    decreases entries.len() - k,
{
    lemma_nth_child(doc, open, kind, entries, blank, 0);
    law_a_cursor_gives_the_children(doc, open, kind, entries, blank, k, cursor);
    if let Ok((Some(entry), next)) = child_step(doc, cursor) {
        lemma_valid_entry(kind, entries, k);
        assert forall|i: int|
            0 <= i < fields.len() && #[trigger] looks(fields, matched, i) implies answers_to(
            doc,
            entry.key,
            fields[i].1[0],
        ) is Some by {
            if kind is Object {
                lemma_key_stands(doc, open, entries, blank, k);
                if let ChildKey::Member { start, close } = entry.key {
                    assert(doc_range(doc, start + 1, close as int) =~= doc.subrange(
                        start + 1,
                        close as int,
                    ));
                    assert(crate::keys::quoted(entries[k].key->0.interior) == string_token(
                        entries[k].key->0.interior,
                    ));
                }
            }
        }
        assert(legible(doc, entry.key, fields, matched));
        lemma_walked(
            doc,
            open,
            kind,
            entries,
            blank,
            k + 1,
            fields,
            next,
            with_child(doc, entry, fields, matched),
        );
    }
}

/// A selection extracts from a value what it names in it, each part as it is written.
pub proof fn law_a_selection_extracts_what_it_names(
    doc: Seq<u8>,
    select: Selection,
    start: u64,
    u: Json,
)
    requires
        doc.len() <= usize::MAX,
        valid(u),
        found_at(doc, start as int, u),
        fits(select),
    ensures
        projected(doc, select, start) == Ok::<Seq<u8>, TraverseError>(extracted(u, Some(select))),
{
    match select {
        Selection::One(path) => lemma_picked(doc, path, start, u),
        Selection::Fields(fields) => {
            let values = Seq::new(fields.len(), |i: int| picked(u, fields[i].1));
            assert forall|i: int| 0 <= i < fields.len() implies {
                &&& (#[trigger] fields[i]).1.len() <= usize::MAX
                &&& projected(doc, Selection::One(fields[i].1), start) == Ok::<
                    Seq<u8>,
                    TraverseError,
                >(values[i])
            } by {
                lemma_picked(doc, fields[i].1, start, u);
            }
            lemma_found(doc, start as int, u);
            lemma_first_byte(u);
            let none = unmatched(fields.len());
            if let Json::Container(kind, entries, blank) = u {
                let open = ws_end(doc, start as int);
                lemma_cursors(doc, open, kind, entries, blank, 0);
                let cursor = first_child(kind, open);
                assert(cursor_after(doc, cursor, 0) == Some(cursor));
                assert(cursor_at(doc, start as int) == Ok::<
                    Option<ContainerCursor>,
                    TraverseError,
                >(Some(cursor)));
                lemma_walked(doc, open, kind, entries, blank, 0, fields, cursor, none);
                assert forall|k: nat| #[trigger] children_nest(doc, first_child(kind, open), k) by {
                    lemma_children_nest(doc, open, kind, entries, blank, k);
                }
            }
            law_named_fields_make_an_object(doc, fields, start, values);
        },
    }
}

proof fn lemma_picked(doc: Seq<u8>, path: Seq<Step>, start: u64, u: Json)
    requires
        doc.len() <= usize::MAX,
        valid(u),
        found_at(doc, start as int, u),
        path.len() <= usize::MAX,
    ensures
        projected(doc, Selection::One(path), start) == Ok::<Seq<u8>, TraverseError>(
            picked(u, path),
        ),
{
    law_a_projection_is_the_source(doc, path, start);
    law_a_path_leads_to_what_it_names(doc, path, 0, start, u, false);
    if let Reached::Value(w) = reached(u, path, 0) {
        let at = locate(doc, path, 0, start, false)->Ok_0->Found_0;
        law_a_value_is_found_whole(doc, at as int, w);
        let x = extent_at(doc, at as int)->Ok_0;
        assert(value_bytes(doc, x.location) =~= doc.subrange(
            x.location.start as int,
            x.location.end as int,
        ));
    }
}

/// Which children a step names: a member by what its key spells, an element by its index,
/// and no child of the other kind.
pub proof fn law_which_child_a_step_names(
    doc: Seq<u8>,
    start: u64,
    key: Key,
    i: usize,
    j: usize,
    name: Seq<char>,
)
    requires
        valid_key(key),
        start + 1 + key.interior.len() < doc.len() <= u64::MAX,
        stands(doc, start + 1, key.interior),
    ensures
        ({
            let member = ChildKey::Member {
                start,
                close: (start + 1 + key.interior.len()) as u64,
            };
            &&& answers_to(doc, ChildKey::Index(i), Step::Element(j)) == Some(i == j)
            &&& answers_to(doc, member, Step::Member(name)) == Some(spells(key.interior, name))
            &&& answers_to(doc, ChildKey::Index(i), Step::Member(name)) == Some(false)
            &&& answers_to(doc, member, Step::Element(j)) == Some(false)
        }),
{
    lemma_key_hit(key, name, false);
    let close = start + 1 + key.interior.len();
    assert forall|k: int| 0 <= k < key.interior.len() implies doc.subrange(
        start + 1,
        close,
    )[k] == key.interior[k] by {
        assert(doc[start + 1 + k] == key.interior[k]);
    }
    assert(doc.subrange(start + 1, close) =~= key.interior);
}

// ---- streams on a JSON text

/// The key of a child as a stream gives it: the index of an element in decimal, or the name
/// that the key of a member spells, as a string.
pub open spec fn is_key_text(
    kind: ContainerKind,
    entries: Seq<Entry>,
    k: int,
    text: Seq<u8>,
) -> bool {
    match kind {
        ContainerKind::Array => is_decimal(text, k),
        ContainerKind::Object => json_string(string_token(entries[k].key->0.interior)) matches Some(
            name,
        ) && text == json_text(name),
    }
}

/// The item of a child: what the selection extracts from it, or the pair of its key and
/// that.
pub open spec fn is_item(
    kind: ContainerKind,
    entries: Seq<Entry>,
    k: int,
    select: Option<Selection>,
    with_key: bool,
    item: Seq<u8>,
) -> bool {
    let value = extracted(entries[k].value, select);
    if with_key {
        exists|key: Seq<u8>| #[trigger]
            is_key_text(kind, entries, k, key) && item == seq![0x5bu8] + key + seq![0x2cu8] + value
                + seq![0x5du8]
    } else {
        item == value
    }
}

/// The keys of the members can be read.
pub open spec fn keys_read(kind: ContainerKind, entries: Seq<Entry>) -> bool {
    kind is Object ==> forall|k: int|
        0 <= k < entries.len() ==> json_string(
            string_token((#[trigger] entries[k]).key->0.interior),
        ) is Some
}

/// The value of a child is found where a cursor says, and its bytes are those that the
/// cursor spans.
proof fn lemma_child_found(
    doc: Seq<u8>,
    open: int,
    kind: ContainerKind,
    entries: Seq<Entry>,
    blank: Seq<u8>,
    k: int,
)
    requires
        container_stands(doc, open, kind, entries, blank),
        0 <= k < entries.len(),
    ensures
        ({
            let location = child_of(open, kind, entries, k).location;
            &&& valid(entries[k].value)
            &&& found_at(doc, location.start as int, entries[k].value)
            &&& value_bytes(doc, location) == written(entries[k].value)
        }),
{
    let location = child_of(open, kind, entries, k).location;
    let text = written(entries[k].value);
    lemma_child_holds(doc, open, kind, entries, blank, k);
    let at = open + 1 + value_start(entries, k);
    assert(stands(doc, at, Seq::<u8>::empty()));
    assert(at + Seq::<u8>::empty().len() == at);
    assert(found_at(doc, at, entries[k].value));
    assert(at == location.start && at + text.len() == location.end);
    assert forall|i: int| 0 <= i < text.len() implies doc.subrange(at, at + text.len())[i]
        == text[i] by {
        assert(doc[at + i] == text[i]);
    }
    assert(doc.subrange(at, at + text.len()) =~= text);
    assert(value_bytes(doc, location) =~= doc.subrange(at, at + text.len()));
}

/// The value of an item.
proof fn lemma_item_value(
    doc: Seq<u8>,
    open: int,
    kind: ContainerKind,
    entries: Seq<Entry>,
    blank: Seq<u8>,
    k: int,
    select: Option<Selection>,
    key: Option<Seq<u8>>,
)
    requires
        container_stands(doc, open, kind, entries, blank),
        0 <= k < entries.len(),
        select matches Some(x) ==> fits(x),
    ensures
        item_begun(child_of(open, kind, entries, k), key, select).answer(doc, select) == Ok::<
            Seq<u8>,
            TraverseError,
        >(extracted(entries[k].value, select)),
{
    let entry = child_of(open, kind, entries, k);
    lemma_child_found(doc, open, kind, entries, blank, k);
    if let Some(selection) = select {
        law_a_selection_extracts_what_it_names(
            doc,
            selection,
            entry.location.start,
            entries[k].value,
        );
        crate::eval::law_begun_projection(doc, selection, entry.location.start);
    }
}

/// The key of an item.
proof fn lemma_item_key(
    doc: Seq<u8>,
    open: int,
    kind: ContainerKind,
    entries: Seq<Entry>,
    blank: Seq<u8>,
    k: int,
)
    requires
        container_stands(doc, open, kind, entries, blank),
        0 <= k < entries.len(),
        keys_read(kind, entries),
    ensures
        key_text(doc, child_of(open, kind, entries, k).key) matches Ok(text) && is_key_text(
            kind,
            entries,
            k,
            text,
        ),
{
    let entry = child_of(open, kind, entries, k);
    match kind {
        ContainerKind::Array => {
            lemma_nth_child(doc, open, kind, entries, blank, k as nat);
            law_an_index_is_written_in_decimal(k as nat);
        },
        ContainerKind::Object => {
            lemma_key_stands(doc, open, entries, blank, k);
            if let ChildKey::Member { start, close } = entry.key {
                assert(doc_range(doc, start as int, close + 1) =~= doc.subrange(
                    start as int,
                    close + 1,
                ));
            }
        },
    }
}

proof fn lemma_item(
    doc: Seq<u8>,
    open: int,
    kind: ContainerKind,
    entries: Seq<Entry>,
    blank: Seq<u8>,
    k: int,
    select: Option<Selection>,
    with_key: bool,
)
    requires
        container_stands(doc, open, kind, entries, blank),
        0 <= k < entries.len(),
        select matches Some(x) ==> fits(x),
        with_key ==> keys_read(kind, entries),
    ensures
        child_item(doc, child_of(open, kind, entries, k), select, with_key) matches Ok(item)
            && is_item(kind, entries, k, select, with_key, item),
{
    let entry = child_of(open, kind, entries, k);
    if with_key {
        lemma_item_key(doc, open, kind, entries, blank, k);
        let text = key_text(doc, entry.key)->Ok_0;
        lemma_item_value(doc, open, kind, entries, blank, k, select, Some(text));
        let item = child_item(doc, entry, select, with_key)->Ok_0;
        assert(is_key_text(kind, entries, k, text));
        assert(item == seq![0x5bu8] + text + seq![0x2cu8] + extracted(entries[k].value, select)
            + seq![0x5du8]);
    } else {
        lemma_item_value(doc, open, kind, entries, blank, k, select, None);
    }
}

/// The items of a container are one for each child, in order: what the selection extracts
/// from it, with its key if keys are wanted.
pub proof fn law_items_are_what_the_children_hold(
    doc: Seq<u8>,
    open: int,
    kind: ContainerKind,
    entries: Seq<Entry>,
    blank: Seq<u8>,
    k: int,
    select: Option<Selection>,
    with_key: bool,
    cursor: ContainerCursor,
)
    requires
        container_stands(doc, open, kind, entries, blank),
        0 <= k <= entries.len(),
        cursor_before(open, kind, entries, k, cursor),
        select matches Some(x) ==> fits(x),
        with_key ==> keys_read(kind, entries),
    ensures
        ({
            let (items, fault) = items_from(doc, select, with_key, cursor);
            &&& fault is None
            &&& items.len() == entries.len() - k
            &&& forall|i: int|
                0 <= i < items.len() ==> is_item(
                    kind,
                    entries,
                    k + i,
                    select,
                    with_key,
                    #[trigger] items[i],
                )
        }),
    decreases entries.len() - k,
{
    lemma_nth_child(doc, open, kind, entries, blank, 0);
    law_a_cursor_gives_the_children(doc, open, kind, entries, blank, k, cursor);
    let (items, fault) = items_from(doc, select, with_key, cursor);
    if let Ok((Some(entry), next)) = child_step(doc, cursor) {
        lemma_item(doc, open, kind, entries, blank, k, select, with_key);
        crate::resolve::law_cursor_advances(doc, cursor);
        law_items_are_what_the_children_hold(
            doc,
            open,
            kind,
            entries,
            blank,
            k + 1,
            select,
            with_key,
            next,
        );
        let (rest, _) = items_from(doc, select, with_key, next);
        let item = child_item(doc, entry, select, with_key)->Ok_0;
        assert(items == seq![item] + rest);
        assert forall|i: int| 0 <= i < items.len() implies is_item(
            kind,
            entries,
            k + i,
            select,
            with_key,
            #[trigger] items[i],
        ) by {
            if i > 0 {
                assert(items[i] == rest[i - 1]);
                assert(k + 1 + (i - 1) == k + i);
            }
        }
    }
}

/// A batch is an array: its items between brackets, a comma between any two.
pub proof fn law_a_batch_is_an_array(items: Seq<Seq<u8>>)
    ensures
        batch_text(items) == seq![0x5bu8] + comma_joined(items) + seq![0x5du8],
{
    lemma_batch_text(items);
    assert(batch_text(items) =~= seq![0x5bu8] + comma_joined(items) + seq![0x5du8]);
}

proof fn lemma_batch(items: Seq<Seq<u8>>, k: nat)
    requires
        k <= items.len(),
    ensures
        crate::items::written(
            seq![0x5bu8] + comma_joined(items.take(k as int)),
            k,
            items.skip(k as int),
        ) == seq![0x5bu8] + comma_joined(items),
    decreases items.len() - k,
{
    let text = seq![0x5bu8] + comma_joined(items.take(k as int));
    if k < items.len() {
        let upto = items.take(k as int + 1);
        assert(upto.drop_last() =~= items.take(k as int));
        assert(upto.last() == items[k as int]);
        assert(items.skip(k as int).skip(1) =~= items.skip(k as int + 1));
        assert(items.skip(k as int)[0] == items[k as int]);
        let next = (if k > 0 {
            text.push(0x2cu8)
        } else {
            text
        }) + items[k as int];
        if k > 0 {
            assert(comma_joined(upto) == comma_joined(items.take(k as int)) + seq![0x2cu8]
                + items[k as int]);
        } else {
            assert(items.take(0) =~= Seq::empty());
            assert(comma_joined(items.take(0)) =~= Seq::empty());
            assert(comma_joined(upto) == items[0]);
        }
        assert(next =~= seq![0x5bu8] + comma_joined(upto));
        lemma_batch(items, k + 1);
    } else {
        assert(items.take(k as int) =~= items);
    }
}

/// A stream over a container yields its children, each once and in order, in batches that
/// are arrays; then nothing more.
pub proof fn law_a_stream_yields_the_children(
    doc: Seq<u8>,
    open: int,
    kind: ContainerKind,
    entries: Seq<Entry>,
    blank: Seq<u8>,
    v: StreamView,
    s: SessionView,
) -> (pieces: Seq<Seq<Seq<u8>>>)
    requires
        container_stands(doc, open, kind, entries, blank),
        v.batch is None,
        v.cursor == Some(first_child(kind, open)),
        v.cfg.select matches Some(x) ==> fits(x),
        v.cfg.with_key ==> keys_read(kind, entries),
    ensures
        forall|k: int|
            0 <= k < pieces.len() ==> (#[trigger] pieces[k]).len() > 0 && nth_batch(
                doc,
                v,
                s,
                k as nat,
            ) == Ok::<Option<Seq<u8>>, SessionError>(
                Some(seq![0x5bu8] + comma_joined(pieces[k]) + seq![0x5du8]),
            ),
        forall|k: nat|
            k >= pieces.len() ==> #[trigger] nth_batch(doc, v, s, k) == Ok::<
                Option<Seq<u8>>,
                SessionError,
            >(None),
        joined(pieces).len() == entries.len(),
        forall|i: int|
            0 <= i < entries.len() ==> is_item(
                kind,
                entries,
                i,
                v.cfg.select,
                v.cfg.with_key,
                #[trigger] joined(pieces)[i],
            ),
{
    let pieces = law_a_stream_yields_its_items_once(doc, v, s);
    let cursor = first_child(kind, open);
    lemma_cursors(doc, open, kind, entries, blank, 0);
    assert(cursor_after(doc, cursor, 0) == Some(cursor));
    law_items_are_what_the_children_hold(
        doc,
        open,
        kind,
        entries,
        blank,
        0,
        v.cfg.select,
        v.cfg.with_key,
        cursor,
    );
    assert forall|k: int| 0 <= k < pieces.len() implies (#[trigger] pieces[k]).len() > 0
        && nth_batch(doc, v, s, k as nat) == Ok::<Option<Seq<u8>>, SessionError>(
        Some(seq![0x5bu8] + comma_joined(pieces[k]) + seq![0x5du8]),
    ) by {
        law_a_batch_is_an_array(pieces[k]);
    }
    pieces
}

// ---- how full a batch is

/// What a batch is once the next child is written into it.
spec fn with_next(
    cfg: StreamConfig,
    b: BatchView,
    entry: ChildEntry,
    next: ContainerCursor,
    key: Option<Seq<u8>>,
    value: Seq<u8>,
) -> BatchView {
    (BatchView {
        item: Some(item_begun(entry, key, cfg.select)),
        ..b.taking(next).noting(entry, cfg.interval)
    }).writing(value)
}

proof fn lemma_one_more(
    doc: Seq<u8>,
    cfg: StreamConfig,
    b: BatchView,
    entry: ChildEntry,
    next: ContainerCursor,
    key: Option<Seq<u8>>,
    value: Seq<u8>,
)
    requires
        doc.len() <= u64::MAX,
        b.item is None,
        child_step(doc, b.cursor) == Ok::<(Option<ChildEntry>, ContainerCursor), TraverseError>(
            (Some(entry), next),
        ),
        wanted_key(doc, entry.key, cfg.with_key) == Ok::<Option<Seq<u8>>, TraverseError>(key),
        item_begun(entry, key, cfg.select).answer(doc, cfg.select) == Ok::<
            Seq<u8>,
            TraverseError,
        >(value),
    ensures
        ({
            let wrote = with_next(cfg, b, entry, next, key, value);
            let item = item_text(key, value);
            &&& b.cursor.next_offset < next.next_offset <= doc.len()
            &&& wrote.item is None && wrote.cursor == next && wrote.count == b.count + 1
            &&& wrote.text == crate::items::written(b.text, b.count, seq![item])
            &&& items_from(doc, cfg.select, cfg.with_key, b.cursor).0 == seq![item] + items_from(
                doc,
                cfg.select,
                cfg.with_key,
                next,
            ).0
            &&& filled(doc, cfg, b) == (if cfg.limits.reached(wrote.count, wrote.text.len()) {
                (BatchEnd::Full, wrote)
            } else {
                filled(doc, cfg, wrote)
            })
        }),
{
    crate::resolve::law_cursor_advances(doc, b.cursor);
    let taken = BatchView {
        item: Some(item_begun(entry, key, cfg.select)),
        ..b.taking(next).noting(entry, cfg.interval)
    };
    assert(filled(doc, cfg, b) == filled(doc, cfg, taken));
    let item = item_text(key, value);
    let wrote = taken.writing(value);
    assert(seq![item].skip(1) =~= Seq::empty());
    assert(crate::items::written(wrote.text, wrote.count, Seq::empty()) == wrote.text);
}

/// Before a batch is full it goes on: no part of it reaches its limits.
proof fn lemma_filled_to_its_limits(doc: Seq<u8>, cfg: StreamConfig, b: BatchView, m: nat)
    requires
        doc.len() <= u64::MAX,
        b.item is None,
        b.count < m < filled(doc, cfg, b).1.count,
    ensures
        ({
            let (items, _) = items_from(doc, cfg.select, cfg.with_key, b.cursor);
            &&& m - b.count <= items.len()
            &&& m < cfg.limits.max_count
            &&& crate::items::written(b.text, b.count, items.take(m - b.count)).len()
                < cfg.limits.max_bytes
        }),
    decreases doc.len() - b.cursor.next_offset,
{
    let (items, fault) = items_from(doc, cfg.select, cfg.with_key, b.cursor);
    if let Ok((Some(entry), next)) = child_step(doc, b.cursor) {
        if let Ok(key) = wanted_key(doc, entry.key, cfg.with_key) {
            if let Ok(value) = item_begun(entry, key, cfg.select).answer(doc, cfg.select) {
                lemma_one_more(doc, cfg, b, entry, next, key, value);
                let item = item_text(key, value);
                let (rest, _) = items_from(doc, cfg.select, cfg.with_key, next);
                let wrote = with_next(cfg, b, entry, next, key, value);
                let n = m - b.count;
                if m > wrote.count {
                    lemma_filled_to_its_limits(doc, cfg, wrote, m);
                    assert(items.take(n)[0] == item);
                    assert(items.take(n).skip(1) =~= rest.take(n - 1));
                } else {
                    assert(items.take(1) =~= seq![item]);
                }
            } else {
                lemma_no_more(doc, cfg, b, entry, next, key);
            }
        }
    }
}

proof fn lemma_no_more(
    doc: Seq<u8>,
    cfg: StreamConfig,
    b: BatchView,
    entry: ChildEntry,
    next: ContainerCursor,
    key: Option<Seq<u8>>,
)
    requires
        b.item is None,
        child_step(doc, b.cursor) == Ok::<(Option<ChildEntry>, ContainerCursor), TraverseError>(
            (Some(entry), next),
        ),
        wanted_key(doc, entry.key, cfg.with_key) == Ok::<Option<Seq<u8>>, TraverseError>(key),
        item_begun(entry, key, cfg.select).answer(doc, cfg.select) is Err,
    ensures
        filled(doc, cfg, b).1.count == b.count,
{
    let taken = BatchView {
        item: Some(item_begun(entry, key, cfg.select)),
        ..b.taking(next).noting(entry, cfg.interval)
    };
    if b.cursor.next_offset < next.next_offset <= doc.len() {
        assert(filled(doc, cfg, b) == filled(doc, cfg, taken));
    }
}

/// A batch holds no more items than its limits allow, one at least: while it holds fewer
/// than `max_count` and its text is shorter than `max_bytes` it goes on, and no longer.
pub proof fn law_a_batch_keeps_its_limits(doc: Seq<u8>, cfg: StreamConfig, b: BatchView, m: nat)
    requires
        doc.len() <= u64::MAX,
        b.item is None,
        b.count == 0,
        b.text == seq![0x5bu8],
    ensures
        ({
            let (items, _) = items_from(doc, cfg.select, cfg.with_key, b.cursor);
            let (end, out) = filled(doc, cfg, b);
            &&& out.count <= items.len()
            &&& out.text == seq![0x5bu8] + comma_joined(items.take(out.count as int))
            &&& cfg.limits.max_count > 0 ==> out.count <= cfg.limits.max_count
            &&& 0 < m < out.count ==> {
                &&& m < cfg.limits.max_count
                &&& 1 + comma_joined(items.take(m as int)).len() < cfg.limits.max_bytes
            }
            &&& end is Full ==> {
                ||| out.count >= cfg.limits.max_count
                ||| 1 + comma_joined(items.take(out.count as int)).len() >= cfg.limits.max_bytes
            }
        }),
{
    let (items, _) = items_from(doc, cfg.select, cfg.with_key, b.cursor);
    let (end, out) = filled(doc, cfg, b);
    crate::items::law_batches_cut_the_items(doc, cfg, b);
    lemma_batch_text(items.take(out.count as int));
    if out.count > 1 {
        lemma_filled_to_its_limits(doc, cfg, b, (out.count - 1) as nat);
    }
    if 0 < m < out.count {
        lemma_filled_to_its_limits(doc, cfg, b, m);
        lemma_batch_text(items.take(m as int));
    }
}

/// The text of a batch before its closing bracket.
proof fn lemma_batch_text(items: Seq<Seq<u8>>)
    ensures
        crate::items::written(seq![0x5bu8], 0, items) == seq![0x5bu8] + comma_joined(items),
{
    lemma_batch(items, 0);
    assert(items.take(0) =~= Seq::empty());
    assert(comma_joined(items.take(0)) =~= Seq::empty());
    assert(items.skip(0) =~= items);
    assert(seq![0x5bu8] + comma_joined(items.take(0)) =~= seq![0x5bu8]);
}

// ---- opening a stream

/// A stream opens on the container that its path names, before the first child. Where the
/// path names nothing it opens on nothing, and where it names a value that is no container,
/// or does not fit the values on its way, it does not open.
pub proof fn law_a_stream_opens_on_its_container(
    doc: Seq<u8>,
    v: StreamView,
    s: SessionView,
    j: Json,
)
    requires
        doc.len() <= usize::MAX,
        v.key.1.len() <= usize::MAX,
        v.opening is Fresh,
        v.cursor is None,
        session_sound(doc, s),
        valid(j),
        found_at(doc, v.key.0 as int, j),
    ensures
        ({
            let (r, opened, _) = v.opened(doc, s);
            match reached(j, v.key.1, 0) {
                Reached::Value(Json::Container(kind, entries, blank)) => {
                    &&& r == Ok::<(), SessionError>(())
                    &&& opened.cursor matches Some(cursor) && exists|open: int| #[trigger]
                        container_stands(doc, open, kind, entries, blank) && cursor == first_child(
                            kind,
                            open,
                        )
                    &&& opened.opening is Opened
                    &&& opened.base matches Some(base) && base + 1
                        == opened.cursor->0.next_offset
                    &&& opened.cfg == v.cfg
                    &&& opened.batch == v.batch
                    &&& opened.yielded == v.yielded
                },
                Reached::Value(_) => r == Err::<(), SessionError>(
                    SessionError::Path(PathFault::ScalarTarget),
                ) && opened.opening is Opened && opened.cursor is None,
                Reached::Nothing => r == Ok::<(), SessionError>(()) && opened.opening is Opened
                    && opened.cursor is None,
                Reached::Scalar(at) => r == Err::<(), SessionError>(
                    SessionError::Path(PathFault::ThroughScalar { segment: at as usize }),
                ) && opened == v,
                Reached::Mismatch(at) => r == Err::<(), SessionError>(
                    SessionError::Path(PathFault::WrongKind { segment: at as usize }),
                ) && opened == v,
            }
        }),
{
    law_lookup_answers_from_the_document(doc, s, v.key, v.base_depth);
    law_a_path_leads_to_what_it_names(doc, v.key.1, 0, v.key.0, j, s.index.cap > 0);
    if let Reached::Value(u) = reached(j, v.key.1, 0) {
        let at = leads_to(doc, s, v.key)->Ok_0->Found_0;
        lemma_found(doc, at as int, u);
        lemma_first_byte(u);
        if let Json::Container(kind, entries, blank) = u {
            let open = ws_end(doc, at as int);
            assert(container_stands(doc, open, kind, entries, blank));
            assert(cursor_at(doc, at as int) == Ok::<Option<ContainerCursor>, TraverseError>(
                Some(first_child(kind, open)),
            ));
        }
    }
}

} // verus!
