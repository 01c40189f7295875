//! What the scans find in a JSON text.

use vstd::prelude::*;

use crate::children::level;
use crate::json::{
    closing, ends, entry_text, holds, is_blank, is_scalar, lead, lemma_stands, lemma_valid_entry,
    listed, number_text, opening, stands, string_token, valid, valid_entries, valid_entry,
    valid_interior, written, Entry, Json, Key, Number,
};
use crate::resolve::{
    child_step, entry_key, member_value, ChildEntry, ChildKey, ContainerCursor, ContainerKind,
    EntryKey, ValueLocation,
};
use crate::scan::{
    comma_run, eof_offset, inside, is_primitive, is_whitespace, lemma_comma_split, lemma_nest_split,
    lemma_run_end, lex_step, nest_run, outside, run_end, string_run, ws_end, ByteClass, CommaRun,
    Commas, Lex, Nest, NestRun, StringRun,
};
use crate::walker::{string_answer, value_end, TraverseError};

verus! {

// ---- scans that a text leaves as they were

/// What a scan counts: separators, braces or brackets.
#[derive(Clone, Copy)]
enum Run {
    Commas,
    Nesting(ContainerKind),
}

/// A container of that kind is one level down for the scan.
spec fn deepens(run: Run, kind: ContainerKind) -> bool {
    match run {
        Run::Commas => true,
        Run::Nesting(k) => k == kind,
    }
}

/// Past the bytes `at..to` a scan at `depth` stands as it stood before them.
spec fn calm(run: Run, doc: Seq<u8>, at: int, to: int, depth: nat) -> bool {
    match run {
        Run::Commas => {
            let s = Commas { lex: outside(), depth, left: 2 };
            comma_run(doc, at, to, s) == CommaRun::Open(s)
        },
        Run::Nesting(kind) => {
            let s = Nest { lex: outside(), depth };
            nest_run(doc, at, to, s, opening(kind), closing(kind)) == NestRun::Open(s)
        },
    }
}

proof fn lemma_calm_join(run: Run, doc: Seq<u8>, at: int, mid: int, to: int, depth: nat)
    requires
        at <= mid <= to,
        calm(run, doc, at, mid, depth),
        calm(run, doc, mid, to, depth),
    ensures
        calm(run, doc, at, to, depth),
{
    match run {
        Run::Commas => lemma_comma_split(
            doc,
            at,
            mid,
            to,
            Commas { lex: outside(), depth, left: 2 },
        ),
        Run::Nesting(kind) => lemma_nest_split(
            doc,
            at,
            mid,
            to,
            Nest { lex: outside(), depth },
            opening(kind),
            closing(kind),
        ),
    }
}

/// A byte that means nothing to any scan.
spec fn is_plain(b: u8) -> bool {
    b != 0x22 && b != 0x5c && b != 0x2c && b != 0x7b && b != 0x7d && b != 0x5b && b != 0x5d
}

proof fn lemma_calm_plain(run: Run, doc: Seq<u8>, at: int, to: int, depth: nat)
    requires
        at <= to,
        forall|i: int| at <= i < to ==> is_plain(#[trigger] doc[i]),
    ensures
        calm(run, doc, at, to, depth),
    decreases to - at,
{
    if at < to {
        lemma_calm_plain(run, doc, at + 1, to, depth);
        assert(is_plain(doc[at]));
    }
}

/// Where the scan of a string stands inside it.
spec fn in_string(run: Run, doc: Seq<u8>, at: int, to: int, depth: nat, lex: Lex) -> bool {
    match run {
        Run::Commas => comma_run(doc, at, to, Commas { lex, depth, left: 2 }) == CommaRun::Open(
            Commas { lex: outside(), depth, left: 2 },
        ),
        Run::Nesting(kind) => nest_run(
            doc,
            at,
            to,
            Nest { lex, depth },
            opening(kind),
            closing(kind),
        ) == NestRun::Open(Nest { lex: outside(), depth }),
    }
}

/// The rest of a string, up to its closing quote.
proof fn lemma_interior(run: Run, doc: Seq<u8>, at: int, s: Seq<u8>, depth: nat)
    requires
        valid_interior(s),
        stands(doc, at, s + seq![0x22u8]),
    ensures
        in_string(run, doc, at, at + s.len() + 1, depth, inside()),
        string_run(doc, at, doc.len() as int, inside()) == StringRun::Closed(at + s.len()),
    decreases s.len(),
{
    let t = s + seq![0x22u8];
    assert(doc[at] == t[0]);
    if s.len() == 0 {
        assert(t[0] == 0x22);
        let to = at + 1;
        assert(lex_step(inside(), doc[at]) == outside());
        match run {
            Run::Commas => {
                let o = Commas { lex: outside(), depth, left: 2 };
                assert(comma_run(doc, to, to, o) == CommaRun::Open(o));
            },
            Run::Nesting(kind) => {
                let o = Nest { lex: outside(), depth };
                assert(nest_run(doc, to, to, o, opening(kind), closing(kind)) == NestRun::Open(o));
            },
        }
    } else if s[0] == 0x5c {
        let rest = s.skip(2);
        assert(doc[at + 1] == t[1]);
        assert(t[1] == s[1]);
        assert forall|i: int| 0 <= i < rest.len() + 1 implies doc[at + 2 + i] == #[trigger] (rest
            + seq![0x22u8])[i] by {
            assert(doc[at + (i + 2)] == t[i + 2]);
        }
        lemma_interior(run, doc, at + 2, rest, depth);
        let mid = Lex { escaped: true, inside: true };
        let to = at + s.len() + 1;
        assert(lex_step(inside(), doc[at]) == mid);
        assert(lex_step(mid, doc[at + 1]) == inside());
        assert(in_string(run, doc, at + 1, to, depth, mid));
        assert(string_run(doc, at + 1, doc.len() as int, mid) == StringRun::Closed(at + s.len()));
    } else {
        let rest = s.skip(1);
        assert forall|i: int| 0 <= i < rest.len() + 1 implies doc[at + 1 + i] == #[trigger] (rest
            + seq![0x22u8])[i] by {
            assert(doc[at + (i + 1)] == t[i + 1]);
        }
        lemma_interior(run, doc, at + 1, rest, depth);
        assert(t[0] == s[0]);
        assert(lex_step(inside(), doc[at]) == inside());
    }
}

/// A string between its quotes.
proof fn lemma_calm_string(run: Run, doc: Seq<u8>, at: int, s: Seq<u8>, depth: nat)
    requires
        valid_interior(s),
        stands(doc, at, string_token(s)),
    ensures
        calm(run, doc, at, at + s.len() + 2, depth),
        string_answer(doc, at + 1, inside()) == Ok::<int, u64>(at + 1 + s.len()),
        doc[at] == 0x22,
{
    assert(string_token(s) =~= seq![0x22u8] + (s + seq![0x22u8]));
    lemma_stands(doc, at, seq![0x22u8], s + seq![0x22u8]);
    assert(doc[at + 0] == seq![0x22u8][0]);
    lemma_interior(run, doc, at + 1, s, depth);
    assert(lex_step(outside(), doc[at]) == inside());
}

/// Whitespace.
proof fn lemma_calm_blank(run: Run, doc: Seq<u8>, at: int, s: Seq<u8>, depth: nat)
    requires
        is_blank(s),
        stands(doc, at, s),
    ensures
        calm(run, doc, at, at + s.len(), depth),
{
    assert forall|i: int| at <= i < at + s.len() implies is_plain(#[trigger] doc[i]) by {
        assert(doc[at + (i - at)] == s[i - at]);
    }
    lemma_calm_plain(run, doc, at, at + s.len(), depth);
}

/// A comma of a container that lies deeper.
proof fn lemma_calm_comma(run: Run, doc: Seq<u8>, at: int, depth: nat)
    requires
        doc[at] == 0x2c,
        depth >= 1,
    ensures
        calm(run, doc, at, at + 1, depth),
{
    match run {
        Run::Commas => {
            let o = Commas { lex: outside(), depth, left: 2 };
            assert(comma_run(doc, at + 1, at + 1, o) == CommaRun::Open(o));
        },
        Run::Nesting(kind) => {
            let o = Nest { lex: outside(), depth };
            assert(nest_run(doc, at + 1, at + 1, o, opening(kind), closing(kind)) == NestRun::Open(
                o,
            ));
        },
    }
}

/// The depth of a scan inside a container.
spec fn inner(run: Run, kind: ContainerKind, depth: nat) -> nat {
    if deepens(run, kind) {
        depth + 1
    } else {
        depth
    }
}

/// A container whose children leave a scan as it was does so itself.
proof fn lemma_calm_container(
    run: Run,
    doc: Seq<u8>,
    at: int,
    to: int,
    kind: ContainerKind,
    depth: nat,
)
    requires
        at < to,
        doc[at] == opening(kind),
        doc[to] == closing(kind),
        calm(run, doc, at + 1, to, inner(run, kind, depth)),
        run is Nesting ==> depth >= 1,
    ensures
        calm(run, doc, at, to + 1, depth),
{
    let d = inner(run, kind, depth);
    match run {
        Run::Commas => {
            let o = Commas { lex: outside(), depth, left: 2 };
            let s = Commas { lex: outside(), depth: d, left: 2 };
            lemma_comma_split(doc, at + 1, to, to + 1, s);
            assert(comma_run(doc, to + 1, to + 1, o) == CommaRun::Open(o));
            assert(comma_run(doc, to, to + 1, s) == CommaRun::Open(o));
        },
        Run::Nesting(k) => {
            let o = Nest { lex: outside(), depth };
            let s = Nest { lex: outside(), depth: d };
            lemma_nest_split(doc, at + 1, to, to + 1, s, opening(k), closing(k));
            assert(nest_run(doc, to + 1, to + 1, o, opening(k), closing(k)) == NestRun::Open(o));
            assert(nest_run(doc, to, to + 1, s, opening(k), closing(k)) == NestRun::Open(o));
        },
    }
}

/// What stands before the value of a child.
proof fn lemma_calm_lead(run: Run, doc: Seq<u8>, at: int, kind: ContainerKind, e: Entry, depth: nat)
    requires
        valid_entry(kind, e),
        stands(doc, at, lead(e)),
    ensures
        calm(run, doc, at, at + lead(e).len(), depth),
{
    match e.key {
        None => {
            assert(lead(e) =~= e.before);
            lemma_calm_blank(run, doc, at, e.before, depth);
        },
        Some(key) => {
            let token = string_token(key.interior);
            let colon = seq![0x3au8];
            let a = at + e.before.len();
            let b = a + token.len();
            let c = b + key.before_colon.len();
            lemma_lead(doc, at, e);
            lemma_calm_blank(run, doc, at, e.before, depth);
            lemma_calm_string(run, doc, a, key.interior, depth);
            lemma_calm_join(run, doc, at, a, b, depth);
            lemma_calm_blank(run, doc, b, key.before_colon, depth);
            lemma_calm_join(run, doc, at, b, c, depth);
            lemma_calm_plain(run, doc, c, c + 1, depth);
            lemma_calm_join(run, doc, at, c, c + 1, depth);
            lemma_calm_blank(run, doc, c + 1, key.after_colon, depth);
            lemma_calm_join(run, doc, at, c + 1, c + 1 + key.after_colon.len(), depth);
        },
    }
}

/// The parts of what stands before the value of a member.
pub proof fn lemma_lead(doc: Seq<u8>, at: int, e: Entry)
    requires
        stands(doc, at, lead(e)),
        e.key is Some,
    ensures
        ({
            let key = e.key->0;
            let a = at + e.before.len();
            let b = a + key.interior.len() + 2;
            let c = b + key.before_colon.len();
            &&& stands(doc, at, e.before)
            &&& stands(doc, a, string_token(key.interior))
            &&& stands(doc, b, key.before_colon)
            &&& 0 <= c < doc.len()
            &&& doc[c] == 0x3a
            &&& stands(doc, c + 1, key.after_colon)
            &&& at + lead(e).len() == c + 1 + key.after_colon.len()
        }),
{
    let key = e.key->0;
    let token = string_token(key.interior);
    let colon = seq![0x3au8];
    let a = at + e.before.len();
    let b = a + token.len();
    let c = b + key.before_colon.len();
    lemma_stands(doc, at, e.before, token + key.before_colon + colon + key.after_colon);
    lemma_stands(doc, a, token + key.before_colon + colon, key.after_colon);
    lemma_stands(doc, a, token + key.before_colon, colon);
    lemma_stands(doc, a, token, key.before_colon);
    assert(doc[c + 0] == colon[0]);
}

/// A scalar is made of bytes that mean nothing to a scan for separators or brackets.
proof fn lemma_scalar_bytes(v: Json)
    requires
        valid(v),
        is_scalar(v),
    ensures
        written(v).len() > 0,
        forall|i: int|
            0 <= i < written(v).len() ==> is_plain(#[trigger] written(v)[i]) && is_primitive(
                written(v)[i],
            ) && !is_whitespace(written(v)[i]),
{
    if let Json::Number(n) = v {
        let t = number_text(n);
        let sign = if n.negative {
            seq![0x2du8]
        } else {
            Seq::empty()
        };
        let fraction = match n.fraction {
            Some(digits) => seq![0x2eu8] + digits,
            None => Seq::empty(),
        };
        let exponent = match n.exponent {
            Some((e, sign, digits)) => seq![e] + (match sign {
                Some(s) => seq![s],
                None => Seq::empty(),
            }) + digits,
            None => Seq::empty(),
        };
        assert(t == sign + n.whole + fraction + exponent);
        assert forall|i: int| 0 <= i < t.len() implies is_plain(#[trigger] t[i]) && is_primitive(
            t[i],
        ) && !is_whitespace(t[i]) by {
            let a = sign.len() as int;
            let b = a + n.whole.len();
            let c = b + fraction.len();
            if i < a {
                assert(t[i] == sign[i]);
            } else if i < b {
                assert(t[i] == n.whole[i - a]);
            } else if i < c {
                assert(t[i] == fraction[i - b]);
                let digits = n.fraction->0;
                if i > b {
                    assert(fraction[i - b] == digits[i - b - 1]);
                }
            } else {
                assert(t[i] == exponent[i - c]);
                let (e, sign, digits) = n.exponent->0;
                let k = i - c - (if sign is Some {
                    2int
                } else {
                    1
                });
                if k >= 0 {
                    assert(exponent[i - c] == digits[k]);
                }
            }
        }
    }
}

/// A value leaves every scan as it was.
proof fn lemma_calm_value(run: Run, doc: Seq<u8>, at: int, v: Json, depth: nat)
    requires
        valid(v),
        stands(doc, at, written(v)),
        run is Nesting ==> depth >= 1,
    ensures
        calm(run, doc, at, at + written(v).len(), depth),
    decreases v,
{
    match v {
        Json::Container(kind, entries, blank) => {
            lemma_container(doc, at, kind, entries, blank);
            let to = at + written(v).len() - 1;
            let d = inner(run, kind, depth);
            if entries.len() == 0 {
                lemma_calm_blank(run, doc, at + 1, blank, d);
            } else {
                lemma_calm_entries(run, doc, at + 1, kind, entries, d);
            }
            lemma_calm_container(run, doc, at, to, kind, depth);
        },
        Json::Text(interior) => lemma_calm_string(run, doc, at, interior, depth),
        _ => {
            lemma_scalar_bytes(v);
            assert forall|i: int| at <= i < at + written(v).len() implies is_plain(
                #[trigger] doc[i],
            ) by {
                assert(doc[at + (i - at)] == written(v)[i - at]);
            }
            lemma_calm_plain(run, doc, at, at + written(v).len(), depth);
        },
    }
}

/// What stands between the opening and the closing byte of a container.
spec fn body(entries: Seq<Entry>, blank: Seq<u8>) -> Seq<u8> {
    if entries.len() == 0 {
        blank
    } else {
        listed(entries)
    }
}

/// The parts of a container.
proof fn lemma_container(
    doc: Seq<u8>,
    at: int,
    kind: ContainerKind,
    entries: Seq<Entry>,
    blank: Seq<u8>,
)
    requires
        stands(doc, at, written(Json::Container(kind, entries, blank))),
    ensures
        ({
            let n = body(entries, blank).len();
            &&& doc[at] == opening(kind)
            &&& stands(doc, at + 1, body(entries, blank))
            &&& written(Json::Container(kind, entries, blank)).len() == n + 2
            &&& doc[at + 1 + n] == closing(kind)
            &&& 0 <= at
            &&& at + 1 + n < doc.len()
        }),
{
    let text = body(entries, blank);
    let open = seq![opening(kind)];
    let close = seq![closing(kind)];
    assert(written(Json::Container(kind, entries, blank)) == open + text + close);
    lemma_stands(doc, at, open + text, close);
    lemma_stands(doc, at, open, text);
    assert(doc[at + 0] == open[0]);
    assert(doc[at + 1 + text.len() + 0] == close[0]);
}

proof fn lemma_calm_entries(
    run: Run,
    doc: Seq<u8>,
    at: int,
    kind: ContainerKind,
    entries: Seq<Entry>,
    depth: nat,
)
    requires
        valid_entries(kind, entries),
        stands(doc, at, listed(entries)),
        depth >= 1,
    ensures
        calm(run, doc, at, at + listed(entries).len(), depth),
    decreases entries,
{
    if entries.len() == 0 {
        lemma_calm_plain(run, doc, at, at, depth);
    } else if entries.len() == 1 {
        lemma_calm_entry(run, doc, at, kind, entries[0], depth);
    } else {
        let init = listed(entries.drop_last());
        let comma = seq![0x2cu8];
        let last = entry_text(entries.last());
        lemma_stands(doc, at, init + comma, last);
        lemma_stands(doc, at, init, comma);
        let c = at + init.len();
        assert(doc[c + 0] == comma[0]);
        lemma_calm_entries(run, doc, at, kind, entries.drop_last(), depth);
        lemma_calm_comma(run, doc, c, depth);
        lemma_calm_join(run, doc, at, c, c + 1, depth);
        lemma_calm_entry(run, doc, c + 1, kind, entries.last(), depth);
        lemma_calm_join(run, doc, at, c + 1, c + 1 + last.len(), depth);
    }
}

proof fn lemma_calm_entry(
    run: Run,
    doc: Seq<u8>,
    at: int,
    kind: ContainerKind,
    e: Entry,
    depth: nat,
)
    requires
        valid_entry(kind, e),
        stands(doc, at, entry_text(e)),
        depth >= 1,
    ensures
        calm(run, doc, at, at + entry_text(e).len(), depth),
    decreases e,
{
    let a = at + lead(e).len();
    let b = a + written(e.value).len();
    lemma_stands(doc, at, lead(e) + written(e.value), e.after);
    lemma_stands(doc, at, lead(e), written(e.value));
    lemma_calm_lead(run, doc, at, kind, e, depth);
    lemma_calm_value(run, doc, a, e.value, depth);
    lemma_calm_join(run, doc, at, a, b, depth);
    lemma_calm_blank(run, doc, b, e.after, depth);
    lemma_calm_join(run, doc, at, b, b + e.after.len(), depth);
}

// ---- where whitespace and values end

/// A run of spaces, tabs, line feeds and carriage returns is passed over: all of it, and
/// nothing else.
pub proof fn law_whitespace_is_passed_over(doc: Seq<u8>, at: int, blank: Seq<u8>)
    requires
        is_blank(blank),
        stands(doc, at, blank),
        at + blank.len() < doc.len() ==> !is_blank(seq![doc[at + blank.len()]]),
    ensures
        ws_end(doc, at) == at + blank.len(),
    decreases blank.len(),
{
    if blank.len() > 0 {
        let rest = blank.skip(1);
        assert(doc[at + 0] == blank[0]);
        assert forall|i: int| 0 <= i < rest.len() implies doc[at + 1 + i] == #[trigger] rest[i] by {
            assert(doc[at + (i + 1)] == blank[i + 1]);
        }
        law_whitespace_is_passed_over(doc, at + 1, rest);
    } else if at < doc.len() {
        let one = seq![doc[at]];
        if is_whitespace(doc[at]) {
            assert forall|i: int| 0 <= i < one.len() implies (#[trigger] one[i] == 0x20 || one[i]
                == 0x09 || one[i] == 0x0a || one[i] == 0x0d) by {
                assert(one[i] == doc[at]);
            }
        }
    }
}

/// Past whitespace stands a byte that is none.
proof fn lemma_blank_end(doc: Seq<u8>, at: int, blank: Seq<u8>)
    requires
        is_blank(blank),
        stands(doc, at, blank),
        at + blank.len() < doc.len(),
        !is_whitespace(doc[at + blank.len()]),
    ensures
        ws_end(doc, at) == at + blank.len(),
{
    let one = seq![doc[at + blank.len()]];
    assert(is_blank(one) ==> is_whitespace(one[0]));
    law_whitespace_is_passed_over(doc, at, blank);
}

/// What a value begins with.
pub proof fn lemma_first_byte(v: Json)
    requires
        valid(v),
    ensures
        written(v).len() > 0,
        !is_whitespace(written(v)[0]),
        written(v)[0] != 0x2c,
        written(v)[0] != 0x5d,
        written(v)[0] != 0x7d,
        match v {
            Json::Container(kind, _, _) => written(v)[0] == opening(kind),
            Json::Text(_) => written(v)[0] == 0x22,
            _ => written(v)[0] != 0x22 && written(v)[0] != 0x7b && written(v)[0] != 0x5b,
        },
{
    if is_scalar(v) {
        lemma_scalar_bytes(v);
    }
}

/// The digits, signs, points and letters of a scalar are passed over: all of them, and
/// nothing that may follow one.
proof fn lemma_scalar_end(doc: Seq<u8>, at: int, to: int)
    requires
        0 <= at <= to <= doc.len(),
        forall|i: int| at <= i < to ==> is_primitive(#[trigger] doc[i]),
        ends(doc, to),
    ensures
        run_end(doc, at, ByteClass::Primitive) == to,
    decreases to - at,
{
    if at < to {
        lemma_scalar_end(doc, at + 1, to);
    }
}

/// A string ends with its closing quote: the first that no backslash escapes.
pub proof fn law_a_string_ends_with_its_quote(doc: Seq<u8>, at: int, interior: Seq<u8>)
    requires
        valid_interior(interior),
        stands(doc, at, string_token(interior)),
    ensures
        doc[at] == 0x22,
        string_answer(doc, at + 1, inside()) == Ok::<int, u64>(at + 1 + interior.len()),
{
    lemma_calm_string(Run::Commas, doc, at, interior, 0);
}

/// A byte that may belong to a number, `true`, `false` or `null`.
pub open spec fn may_belong_to_a_scalar(b: u8) -> bool {
    ||| written(Json::True).contains(b)
    ||| written(Json::False).contains(b)
    ||| written(Json::Null).contains(b)
    ||| seq![
        0x30u8,
        0x31,
        0x32,
        0x33,
        0x34,
        0x35,
        0x36,
        0x37,
        0x38,
        0x39,
        0x2d,
        0x2b,
        0x2e,
        0x65,
        0x45,
    ].contains(b)
}

proof fn lemma_scalar_byte(b: u8)
    ensures
        is_primitive(b) == may_belong_to_a_scalar(b),
{
    let t = written(Json::True);
    let f = written(Json::False);
    let n = written(Json::Null);
    let d = seq![
        0x30u8,
        0x31,
        0x32,
        0x33,
        0x34,
        0x35,
        0x36,
        0x37,
        0x38,
        0x39,
        0x2d,
        0x2b,
        0x2e,
        0x65,
        0x45,
    ];
    assert(t[0] == 0x74 && t[1] == 0x72 && t[2] == 0x75 && t[3] == 0x65);
    assert(f[0] == 0x66 && f[1] == 0x61 && f[2] == 0x6c && f[3] == 0x73 && f[4] == 0x65);
    assert(n[0] == 0x6e && n[1] == 0x75 && n[2] == 0x6c && n[3] == 0x6c);
    assert(d[0] == 0x30 && d[1] == 0x31 && d[2] == 0x32 && d[3] == 0x33 && d[4] == 0x34 && d[5]
        == 0x35 && d[6] == 0x36 && d[7] == 0x37 && d[8] == 0x38 && d[9] == 0x39 && d[10] == 0x2d
        && d[11] == 0x2b && d[12] == 0x2e && d[13] == 0x65 && d[14] == 0x45);
}

/// In any document a value that is neither string nor container is the longest run of bytes
/// that may belong to a number, `true`, `false` or `null`.
pub proof fn law_a_scalar_is_the_longest_run(doc: Seq<u8>, at: int)
    requires
        doc.len() <= u64::MAX,
        0 <= at < doc.len(),
        doc[at] != 0x22,
        doc[at] != 0x7b,
        doc[at] != 0x5b,
    ensures
        value_end(doc, at) matches Ok(end) && {
            &&& at <= end <= doc.len()
            &&& forall|i: int| at <= i < end ==> may_belong_to_a_scalar(#[trigger] doc[i])
            &&& end < doc.len() ==> !may_belong_to_a_scalar(doc[end as int])
        },
{
    let end = run_end(doc, at, ByteClass::Primitive);
    lemma_run_end(doc, at, ByteClass::Primitive);
    assert forall|i: int| at <= i < end implies may_belong_to_a_scalar(#[trigger] doc[i]) by {
        lemma_scalar_byte(doc[i]);
    }
    if end < doc.len() {
        lemma_scalar_byte(doc[end]);
    }
}

/// A value ends where its text does: a number with its last digit, whatever its sign,
/// fraction and exponent; a string with the quote that no backslash escapes; a container
/// with its own closing byte.
pub proof fn law_a_value_ends_with_its_text(doc: Seq<u8>, at: int, v: Json)
    requires
        doc.len() <= u64::MAX,
        valid(v),
        holds(doc, at, v),
    ensures
        value_end(doc, at) == Ok::<u64, TraverseError>((at + written(v).len()) as u64),
{
    lemma_first_byte(v);
    assert(doc[at + 0] == written(v)[0]);
    match v {
        Json::Container(kind, entries, blank) => {
            lemma_container(doc, at, kind, entries, blank);
            let to = at + written(v).len() - 1;
            let run = Run::Nesting(kind);
            if entries.len() == 0 {
                lemma_calm_blank(run, doc, at + 1, blank, 1);
            } else {
                lemma_calm_entries(run, doc, at + 1, kind, entries, 1);
            }
            lemma_nest_split(
                doc,
                at + 1,
                to,
                doc.len() as int,
                Nest { lex: outside(), depth: 1 },
                opening(kind),
                closing(kind),
            );
        },
        Json::Text(interior) => lemma_calm_string(Run::Commas, doc, at, interior, 0),
        _ => {
            lemma_scalar_bytes(v);
            let to = at + written(v).len();
            assert forall|i: int| at <= i < to implies is_primitive(#[trigger] doc[i]) by {
                assert(doc[at + (i - at)] == written(v)[i - at]);
            }
            lemma_scalar_end(doc, at, to);
        },
    }
}

/// Where a scan that began at `from` is said to have come to the end of a document: a whole
/// number of blocks on, the first that lies at the end or past it.
pub open spec fn runs_off(from: int, len: int, at: u64) -> bool {
    &&& (at - from) % 64 == 0
    &&& len <= at < len + 64
}

proof fn lemma_runs_off(from: int, len: int)
    requires
        0 <= from <= len,
        len + 64 <= u64::MAX,
    ensures
        runs_off(from, len, eof_offset(from, len)),
{
}

proof fn lemma_open_interior(doc: Seq<u8>, at: int, s: Seq<u8>)
    requires
        valid_interior(s),
        stands(doc, at, s),
        at + s.len() == doc.len(),
    ensures
        string_run(doc, at, doc.len() as int, inside()) is Open,
    decreases s.len(),
{
    if s.len() > 0 {
        assert(doc[at + 0] == s[0]);
        if s[0] == 0x5c {
            let rest = s.skip(2);
            assert(doc[at + 1] == s[1]);
            assert forall|i: int| 0 <= i < rest.len() implies doc[at + 2 + i]
                == #[trigger] rest[i] by {
                assert(doc[at + (i + 2)] == s[i + 2]);
            }
            lemma_open_interior(doc, at + 2, rest);
            let mid = Lex { escaped: true, inside: true };
            assert(lex_step(inside(), doc[at]) == mid);
            assert(lex_step(mid, doc[at + 1]) == inside());
            assert(string_run(doc, at + 1, doc.len() as int, mid) is Open);
        } else {
            let rest = s.skip(1);
            assert forall|i: int| 0 <= i < rest.len() implies doc[at + 1 + i]
                == #[trigger] rest[i] by {
                assert(doc[at + (i + 1)] == s[i + 1]);
            }
            lemma_open_interior(doc, at + 1, rest);
            assert(lex_step(inside(), doc[at]) == inside());
        }
    }
}

/// A string whose closing quote is missing is reported as cut short.
pub proof fn law_a_string_cut_short_is_reported(doc: Seq<u8>, at: int, s: Seq<u8>)
    requires
        doc.len() + 64 <= u64::MAX,
        valid_interior(s),
        stands(doc, at, seq![0x22u8] + s),
        at + 1 + s.len() == doc.len(),
    ensures
        value_end(doc, at) matches Err(TraverseError::UnexpectedEof(end)) && runs_off(
            at + 1,
            doc.len() as int,
            end,
        ),
{
    lemma_stands(doc, at, seq![0x22u8], s);
    assert(doc[at + 0] == seq![0x22u8][0]);
    lemma_open_interior(doc, at + 1, s);
    lemma_runs_off(at + 1, doc.len() as int);
}

/// A container whose closing byte is missing is reported as cut short, whatever children
/// it has.
pub proof fn law_a_container_cut_short_is_reported(
    doc: Seq<u8>,
    at: int,
    kind: ContainerKind,
    entries: Seq<Entry>,
)
    requires
        doc.len() + 64 <= u64::MAX,
        valid_entries(kind, entries),
        stands(doc, at, seq![opening(kind)] + listed(entries)),
        at + 1 + listed(entries).len() == doc.len(),
    ensures
        value_end(doc, at) matches Err(TraverseError::UnexpectedEof(end)) && runs_off(
            at + 1,
            doc.len() as int,
            end,
        ),
{
    lemma_stands(doc, at, seq![opening(kind)], listed(entries));
    assert(doc[at + 0] == seq![opening(kind)][0]);
    lemma_calm_entries(Run::Nesting(kind), doc, at + 1, kind, entries, 1);
    lemma_runs_off(at + 1, doc.len() as int);
}

/// A value closes what it opens, and holds no separator of what it stands in.
pub proof fn lemma_value_is_level(doc: Seq<u8>, at: int, v: Json)
    requires
        valid(v),
        stands(doc, at, written(v)),
    ensures
        level(doc, at, at + written(v).len()),
{
    lemma_calm_value(Run::Commas, doc, at, v, 0);
}

/// No value ends with a comma.
pub proof fn lemma_last_byte(v: Json)
    requires
        valid(v),
    ensures
        written(v).len() > 0,
        written(v).last() != 0x2c,
{
    if is_scalar(v) {
        lemma_scalar_bytes(v);
    }
}

// ---- the children of a container

/// Where the text of child `k` begins, past the opening byte.
pub open spec fn entry_start(entries: Seq<Entry>, k: int) -> int {
    if k <= 0 {
        0
    } else {
        listed(entries.take(k)).len() as int + 1
    }
}

/// Where the value of child `k` begins, past the opening byte.
pub open spec fn value_start(entries: Seq<Entry>, k: int) -> int {
    entry_start(entries, k) + lead(entries[k]).len()
}

proof fn lemma_listed_prefix(doc: Seq<u8>, at: int, entries: Seq<Entry>, m: int)
    requires
        stands(doc, at, listed(entries)),
        0 < m <= entries.len(),
    ensures
        stands(doc, at, listed(entries.take(m))),
        m < entries.len() ==> at + listed(entries.take(m)).len() < doc.len() && doc[at + listed(
            entries.take(m),
        ).len()] == 0x2c,
    decreases entries.len(),
{
    if m == entries.len() {
        assert(entries.take(m) =~= entries);
    } else {
        let init = entries.drop_last();
        let comma = seq![0x2cu8];
        lemma_stands(doc, at, listed(init) + comma, entry_text(entries.last()));
        lemma_stands(doc, at, listed(init), comma);
        assert(init.take(m) =~= entries.take(m));
        lemma_listed_prefix(doc, at, init, m);
        if m == init.len() {
            assert(entries.take(m) =~= init);
            assert(doc[at + listed(init).len() + 0] == comma[0]);
        }
    }
}

/// The text of a child stands where it begins, and a comma or the end of the children
/// follows.
proof fn lemma_entry_stands(doc: Seq<u8>, at: int, entries: Seq<Entry>, k: int)
    requires
        stands(doc, at, listed(entries)),
        0 <= k < entries.len(),
    ensures
        ({
            let e = entries[k];
            let from = at + entry_start(entries, k);
            let to = from + entry_text(e).len();
            &&& stands(doc, from, lead(e))
            &&& stands(doc, from + lead(e).len(), written(e.value))
            &&& stands(doc, from + lead(e).len() + written(e.value).len(), e.after)
            &&& to == from + lead(e).len() + written(e.value).len() + e.after.len()
            &&& if k + 1 < entries.len() {
                &&& to < doc.len()
                &&& doc[to] == 0x2c
                &&& to + 1 == at + entry_start(entries, k + 1)
            } else {
                to == at + listed(entries).len()
            }
        }),
{
    let e = entries[k];
    let from = at + entry_start(entries, k);
    let upto = entries.take(k + 1);
    lemma_listed_prefix(doc, at, entries, k + 1);
    assert(upto.last() == e);
    if k > 0 {
        assert(upto.drop_last() =~= entries.take(k));
        let init = listed(entries.take(k));
        assert(listed(upto) == init + seq![0x2cu8] + entry_text(e));
        lemma_stands(doc, at, init + seq![0x2cu8], entry_text(e));
    } else {
        assert(upto[0] == e);
        assert(listed(upto) == entry_text(e));
    }
    assert(entry_start(entries, k) + entry_text(e).len() == listed(upto).len());
    lemma_stands(doc, from, lead(e) + written(e.value), e.after);
    lemma_stands(doc, from, lead(e), written(e.value));
    if k + 1 == entries.len() {
        assert(upto =~= entries);
    }
}

/// A container holds no fewer bytes than children.
pub proof fn lemma_children_have_bytes(kind: ContainerKind, entries: Seq<Entry>)
    requires
        valid_entries(kind, entries),
    ensures
        entries.len() <= listed(entries).len(),
    decreases entries.len(),
{
    if entries.len() > 0 {
        lemma_children_have_bytes(kind, entries.drop_last());
        lemma_valid_entry(kind, entries, entries.len() - 1);
        lemma_first_byte(entries.last().value);
        assert(entry_text(entries.last()).len() > 0);
    }
}

/// A cursor stands before child `k` of the container that opens at `open`; past the last
/// child it stands at the closing byte.
pub open spec fn cursor_before(
    open: int,
    kind: ContainerKind,
    entries: Seq<Entry>,
    k: int,
    cursor: ContainerCursor,
) -> bool {
    &&& cursor.kind == kind
    &&& kind is Array ==> cursor.index == k
    &&& cursor.next_offset == open + 1 + (if k < entries.len() || k == 0 {
        entry_start(entries, k)
    } else {
        listed(entries).len() as int
    })
}

/// Child `k` of the container that opens at `open`, as a cursor gives it.
pub open spec fn child_of(
    open: int,
    kind: ContainerKind,
    entries: Seq<Entry>,
    k: int,
) -> ChildEntry {
    let e = entries[k];
    let start = open + 1 + value_start(entries, k);
    let key = open + 1 + entry_start(entries, k) + e.before.len();
    ChildEntry {
        key: match kind {
            ContainerKind::Object => ChildKey::Member {
                start: key as u64,
                close: (key + 1 + e.key->0.interior.len()) as u64,
            },
            ContainerKind::Array => ChildKey::Index(k as usize),
        },
        location: ValueLocation {
            start: start as u64,
            end: (start + written(e.value).len()) as u64,
        },
    }
}

/// The value of a child stands in the document, and ends there.
pub proof fn lemma_child_holds(
    doc: Seq<u8>,
    open: int,
    kind: ContainerKind,
    entries: Seq<Entry>,
    blank: Seq<u8>,
    k: int,
)
    requires
        valid(Json::Container(kind, entries, blank)),
        stands(doc, open, written(Json::Container(kind, entries, blank))),
        0 <= k < entries.len(),
    ensures
        holds(doc, open + 1 + value_start(entries, k), entries[k].value),
        valid(entries[k].value),
        ({
            let to = open + 1 + value_start(entries, k) + written(entries[k].value).len();
            let next = to + entries[k].after.len();
            &&& stands(doc, to, entries[k].after)
            &&& next < doc.len()
            &&& doc[next] == (if k + 1 < entries.len() {
                0x2c
            } else {
                closing(kind)
            })
            &&& ws_end(doc, to) == next
            &&& next == open + 1 + (if k + 1 < entries.len() {
                entry_start(entries, k + 1) - 1
            } else {
                listed(entries).len() as int
            })
        }),
{
    let e = entries[k];
    lemma_valid_entry(kind, entries, k);
    lemma_container(doc, open, kind, entries, blank);
    lemma_entry_stands(doc, open + 1, entries, k);
    let to = open + 1 + value_start(entries, k) + written(e.value).len();
    lemma_blank_end(doc, to, e.after);
    if e.after.len() > 0 {
        assert(doc[to + 0] == e.after[0]);
    }
}

/// A cursor over a container gives its children one after the other: each with its own
/// key, or its own index, and with the whole of its value, and then comes to the end.
pub proof fn law_a_cursor_gives_the_children(
    doc: Seq<u8>,
    open: int,
    kind: ContainerKind,
    entries: Seq<Entry>,
    blank: Seq<u8>,
    k: int,
    cursor: ContainerCursor,
)
    requires
        doc.len() <= u64::MAX,
        entries.len() <= usize::MAX,
        valid(Json::Container(kind, entries, blank)),
        stands(doc, open, written(Json::Container(kind, entries, blank))),
        0 <= k <= entries.len(),
        cursor_before(open, kind, entries, k, cursor),
    ensures
        match child_step(doc, cursor) {
            Ok((Some(child), next)) => {
                &&& k < entries.len()
                &&& child == child_of(open, kind, entries, k)
                &&& cursor_before(open, kind, entries, k + 1, next)
                &&& next.next_offset > cursor.next_offset
            },
            Ok((None, end)) => {
                &&& k == entries.len()
                &&& end.next_offset + 1 == open + written(
                    Json::Container(kind, entries, blank),
                ).len()
            },
            Err(_) => false,
        },
{
    let v = Json::Container(kind, entries, blank);
    let at = cursor.next_offset as int;
    lemma_container(doc, open, kind, entries, blank);
    if k == entries.len() {
        let close = open + 1 + body(entries, blank).len();
        if k == 0 {
            lemma_blank_end(doc, at, blank);
        } else {
            lemma_blank_end(doc, at, Seq::empty());
        }
    } else {
        let e = entries[k];
        lemma_child_holds(doc, open, kind, entries, blank, k);
        lemma_valid_entry(kind, entries, k);
        lemma_entry_stands(doc, open + 1, entries, k);
        lemma_first_byte(e.value);
        let start = open + 1 + value_start(entries, k);
        law_a_value_ends_with_its_text(doc, start, e.value);
        assert(doc[start + 0] == written(e.value)[0]);
        match kind {
            ContainerKind::Object => {
                let key = e.key->0;
                lemma_lead(doc, at, e);
                let a = at + e.before.len();
                let b = a + key.interior.len() + 2;
                let c = b + key.before_colon.len();
                lemma_calm_string(Run::Commas, doc, a, key.interior, 0);
                lemma_blank_end(doc, at, e.before);
                lemma_blank_end(doc, b, key.before_colon);
                lemma_blank_end(doc, c + 1, key.after_colon);
                assert(entry_key(doc, at) == EntryKey::Key(a, b - 1));
                assert(member_value(doc, b - 1) == Ok::<int, TraverseError>(start));
            },
            ContainerKind::Array => {
                assert(lead(e) =~= e.before);
                lemma_blank_end(doc, at, e.before);
            },
        }
    }
}

/// The key of a child stands where a cursor says.
pub proof fn lemma_key_stands(
    doc: Seq<u8>,
    open: int,
    entries: Seq<Entry>,
    blank: Seq<u8>,
    k: int,
)
    requires
        doc.len() <= u64::MAX,
        valid(Json::Container(ContainerKind::Object, entries, blank)),
        stands(doc, open, written(Json::Container(ContainerKind::Object, entries, blank))),
        0 <= k < entries.len(),
    ensures
        child_of(open, ContainerKind::Object, entries, k).key matches ChildKey::Member {
            start,
            close,
        } && {
            &&& start < close < doc.len()
            &&& doc.subrange(start as int, close + 1) == string_token(
                entries[k].key->0.interior,
            )
            &&& doc.subrange(start + 1, close as int) == entries[k].key->0.interior
        },
{
    let e = entries[k];
    lemma_valid_entry(ContainerKind::Object, entries, k);
    lemma_container(doc, open, ContainerKind::Object, entries, blank);
    lemma_entry_stands(doc, open + 1, entries, k);
    let at = open + 1 + entry_start(entries, k);
    lemma_lead(doc, at, e);
    let a = at + e.before.len();
    let s = e.key->0.interior;
    let token = string_token(s);
    assert forall|i: int| 0 <= i < token.len() implies doc.subrange(a, a + token.len())[i]
        == token[i] by {
        assert(doc[a + i] == token[i]);
    }
    assert(doc.subrange(a, a + token.len()) =~= token);
    assert forall|i: int| 0 <= i < s.len() implies doc.subrange(a + 1, a + 1 + s.len())[i]
        == s[i] by {
        assert(doc[a + (i + 1)] == token[i + 1]);
    }
    assert(doc.subrange(a + 1, a + 1 + s.len()) =~= s);
}

} // verus!
