//! JSON texts, as their grammar has them: values, and the whitespace between their
//! tokens.

use vstd::prelude::*;
use vstd::utf8::{encode_utf8, valid_utf8};

use crate::keys::json_string;
use crate::path::Step;
use crate::resolve::ContainerKind;

verus! {

/// A number: a sign, whole digits, and where they are there the digits of a fraction and
/// the letter, the sign and the digits of an exponent.
pub struct Number {
    pub negative: bool,
    pub whole: Seq<u8>,
    pub fraction: Option<Seq<u8>>,
    pub exponent: Option<(u8, Option<u8>, Seq<u8>)>,
}

/// A member's key: what stands between its quotes, and the whitespace before and after
/// the colon.
pub struct Key {
    pub interior: Seq<u8>,
    pub before_colon: Seq<u8>,
    pub after_colon: Seq<u8>,
}

/// A child of a container: its key if it has one, its value, and the whitespace around.
pub struct Entry {
    pub before: Seq<u8>,
    pub key: Option<Key>,
    pub value: Json,
    pub after: Seq<u8>,
}

/// A value. A string is what stands between its quotes; a container without children may
/// hold whitespace.
pub enum Json {
    Null,
    True,
    False,
    Number(Number),
    Text(Seq<u8>),
    Container(ContainerKind, Seq<Entry>, Seq<u8>),
}

// ---- in writing

pub open spec fn number_text(n: Number) -> Seq<u8> {
    (if n.negative {
        seq![0x2du8]
    } else {
        Seq::empty()
    }) + n.whole + (match n.fraction {
        Some(digits) => seq![0x2eu8] + digits,
        None => Seq::empty(),
    }) + (match n.exponent {
        Some((e, sign, digits)) => seq![e] + (match sign {
            Some(s) => seq![s],
            None => Seq::empty(),
        }) + digits,
        None => Seq::empty(),
    })
}

/// A string between its quotes.
pub open spec fn string_token(interior: Seq<u8>) -> Seq<u8> {
    seq![0x22u8] + interior + seq![0x22u8]
}

/// What stands before the value of a child.
pub open spec fn lead(e: Entry) -> Seq<u8> {
    e.before + (match e.key {
        Some(key) => string_token(key.interior) + key.before_colon + seq![0x3au8]
            + key.after_colon,
        None => Seq::empty(),
    })
}

pub open spec fn opening(kind: ContainerKind) -> u8 {
    match kind {
        ContainerKind::Object => 0x7b,
        ContainerKind::Array => 0x5b,
    }
}

pub open spec fn closing(kind: ContainerKind) -> u8 {
    match kind {
        ContainerKind::Object => 0x7d,
        ContainerKind::Array => 0x5d,
    }
}

/// A value in writing.
pub open spec fn written(v: Json) -> Seq<u8>
    decreases v,
{
    match v {
        Json::Null => seq![0x6eu8, 0x75, 0x6c, 0x6c],
        Json::True => seq![0x74u8, 0x72, 0x75, 0x65],
        Json::False => seq![0x66u8, 0x61, 0x6c, 0x73, 0x65],
        Json::Number(n) => number_text(n),
        Json::Text(interior) => string_token(interior),
        Json::Container(kind, entries, blank) => seq![opening(kind)] + (if entries.len() == 0 {
            blank
        } else {
            listed(entries)
        }) + seq![closing(kind)],
    }
}

/// Children in writing, a comma between any two.
pub open spec fn listed(entries: Seq<Entry>) -> Seq<u8>
    decreases entries,
{
    if entries.len() == 0 {
        Seq::empty()
    } else if entries.len() == 1 {
        entry_text(entries[0])
    } else {
        listed(entries.drop_last()) + seq![0x2cu8] + entry_text(entries.last())
    }
}

pub open spec fn entry_text(e: Entry) -> Seq<u8>
    decreases e,
{
    lead(e) + written(e.value) + e.after
}

/// Texts with a comma between any two.
pub open spec fn comma_joined(parts: Seq<Seq<u8>>) -> Seq<u8>
    decreases parts.len(),
{
    if parts.len() == 0 {
        Seq::empty()
    } else if parts.len() == 1 {
        parts[0]
    } else {
        comma_joined(parts.drop_last()) + seq![0x2cu8] + parts.last()
    }
}

/// The number that decimal digits spell, the most significant first.
pub open spec fn digits_value(digits: Seq<u8>) -> int
    decreases digits.len(),
{
    if digits.len() == 0 {
        0
    } else {
        digits_value(digits.drop_last()) * 10 + (digits.last() - 0x30)
    }
}

/// A natural number in decimal: its digits, without a zero in front of others.
pub open spec fn is_decimal(digits: Seq<u8>, n: int) -> bool {
    &&& is_digits(digits)
    &&& digits[0] == 0x30 ==> digits.len() == 1
    &&& digits_value(digits) == n
}

/// A number has one decimal text.
pub proof fn lemma_one_decimal(a: Seq<u8>, b: Seq<u8>, n: int)
    requires
        is_decimal(a, n),
        is_decimal(b, n),
    ensures
        a == b,
    decreases a.len(),
{
    lemma_digits_value(a);
    lemma_digits_value(b);
    let x = a.drop_last();
    let y = b.drop_last();
    assert(0x30 <= a[a.len() - 1] <= 0x39 && 0x30 <= b[b.len() - 1] <= 0x39);
    assert(digits_value(x) == digits_value(y) && a.last() == b.last());
    if x.len() > 0 {
        assert(x[0] == a[0]);
        lemma_digits_value(x);
    }
    if y.len() > 0 {
        assert(y[0] == b[0]);
        lemma_digits_value(y);
    }
    if x.len() > 0 && y.len() > 0 {
        lemma_one_decimal(x, y, digits_value(x));
    }
    assert(a =~= x.push(a.last()));
    assert(b =~= y.push(b.last()));
}

/// Digits spell no negative number, and zero only where all of them are zero.
proof fn lemma_digits_value(digits: Seq<u8>)
    requires
        is_digits(digits),
    ensures
        digits_value(digits) >= 0,
        digits[0] != 0x30 ==> digits_value(digits) > 0,
        forall|i: int| 0 <= i < digits.len() - 1 ==> 0x30 <= #[trigger] digits.drop_last()[i]
            <= 0x39,
    decreases digits.len(),
{
    let init = digits.drop_last();
    assert(0x30 <= digits[digits.len() - 1] <= 0x39);
    assert(digits_value(digits) == digits_value(init) * 10 + (digits[digits.len() - 1] - 0x30));
    if init.len() > 0 {
        assert(init[0] == digits[0]);
        assert forall|i: int| 0 <= i < init.len() implies 0x30 <= #[trigger] init[i] <= 0x39 by {
            assert(init[i] == digits[i]);
        }
        lemma_digits_value(init);
    }
}

// ---- what is valid

/// Space, tab, line feed and carriage return.
pub open spec fn is_blank(s: Seq<u8>) -> bool {
    forall|i: int|
        0 <= i < s.len() ==> (#[trigger] s[i] == 0x20 || s[i] == 0x09 || s[i] == 0x0a || s[i]
            == 0x0d)
}

/// One decimal digit or more.
pub open spec fn is_digits(s: Seq<u8>) -> bool {
    &&& s.len() > 0
    &&& forall|i: int| 0 <= i < s.len() ==> 0x30 <= #[trigger] s[i] <= 0x39
}

pub open spec fn valid_number(n: Number) -> bool {
    &&& is_digits(n.whole)
    &&& n.whole[0] == 0x30 ==> n.whole.len() == 1
    &&& n.fraction matches Some(digits) ==> is_digits(digits)
    &&& n.exponent matches Some((e, sign, digits)) ==> {
        &&& e == 0x65 || e == 0x45
        &&& sign matches Some(s) ==> s == 0x2b || s == 0x2d
        &&& is_digits(digits)
    }
}

/// What may stand between two quotes: bytes that are neither a quote nor a backslash, and
/// pairs of a backslash and any byte.
pub open spec fn valid_interior(s: Seq<u8>) -> bool
    decreases s.len(),
{
    if s.len() == 0 {
        true
    } else if s[0] == 0x5c {
        s.len() > 1 && valid_interior(s.skip(2))
    } else {
        s[0] != 0x22 && valid_interior(s.skip(1))
    }
}

/// A key that spells a name: text, if it has no escapes.
pub open spec fn valid_key(key: Key) -> bool {
    &&& valid_interior(key.interior)
    &&& is_blank(key.before_colon)
    &&& is_blank(key.after_colon)
    &&& if key.interior.contains(0x5c) {
        json_string(string_token(key.interior)) is Some
    } else {
        valid_utf8(key.interior)
    }
}

pub open spec fn valid(v: Json) -> bool
    decreases v,
{
    match v {
        Json::Number(n) => valid_number(n),
        Json::Text(interior) => valid_interior(interior),
        Json::Container(kind, entries, blank) => {
            &&& is_blank(blank)
            &&& valid_entries(kind, entries)
        },
        _ => true,
    }
}

pub open spec fn valid_entries(kind: ContainerKind, entries: Seq<Entry>) -> bool
    decreases entries,
{
    entries.len() > 0 ==> {
        &&& valid_entries(kind, entries.drop_last())
        &&& valid_entry(kind, entries.last())
    }
}

/// A child of a container of that kind: only those of an object have keys.
pub open spec fn valid_entry(kind: ContainerKind, e: Entry) -> bool
    decreases e,
{
    &&& is_blank(e.before)
    &&& is_blank(e.after)
    &&& e.key is Some <==> kind is Object
    &&& e.key matches Some(key) ==> valid_key(key)
    &&& valid(e.value)
}

/// Each child of a valid container is a valid child.
pub proof fn lemma_valid_entry(kind: ContainerKind, entries: Seq<Entry>, k: int)
    requires
        valid_entries(kind, entries),
        0 <= k < entries.len(),
    ensures
        valid_entry(kind, entries[k]),
        valid_entries(kind, entries.take(k)),
        valid_entries(kind, entries.take(k + 1)),
    decreases entries.len(),
{
    let n = entries.len() as int;
    if k < n - 1 {
        lemma_valid_entry(kind, entries.drop_last(), k);
        assert(entries.drop_last().take(k) =~= entries.take(k));
        assert(entries.drop_last().take(k + 1) =~= entries.take(k + 1));
    } else {
        assert(entries.take(k) =~= entries.drop_last());
        assert(entries.take(k + 1) =~= entries);
    }
}

/// The text stands in the document from `at` on.
pub open spec fn stands(doc: Seq<u8>, at: int, text: Seq<u8>) -> bool {
    &&& 0 <= at
    &&& at + text.len() <= doc.len()
    &&& forall|i: int| 0 <= i < text.len() ==> doc[at + i] == #[trigger] text[i]
}

/// A text stands in the document where its parts do, one after the other.
pub proof fn lemma_stands(doc: Seq<u8>, at: int, a: Seq<u8>, b: Seq<u8>)
    ensures
        stands(doc, at, a + b) <==> stands(doc, at, a) && stands(doc, at + a.len(), b),
{
    let t = a + b;
    if stands(doc, at, t) {
        assert forall|i: int| 0 <= i < a.len() implies doc[at + i] == #[trigger] a[i] by {
            assert(t[i] == a[i]);
        }
        assert forall|i: int| 0 <= i < b.len() implies doc[at + a.len() + i] == #[trigger] b[i] by {
            assert(t[a.len() + i] == b[i]);
            assert(doc[at + (a.len() + i)] == t[a.len() + i]);
        }
    }
    if stands(doc, at, a) && stands(doc, at + a.len(), b) {
        assert forall|i: int| 0 <= i < t.len() implies doc[at + i] == #[trigger] t[i] by {
            if i < a.len() {
                assert(doc[at + i] == a[i]);
            } else {
                assert(doc[at + a.len() + (i - a.len())] == b[i - a.len()]);
            }
        }
    }
}

/// A number, `true`, `false` or `null`.
pub open spec fn is_scalar(v: Json) -> bool {
    !(v is Text) && !(v is Container)
}

/// A value may end at `at`: the document does, or whitespace, a comma or a closing byte
/// follows.
pub open spec fn ends(doc: Seq<u8>, at: int) -> bool {
    at < doc.len() ==> {
        let b = doc[at];
        b == 0x20 || b == 0x09 || b == 0x0a || b == 0x0d || b == 0x2c || b == 0x5d || b == 0x7d
    }
}

/// The value stands in the document from `at` on, and ends there: a scalar is not followed
/// by what could belong to it.
pub open spec fn holds(doc: Seq<u8>, at: int, v: Json) -> bool {
    &&& stands(doc, at, written(v))
    &&& is_scalar(v) ==> ends(doc, at + written(v).len())
}

// ---- what a value holds

/// Whether a key spells a name.
pub open spec fn spells(interior: Seq<u8>, name: Seq<char>) -> bool {
    if interior.contains(0x5c) {
        json_string(string_token(interior)) == Some(name)
    } else {
        interior == encode_utf8(name)
    }
}

/// The first child whose key spells the name.
pub open spec fn first_named(entries: Seq<Entry>, name: Seq<char>) -> Option<int>
    decreases entries.len(),
{
    if entries.len() == 0 {
        None
    } else {
        match first_named(entries.drop_last(), name) {
            Some(k) => Some(k),
            None => if entries.last().key matches Some(key) && spells(key.interior, name) {
                Some(entries.len() - 1)
            } else {
                None
            },
        }
    }
}

/// The child of a container that a step names.
pub open spec fn named(kind: ContainerKind, entries: Seq<Entry>, step: Step) -> Option<int> {
    match (kind, step) {
        (ContainerKind::Array, Step::Element(index)) => if index < entries.len() {
            Some(index as int)
        } else {
            None
        },
        (ContainerKind::Object, Step::Member(name)) => first_named(entries, name),
        _ => None,
    }
}

/// What a path comes to.
pub enum Reached {
    Value(Json),
    /// A container on the way has no such child.
    Nothing,
    /// The step at that place was to lead into a value that is no container.
    Scalar(int),
    /// The step at that place names a child as only the other kind of container has it.
    Mismatch(int),
}

/// What the steps of a path from `seg` on lead to in a value.
pub open spec fn reached(v: Json, path: Seq<Step>, seg: int) -> Reached
    decreases v,
{
    if seg >= path.len() {
        Reached::Value(v)
    } else {
        match v {
            Json::Container(kind, entries, _) => if kind is Array != path[seg] is Element {
                Reached::Mismatch(seg)
            } else {
                match named(kind, entries, path[seg]) {
                    Some(k) => if 0 <= k < entries.len() {
                        reached(entries[k].value, path, seg + 1)
                    } else {
                        Reached::Nothing
                    },
                    None => Reached::Nothing,
                }
            },
            _ => Reached::Scalar(seg),
        }
    }
}

/// The child that is named is there; before the first of a name there is none of it.
pub proof fn lemma_first_named(entries: Seq<Entry>, name: Seq<char>)
    ensures
        match first_named(entries, name) {
            Some(k) => {
                &&& 0 <= k < entries.len()
                &&& entries[k].key matches Some(key) && spells(key.interior, name)
                &&& forall|j: int|
                    0 <= j < k ==> ((#[trigger] entries[j]).key matches Some(key) ==> !spells(
                        key.interior,
                        name,
                    ))
            },
            None => forall|j: int|
                0 <= j < entries.len() ==> ((#[trigger] entries[j]).key matches Some(key)
                    ==> !spells(key.interior, name)),
        },
    decreases entries.len(),
{
    if entries.len() > 0 {
        let init = entries.drop_last();
        lemma_first_named(init, name);
        assert(forall|j: int| 0 <= j < init.len() ==> init[j] == #[trigger] entries[j]);
    }
}

} // verus!
