//! What the scans compute, byte by byte.

use vstd::prelude::*;

use crate::bits::{bit, lemma_ones_from_zero, ones_from};

verus! {

/// `"`
pub const QUOTE: u8 = 0x22;

/// `\`
pub const BACKSLASH: u8 = 0x5c;

/// `,`
pub const COMMA: u8 = 0x2c;

/// `:`
pub const COLON: u8 = 0x3a;

/// `{`
pub const LBRACE: u8 = 0x7b;

/// `}`
pub const RBRACE: u8 = 0x7d;

/// `[`
pub const LBRACKET: u8 = 0x5b;

/// `]`
pub const RBRACKET: u8 = 0x5d;

/// The padding of a block past the end of the document.
pub const SPACE: u8 = 0x20;

/// What a scanner knows between two bytes: whether the next byte is escaped by
/// a backslash before it, and whether it lies inside a string literal.
pub struct Lex {
    pub escaped: bool,
    pub inside: bool,
}

/// Outside any string, nothing escaped.
pub open spec fn outside() -> Lex {
    Lex { escaped: false, inside: false }
}

/// One byte past an opening quote.
pub open spec fn inside() -> Lex {
    Lex { escaped: false, inside: true }
}

/// The state after byte `b`. A backslash escapes the next byte unless it is
/// escaped itself; a quote that is not escaped opens or closes a string.
pub open spec fn lex_step(s: Lex, b: u8) -> Lex {
    Lex {
        escaped: !s.escaped && b == BACKSLASH,
        inside: s.inside != (b == QUOTE && !s.escaped),
    }
}

/// The state after the bytes `at..to`, entered in state `s`.
pub open spec fn lex(bytes: Seq<u8>, at: int, to: int, s: Lex) -> Lex
    decreases to - at,
{
    if at >= to {
        s
    } else {
        lex_step(lex(bytes, at, to - 1, s), bytes[to - 1])
    }
}

/// Lexing in two parts is lexing in one.
pub proof fn lemma_lex_split(bytes: Seq<u8>, at: int, mid: int, to: int, s: Lex)
    requires
        at <= mid <= to,
    ensures
        lex(bytes, at, to, s) == lex(bytes, mid, to, lex(bytes, at, mid, s)),
    decreases to - mid,
{
    if mid < to {
        lemma_lex_split(bytes, at, mid, to - 1, s);
    }
}

/// Where a scan of `blocks of 64` bytes from `at` stands once it has passed the
/// end of a document of `len` bytes.
pub open spec fn eof_offset(at: int, len: int) -> u64 {
    let past = if at >= len {
        at
    } else {
        at + ((len - at + 63) / 64) * 64
    };
    if past <= u64::MAX {
        past as u64
    } else {
        u64::MAX
    }
}

// ---- runs over a class of bytes

/// The bytes that a run passes over.
#[derive(Clone, Copy, Debug, PartialEq, Eq, Structural)]
pub enum ByteClass {
    Whitespace,
    Primitive,
}

/// Space, tab, line feed, carriage return.
pub open spec fn is_whitespace(b: u8) -> bool {
    b == 0x20 || b == 0x09 || b == 0x0a || b == 0x0d
}

/// A byte of a number, `true`, `false` or `null`: a digit or one of
/// `-+.eEtrufalsn`.
pub open spec fn is_primitive(b: u8) -> bool {
    ||| 0x30 <= b <= 0x39
    ||| b == 0x2d || b == 0x2b || b == 0x2e
    ||| b == 0x65 || b == 0x45 || b == 0x74 || b == 0x72 || b == 0x75
    ||| b == 0x66 || b == 0x61 || b == 0x6c || b == 0x73 || b == 0x6e
}

pub open spec fn in_class(class: ByteClass, b: u8) -> bool {
    match class {
        ByteClass::Whitespace => is_whitespace(b),
        ByteClass::Primitive => is_primitive(b),
    }
}

/// The first offset from `at` on whose byte is not of the class, or the end of
/// the document; `at` itself past the end.
pub open spec fn run_end(doc: Seq<u8>, at: int, class: ByteClass) -> int
    decreases doc.len() - at,
{
    if at >= doc.len() || !in_class(class, doc[at]) {
        at
    } else {
        run_end(doc, at + 1, class)
    }
}

/// The first offset from `at` on that is not whitespace.
pub open spec fn ws_end(doc: Seq<u8>, at: int) -> int {
    run_end(doc, at, ByteClass::Whitespace)
}

pub proof fn lemma_run_end(doc: Seq<u8>, at: int, class: ByteClass)
    ensures
        at <= run_end(doc, at, class),
        at <= doc.len() ==> run_end(doc, at, class) <= doc.len(),
        at >= doc.len() ==> run_end(doc, at, class) == at,
        run_end(doc, at, class) < doc.len() ==> !in_class(class, doc[run_end(doc, at, class)]),
        forall|i: int| at <= i < run_end(doc, at, class) ==> in_class(class, #[trigger] doc[i]),
    decreases doc.len() - at,
{
    if at < doc.len() && in_class(class, doc[at]) {
        lemma_run_end(doc, at + 1, class);
    }
}

// ---- strings

/// How far a scan for the end of a string got.
pub enum StringRun {
    /// The closing quote is at this offset.
    Closed(int),
    /// No closing quote so far.
    Open(Lex),
}

/// Scan the bytes `at..to` for the quote that closes the string.
pub open spec fn string_run(bytes: Seq<u8>, at: int, to: int, s: Lex) -> StringRun
    decreases to - at,
{
    if at >= to {
        StringRun::Open(s)
    } else {
        let n = lex_step(s, bytes[at]);
        if n.inside {
            string_run(bytes, at + 1, to, n)
        } else {
            StringRun::Closed(at)
        }
    }
}

/// Scanning in two parts is scanning in one.
pub proof fn lemma_string_split(bytes: Seq<u8>, at: int, mid: int, to: int, s: Lex)
    requires
        at <= mid <= to,
    ensures
        string_run(bytes, at, to, s) == (match string_run(bytes, at, mid, s) {
            StringRun::Closed(k) => StringRun::Closed(k),
            StringRun::Open(m) => string_run(bytes, mid, to, m),
        }),
    decreases mid - at,
{
    if at < mid {
        let n = lex_step(s, bytes[at]);
        if n.inside {
            lemma_string_split(bytes, at + 1, mid, to, n);
        }
    }
}

/// The same bytes `d` further on are scanned alike.
pub proof fn lemma_string_shift(a: Seq<u8>, b: Seq<u8>, at: int, to: int, d: int, s: Lex)
    requires
        forall|i: int| at <= i < to ==> #[trigger] a[i] == b[i + d],
    ensures
        string_run(b, at + d, to + d, s) == (match string_run(a, at, to, s) {
            StringRun::Closed(k) => StringRun::Closed(k + d),
            StringRun::Open(m) => StringRun::Open(m),
        }),
    decreases to - at,
{
    if at < to {
        assert(a[at] == b[at + d]);
        lemma_string_shift(a, b, at + 1, to, d, lex_step(s, a[at]));
    }
}

/// While every byte lies inside the string, the scan goes on.
pub proof fn lemma_string_quiet(bytes: Seq<u8>, at: int, mid: int, to: int, s: Lex)
    requires
        at <= mid <= to,
        forall|i: int| at <= i < mid ==> #[trigger] lex(bytes, at, i + 1, s).inside,
    ensures
        string_run(bytes, at, to, s) == string_run(bytes, mid, to, lex(bytes, at, mid, s)),
    decreases mid - at,
{
    if at < mid {
        let n = lex_step(s, bytes[at]);
        assert(lex(bytes, at, at, s) == s);
        assert(lex(bytes, at, at + 1, s) == n);
        assert forall|i: int| at + 1 <= i < mid implies #[trigger] lex(
            bytes,
            at + 1,
            i + 1,
            n,
        ).inside by {
            lemma_lex_split(bytes, at, at + 1, i + 1, s);
            assert(lex(bytes, at, i + 1, s).inside);
        }
        lemma_lex_split(bytes, at, at + 1, mid, s);
        lemma_string_quiet(bytes, at + 1, mid, to, n);
    }
}

/// A scan that does not end leaves the state that lexing its bytes leaves.
pub proof fn lemma_string_open(bytes: Seq<u8>, at: int, to: int, s: Lex)
    requires
        at <= to,
        string_run(bytes, at, to, s) is Open,
    ensures
        string_run(bytes, at, to, s) == StringRun::Open(lex(bytes, at, to, s)),
    decreases to - at,
{
    if at < to {
        lemma_string_open(bytes, at + 1, to, lex_step(s, bytes[at]));
        assert(lex(bytes, at, at, s) == s);
        lemma_lex_split(bytes, at, at + 1, to, s);
    }
}

// ---- containers

/// What a scan for the end of a container knows between two bytes.
pub struct Nest {
    pub lex: Lex,
    /// How many containers of the kind are open.
    pub depth: nat,
}

/// How far a scan for the end of a container got.
pub enum NestRun {
    /// The offset just past the closing byte.
    Closed(int),
    Open(Nest),
}

/// Scan the bytes `at..to` for the byte that closes the container, counting the
/// `open` and `close` bytes that lie outside strings.
pub open spec fn nest_run(bytes: Seq<u8>, at: int, to: int, s: Nest, open: u8, close: u8) -> NestRun
    decreases to - at,
{
    if at >= to {
        NestRun::Open(s)
    } else {
        let n = lex_step(s.lex, bytes[at]);
        if !n.inside && bytes[at] == open {
            nest_run(bytes, at + 1, to, Nest { lex: n, depth: s.depth + 1 }, open, close)
        } else if !n.inside && bytes[at] == close {
            if s.depth <= 1 {
                NestRun::Closed(at + 1)
            } else {
                nest_run(
                    bytes,
                    at + 1,
                    to,
                    Nest { lex: n, depth: (s.depth - 1) as nat },
                    open,
                    close,
                )
            }
        } else {
            nest_run(bytes, at + 1, to, Nest { lex: n, depth: s.depth }, open, close)
        }
    }
}

pub proof fn lemma_nest_split(
    bytes: Seq<u8>,
    at: int,
    mid: int,
    to: int,
    s: Nest,
    open: u8,
    close: u8,
)
    requires
        at <= mid <= to,
    ensures
        nest_run(bytes, at, to, s, open, close) == (match nest_run(
            bytes,
            at,
            mid,
            s,
            open,
            close,
        ) {
            NestRun::Closed(k) => NestRun::Closed(k),
            NestRun::Open(m) => nest_run(bytes, mid, to, m, open, close),
        }),
    decreases mid - at,
{
    if at < mid {
        let n = lex_step(s.lex, bytes[at]);
        if !n.inside && bytes[at] == open {
            lemma_nest_split(
                bytes,
                at + 1,
                mid,
                to,
                Nest { lex: n, depth: s.depth + 1 },
                open,
                close,
            );
        } else if !n.inside && bytes[at] == close {
            if s.depth > 1 {
                lemma_nest_split(
                    bytes,
                    at + 1,
                    mid,
                    to,
                    Nest { lex: n, depth: (s.depth - 1) as nat },
                    open,
                    close,
                );
            }
        } else {
            lemma_nest_split(bytes, at + 1, mid, to, Nest { lex: n, depth: s.depth }, open, close);
        }
    }
}

pub proof fn lemma_nest_shift(
    a: Seq<u8>,
    b: Seq<u8>,
    at: int,
    to: int,
    d: int,
    s: Nest,
    open: u8,
    close: u8,
)
    requires
        forall|i: int| at <= i < to ==> #[trigger] a[i] == b[i + d],
    ensures
        nest_run(b, at + d, to + d, s, open, close) == (match nest_run(a, at, to, s, open, close) {
            NestRun::Closed(k) => NestRun::Closed(k + d),
            NestRun::Open(m) => NestRun::Open(m),
        }),
    decreases to - at,
{
    if at < to {
        assert(a[at] == b[at + d]);
        let n = lex_step(s.lex, a[at]);
        lemma_nest_shift(a, b, at + 1, to, d, Nest { lex: n, depth: s.depth + 1 }, open, close);
        lemma_nest_shift(a, b, at + 1, to, d, Nest { lex: n, depth: s.depth }, open, close);
        if s.depth > 1 {
            lemma_nest_shift(
                a,
                b,
                at + 1,
                to,
                d,
                Nest { lex: n, depth: (s.depth - 1) as nat },
                open,
                close,
            );
        }
    }
}

/// Bytes that neither open nor close leave the depth as it is.
pub proof fn lemma_nest_quiet(
    bytes: Seq<u8>,
    at: int,
    mid: int,
    to: int,
    s: Nest,
    open: u8,
    close: u8,
)
    requires
        at <= mid <= to,
        forall|i: int|
            at <= i < mid ==> lex(bytes, at, i + 1, s.lex).inside || (#[trigger] bytes[i] != open
                && bytes[i] != close),
    ensures
        nest_run(bytes, at, to, s, open, close) == nest_run(
            bytes,
            mid,
            to,
            Nest { lex: lex(bytes, at, mid, s.lex), depth: s.depth },
            open,
            close,
        ),
    decreases mid - at,
{
    if at < mid {
        let n = lex_step(s.lex, bytes[at]);
        assert(lex(bytes, at, at, s.lex) == s.lex);
        assert(lex(bytes, at, at + 1, s.lex) == n);
        assert forall|i: int| at + 1 <= i < mid implies lex(bytes, at + 1, i + 1, n).inside || (
        #[trigger] bytes[i] != open && bytes[i] != close) by {
            lemma_lex_split(bytes, at, at + 1, i + 1, s.lex);
        }
        lemma_lex_split(bytes, at, at + 1, mid, s.lex);
        assert(bytes[at] != open || n.inside);
        lemma_nest_quiet(bytes, at + 1, mid, to, Nest { lex: n, depth: s.depth }, open, close);
    }
}

/// A block whose closing bytes are fewer than the open containers cannot end the
/// container: the depth changes by the difference.
pub proof fn lemma_nest_bulk(
    block: Seq<u8>,
    i: int,
    to: int,
    entry: Lex,
    depth: nat,
    opens: u64,
    closes: u64,
    open: u8,
    close: u8,
)
    requires
        0 <= i <= to <= 64,
        open != close,
        forall|k: int| to <= k < 64 ==> !bit(opens, k) && !bit(closes, k),
        forall|k: int|
            0 <= k < 64 ==> bit(opens, k) == (#[trigger] block[k] == open && !lex(
                block,
                0,
                k + 1,
                entry,
            ).inside),
        forall|k: int|
            0 <= k < 64 ==> bit(closes, k) == (#[trigger] block[k] == close && !lex(
                block,
                0,
                k + 1,
                entry,
            ).inside),
        ones_from(closes, i) < depth,
    ensures
        nest_run(block, i, to, Nest { lex: lex(block, 0, i, entry), depth }, open, close)
            == NestRun::Open(
            Nest {
                lex: lex(block, 0, to, entry),
                depth: (depth + ones_from(opens, i) - ones_from(closes, i)) as nat,
            },
        ),
    decreases to - i,
{
    if i == to {
        lemma_ones_from_zero(opens, i);
        lemma_ones_from_zero(closes, i);
    } else {
        let s = lex(block, 0, i, entry);
        assert(lex(block, 0, i + 1, entry) == lex_step(s, block[i]));
        assert(bit(opens, i) == (block[i] == open && !lex(block, 0, i + 1, entry).inside));
        assert(bit(closes, i) == (block[i] == close && !lex(block, 0, i + 1, entry).inside));
        let d = if bit(opens, i) {
            depth + 1
        } else if bit(closes, i) {
            (depth - 1) as nat
        } else {
            depth
        };
        lemma_nest_bulk(block, i + 1, to, entry, d, opens, closes, open, close);
    }
}

// ---- top-level commas

pub open spec fn is_opener(b: u8) -> bool {
    b == LBRACE || b == LBRACKET
}

pub open spec fn is_closer(b: u8) -> bool {
    b == RBRACE || b == RBRACKET
}

/// What a scan for the separators of an array knows between two bytes.
pub struct Commas {
    pub lex: Lex,
    /// How many containers are open inside the array.
    pub depth: nat,
    /// How many separators are still to be passed.
    pub left: nat,
}

/// How far a scan for the separators of an array got.
pub enum CommaRun {
    /// The offset just past the last separator to be passed.
    Found(int),
    /// The array ended with this many separators still to be passed.
    Closed(nat),
    Open(Commas),
}

/// The state after a byte that is not the last: an opening byte goes one level
/// down, a closing byte one up, and a comma of the array itself is passed.
pub open spec fn comma_step(s: Commas, b: u8) -> Commas {
    let n = lex_step(s.lex, b);
    if n.inside {
        Commas { lex: n, depth: s.depth, left: s.left }
    } else if is_opener(b) {
        Commas { lex: n, depth: s.depth + 1, left: s.left }
    } else if is_closer(b) && s.depth > 0 {
        Commas { lex: n, depth: (s.depth - 1) as nat, left: s.left }
    } else if b == COMMA && s.depth == 0 && s.left > 0 {
        Commas { lex: n, depth: s.depth, left: (s.left - 1) as nat }
    } else {
        Commas { lex: n, depth: s.depth, left: s.left }
    }
}

/// The byte closes the array.
pub open spec fn ends_array(s: Commas, b: u8) -> bool {
    !lex_step(s.lex, b).inside && is_closer(b) && s.depth == 0
}

/// The byte separates two elements of the array.
pub open spec fn separates(s: Commas, b: u8) -> bool {
    !lex_step(s.lex, b).inside && b == COMMA && s.depth == 0
}

/// Scan the bytes `at..to` for the `left`th separator of the array.
pub open spec fn comma_run(bytes: Seq<u8>, at: int, to: int, s: Commas) -> CommaRun
    decreases to - at,
{
    if at >= to {
        CommaRun::Open(s)
    } else if ends_array(s, bytes[at]) {
        CommaRun::Closed(s.left)
    } else if separates(s, bytes[at]) && s.left <= 1 {
        CommaRun::Found(at + 1)
    } else {
        comma_run(bytes, at + 1, to, comma_step(s, bytes[at]))
    }
}

/// The elements whose index is a multiple of `stride` that the scan enters, each
/// with the offset just past the separator before it (`base` further on), when
/// `index` is the element that the scan starts in.
pub open spec fn comma_marks(
    bytes: Seq<u8>,
    at: int,
    to: int,
    s: Commas,
    index: int,
    stride: int,
    base: int,
) -> Seq<(usize, u64)>
    decreases to - at,
{
    if at >= to || stride <= 0 || ends_array(s, bytes[at]) {
        Seq::empty()
    } else if separates(s, bytes[at]) {
        let mark = if (index + 1) % stride == 0 {
            seq![((index + 1) as usize, (base + at + 1) as u64)]
        } else {
            Seq::empty()
        };
        if s.left <= 1 {
            mark
        } else {
            mark + comma_marks(
                bytes,
                at + 1,
                to,
                comma_step(s, bytes[at]),
                index + 1,
                stride,
                base,
            )
        }
    } else {
        comma_marks(bytes, at + 1, to, comma_step(s, bytes[at]), index, stride, base)
    }
}

pub proof fn lemma_comma_split(bytes: Seq<u8>, at: int, mid: int, to: int, s: Commas)
    requires
        at <= mid <= to,
    ensures
        comma_run(bytes, at, to, s) == (match comma_run(bytes, at, mid, s) {
            CommaRun::Found(k) => CommaRun::Found(k),
            CommaRun::Closed(n) => CommaRun::Closed(n),
            CommaRun::Open(m) => comma_run(bytes, mid, to, m),
        }),
    decreases mid - at,
{
    if at < mid {
        lemma_comma_split(bytes, at + 1, mid, to, comma_step(s, bytes[at]));
    }
}

/// The offset of the byte that closes an array, from `at` on with `depth` containers
/// open inside it; the end of the bytes where nothing closes it.
pub open spec fn closes_at(bytes: Seq<u8>, at: int, lex: Lex, depth: nat) -> int
    decreases bytes.len() - at,
{
    let s = Commas { lex, depth, left: 2 };
    if at >= bytes.len() {
        bytes.len() as int
    } else if ends_array(s, bytes[at]) {
        at
    } else {
        let n = comma_step(s, bytes[at]);
        closes_at(bytes, at + 1, n.lex, n.depth)
    }
}

/// A scan that the array does not end leaves its closing byte where it is.
pub proof fn lemma_closes_at(bytes: Seq<u8>, at: int, mid: int, s: Commas)
    requires
        at <= mid <= bytes.len(),
        s.left > 0,
    ensures
        at <= closes_at(bytes, at, s.lex, s.depth) <= bytes.len(),
        closes_at(bytes, at, s.lex, s.depth) < bytes.len() ==> is_closer(
            bytes[closes_at(bytes, at, s.lex, s.depth)],
        ),
        match comma_run(bytes, at, mid, s) {
            CommaRun::Found(k) => {
                &&& at < k <= mid
                &&& closes_at(bytes, k, outside(), 0) == closes_at(bytes, at, s.lex, s.depth)
            },
            CommaRun::Closed(_) => closes_at(bytes, at, s.lex, s.depth) < mid,
            CommaRun::Open(m) => closes_at(bytes, mid, m.lex, m.depth) == closes_at(
                bytes,
                at,
                s.lex,
                s.depth,
            ),
        },
    decreases bytes.len() - at,
{
    if at < bytes.len() {
        let b = bytes[at];
        let two = Commas { left: 2, ..s };
        let n = comma_step(s, b);
        let m = comma_step(two, b);
        assert(n.lex == m.lex && n.depth == m.depth);
        assert(ends_array(two, b) == ends_array(s, b));
        if !ends_array(s, b) {
            if at < mid && !(separates(s, b) && s.left <= 1) {
                lemma_closes_at(bytes, at + 1, mid, n);
            } else {
                lemma_closes_at(bytes, at + 1, if at < mid {
                    mid
                } else {
                    at + 1
                }, Commas { left: 2, ..n });
            }
        }
    }
}

/// A scan passes no more separators than it had to, nor than it passed bytes.
pub proof fn lemma_comma_left(bytes: Seq<u8>, at: int, to: int, s: Commas)
    requires
        s.left > 0,
    ensures
        match comma_run(bytes, at, to, s) {
            CommaRun::Found(k) => at < k <= to && s.left <= k - at,
            CommaRun::Closed(n) => 0 < n <= s.left && s.left - n < to - at,
            CommaRun::Open(m) => 0 < m.left <= s.left && m.left + (to - at) >= s.left || at > to,
        },
    decreases to - at,
{
    if at < to && !ends_array(s, bytes[at]) && !(separates(s, bytes[at]) && s.left <= 1) {
        lemma_comma_left(bytes, at + 1, to, comma_step(s, bytes[at]));
    }
}

pub proof fn lemma_marks_split(
    bytes: Seq<u8>,
    at: int,
    mid: int,
    to: int,
    s: Commas,
    index: int,
    stride: int,
    base: int,
)
    requires
        at <= mid <= to,
        s.left > 0,
    ensures
        comma_marks(bytes, at, to, s, index, stride, base) == comma_marks(
            bytes,
            at,
            mid,
            s,
            index,
            stride,
            base,
        ) + (match comma_run(bytes, at, mid, s) {
            CommaRun::Open(m) => comma_marks(
                bytes,
                mid,
                to,
                m,
                index + s.left - m.left,
                stride,
                base,
            ),
            _ => Seq::empty(),
        }),
    decreases mid - at,
{
    let whole = comma_marks(bytes, at, to, s, index, stride, base);
    let head = comma_marks(bytes, at, mid, s, index, stride, base);
    if at < mid && stride > 0 && !ends_array(s, bytes[at]) {
        let n = comma_step(s, bytes[at]);
        if separates(s, bytes[at]) {
            if s.left > 1 {
                lemma_marks_split(bytes, at + 1, mid, to, n, index + 1, stride, base);
                let mark = if (index + 1) % stride == 0 {
                    seq![((index + 1) as usize, (base + at + 1) as u64)]
                } else {
                    Seq::empty()
                };
                let a = comma_marks(bytes, at + 1, mid, n, index + 1, stride, base);
                match comma_run(bytes, at, mid, s) {
                    CommaRun::Open(m) => {
                        let b = comma_marks(
                            bytes,
                            mid,
                            to,
                            m,
                            index + s.left - m.left,
                            stride,
                            base,
                        );
                        assert((mark + a) + b =~= mark + (a + b));
                    },
                    _ => {
                        assert((mark + a) + Seq::empty() =~= mark + (a + Seq::empty()));
                    },
                }
            } else {
                assert(whole =~= head + Seq::empty());
            }
        } else {
            lemma_marks_split(bytes, at + 1, mid, to, n, index, stride, base);
        }
    } else {
        if at >= mid {
            assert(comma_run(bytes, at, mid, s) == CommaRun::Open(s));
            assert(whole =~= head + comma_marks(bytes, mid, to, s, index, stride, base));
        } else if stride <= 0 {
            match comma_run(bytes, at, mid, s) {
                CommaRun::Open(m) => {
                    assert(whole =~= head + comma_marks(
                        bytes,
                        mid,
                        to,
                        m,
                        index + s.left - m.left,
                        stride,
                        base,
                    ));
                },
                _ => {
                    assert(whole =~= head + Seq::empty());
                },
            }
        } else {
            assert(whole =~= head + Seq::empty());
        }
    }
}

pub proof fn lemma_comma_shift(
    a: Seq<u8>,
    b: Seq<u8>,
    at: int,
    to: int,
    d: int,
    s: Commas,
    index: int,
    stride: int,
)
    requires
        forall|i: int| at <= i < to ==> #[trigger] a[i] == b[i + d],
    ensures
        comma_run(b, at + d, to + d, s) == (match comma_run(a, at, to, s) {
            CommaRun::Found(k) => CommaRun::Found(k + d),
            CommaRun::Closed(n) => CommaRun::Closed(n),
            CommaRun::Open(m) => CommaRun::Open(m),
        }),
        comma_marks(b, at + d, to + d, s, index, stride, 0) == comma_marks(
            a,
            at,
            to,
            s,
            index,
            stride,
            d,
        ),
    decreases to - at,
{
    if at < to {
        assert(a[at] == b[at + d]);
        let n = comma_step(s, a[at]);
        if separates(s, a[at]) {
            lemma_comma_shift(a, b, at + 1, to, d, n, index + 1, stride);
        } else {
            lemma_comma_shift(a, b, at + 1, to, d, n, index, stride);
        }
    }
}

/// A byte that is structural for the array: it opens, closes or separates.
pub open spec fn is_array_structural(b: u8) -> bool {
    is_opener(b) || is_closer(b) || b == COMMA
}

/// Bytes that are not structural leave the depth and the count as they are.
pub proof fn lemma_comma_quiet(
    bytes: Seq<u8>,
    at: int,
    mid: int,
    to: int,
    s: Commas,
    index: int,
    stride: int,
    base: int,
)
    requires
        at <= mid <= to,
        forall|i: int|
            at <= i < mid ==> lex(bytes, at, i + 1, s.lex).inside || !is_array_structural(
                #[trigger] bytes[i],
            ),
    ensures
        ({
            let m = Commas { lex: lex(bytes, at, mid, s.lex), ..s };
            &&& comma_run(bytes, at, to, s) == comma_run(bytes, mid, to, m)
            &&& comma_marks(bytes, at, to, s, index, stride, base) == comma_marks(
                bytes,
                mid,
                to,
                m,
                index,
                stride,
                base,
            )
        }),
    decreases mid - at,
{
    if at < mid {
        let n = lex_step(s.lex, bytes[at]);
        assert(lex(bytes, at, at, s.lex) == s.lex);
        assert(lex(bytes, at, at + 1, s.lex) == n);
        assert forall|i: int| at + 1 <= i < mid implies lex(bytes, at + 1, i + 1, n).inside
            || !is_array_structural(#[trigger] bytes[i]) by {
            lemma_lex_split(bytes, at, at + 1, i + 1, s.lex);
        }
        lemma_lex_split(bytes, at, at + 1, mid, s.lex);
        assert(n.inside || !is_array_structural(bytes[at]));
        assert(comma_step(s, bytes[at]) == (Commas { lex: n, ..s }));
        lemma_comma_quiet(
            bytes,
            at + 1,
            mid,
            to,
            Commas { lex: n, ..s },
            index,
            stride,
            base,
        );
    } else {
        assert(lex(bytes, at, mid, s.lex) == s.lex);
    }
}

/// A block of an array's own bytes with fewer separators than are still to be
/// passed is passed as a whole.
pub proof fn lemma_comma_bulk(
    block: Seq<u8>,
    i: int,
    to: int,
    entry: Lex,
    left: nat,
    commas: u64,
)
    requires
        0 <= i <= to <= 64,
        forall|k: int| to <= k < 64 ==> !bit(commas, k),
        forall|k: int|
            0 <= k < 64 ==> bit(commas, k) == (#[trigger] block[k] == COMMA && !lex(
                block,
                0,
                k + 1,
                entry,
            ).inside),
        forall|k: int|
            0 <= k < 64 ==> lex(block, 0, k + 1, entry).inside || !(is_opener(#[trigger] block[k])
                || is_closer(block[k])),
        ones_from(commas, i) < left,
    ensures
        comma_run(block, i, to, Commas { lex: lex(block, 0, i, entry), depth: 0, left })
            == CommaRun::Open(
            Commas {
                lex: lex(block, 0, to, entry),
                depth: 0,
                left: (left - ones_from(commas, i)) as nat,
            },
        ),
    decreases to - i,
{
    if i == to {
        lemma_ones_from_zero(commas, i);
    } else {
        let s = lex(block, 0, i, entry);
        assert(lex(block, 0, i + 1, entry) == lex_step(s, block[i]));
        assert(bit(commas, i) == (block[i] == COMMA && !lex(block, 0, i + 1, entry).inside));
        let l = if bit(commas, i) {
            (left - 1) as nat
        } else {
            left
        };
        lemma_comma_bulk(block, i + 1, to, entry, l, commas);
    }
}

} // verus!
