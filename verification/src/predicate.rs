//! Predicates over a child: an AND of tests on the values that sub-pointers lead to.

use vstd::prelude::*;
use vstd::string::StringExecFns;
use vstd::utf8::{encode_utf8, encode_utf8_decode_utf8};

use crate::keys::{bytes_eq, is_escaped, json_string, parse_string, reads_plainly, text_eq};
use crate::pointer::{pointer_tokens, JsonPointer, PointerParseError};
use crate::scan::{BACKSLASH, QUOTE};

verus! {

// ---- what is tested

/// A predicate as it is written: tests and conjunctions of predicates.
#[derive(Debug)]
pub enum PredicateIr {
    Eq { p: String, v: Literal },
    Lt { p: String, v: Literal },
    Lte { p: String, v: Literal },
    Gt { p: String, v: Literal },
    Gte { p: String, v: Literal },
    Exists { p: String },
    And { c: Vec<PredicateIr> },
}

#[derive(Debug, Clone, Copy, PartialEq, Eq, Structural)]
pub enum CompareOp {
    Eq,
    Lt,
    Lte,
    Gt,
    Gte,
}

/// A scalar literal to compare a resolved value against. A number is kept by the
/// bits of its floating-point form.
#[derive(Debug, Clone, PartialEq, Eq)]
pub enum Literal {
    Str(String),
    Num(u64),
    Bool(bool),
    Null,
}

/// What a [`Literal`] stands for.
pub enum LiteralView {
    Str(Seq<char>),
    Num(u64),
    Bool(bool),
    Null,
}

impl View for Literal {
    type V = LiteralView;

    open spec fn view(&self) -> LiteralView {
        match self {
            Literal::Str(s) => LiteralView::Str(s@),
            Literal::Num(bits) => LiteralView::Num(*bits),
            Literal::Bool(b) => LiteralView::Bool(*b),
            Literal::Null => LiteralView::Null,
        }
    }
}

/// What a [`Leaf`] tests.
pub struct LeafView {
    pub pointer: Seq<Seq<char>>,
    pub op: Option<CompareOp>,
    pub literal: LiteralView,
}

/// How a value stands to a literal.
#[derive(Debug, Clone, Copy, PartialEq, Eq, Structural)]
pub enum Rank {
    Less,
    Equal,
    Greater,
    /// Neither: one of them is not a number.
    Unordered,
}

/// Whether an operator holds of a value that stands so to the literal.
pub open spec fn holds(op: CompareOp, rank: Rank) -> bool {
    match op {
        CompareOp::Eq => rank is Equal,
        CompareOp::Lt => rank is Less,
        CompareOp::Lte => rank is Less || rank is Equal,
        CompareOp::Gt => rank is Greater,
        CompareOp::Gte => rank is Greater || rank is Equal,
    }
}

impl CompareOp {
    /// Whether the operator holds of a value that stands so to the literal.
    pub fn holds(self, rank: Rank) -> (r: bool)
        ensures
            r == holds(self, rank),
    {
        match self {
            CompareOp::Eq => rank == Rank::Equal,
            CompareOp::Lt => rank == Rank::Less,
            CompareOp::Lte => rank == Rank::Less || rank == Rank::Equal,
            CompareOp::Gt => rank == Rank::Greater,
            CompareOp::Gte => rank == Rank::Greater || rank == Rank::Equal,
        }
    }
}

// ---- strings

/// How two byte strings stand to each other in lexicographic order.
pub open spec fn byte_order(a: Seq<u8>, b: Seq<u8>) -> Rank
    decreases a.len(),
{
    if a.len() == 0 {
        if b.len() == 0 {
            Rank::Equal
        } else {
            Rank::Less
        }
    } else if b.len() == 0 {
        Rank::Greater
    } else if a[0] < b[0] {
        Rank::Less
    } else if a[0] > b[0] {
        Rank::Greater
    } else {
        byte_order(a.skip(1), b.skip(1))
    }
}

/// How two texts stand to each other, by their bytes.
pub open spec fn text_order(a: Seq<char>, b: Seq<char>) -> Rank {
    byte_order(encode_utf8(a), encode_utf8(b))
}

proof fn lemma_byte_order(a: Seq<u8>, b: Seq<u8>, i: int)
    requires
        0 <= i <= a.len(),
        i <= b.len(),
        forall|k: int| 0 <= k < i ==> a[k] == b[k],
    ensures
        byte_order(a, b) == byte_order(a.skip(i), b.skip(i)),
    decreases i,
{
    if i == 0 {
        assert(a.skip(0) =~= a);
        assert(b.skip(0) =~= b);
    } else {
        let c = a.skip(1);
        let d = b.skip(1);
        assert forall|k: int| 0 <= k < i - 1 implies c[k] == d[k] by {
            assert(a[k + 1] == b[k + 1]);
        }
        lemma_byte_order(c, d, i - 1);
        assert(c.skip(i - 1) =~= a.skip(i));
        assert(d.skip(i - 1) =~= b.skip(i));
    }
}

/// Byte strings are totally ordered: exactly one of less, equal and greater holds of
/// any two, equal only of the same, and swapping them swaps less and greater.
pub proof fn law_byte_order_is_total(a: Seq<u8>, b: Seq<u8>)
    ensures
        byte_order(a, b) !is Unordered,
        byte_order(a, b) is Equal <==> a == b,
        byte_order(a, b) is Less <==> byte_order(b, a) is Greater,
    decreases a.len(),
{
    if a.len() > 0 && b.len() > 0 {
        law_byte_order_is_total(a.skip(1), b.skip(1));
        if a[0] == b[0] && a.skip(1) == b.skip(1) {
            assert(a =~= seq![a[0]] + a.skip(1));
            assert(b =~= seq![b[0]] + b.skip(1));
        }
    } else if a.len() == 0 && b.len() == 0 {
        assert(a =~= b);
    }
}

/// How two texts stand to each other.
fn rank_text(a: &str, b: &str) -> (r: Rank)
    ensures
        r == text_order(a@, b@),
{
    let x: &[u8] = a.as_bytes();
    let y: &[u8] = b.as_bytes();
    let mut i: usize = 0;
    while i < x.len() && i < y.len() && x[i] == y[i]
        invariant
            i <= x@.len(),
            i <= y@.len(),
            forall|k: int| 0 <= k < i ==> x@[k] == y@[k],
        decreases x@.len() - i,
    {
        i = i + 1;
    }
    proof {
        lemma_byte_order(x@, y@, i as int);
    }
    if i == x.len() {
        if i == y.len() {
            Rank::Equal
        } else {
            Rank::Less
        }
    } else if i == y.len() {
        Rank::Greater
    } else if x[i] < y[i] {
        Rank::Less
    } else {
        Rank::Greater
    }
}

/// Whether bytes stand between quotes.
pub open spec fn in_quotes(raw: Seq<u8>) -> bool {
    raw.len() >= 2 && raw[0] == QUOTE && raw.last() == QUOTE
}

/// Whether the raw bytes of a JSON string value, with its quotes, spell `target`;
/// `None` where an escaped interior cannot be decoded.
pub open spec fn spells(raw: Seq<u8>, target: Seq<char>) -> Option<bool> {
    if !in_quotes(raw) {
        Some(false)
    } else {
        let interior = raw.subrange(1, raw.len() - 1);
        if !interior.contains(BACKSLASH) {
            Some(interior == encode_utf8(target))
        } else {
            match json_string(raw) {
                Some(s) => Some(s == target),
                None => None,
            }
        }
    }
}

/// Compare the raw bytes of a JSON-encoded string value (with the surrounding
/// quotes) to a text. The hot path - the interior holds no backslash - compares
/// bytes directly; escaped strings are decoded.
///
/// `Err(())` only when an escaped interior fails to decode (i.e. the JSON is
/// malformed).
pub fn quoted_string_eq(value_raw: &[u8], target: &str) -> (r: Result<bool, ()>)
    ensures
        match spells(value_raw@, target@) {
            Some(b) => r == Ok::<bool, ()>(b),
            None => r == Err::<bool, ()>(()),
        },
{
    if value_raw.len() < 2 || value_raw[0] != QUOTE || value_raw[value_raw.len() - 1] != QUOTE {
        return Ok(false);
    }
    let interior: &[u8] = &value_raw[1..value_raw.len() - 1];
    if !is_escaped(interior) {
        return Ok(bytes_eq(interior, target.as_bytes()));
    }
    match parse_string(value_raw) {
        Some(s) => Ok(text_eq(s.as_str(), target)),
        None => Err(()),
    }
}

/// Whether a JSON string value equals a literal. A malformed escape is a mismatch
/// (predicates are total).
fn string_eq(value_raw: &[u8], lit: &str) -> (r: bool)
    ensures
        r == (spells(value_raw@, lit@) == Some(true)),
{
    match quoted_string_eq(value_raw, lit) {
        Ok(b) => b,
        Err(()) => false,
    }
}

/// The text of a JSON string value, `None` where the value is not one.
pub open spec fn string_value(raw: Seq<u8>) -> Option<Seq<char>> {
    if raw.len() > 0 && raw[0] == QUOTE {
        json_string(raw)
    } else {
        None
    }
}

/// The raw bytes of a valid JSON string value: they stand between quotes, and can be
/// read.
pub open spec fn is_string_token(raw: Seq<u8>) -> bool {
    &&& in_quotes(raw)
    &&& json_string(raw) matches Some(s) && reads_plainly(raw, s)
}

/// Decode a JSON string value (handling escapes), or `None` if the value isn't a JSON
/// string.
pub fn decode_string(value_raw: &[u8]) -> (r: Option<String>)
    ensures
        match r {
            Some(s) => string_value(value_raw@) == Some(s@),
            None => string_value(value_raw@) is None,
        },
        r is Some && in_quotes(value_raw@) ==> is_string_token(value_raw@),
{
    if value_raw.len() == 0 || value_raw[0] != QUOTE {
        return None;
    }
    parse_string(value_raw)
}

// ---- comparing

/// The text of a boolean.
pub open spec fn bool_text(b: bool) -> Seq<u8> {
    if b {
        seq![0x74u8, 0x72, 0x75, 0x65]
    } else {
        seq![0x66u8, 0x61, 0x6c, 0x73, 0x65]
    }
}

/// Whether bytes are the text of a boolean.
fn is_bool_text(raw: &[u8], b: bool) -> (r: bool)
    ensures
        r == (raw@ == bool_text(b)),
{
    if b {
        let text: [u8; 4] = [0x74, 0x72, 0x75, 0x65];
        assert(text@ =~= bool_text(b));
        bytes_eq(raw, &text)
    } else {
        let text: [u8; 5] = [0x66, 0x61, 0x6c, 0x73, 0x65];
        assert(text@ =~= bool_text(b));
        bytes_eq(raw, &text)
    }
}

/// Whether bytes are the text `null`.
fn is_null_text(raw: &[u8]) -> (r: bool)
    ensures
        r == (raw@ == crate::eval::null_text()),
{
    let text: [u8; 4] = [0x6e, 0x75, 0x6c, 0x6c];
    assert(text@ =~= crate::eval::null_text());
    bytes_eq(raw, &text)
}

/// Whether a comparison holds of a value's raw bytes. A type mismatch is a `false`.
/// `number` is how the value stands to the literal where both are numbers.
pub open spec fn compared(
    op: CompareOp,
    literal: LiteralView,
    raw: Seq<u8>,
    number: Option<Rank>,
) -> bool {
    match literal {
        LiteralView::Num(_) => match number {
            Some(rank) => holds(op, rank),
            None => false,
        },
        LiteralView::Str(lit) => match op {
            CompareOp::Eq => spells(raw, lit) == Some(true),
            _ => match string_value(raw) {
                Some(s) => holds(op, text_order(s, lit)),
                None => false,
            },
        },
        // Ordering against bool/null is a type error; only `eq` is meaningful here.
        LiteralView::Bool(b) => op is Eq && raw == bool_text(b),
        LiteralView::Null => op is Eq && raw == crate::eval::null_text(),
    }
}

/// Compare a resolved value's raw bytes against a literal. Total: any type mismatch
/// is `false`.
fn compare(op: CompareOp, literal: &Literal, value_raw: &[u8], number: Option<Rank>) -> (r: bool)
    ensures
        r == compared(op, literal@, value_raw@, number),
{
    match literal {
        Literal::Num(_) => match number {
            Some(rank) => op.holds(rank),
            None => false,
        },
        Literal::Str(lit) => {
            if op == CompareOp::Eq {
                return string_eq(value_raw, lit.as_str());
            }
            match decode_string(value_raw) {
                Some(s) => op.holds(rank_text(s.as_str(), lit.as_str())),
                None => false,
            }
        },
        Literal::Bool(b) => op == CompareOp::Eq && is_bool_text(value_raw, *b),
        Literal::Null => op == CompareOp::Eq && is_null_text(value_raw),
    }
}

/// The comparisons of a number, or of a valid JSON string, go together: "at most" is
/// "less or equal", "at least" is "greater or equal", no two of less, equal and greater
/// hold of the same value, and of two strings, or of two numbers in order, one of them
/// does.
pub proof fn law_comparisons_go_together(literal: LiteralView, raw: Seq<u8>, number: Option<Rank>)
    requires
        literal is Num || (literal is Str && is_string_token(raw)),
    ensures
        ({
            let less = compared(CompareOp::Lt, literal, raw, number);
            let equal = compared(CompareOp::Eq, literal, raw, number);
            let greater = compared(CompareOp::Gt, literal, raw, number);
            &&& compared(CompareOp::Lte, literal, raw, number) == (less || equal)
            &&& compared(CompareOp::Gte, literal, raw, number) == (greater || equal)
            &&& !(less && equal)
            &&& !(less && greater)
            &&& !(equal && greater)
            &&& literal is Str ==> less || equal || greater
            &&& literal is Num ==> (less || equal || greater) == (number is Some
                && number->0 !is Unordered)
        }),
{
    if let LiteralView::Str(lit) = literal {
        let s = json_string(raw)->0;
        let interior = raw.subrange(1, raw.len() - 1);
        law_byte_order_is_total(encode_utf8(s), encode_utf8(lit));
        encode_utf8_decode_utf8(s);
        encode_utf8_decode_utf8(lit);
        if raw.contains(BACKSLASH) {
            let i = choose|i: int| 0 <= i < raw.len() && raw[i] == BACKSLASH;
            assert(interior[i - 1] == BACKSLASH);
        } else if interior.contains(BACKSLASH) {
            let i = choose|i: int| 0 <= i < interior.len() && interior[i] == BACKSLASH;
            assert(raw[i + 1] == BACKSLASH);
        }
    }
}

/// One flattened predicate leaf: a sub-pointer plus how to test the value it
/// resolves to. `op == None` is the `exists` test (the value's bytes are never read);
/// `op == Some(_)` is a comparison against `literal`.
#[derive(Debug)]
pub struct Leaf {
    pointer: JsonPointer,
    op: Option<CompareOp>,
    /// Comparison literal. A sentinel [`Literal::Null`] is stored when `op` is `None`,
    /// keeping the struct uniform; it's ignored in that case.
    literal: Literal,
}

impl View for Leaf {
    type V = LeafView;

    closed spec fn view(&self) -> LeafView {
        LeafView { pointer: self.pointer@, op: self.op, literal: self.literal@ }
    }
}

impl Leaf {
    /// The sub-pointer this leaf resolves, relative to each candidate child.
    pub fn pointer(&self) -> (p: &JsonPointer)
        ensures
            p@ == self@.pointer,
    {
        &self.pointer
    }

    /// Whether evaluating this leaf needs the resolved value's bytes. `false` for
    /// `exists` (presence is enough), so the caller can skip the read.
    pub fn needs_value(&self) -> (r: bool)
        ensures
            r == (self@.op is Some),
    {
        self.op.is_some()
    }

    /// The number this leaf compares against, by the bits of its floating-point form.
    pub fn number(&self) -> (bits: Option<u64>)
        ensures
            bits == (match (self@.op, self@.literal) {
                (Some(_), LiteralView::Num(bits)) => Some(bits),
                _ => None,
            }),
    {
        match (&self.op, &self.literal) {
            (Some(_), Literal::Num(bits)) => Some(*bits),
            _ => None,
        }
    }

    /// Test the resolved value's exact `[start, end)` bytes (with the surrounding
    /// quotes for strings) against this leaf's comparison. `number` is how the value
    /// stands to [`Leaf::number`], if both are numbers. Only meaningful when
    /// [`Leaf::needs_value`] is true; returns `true` for `exists`.
    pub fn satisfied_by(&self, value_raw: &[u8], number: Option<Rank>) -> (r: bool)
        ensures
            r == (match self@.op {
                None => true,
                Some(op) => compared(op, self@.literal, value_raw@, number),
            }),
    {
        match self.op {
            None => true,
            Some(op) => compare(op, &self.literal, value_raw, number),
        }
    }
}

// ---- compiling

#[derive(Debug)]
pub enum PredicateError {
    Json(String),
    Pointer(PointerParseError),
}

impl PredicateError {
    /// The text of [`PredicateError::message`].
    pub open spec fn spec_message(self) -> Seq<char> {
        match self {
            PredicateError::Json(reason) => "invalid predicate JSON: "@ + reason@,
            PredicateError::Pointer(e) => "invalid predicate pointer: "@ + e.spec_message(),
        }
    }

    /// The error in words.
    pub fn message(&self) -> (s: String)
        ensures
            s@ == self.spec_message(),
    {
        let mut s: String = String::new();
        match self {
            PredicateError::Json(reason) => {
                s.append("invalid predicate JSON: ");
                s.append(reason.as_str());
            },
            PredicateError::Pointer(e) => {
                s.append("invalid predicate pointer: ");
                s.append(e.message().as_str());
            },
        }
        assert(s@ =~= self.spec_message());
        s
    }
}

/// A leaf of a predicate, or the error of its pointer.
pub open spec fn leaf_of(p: Seq<char>, op: Option<CompareOp>, literal: LiteralView) -> Result<
    Seq<LeafView>,
    PointerParseError,
> {
    match pointer_tokens(p) {
        Ok(pointer) => Ok(seq![LeafView { pointer, op, literal }]),
        Err(e) => Err(e),
    }
}

/// The leaves of a predicate in the order in which they are written, or the first
/// error of a pointer. An empty conjunction has none: it is vacuously true.
pub open spec fn leaves_of(ir: PredicateIr) -> Result<Seq<LeafView>, PointerParseError>
    decreases ir,
{
    match ir {
        PredicateIr::Eq { p, v } => leaf_of(p@, Some(CompareOp::Eq), v@),
        PredicateIr::Lt { p, v } => leaf_of(p@, Some(CompareOp::Lt), v@),
        PredicateIr::Lte { p, v } => leaf_of(p@, Some(CompareOp::Lte), v@),
        PredicateIr::Gt { p, v } => leaf_of(p@, Some(CompareOp::Gt), v@),
        PredicateIr::Gte { p, v } => leaf_of(p@, Some(CompareOp::Gte), v@),
        PredicateIr::Exists { p } => leaf_of(p@, None, LiteralView::Null),
        PredicateIr::And { c } => leaves_of_all(c, c@.len() as int),
    }
}

/// The leaves of the first `n` of some predicates.
pub open spec fn leaves_of_all(c: Vec<PredicateIr>, n: int) -> Result<
    Seq<LeafView>,
    PointerParseError,
>
    decreases c, n,
{
    if n <= 0 || n > c@.len() {
        Ok(Seq::empty())
    } else {
        match leaves_of_all(c, n - 1) {
            Err(e) => Err(e),
            Ok(before) => match leaves_of(c@[n - 1]) {
                Err(e) => Err(e),
                Ok(more) => Ok(before + more),
            },
        }
    }
}

/// The leaves that a list holds.
pub open spec fn leaf_list(leaves: Seq<Leaf>) -> Seq<LeafView> {
    leaves.map_values(|l: Leaf| l@)
}

/// A compiled predicate: an AND of leaves.
#[derive(Debug)]
pub struct CompiledPredicate {
    leaves: Vec<Leaf>,
}

impl View for CompiledPredicate {
    type V = Seq<LeafView>;

    closed spec fn view(&self) -> Seq<LeafView> {
        leaf_list(self.leaves@)
    }
}

impl CompiledPredicate {
    /// Compile a predicate. Pointer parse errors surface here.
    pub fn compile(ir: &PredicateIr) -> (r: Result<Self, PredicateError>)
        ensures
            match r {
                Ok(p) => leaves_of(*ir) == Ok::<Seq<LeafView>, PointerParseError>(p@),
                Err(e) => leaves_of(*ir) matches Err(pe) && e == PredicateError::Pointer(pe),
            },
    {
        let mut leaves: Vec<Leaf> = Vec::new();
        match flatten(ir, &mut leaves) {
            Err(e) => Err(e),
            Ok(()) => {
                let p = CompiledPredicate { leaves };
                assert(leaf_list(Seq::empty()) =~= Seq::empty());
                assert(forall|s: Seq<LeafView>| #[trigger] (Seq::<LeafView>::empty() + s) =~= s);
                Ok(p)
            },
        }
    }

    pub fn leaves(&self) -> (l: &[Leaf])
        ensures
            leaf_list(l@) == self@,
    {
        self.leaves.as_slice()
    }
}

fn push_leaf(out: &mut Vec<Leaf>, p: &str, op: Option<CompareOp>, literal: Literal) -> (r: Result<
    (),
    PredicateError,
>)
    ensures
        match r {
            Ok(()) => leaf_of(p@, op, literal@) matches Ok(more) && leaf_list(final(out)@)
                == leaf_list(old(out)@) + more,
            Err(e) => leaf_of(p@, op, literal@) matches Err(pe) && e == PredicateError::Pointer(pe),
        },
{
    let pointer: JsonPointer = match JsonPointer::parse(p) {
        Ok(pointer) => pointer,
        Err(e) => return Err(PredicateError::Pointer(e)),
    };
    let ghost before = leaf_list(out@);
    let leaf = Leaf { pointer, op, literal };
    let ghost view = leaf@;
    out.push(leaf);
    assert(leaf_list(out@) =~= before + seq![view]);
    Ok(())
}

/// A copy of a literal.
fn copy_literal(v: &Literal) -> (out: Literal)
    ensures
        out@ == v@,
{
    match v {
        Literal::Str(s) => Literal::Str(s.clone()),
        Literal::Num(bits) => Literal::Num(*bits),
        Literal::Bool(b) => Literal::Bool(*b),
        Literal::Null => Literal::Null,
    }
}

/// Flatten the IR tree into a leaf list. `and` nodes recurse and append; an empty
/// `and` flattens to zero leaves (a vacuously-true predicate).
fn flatten(ir: &PredicateIr, out: &mut Vec<Leaf>) -> (r: Result<(), PredicateError>)
    ensures
        match r {
            Ok(()) => leaves_of(*ir) matches Ok(more) && leaf_list(final(out)@) == leaf_list(
                old(out)@,
            ) + more,
            Err(e) => leaves_of(*ir) matches Err(pe) && e == PredicateError::Pointer(pe),
        },
    decreases ir,
{
    match ir {
        PredicateIr::Eq { p, v } => push_leaf(
            out,
            p.as_str(),
            Some(CompareOp::Eq),
            copy_literal(v),
        ),
        PredicateIr::Lt { p, v } => push_leaf(
            out,
            p.as_str(),
            Some(CompareOp::Lt),
            copy_literal(v),
        ),
        PredicateIr::Lte { p, v } => push_leaf(
            out,
            p.as_str(),
            Some(CompareOp::Lte),
            copy_literal(v),
        ),
        PredicateIr::Gt { p, v } => push_leaf(
            out,
            p.as_str(),
            Some(CompareOp::Gt),
            copy_literal(v),
        ),
        PredicateIr::Gte { p, v } => push_leaf(
            out,
            p.as_str(),
            Some(CompareOp::Gte),
            copy_literal(v),
        ),
        PredicateIr::Exists { p } => push_leaf(out, p.as_str(), None, Literal::Null),
        PredicateIr::And { c } => {
            let ghost before = leaf_list(out@);
            let mut i: usize = 0;
            assert(before + Seq::<LeafView>::empty() =~= before);
            while i < c.len()
                invariant
                    i <= c@.len(),
                    *ir == (PredicateIr::And { c: *c }),
                    before == leaf_list(old(out)@),
                    leaves_of_all(*c, i as int) matches Ok(more) && leaf_list(out@) == before
                        + more,
                decreases c@.len() - i,
            {
                proof {
                    lemma_leaves_error(*c, i + 1, c@.len() as int);
                }
                let ghost more = leaves_of_all(*c, i as int)->Ok_0;
                match flatten(&c[i], out) {
                    Err(e) => return Err(e),
                    Ok(()) => {},
                }
                assert(leaf_list(out@) =~= before + (more + leaves_of(c@[i as int])->Ok_0));
                i = i + 1;
            }
            Ok(())
        },
    }
}

/// An error among the first predicates is the error of them all.
proof fn lemma_leaves_error(c: Vec<PredicateIr>, n: int, m: int)
    requires
        0 <= n <= m <= c@.len(),
    ensures
        leaves_of_all(c, n) is Err ==> leaves_of_all(c, m) == leaves_of_all(c, n),
    decreases m - n,
{
    if n < m {
        lemma_leaves_error(c, n, m - 1);
    }
}

} // verus!
