//! What predicates mean: operators by the order of numbers and of texts, tests by the value
//! that they are put to, and a conjunction by its parts.

use vstd::prelude::*;
use vstd::utf8::encode_utf8;

use crate::json::{string_token, valid, written, Json};
use crate::keys::json_string;
use crate::pointer::{pointer_tokens, PointerParseError};
use crate::predicate::{
    byte_order, compared, holds, leaves_of, leaves_of_all, CompareOp, LeafView, LiteralView,
    PredicateIr, Rank,
};
use crate::reading::lemma_first_byte;

verus! {

// ---- operators

/// How one number stands to another.
pub open spec fn standing(a: int, b: int) -> Rank {
    if a < b {
        Rank::Less
    } else if a == b {
        Rank::Equal
    } else {
        Rank::Greater
    }
}

/// The operators are those of numbers, and none of them holds of what has no order.
pub proof fn law_operators_are_those_of_numbers(a: int, b: int)
    ensures
        holds(CompareOp::Eq, standing(a, b)) == (a == b),
        holds(CompareOp::Lt, standing(a, b)) == (a < b),
        holds(CompareOp::Lte, standing(a, b)) == (a <= b),
        holds(CompareOp::Gt, standing(a, b)) == (a > b),
        holds(CompareOp::Gte, standing(a, b)) == (a >= b),
        forall|op: CompareOp| !holds(op, Rank::Unordered),
{
}

/// Two byte strings share the first `i` bytes.
pub open spec fn alike(a: Seq<u8>, b: Seq<u8>, i: int) -> bool {
    &&& 0 <= i <= a.len()
    &&& i <= b.len()
    &&& forall|k: int| 0 <= k < i ==> a[k] == b[k]
}

/// One byte string comes before another: it goes on with a lesser byte where they part, or
/// it ends there.
pub open spec fn comes_before(a: Seq<u8>, b: Seq<u8>) -> bool {
    exists|i: int| #[trigger]
        alike(a, b, i) && i < b.len() && (i == a.len() || a[i] < b[i])
}

/// Byte strings stand to each other as their first difference does, a shorter one before
/// any that it begins.
pub proof fn law_byte_strings_are_in_dictionary_order(a: Seq<u8>, b: Seq<u8>)
    ensures
        byte_order(a, b) == (if comes_before(a, b) {
            Rank::Less
        } else if a == b {
            Rank::Equal
        } else {
            Rank::Greater
        }),
    decreases a.len(),
{
    if a.len() == 0 {
        assert(alike(a, b, 0));
        if b.len() == 0 {
            assert(a =~= b);
        }
    } else if b.len() == 0 {
        assert(a.len() != b.len());
    } else if a[0] != b[0] {
        assert(alike(a, b, 0));
        if comes_before(a, b) {
            let i = choose|i: int| #[trigger]
                alike(a, b, i) && i < b.len() && (i == a.len() || a[i] < b[i]);
            if i > 0 {
                assert(a[0] == b[0]);
            }
        }
    } else {
        let x = a.skip(1);
        let y = b.skip(1);
        law_byte_strings_are_in_dictionary_order(x, y);
        if comes_before(x, y) {
            let i = choose|i: int| #[trigger]
                alike(x, y, i) && i < y.len() && (i == x.len() || x[i] < y[i]);
            assert forall|k: int| 0 <= k < i + 1 implies a[k] == b[k] by {
                if k > 0 {
                    assert(x[k - 1] == y[k - 1]);
                }
            }
            assert(alike(a, b, i + 1));
        }
        if comes_before(a, b) {
            let i = choose|i: int| #[trigger]
                alike(a, b, i) && i < b.len() && (i == a.len() || a[i] < b[i]);
            assert forall|k: int| 0 <= k < i - 1 implies x[k] == y[k] by {
                assert(a[k + 1] == b[k + 1]);
            }
            assert(i > 0);
            assert(alike(x, y, i - 1));
        }
        assert(a =~= seq![a[0]] + x);
        assert(b =~= seq![b[0]] + y);
    }
}

// ---- tests

/// `eq` of a truth value holds of that value alone, `eq` of null of null alone, and no
/// other comparison with either holds of anything.
pub proof fn law_truth_values_are_equal_to_themselves(v: Json, op: CompareOp, number: Option<Rank>)
    requires
        valid(v),
    ensures
        compared(op, LiteralView::Bool(true), written(v), number) == (op is Eq && v is True),
        compared(op, LiteralView::Bool(false), written(v), number) == (op is Eq && v is False),
        compared(op, LiteralView::Null, written(v), number) == (op is Eq && v is Null),
{
    lemma_letters(v);
}

/// A value in letters is the one that the letters spell.
proof fn lemma_letters(v: Json)
    requires
        valid(v),
    ensures
        written(v) == written(Json::True) ==> v is True,
        written(v) == written(Json::False) ==> v is False,
        written(v) == written(Json::Null) ==> v is Null,
        v is Text <==> written(v)[0] == 0x22,
{
    lemma_first_byte(v);
    assert(written(Json::True)[0] == 0x74);
    assert(written(Json::False)[0] == 0x66);
    assert(written(Json::Null)[0] == 0x6e);
    if let Json::Number(n) = v {
        assert(crate::json::is_digits(n.whole));
        if n.negative {
            assert(written(v)[0] == 0x2d);
        } else {
            assert(written(v)[0] == n.whole[0]);
        }
    }
}

/// A string without escapes is equal to the text whose bytes it is made of, and to no other;
/// no comparison with a text holds of a value that is no string.
pub proof fn law_strings_are_compared_by_their_bytes(
    v: Json,
    op: CompareOp,
    text: Seq<char>,
    number: Option<Rank>,
)
    requires
        valid(v),
    ensures
        v matches Json::Text(interior) ==> {
            &&& !interior.contains(0x5c) ==> compared(
                CompareOp::Eq,
                LiteralView::Str(text),
                written(v),
                number,
            ) == (interior == encode_utf8(text))
            &&& interior.contains(0x5c) ==> compared(
                CompareOp::Eq,
                LiteralView::Str(text),
                written(v),
                number,
            ) == (json_string(string_token(interior)) == Some(text))
            &&& !(op is Eq) ==> compared(op, LiteralView::Str(text), written(v), number) == (
            json_string(string_token(interior)) matches Some(s) && {
                let (x, y) = (encode_utf8(s), encode_utf8(text));
                match op {
                    CompareOp::Lt => comes_before(x, y),
                    CompareOp::Lte => comes_before(x, y) || x == y,
                    CompareOp::Gt => !comes_before(x, y) && x != y,
                    CompareOp::Gte => !comes_before(x, y),
                    CompareOp::Eq => true,
                }
            })
        },
        !(v is Text) ==> !compared(op, LiteralView::Str(text), written(v), number),
{
    lemma_letters(v);
    lemma_first_byte(v);
    if let Json::Text(interior) = v {
        let raw = written(v);
        assert(raw.subrange(1, raw.len() - 1) =~= interior);
        assert(raw.last() == 0x22);
        if let Some(s) = json_string(string_token(interior)) {
            law_byte_strings_are_in_dictionary_order(encode_utf8(s), encode_utf8(text));
            let (x, y) = (encode_utf8(s), encode_utf8(text));
            if x == y && comes_before(x, y) {
                let i = choose|i: int| #[trigger]
                    alike(x, y, i) && i < y.len() && (i == x.len() || x[i] < y[i]);
            }
        }
    }
}

/// A comparison with a number holds where the value is a number and stands so to it, and
/// of nothing else.
pub proof fn law_numbers_are_compared_as_numbers(
    bits: u64,
    raw: Seq<u8>,
    op: CompareOp,
    a: int,
    b: int,
)
    ensures
        !compared(op, LiteralView::Num(bits), raw, None),
        !compared(op, LiteralView::Num(bits), raw, Some(Rank::Unordered)),
        compared(op, LiteralView::Num(bits), raw, Some(standing(a, b))) == (match op {
            CompareOp::Eq => a == b,
            CompareOp::Lt => a < b,
            CompareOp::Lte => a <= b,
            CompareOp::Gt => a > b,
            CompareOp::Gte => a >= b,
        }),
{
}

// ---- conjunctions

/// A test of the value that a pointer leads to.
pub open spec fn test_of(p: Seq<char>, op: Option<CompareOp>, literal: LiteralView) -> LeafView {
    LeafView { pointer: pointer_tokens(p)->Ok_0, op, literal }
}

/// Whether a predicate holds, when `passes` says which tests do: a test where it passes, a
/// conjunction where all its parts hold.
pub open spec fn meant(ir: PredicateIr, passes: spec_fn(LeafView) -> bool) -> bool
    decreases ir,
{
    match ir {
        PredicateIr::Eq { p, v } => passes(test_of(p@, Some(CompareOp::Eq), v@)),
        PredicateIr::Lt { p, v } => passes(test_of(p@, Some(CompareOp::Lt), v@)),
        PredicateIr::Lte { p, v } => passes(test_of(p@, Some(CompareOp::Lte), v@)),
        PredicateIr::Gt { p, v } => passes(test_of(p@, Some(CompareOp::Gt), v@)),
        PredicateIr::Gte { p, v } => passes(test_of(p@, Some(CompareOp::Gte), v@)),
        PredicateIr::Exists { p } => passes(test_of(p@, None, LiteralView::Null)),
        PredicateIr::And { c } => all_meant(c, c@.len() as int, passes),
    }
}

pub open spec fn all_meant(
    c: Vec<PredicateIr>,
    n: int,
    passes: spec_fn(LeafView) -> bool,
) -> bool
    decreases c, n,
{
    0 < n <= c@.len() ==> all_meant(c, n - 1, passes) && meant(c@[n - 1], passes)
}

/// All the tests of a list pass.
pub open spec fn all_pass(leaves: Seq<LeafView>, passes: spec_fn(LeafView) -> bool) -> bool {
    forall|i: int| 0 <= i < leaves.len() ==> passes(#[trigger] leaves[i])
}

/// The pointers of a predicate, in order.
pub open spec fn pointers_of(ir: PredicateIr) -> Seq<Seq<char>>
    decreases ir,
{
    match ir {
        PredicateIr::Eq { p, v } => seq![p@],
        PredicateIr::Lt { p, v } => seq![p@],
        PredicateIr::Lte { p, v } => seq![p@],
        PredicateIr::Gt { p, v } => seq![p@],
        PredicateIr::Gte { p, v } => seq![p@],
        PredicateIr::Exists { p } => seq![p@],
        PredicateIr::And { c } => all_pointers(c, c@.len() as int),
    }
}

pub open spec fn all_pointers(c: Vec<PredicateIr>, n: int) -> Seq<Seq<char>>
    decreases c, n,
{
    if 0 < n <= c@.len() {
        all_pointers(c, n - 1) + pointers_of(c@[n - 1])
    } else {
        Seq::empty()
    }
}

/// Whether pointer `n` is the first that cannot be read, and why.
pub open spec fn first_bad(pointers: Seq<Seq<char>>, n: int, e: PointerParseError) -> bool {
    &&& 0 <= n < pointers.len()
    &&& pointer_tokens(pointers[n]) == Err::<Seq<Seq<char>>, PointerParseError>(e)
    &&& forall|i: int| 0 <= i < n ==> pointer_tokens(#[trigger] pointers[i]) is Ok
}

/// A predicate is compiled to one test for each of its pointers, in order, if all of them
/// can be read; otherwise the first that cannot is reported.
pub proof fn law_a_predicate_is_refused_for_its_first_bad_pointer(ir: PredicateIr)
    ensures
        match leaves_of(ir) {
            Ok(leaves) => leaves.len() == pointers_of(ir).len() && forall|i: int|
                0 <= i < leaves.len() ==> pointer_tokens(pointers_of(ir)[i]) == Ok::<
                    Seq<Seq<char>>,
                    PointerParseError,
                >((#[trigger] leaves[i]).pointer),
            Err(e) => exists|n: int| #[trigger] first_bad(pointers_of(ir), n, e),
        },
    decreases ir,
{
    match ir {
        PredicateIr::And { c } => lemma_all_pointers(c, c@.len() as int),
        _ => {
            if let Err(e) = leaves_of(ir) {
                assert(first_bad(pointers_of(ir), 0, e));
            }
        },
    }
}

proof fn lemma_all_pointers(c: Vec<PredicateIr>, n: int)
    requires
        n <= c@.len(),
    ensures
        match leaves_of_all(c, n) {
            Ok(leaves) => leaves.len() == all_pointers(c, n).len() && forall|i: int|
                0 <= i < leaves.len() ==> pointer_tokens(all_pointers(c, n)[i]) == Ok::<
                    Seq<Seq<char>>,
                    PointerParseError,
                >((#[trigger] leaves[i]).pointer),
            Err(e) => exists|k: int| #[trigger] first_bad(all_pointers(c, n), k, e),
        },
    decreases c, n,
{
    if n > 0 {
        lemma_all_pointers(c, n - 1);
        law_a_predicate_is_refused_for_its_first_bad_pointer(c@[n - 1]);
        let a = all_pointers(c, n - 1);
        let b = pointers_of(c@[n - 1]);
        let all = all_pointers(c, n);
        match leaves_of_all(c, n - 1) {
            Err(e) => {
                let k = choose|k: int| #[trigger] first_bad(a, k, e);
                assert forall|i: int| 0 <= i < k implies pointer_tokens(
                    #[trigger] all[i],
                ) is Ok by {
                    assert(all[i] == a[i]);
                }
                assert(first_bad(all, k, e));
            },
            Ok(before) => {
                assert forall|i: int| 0 <= i < a.len() implies pointer_tokens(
                    #[trigger] all[i],
                ) is Ok by {
                    assert(all[i] == a[i]);
                    assert(pointer_tokens(a[i]) == Ok::<Seq<Seq<char>>, PointerParseError>(
                        before[i].pointer,
                    ));
                }
                match leaves_of(c@[n - 1]) {
                    Err(e) => {
                        let k = choose|k: int| #[trigger] first_bad(b, k, e);
                        assert(all[a.len() + k] == b[k]);
                        assert forall|i: int| 0 <= i < a.len() + k implies pointer_tokens(
                            #[trigger] all[i],
                        ) is Ok by {
                            if i >= a.len() {
                                assert(all[i] == b[i - a.len()]);
                            }
                        }
                        assert(first_bad(all, a.len() + k, e));
                    },
                    Ok(more) => {
                        let leaves = before + more;
                        assert forall|i: int| 0 <= i < leaves.len() implies pointer_tokens(
                            all[i],
                        ) == Ok::<Seq<Seq<char>>, PointerParseError>(
                            (#[trigger] leaves[i]).pointer,
                        ) by {
                            if i < a.len() {
                                assert(all[i] == a[i] && leaves[i] == before[i]);
                            } else {
                                assert(all[i] == b[i - a.len()]);
                                assert(leaves[i] == more[i - a.len()]);
                            }
                        }
                    },
                }
            },
        }
    }
}

/// A predicate holds where all the tests pass that it is compiled to.
pub proof fn law_a_predicate_is_all_its_tests(ir: PredicateIr, passes: spec_fn(LeafView) -> bool)
    requires
        leaves_of(ir) is Ok,
    ensures
        all_pass(leaves_of(ir)->Ok_0, passes) == meant(ir, passes),
    decreases ir,
{
    let leaves = leaves_of(ir)->Ok_0;
    match ir {
        PredicateIr::And { c } => lemma_all_meant(c, c@.len() as int, passes),
        _ => {
            assert(leaves.len() == 1);
            assert(all_pass(leaves, passes) == passes(leaves[0]));
        },
    }
}

proof fn lemma_all_meant(c: Vec<PredicateIr>, n: int, passes: spec_fn(LeafView) -> bool)
    requires
        leaves_of_all(c, n) is Ok,
        n <= c@.len(),
    ensures
        all_pass(leaves_of_all(c, n)->Ok_0, passes) == all_meant(c, n, passes),
    decreases c, n,
{
    if n > 0 {
        lemma_all_meant(c, n - 1, passes);
        law_a_predicate_is_all_its_tests(c@[n - 1], passes);
        let before = leaves_of_all(c, n - 1)->Ok_0;
        let more = leaves_of(c@[n - 1])->Ok_0;
        let all = before + more;
        if all_pass(all, passes) {
            assert forall|i: int| 0 <= i < before.len() implies passes(#[trigger] before[i]) by {
                assert(all[i] == before[i]);
            }
            assert forall|i: int| 0 <= i < more.len() implies passes(#[trigger] more[i]) by {
                assert(all[before.len() + i] == more[i]);
            }
        }
        if all_pass(before, passes) && all_pass(more, passes) {
            assert forall|i: int| 0 <= i < all.len() implies passes(#[trigger] all[i]) by {
                if i < before.len() {
                    assert(all[i] == before[i]);
                } else {
                    assert(all[i] == more[i - before.len()]);
                }
            }
        }
    }
}

} // verus!
