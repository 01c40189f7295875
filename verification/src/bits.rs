//! Bits of a 64-bit word.

use vstd::prelude::*;
use vstd::std_specs::bits::{axiom_u64_trailing_zeros, u64_trailing_zeros};

verus! {

/// Bit `i` of `w`.
pub open spec fn bit(w: u64, i: int) -> bool {
    (w >> (i as u64)) & 1u64 == 1u64
}

/// How many of the bits `i..64` of `w` are set.
pub open spec fn ones_from(w: u64, i: int) -> nat
    decreases 64 - i,
{
    if i >= 64 {
        0
    } else {
        (if bit(w, i) { 1nat } else { 0nat }) + ones_from(w, i + 1)
    }
}

/// `u64::count_ones`: the number of set bits of the word.
pub assume_specification[ u64::count_ones ](w: u64) -> (r: u32)
    ensures
        r == ones_from(w, 0),
;

/// Nothing is counted where no bit is set.
pub proof fn lemma_ones_from_zero(w: u64, i: int)
    requires
        0 <= i <= 64,
        forall|k: int| i <= k < 64 ==> !bit(w, k),
    ensures
        ones_from(w, i) == 0,
    decreases 64 - i,
{
    if i < 64 {
        lemma_ones_from_zero(w, i + 1);
    }
}

/// A word without set bits is zero.
pub proof fn lemma_zero_word(w: u64)
    ensures
        w == 0 <==> (forall|i: int| 0 <= i < 64 ==> !bit(w, i)),
{
    if w == 0 {
        assert forall|i: int| 0 <= i < 64 implies !bit(w, i) by {
            let k = i as u64;
            assert((0u64 >> k) & 1u64 == 0u64) by (bit_vector);
        }
    }
    if w != 0 {
        axiom_u64_trailing_zeros(w);
        assert(bit(w, u64_trailing_zeros(w) as int));
    }
}

/// The least set bit of a word that is not zero.
pub proof fn lemma_trailing_zeros(w: u64)
    requires
        w != 0,
    ensures
        0 <= u64_trailing_zeros(w) < 64,
        bit(w, u64_trailing_zeros(w) as int),
        forall|i: int| 0 <= i < u64_trailing_zeros(w) ==> !bit(w, i),
{
    axiom_u64_trailing_zeros(w);
    assert forall|i: int| 0 <= i < u64_trailing_zeros(w) implies !bit(w, i) by {
        let k = i as u64;
        assert((w >> k) & 1u64 == 0u64);
    }
}

/// Bits of the bitwise operations.
pub proof fn lemma_bit_ops(a: u64, b: u64, i: int)
    requires
        0 <= i < 64,
    ensures
        bit(a & b, i) == (bit(a, i) && bit(b, i)),
        bit(a | b, i) == (bit(a, i) || bit(b, i)),
        bit(a ^ b, i) == (bit(a, i) != bit(b, i)),
        bit(!a, i) == !bit(a, i),
{
    let k = i as u64;
    assert(((a & b) >> k) & 1u64 == ((a >> k) & 1u64) & ((b >> k) & 1u64)) by (bit_vector);
    assert(((a | b) >> k) & 1u64 == ((a >> k) & 1u64) | ((b >> k) & 1u64)) by (bit_vector);
    assert(((a ^ b) >> k) & 1u64 == ((a >> k) & 1u64) ^ ((b >> k) & 1u64)) by (bit_vector);
    assert(k < 64 ==> ((!a) >> k) & 1u64 == 1u64 - ((a >> k) & 1u64)) by (bit_vector);
    let x = (a >> k) & 1u64;
    let y = (b >> k) & 1u64;
    assert((a >> k) & 1u64 <= 1u64) by (bit_vector);
    assert((b >> k) & 1u64 <= 1u64) by (bit_vector);
    assert(x <= 1 && y <= 1 ==> (x & y == 1u64 <==> x == 1 && y == 1) && (x | y == 1u64 <==> x == 1
        || y == 1) && (x ^ y == 1u64 <==> x != y)) by (bit_vector);
}

/// Bits of a word shifted left by one.
pub proof fn lemma_bit_shl1(a: u64, i: int)
    requires
        0 <= i < 64,
    ensures
        bit(a << 1u64, i) == (i > 0 && bit(a, i - 1)),
{
    let k = i as u64;
    assert(k == 0 ==> ((a << 1u64) >> k) & 1u64 == 0u64) by (bit_vector);
    if i > 0 {
        let j = (i - 1) as u64;
        assert(k < 64 && k == j + 1 ==> ((a << 1u64) >> k) & 1u64 == (a >> j) & 1u64)
            by (bit_vector);
    }
}

/// A word with one bit set.
pub proof fn lemma_bit_single(t: u64, i: int)
    requires
        t < 64,
        0 <= i < 64,
    ensures
        bit(1u64 << t, i) == (i == t),
{
    let k = i as u64;
    assert(k < 64 && t < 64 ==> (((1u64 << t) >> k) & 1u64 == 1u64 <==> k == t)) by (bit_vector);
}

/// The low `n` bits of a mask.
pub proof fn lemma_low_mask(n: u64, i: int)
    requires
        n < 64,
        0 <= i < 64,
    ensures
        1u64 << n >= 1,
        bit(((1u64 << n) - 1) as u64, i) == (i < n),
{
    let k = i as u64;
    assert(n < 64 ==> 1u64 << n >= 1u64) by (bit_vector);
    assert(k < 64 && n < 64 ==> (((((1u64 << n) - 1) as u64) >> k) & 1u64 == 1u64 <==> k < n))
        by (bit_vector);
}

/// Clearing the least set bit leaves the others as they were.
pub proof fn lemma_clear_lowest(w: u64, i: int)
    requires
        w != 0,
        0 <= i < 64,
    ensures
        bit(w & (w - 1) as u64, i) == (bit(w, i) && i != u64_trailing_zeros(w)),
{
    lemma_trailing_zeros(w);
    let t = u64_trailing_zeros(w) as u64;
    let k = i as u64;
    axiom_u64_trailing_zeros(w);
    assert(w << ((64 - t) as u64) == 0);
    assert(w != 0 && k < 64 && t < 64 && (w >> t) & 1u64 == 1u64 && w << ((64 - t) as u64) == 0u64
        ==> (((w & (w - 1) as u64) >> k) & 1u64 == 1u64 <==> ((w >> k) & 1u64 == 1u64 && k != t)))
        by (bit_vector);
}

} // verus!
