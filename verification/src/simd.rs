//! String masks of 64-byte blocks: which bytes of a block lie inside a string
//! literal, and what the next block has to know.

use vstd::prelude::*;

use crate::bits::bit;
use crate::bits::{lemma_bit_ops, lemma_bit_shl1, lemma_bit_single};
use crate::scan::{lex, lex_step, Lex, BACKSLASH, QUOTE};

verus! {

/// Width of one scan window, in bytes. One window produces 64 bitmap bits.
pub const BLOCK_BYTES: usize = 64;

/// Carry state propagated between consecutive 64-byte blocks.
#[derive(Clone, Copy, Debug, PartialEq, Eq, Structural)]
pub struct ScanCarry {
    /// `1` iff the first byte of the next block is escaped by an odd-length
    /// backslash run that ended on the boundary; else `0`.
    pub prev_escaped: u64,
    /// All-ones if the next block begins inside a string literal; else 0.
    /// Stored as a full word so it can be XORed into the next block's
    /// parity-prefix in one op.
    pub inside_string: u64,
}

impl ScanCarry {
    /// The two words hold one of the two values that they are documented to hold.
    pub open spec fn wf(self) -> bool {
        &&& self.prev_escaped <= 1
        &&& self.inside_string == 0 || self.inside_string == u64::MAX
    }
}

impl View for ScanCarry {
    type V = Lex;

    open spec fn view(&self) -> Lex {
        Lex { escaped: self.prev_escaped == 1, inside: self.inside_string != 0 }
    }
}

impl Default for ScanCarry {
    /// Outside any string, nothing escaped.
    fn default() -> (c: Self)
        ensures
            c == (ScanCarry { prev_escaped: 0, inside_string: 0 }),
    {
        ScanCarry { prev_escaped: 0, inside_string: 0 }
    }
}

/// Whether byte `i` is escaped, when bit `k` of `backslash` says that byte `k`
/// is a backslash and `entry` that byte 0 is escaped.
pub open spec fn escaped_at(backslash: u64, entry: bool, i: int) -> bool
    decreases i,
{
    if i <= 0 {
        entry
    } else {
        !escaped_at(backslash, entry, i - 1) && bit(backslash, i - 1)
    }
}

/// The parity of the bits `0..=i` of `x`.
pub open spec fn parity(x: u64, i: int) -> bool
    decreases i + 1,
{
    if i < 0 {
        false
    } else {
        parity(x, i - 1) != bit(x, i)
    }
}

/// Mask of the positions at which `block` holds `byte`.
pub fn eq_mask(block: &[u8; BLOCK_BYTES], byte: u8) -> (mask: u64)
    ensures
        forall|i: int| 0 <= i < 64 ==> bit(mask, i) == (#[trigger] block@[i] == byte),
{
    let mut mask: u64 = 0;
    let mut n: usize = 0;
    proof {
        crate::bits::lemma_zero_word(0);
    }
    while n < BLOCK_BYTES
        invariant
            n <= 64,
            forall|i: int| 0 <= i < n ==> bit(mask, i) == (#[trigger] block@[i] == byte),
            forall|i: int| n <= i < 64 ==> !bit(mask, i),
        decreases 64 - n,
    {
        let ghost before = mask;
        if block[n] == byte {
            let k: u64 = n as u64;
            mask = mask | (1u64 << k);
            proof {
                assert forall|i: int| 0 <= i < 64 implies bit(mask, i) == (bit(before, i) || i
                    == n) by {
                    lemma_bit_ops(before, 1u64 << k, i);
                    lemma_bit_single(k, i);
                }
            }
        }
        n = n + 1;
    }
    mask
}

/// Scan one 64-byte window. Returns the `in_string` mask - bits set for
/// bytes inside a string literal, including the opening `"` but excluding
/// the closing `"`. Use `!in_string` to mask string contents out of
/// structural-character bitmaps.
pub fn scan_block(block: &[u8; BLOCK_BYTES], carry: ScanCarry) -> (r: (u64, ScanCarry))
    requires
        carry.wf(),
    ensures
        forall|i: int| 0 <= i < 64 ==> bit(r.0, i) == #[trigger] lex(block@, 0, i + 1, carry@).inside,
        r.1.wf(),
        r.1@ == lex(block@, 0, 64, carry@),
{
    let quote: u64 = eq_mask(block, QUOTE);
    let backslash: u64 = eq_mask(block, BACKSLASH);

    let (escaped, prev_escaped): (u64, u64) = find_escaped(backslash, carry.prev_escaped);
    let real_quote: u64 = quote & !escaped;
    let prefix: u64 = parity_prefix(real_quote);
    let in_string: u64 = prefix ^ carry.inside_string;

    let ends_inside: bool = in_string >= 0x8000_0000_0000_0000u64;
    let new_carry = ScanCarry {
        prev_escaped,
        inside_string: if ends_inside {
            u64::MAX
        } else {
            0
        },
    };
    proof {
        lemma_masks_follow_lex(
            block@,
            carry,
            quote,
            backslash,
            escaped,
            real_quote,
            in_string,
            64,
        );
        assert forall|i: int| 0 <= i < 64 implies bit(in_string, i) == #[trigger] lex(
            block@,
            0,
            i + 1,
            carry@,
        ).inside by {
            lemma_masks_follow_lex(
                block@,
                carry,
                quote,
                backslash,
                escaped,
                real_quote,
                in_string,
                i + 1,
            );
        }
        assert(in_string >= 0x8000_0000_0000_0000u64 <==> (in_string >> 63u64) & 1u64 == 1u64)
            by (bit_vector);
        assert(bit(in_string, 63) == lex(block@, 0, 64, carry@).inside);
    }
    (in_string, new_carry)
}

/// The first `n` bits of the masks say of the first `n` bytes what lexing them
/// one by one does.
proof fn lemma_masks_follow_lex(
    block: Seq<u8>,
    carry: ScanCarry,
    quote: u64,
    backslash: u64,
    escaped: u64,
    real_quote: u64,
    in_string: u64,
    n: int,
)
    requires
        0 <= n <= 64,
        carry.wf(),
        block.len() == 64,
        forall|i: int| 0 <= i < 64 ==> bit(quote, i) == (#[trigger] block[i] == QUOTE),
        forall|i: int| 0 <= i < 64 ==> bit(backslash, i) == (#[trigger] block[i] == BACKSLASH),
        forall|i: int|
            0 <= i < 64 ==> #[trigger] bit(escaped, i) == escaped_at(
                backslash,
                carry.prev_escaped == 1,
                i,
            ),
        real_quote == quote & !escaped,
        exists|prefix: u64|
            in_string == prefix ^ carry.inside_string && (forall|i: int|
                0 <= i < 64 ==> #[trigger] bit(prefix, i) == parity(real_quote, i)),
    ensures
        lex(block, 0, n, carry@).escaped == escaped_at(backslash, carry.prev_escaped == 1, n),
        lex(block, 0, n, carry@).inside == (parity(real_quote, n - 1) != carry@.inside),
        0 < n ==> bit(in_string, n - 1) == lex(block, 0, n, carry@).inside,
    decreases n,
{
    if n > 0 {
        lemma_masks_follow_lex(
            block,
            carry,
            quote,
            backslash,
            escaped,
            real_quote,
            in_string,
            n - 1,
        );
        let prefix = choose|prefix: u64|
            in_string == prefix ^ carry.inside_string && (forall|i: int|
                0 <= i < 64 ==> #[trigger] bit(prefix, i) == parity(real_quote, i));
        let i = n - 1;
        lemma_bit_ops(quote, !escaped, i);
        lemma_bit_ops(escaped, escaped, i);
        lemma_bit_ops(prefix, carry.inside_string, i);
        crate::bits::lemma_zero_word(0);
        let k = i as u64;
        assert(k < 64 ==> (u64::MAX >> k) & 1u64 == 1u64) by (bit_vector);
        assert(bit(carry.inside_string, i) == carry@.inside);
        let s = lex(block, 0, n - 1, carry@);
        assert(lex(block, 0, n, carry@) == lex_step(s, block[n - 1]));
        assert(bit(escaped, i) == s.escaped);
        assert(bit(prefix, i) == parity(real_quote, i));
    }
}

/// Returns `(escaped, prev_escaped_out)`: `escaped` is a bitmap of byte
/// positions that are escaped by an odd-length backslash run, and
/// `prev_escaped_out` is the carry-out bit (0 or 1) for the next block.
///
/// A run of backslashes that starts on an odd bit is carried past its end by
/// the addition; the bits it flips tell the runs of odd length apart.
pub fn find_escaped(backslash: u64, prev_escaped: u64) -> (r: (u64, u64))
    requires
        prev_escaped <= 1,
    ensures
        forall|i: int|
            0 <= i < 64 ==> #[trigger] bit(r.0, i) == escaped_at(backslash, prev_escaped == 1, i),
        r.1 <= 1,
        r.1 == 1 <==> escaped_at(backslash, prev_escaped == 1, 64),
{
    let even_bits: u64 = 0x5555_5555_5555_5555;

    let runs: u64 = backslash & !prev_escaped;
    let follows_escape: u64 = (runs << 1u64) | prev_escaped;
    let odd_sequence_starts: u64 = runs & !even_bits & !follows_escape;
    let sequences_starting_on_even_bits: u64 = odd_sequence_starts.wrapping_add(runs);
    let overflow: bool = sequences_starting_on_even_bits < runs;
    let invert_mask: u64 = sequences_starting_on_even_bits << 1u64;

    let escaped: u64 = (even_bits ^ invert_mask) & follows_escape;
    let carry_out: u64 = if overflow {
        1
    } else {
        0
    };
    proof {
        lemma_find_escaped(
            backslash,
            prev_escaped,
            runs,
            follows_escape,
            odd_sequence_starts,
            sequences_starting_on_even_bits,
            escaped,
        );
        assert forall|i: int| 0 <= i < 64 implies #[trigger] bit(escaped, i) == escaped_at(
            backslash,
            prev_escaped == 1,
            i,
        ) by {
            lemma_escaped_bits(backslash, prev_escaped, escaped, i);
        }
        lemma_escaped_bits(backslash, prev_escaped, escaped, 63);
        lemma_bit_ops(backslash, !escaped, 63);
        lemma_bit_ops(escaped, escaped, 63);
        let open = backslash & !escaped;
        assert(open >> 63u64 == 1u64 <==> (open >> 63u64) & 1u64 == 1u64) by (bit_vector);
    }
    (escaped, carry_out)
}

/// The word that the addition yields solves the recurrence of [`escaped_at`]:
/// a byte is escaped when the byte before it is a backslash that is not escaped.
proof fn lemma_find_escaped(
    backslash: u64,
    prev: u64,
    runs: u64,
    follows: u64,
    odd_starts: u64,
    sum: u64,
    escaped: u64,
)
    by (bit_vector)
    requires
        prev <= 1,
        runs == backslash & !prev,
        follows == (runs << 1u64) | prev,
        odd_starts == runs & !0x5555_5555_5555_5555u64 & !follows,
        odd_starts + runs == sum || odd_starts + runs == sum + 0x1_0000_0000_0000_0000,
        escaped == (0x5555_5555_5555_5555u64 ^ (sum << 1u64)) & follows,
    ensures
        escaped == ((backslash & !escaped) << 1u64) | prev,
        (sum < runs) == ((backslash & !escaped) >> 63u64 == 1u64),
{
}

proof fn lemma_escaped_bits(backslash: u64, prev: u64, escaped: u64, i: int)
    requires
        0 <= i < 64,
        prev <= 1,
        escaped == ((backslash & !escaped) << 1u64) | prev,
    ensures
        bit(escaped, i) == escaped_at(backslash, prev == 1, i),
    decreases i,
{
    let open = backslash & !escaped;
    lemma_bit_ops(open << 1u64, prev, i);
    lemma_bit_shl1(open, i);
    let k = i as u64;
    assert(prev <= 1 && k < 64 ==> ((prev >> k) & 1u64 == 1u64 <==> (k == 0 && prev == 1)))
        by (bit_vector);
    if i > 0 {
        lemma_escaped_bits(backslash, prev, escaped, i - 1);
        lemma_bit_ops(backslash, !escaped, i - 1);
        lemma_bit_ops(escaped, escaped, i - 1);
    }
}

/// SWAR parity-prefix scan: for each bit position `i`, output bit `i` equals
/// the XOR of input bits `0..=i`. Six shift-XOR pairs over a 64-bit word.
pub fn parity_prefix(x: u64) -> (r: u64)
    ensures
        forall|i: int| 0 <= i < 64 ==> #[trigger] bit(r, i) == parity(x, i),
{
    let x1: u64 = x ^ (x << 1u64);
    let x2: u64 = x1 ^ (x1 << 2u64);
    let x3: u64 = x2 ^ (x2 << 4u64);
    let x4: u64 = x3 ^ (x3 << 8u64);
    let x5: u64 = x4 ^ (x4 << 16u64);
    let r: u64 = x5 ^ (x5 << 32u64);
    proof {
        assert(r ^ (r << 1u64) == x) by (bit_vector)
            requires
                x1 == x ^ (x << 1u64),
                x2 == x1 ^ (x1 << 2u64),
                x3 == x2 ^ (x2 << 4u64),
                x4 == x3 ^ (x3 << 8u64),
                x5 == x4 ^ (x4 << 16u64),
                r == x5 ^ (x5 << 32u64),
        ;
        assert forall|i: int| 0 <= i < 64 implies #[trigger] bit(r, i) == parity(x, i) by {
            lemma_parity_bits(x, r, i);
        }
    }
    r
}

proof fn lemma_parity_bits(x: u64, r: u64, i: int)
    requires
        0 <= i < 64,
        r ^ (r << 1u64) == x,
    ensures
        bit(r, i) == parity(x, i),
    decreases i,
{
    lemma_bit_ops(r, r << 1u64, i);
    lemma_bit_shl1(r, i);
    if i > 0 {
        lemma_parity_bits(x, r, i - 1);
    } else {
        assert(!parity(x, -1));
    }
}

} // verus!
