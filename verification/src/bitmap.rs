//! Per-block structural bitmap construction.
//!
//! Bitmaps are built one 64-byte block at a time, on the fly, by the walker -
//! never stored. [`structural_word`] turns a block into the bitmask of a single
//! structural byte's positions outside string literals, masking with the
//! `in_string` mask produced by [`crate::simd::scan_block`].

use vstd::prelude::*;

use crate::bits::{bit, lemma_bit_ops};
use crate::scan::{COMMA, LBRACE, LBRACKET, RBRACE, RBRACKET};
use crate::simd::{eq_mask, BLOCK_BYTES};

verus! {

/// A byte that gives a document its structure.
#[derive(Clone, Copy, Debug, PartialEq, Eq, Structural, Hash)]
pub enum StructuralByte {
    Comma,
    LBrace,
    RBrace,
    LBracket,
    RBracket,
}

impl StructuralByte {
    /// The byte that each kind stands for.
    pub open spec fn spec_byte(self) -> u8 {
        match self {
            StructuralByte::Comma => COMMA,
            StructuralByte::LBrace => LBRACE,
            StructuralByte::RBrace => RBRACE,
            StructuralByte::LBracket => LBRACKET,
            StructuralByte::RBracket => RBRACKET,
        }
    }

    pub fn byte(self) -> (b: u8)
        ensures
            b == self.spec_byte(),
    {
        match self {
            Self::Comma => COMMA,
            Self::LBrace => LBRACE,
            Self::RBrace => RBRACE,
            Self::LBracket => LBRACKET,
            Self::RBracket => RBRACKET,
        }
    }
}

/// Structural bitmap for a single 64-byte block: bits set where `kind`'s byte
/// occurs outside a string literal. Masks out positions covered by `in_string`
/// (the closing-quote-exclusive string mask from [`crate::simd::scan_block`]).
pub fn structural_word(block: &[u8; BLOCK_BYTES], in_string: u64, kind: StructuralByte) -> (word:
    u64)
    ensures
        forall|i: int|
            0 <= i < 64 ==> bit(word, i) == (#[trigger] block@[i] == kind.spec_byte() && !bit(
                in_string,
                i,
            )),
{
    let raw: u64 = eq_mask(block, kind.byte());
    let word: u64 = raw & !in_string;
    proof {
        assert forall|i: int| 0 <= i < 64 implies bit(word, i) == (#[trigger] block@[i]
            == kind.spec_byte() && !bit(in_string, i)) by {
            lemma_bit_ops(raw, !in_string, i);
            lemma_bit_ops(in_string, in_string, i);
        }
    }
    word
}

} // verus!
