use bote::bitmap::{structural_word, StructuralByte};
use bote::simd::{scan_block, ScanCarry, BLOCK_BYTES};

fn bit_positions(word: u64) -> Vec<usize> {
    let mut positions = Vec::new();
    let mut bits = word;
    while bits != 0 {
        positions.push(bits.trailing_zeros() as usize);
        bits &= bits - 1;
    }
    positions
}

fn block(s: &[u8]) -> [u8; BLOCK_BYTES] {
    let mut b = [b' '; BLOCK_BYTES];
    b[..s.len()].copy_from_slice(s);
    b
}

#[test]
fn masks_in_string_and_picks_byte() {
    // `{"k":"a,b{c}"}` - structural chars inside the string value must be masked.
    let b = block(b"{\"k\":\"a,b{c}\"}");
    let (in_string, _) = scan_block(&b, ScanCarry::default());
    assert_eq!(
        bit_positions(structural_word(&b, in_string, StructuralByte::Comma)),
        Vec::<usize>::new(),
        "interior comma masked",
    );
    assert_eq!(
        bit_positions(structural_word(&b, in_string, StructuralByte::LBrace)),
        vec![0],
        "only the outer {{",
    );
    assert_eq!(
        bit_positions(structural_word(&b, in_string, StructuralByte::RBrace)),
        vec![13],
        "only the outer }}",
    );
}

#[test]
fn each_kind_picks_only_its_byte() {
    let b = block(b"[1,2,3]");
    let (in_string, _) = scan_block(&b, ScanCarry::default());
    for kind in [
        StructuralByte::Comma,
        StructuralByte::LBrace,
        StructuralByte::RBrace,
        StructuralByte::LBracket,
        StructuralByte::RBracket,
    ] {
        let positions = bit_positions(structural_word(&b, in_string, kind));
        let expected: Vec<usize> = (0..7).filter(|&i| b[i] == kind.byte()).collect();
        assert_eq!(positions, expected, "kind {kind:?}");
    }
}

#[test]
fn carry_inside_string_masks_leading_structurals() {
    // Block begins inside a string (carry) that closes at the `"`, then `,1`.
    let b = block(b"end\",1");
    let entry = ScanCarry {
        prev_escaped: 0,
        inside_string: !0,
    };
    let (in_string, _) = scan_block(&b, entry);
    // The comma at byte 4 is outside the string; nothing before it.
    assert_eq!(
        bit_positions(structural_word(&b, in_string, StructuralByte::Comma)),
        vec![4],
    );
}
