//! Matching and decoding JSON object keys - the raw bytes of a member name's
//! string interior, between the quotes, escapes and all. Callers pass that
//! interior span directly; the surrounding quotes are structural and play no
//! part in the comparison.

use vstd::prelude::*;
use vstd::utf8::{decode_utf8, encode_utf8, encode_utf8_decode_utf8, valid_utf8};

use crate::scan::{BACKSLASH, QUOTE};

verus! {

/// What `serde_json::from_slice::<String>` reads from a token, or `None` where
/// it reports an error.
pub uninterp spec fn json_string(token: Seq<u8>) -> Option<Seq<char>>;

/// A token without escapes that stands between quotes reads as the bytes between them.
pub open spec fn reads_plainly(token: Seq<u8>, name: Seq<char>) -> bool {
    token.len() >= 2 && token[0] == QUOTE && token.last() == QUOTE && !token.contains(BACKSLASH)
        ==> encode_utf8(name) == token.subrange(1, token.len() - 1)
}

/// `serde_json::from_slice::<String>`: the string that the token spells, its
/// quotes removed and its escapes resolved. An escape is never shorter than what
/// it stands for, so the string is at least two bytes shorter than the token. Where
/// there is no escape, the string is made of the bytes between the quotes.
#[verifier::external_body]
pub(crate) fn parse_string(token: &[u8]) -> (r: Option<String>)
    ensures
        match r {
            Some(s) => json_string(token@) == Some(s@),
            None => json_string(token@) is None,
        },
        r matches Some(s) ==> encode_utf8(s@).len() + 2 <= token@.len(),
        r matches Some(s) ==> reads_plainly(token@, s@),
{
    serde_json::from_slice::<String>(token).ok()
}

/// What `serde_json::to_writer` writes for a string.
pub uninterp spec fn json_text(name: Seq<char>) -> Seq<u8>;

/// `serde_json::to_writer` of a string, into memory, where it does not fail: the
/// string between quotes, with its escapes. Reading it back gives the string.
#[verifier::external_body]
pub(crate) fn string_text(name: &str) -> (out: Vec<u8>)
    ensures
        out@ == json_text(name@),
        json_string(out@) == Some(name@),
{
    let mut out = Vec::new();
    serde_json::to_writer(&mut out, name).expect("serializing a &str to JSON is infallible");
    out
}

/// `std::str::from_utf8`: the bytes as text where they are valid UTF-8.
#[verifier::external_body]
pub(crate) fn utf8_text(bytes: &[u8]) -> (r: Option<&str>)
    ensures
        match r {
            Some(s) => valid_utf8(bytes@) && s@ == decode_utf8(bytes@),
            None => !valid_utf8(bytes@),
        },
{
    std::str::from_utf8(bytes).ok()
}

/// An interior back between its quotes.
pub open spec fn quoted(interior: Seq<u8>) -> Seq<u8> {
    seq![QUOTE] + interior + seq![QUOTE]
}

/// The name that an interior spells: its escapes resolved, if it has any; its
/// bytes as text otherwise. `None` on a malformed escape or invalid UTF-8.
pub open spec fn key_name(interior: Seq<u8>) -> Option<Seq<char>> {
    if interior.contains(BACKSLASH) {
        json_string(quoted(interior))
    } else if valid_utf8(interior) {
        Some(decode_utf8(interior))
    } else {
        None
    }
}

/// What [`compare`] answers, `None` for its error: an interior with escapes is decoded
/// first, and one without is compared byte by byte.
pub open spec fn key_matches(interior: Seq<u8>, target: Seq<char>) -> Option<bool> {
    if interior.contains(BACKSLASH) {
        match json_string(quoted(interior)) {
            Some(name) => Some(name == target),
            None => None,
        }
    } else {
        Some(interior == encode_utf8(target))
    }
}

/// Comparing an interior gives the same as decoding it and comparing the names, also
/// where an escape is malformed. Only an interior without escapes that is no text is
/// told apart from the target without being decoded.
pub proof fn law_compare_is_decoding(interior: Seq<u8>, target: Seq<char>)
    requires
        interior.contains(BACKSLASH) || valid_utf8(interior),
    ensures
        key_matches(interior, target) == (match key_name(interior) {
            Some(name) => Some(name == target),
            None => None,
        }),
{
    if !interior.contains(BACKSLASH) {
        vstd::utf8::decode_utf8_encode_utf8(interior);
        encode_utf8_decode_utf8(target);
    }
}

/// An interior without escapes is as long as the name that it spells.
pub proof fn law_plain_name_length(interior: Seq<u8>)
    requires
        !interior.contains(BACKSLASH),
        key_name(interior) is Some,
    ensures
        encode_utf8(key_name(interior)->0) == interior,
{
    vstd::utf8::decode_utf8_encode_utf8(interior);
}

/// Whether two byte strings are equal.
pub fn bytes_eq(a: &[u8], b: &[u8]) -> (r: bool)
    ensures
        r == (a@ == b@),
{
    if a.len() != b.len() {
        return false;
    }
    let mut i: usize = 0;
    while i < a.len()
        invariant
            i <= a@.len(),
            a@.len() == b@.len(),
            forall|k: int| 0 <= k < i ==> a@[k] == b@[k],
        decreases a@.len() - i,
    {
        if a[i] != b[i] {
            return false;
        }
        i = i + 1;
    }
    assert(a@ =~= b@);
    true
}

/// Whether two texts are equal.
pub fn text_eq(a: &str, b: &str) -> (r: bool)
    ensures
        r == (a@ == b@),
{
    proof {
        encode_utf8_decode_utf8(a@);
        encode_utf8_decode_utf8(b@);
    }
    bytes_eq(a.as_bytes(), b.as_bytes())
}

/// Does the raw interior of a JSON string equal `target`? Escape-free interiors
/// compare byte-for-byte; an escaped one is decoded first. `Err(())` on a
/// malformed escape, however short the interior, or on invalid UTF-8 in an escaped
/// one - the caller maps it to its own error.
pub fn compare(interior: &[u8], target: &str) -> (r: Result<bool, ()>)
    ensures
        match key_matches(interior@, target@) {
            Some(b) => r == Ok::<bool, ()>(b),
            None => r == Err::<bool, ()>(()),
        },
{
    if is_escaped(interior) {
        match decode_escaped(interior) {
            Ok(name) => Ok(text_eq(name.as_str(), target)),
            Err(()) => Err(()),
        }
    } else {
        Ok(bytes_eq(interior, target.as_bytes()))
    }
}

/// The name that an escape-free interior spells: its bytes as text.
pub fn decode_simple(interior: &[u8]) -> (r: Result<String, ()>)
    ensures
        match r {
            Ok(s) => valid_utf8(interior@) && s@ == decode_utf8(interior@),
            Err(()) => !valid_utf8(interior@),
        },
{
    match utf8_text(interior) {
        Some(s) => Ok(s.to_owned()),
        None => Err(()),
    }
}

/// The name that an interior spells once its escapes are resolved.
pub fn decode_escaped(interior: &[u8]) -> (r: Result<String, ()>)
    ensures
        match r {
            Ok(s) => json_string(quoted(interior@)) == Some(s@) && encode_utf8(s@).len()
                <= interior@.len(),
            Err(()) => json_string(quoted(interior@)) is None,
        },
{
    // The parser unescapes a *quoted* token, so wrap the interior back in quotes.
    let mut token: Vec<u8> = Vec::new();
    token.push(QUOTE);
    token.extend_from_slice(interior);
    token.push(QUOTE);
    assert(token@ =~= quoted(interior@));
    match parse_string(token.as_slice()) {
        Some(s) => Ok(s),
        None => Err(()),
    }
}

/// The name that an interior spells, escaped or not.
pub fn decode(interior: &[u8]) -> (r: Result<String, ()>)
    ensures
        match r {
            Ok(s) => key_name(interior@) == Some(s@) && encode_utf8(s@).len() <= interior@.len(),
            Err(()) => key_name(interior@) is None,
        },
{
    if is_escaped(interior) {
        decode_escaped(interior)
    } else {
        let r = decode_simple(interior);
        proof {
            if valid_utf8(interior@) {
                vstd::utf8::decode_utf8_encode_utf8(interior@);
            }
        }
        r
    }
}

/// Whether an interior holds an escape.
pub fn is_escaped(interior: &[u8]) -> (r: bool)
    ensures
        r == interior@.contains(BACKSLASH),
{
    let mut i: usize = 0;
    while i < interior.len()
        invariant
            i <= interior@.len(),
            forall|k: int| 0 <= k < i ==> interior@[k] != BACKSLASH,
        decreases interior@.len() - i,
    {
        if interior[i] == BACKSLASH {
            return true;
        }
        i = i + 1;
    }
    false
}

} // verus!
