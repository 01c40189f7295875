//! RFC 6901 JSON Pointer parser.

use vstd::prelude::*;
use vstd::string::StringExecFns;

verus! {

/// `String::push`: the character is appended to the end of the string.
pub assume_specification[ std::string::String::push ](s: &mut std::string::String, c: char)
    ensures
        final(s)@ == old(s)@.push(c),
;

/// A parsed pointer: its reference tokens, unescaped.
#[derive(Debug, Clone, PartialEq, Eq)]
pub struct JsonPointer {
    tokens: Vec<String>,
}

/// Why a text is no pointer.
#[derive(Debug, Clone, Copy, PartialEq, Eq, Structural)]
pub enum PointerParseError {
    MissingLeadingSlash,
    InvalidEscape { escape: char },
    DanglingTilde,
}

impl PointerParseError {
    /// The text of [`PointerParseError::message`].
    pub open spec fn spec_message(self) -> Seq<char> {
        match self {
            PointerParseError::MissingLeadingSlash =>
                "JSON pointer must be empty or start with '/'"@,
            PointerParseError::InvalidEscape { escape } => "invalid escape '~"@.push(escape)
                + "' (only ~0 and ~1 are valid)"@,
            PointerParseError::DanglingTilde => "dangling '~' at end of reference token"@,
        }
    }

    /// The error in words.
    pub fn message(&self) -> (s: String)
        ensures
            s@ == self.spec_message(),
    {
        let mut s: String = String::new();
        match self {
            PointerParseError::MissingLeadingSlash => s.append(
                "JSON pointer must be empty or start with '/'",
            ),
            PointerParseError::InvalidEscape { escape } => {
                s.append("invalid escape '~");
                s.push(*escape);
                s.append("' (only ~0 and ~1 are valid)");
            },
            PointerParseError::DanglingTilde => s.append("dangling '~' at end of reference token"),
        }
        assert(s@ =~= self.spec_message());
        s
    }
}

/// The place of the first slash from `i` on, or the length of the text.
pub open spec fn slash_from(s: Seq<char>, i: int) -> int
    decreases s.len() - i,
{
    if i >= s.len() {
        s.len() as int
    } else if s[i] == '/' {
        i
    } else {
        slash_from(s, i + 1)
    }
}

/// The parts of a text between its slashes.
pub open spec fn parts(s: Seq<char>) -> Seq<Seq<char>>
    decreases s.len(),
    via parts_shrink
{
    let i = slash_from(s, 0);
    if i >= s.len() {
        seq![s]
    } else {
        seq![s.take(i)] + parts(s.skip(i + 1))
    }
}

#[via_fn]
proof fn parts_shrink(s: Seq<char>) {
    lemma_slash(s, 0);
}

proof fn lemma_slash(s: Seq<char>, i: int)
    requires
        0 <= i <= s.len(),
    ensures
        i <= slash_from(s, i) <= s.len(),
    decreases s.len() - i,
{
    if i < s.len() && s[i] != '/' {
        lemma_slash(s, i + 1);
    }
}

/// A reference token with its escapes resolved: `~0` stands for a tilde, `~1` for a
/// slash.
pub open spec fn unescaped(raw: Seq<char>) -> Result<Seq<char>, PointerParseError>
    decreases raw.len(),
{
    if raw.len() == 0 {
        Ok(raw)
    } else if raw[0] != '~' {
        match unescaped(raw.skip(1)) {
            Ok(rest) => Ok(seq![raw[0]] + rest),
            Err(e) => Err(e),
        }
    } else if raw.len() == 1 {
        Err(PointerParseError::DanglingTilde)
    } else if raw[1] == '0' || raw[1] == '1' {
        let c = if raw[1] == '0' {
            '~'
        } else {
            '/'
        };
        match unescaped(raw.skip(2)) {
            Ok(rest) => Ok(seq![c] + rest),
            Err(e) => Err(e),
        }
    } else {
        Err(PointerParseError::InvalidEscape { escape: raw[1] })
    }
}

/// A reference token as a pointer spells it.
pub open spec fn escaped(token: Seq<char>) -> Seq<char>
    decreases token.len(),
{
    if token.len() == 0 {
        token
    } else {
        (if token[0] == '~' {
            seq!['~', '0']
        } else if token[0] == '/' {
            seq!['~', '1']
        } else {
            seq![token[0]]
        }) + escaped(token.skip(1))
    }
}

/// Every token can be spelled, and its spelling is read back as the token.
pub proof fn law_spelling_is_read_back(token: Seq<char>)
    ensures
        unescaped(escaped(token)) == Ok::<Seq<char>, PointerParseError>(token),
        !escaped(token).contains('/'),
    decreases token.len(),
{
    if token.len() > 0 {
        let rest = token.skip(1);
        law_spelling_is_read_back(rest);
        let out = escaped(token);
        let tail = escaped(rest);
        assert(seq![token[0]] + rest =~= token);
        assert forall|i: int| 0 <= i < out.len() implies out[i] != '/' by {
            let n = out.len() - tail.len();
            if i >= n {
                assert(out[i] == tail[i - n]);
                assert(tail.contains(tail[i - n]));
            }
        }
        if token[0] == '~' || token[0] == '/' {
            assert(out[0] == '~');
            assert(out.skip(2) =~= tail);
        } else {
            assert(out.skip(1) =~= tail);
        }
    }
}

/// The tokens of some parts, or the error of the first part that has one.
pub open spec fn all_unescaped(raws: Seq<Seq<char>>) -> Result<Seq<Seq<char>>, PointerParseError>
    decreases raws.len(),
{
    if raws.len() == 0 {
        Ok(Seq::empty())
    } else {
        match all_unescaped(raws.drop_last()) {
            Err(e) => Err(e),
            Ok(tokens) => match unescaped(raws.last()) {
                Err(e) => Err(e),
                Ok(token) => Ok(tokens.push(token)),
            },
        }
    }
}

/// The tokens of a pointer: none for the empty text, otherwise one for each part
/// after the leading slash.
pub open spec fn pointer_tokens(input: Seq<char>) -> Result<Seq<Seq<char>>, PointerParseError> {
    if input.len() == 0 {
        Ok(Seq::empty())
    } else if input[0] != '/' {
        Err(PointerParseError::MissingLeadingSlash)
    } else {
        all_unescaped(parts(input.skip(1)))
    }
}

/// A pointer in writing: each of its tokens after a slash, as a pointer spells it.
pub open spec fn spelled(tokens: Seq<Seq<char>>) -> Seq<char>
    decreases tokens.len(),
{
    if tokens.len() == 0 {
        Seq::empty()
    } else {
        seq!['/'] + escaped(tokens[0]) + spelled(tokens.drop_first())
    }
}

/// The spellings of some tokens.
spec fn spellings(tokens: Seq<Seq<char>>) -> Seq<Seq<char>> {
    tokens.map_values(|t: Seq<char>| escaped(t))
}

proof fn lemma_slash_is(s: Seq<char>, i: int, n: int)
    requires
        0 <= i <= n <= s.len(),
        forall|k: int| i <= k < n ==> s[k] != '/',
        n < s.len() ==> s[n] == '/',
    ensures
        slash_from(s, i) == n,
    decreases n - i,
{
    if i < n {
        lemma_slash_is(s, i + 1, n);
    }
}

/// The parts of a pointer in writing are the spellings of its tokens.
proof fn lemma_spelled_parts(tokens: Seq<Seq<char>>)
    requires
        tokens.len() > 0,
    ensures
        spelled(tokens).len() > 0,
        spelled(tokens)[0] == '/',
        parts(spelled(tokens).skip(1)) == spellings(tokens),
    decreases tokens.len(),
{
    let first = escaped(tokens[0]);
    let rest = tokens.drop_first();
    let body = spelled(tokens).skip(1);
    assert(body =~= first + spelled(rest));
    law_spelling_is_read_back(tokens[0]);
    assert forall|k: int| 0 <= k < first.len() implies body[k] != '/' by {
        assert(body[k] == first[k]);
        assert(first.contains(first[k]));
    }
    if rest.len() > 0 {
        lemma_spelled_parts(rest);
        assert(body[first.len() as int] == spelled(rest)[0]);
        lemma_slash_is(body, 0, first.len() as int);
        assert(body.take(first.len() as int) =~= first);
        assert(body.skip(first.len() as int + 1) =~= spelled(rest).skip(1));
        assert(spellings(tokens) =~= seq![first] + spellings(rest));
    } else {
        assert(body =~= first);
        lemma_slash_is(body, 0, first.len() as int);
        assert(spellings(tokens) =~= seq![first]);
    }
}

/// Spellings are read back, all of them.
proof fn lemma_spellings(tokens: Seq<Seq<char>>)
    ensures
        all_unescaped(spellings(tokens)) == Ok::<Seq<Seq<char>>, PointerParseError>(tokens),
    decreases tokens.len(),
{
    if tokens.len() > 0 {
        lemma_spellings(tokens.drop_last());
        assert(spellings(tokens).drop_last() =~= spellings(tokens.drop_last()));
        law_spelling_is_read_back(tokens.last());
        assert(tokens.drop_last().push(tokens.last()) =~= tokens);
    } else {
        assert(tokens =~= Seq::empty());
    }
}

/// Every list of tokens can be written as a pointer, and the pointer is read back as
/// those tokens.
pub proof fn law_a_pointer_is_read_back(tokens: Seq<Seq<char>>)
    ensures
        pointer_tokens(spelled(tokens)) == Ok::<Seq<Seq<char>>, PointerParseError>(tokens),
{
    if tokens.len() > 0 {
        lemma_spelled_parts(tokens);
        lemma_spellings(tokens);
    } else {
        assert(tokens =~= Seq::empty());
    }
}

/// The texts that some strings hold.
pub open spec fn texts(strings: Seq<String>) -> Seq<Seq<char>> {
    strings.map_values(|s: String| s@)
}

impl View for JsonPointer {
    type V = Seq<Seq<char>>;

    closed spec fn view(&self) -> Seq<Seq<char>> {
        texts(self.tokens@)
    }
}

/// The characters of a text.
fn characters(s: &str) -> (out: Vec<char>)
    ensures
        out@ == s@,
{
    let mut out: Vec<char> = Vec::new();
    for c in it: s.chars()
        invariant
            it.seq() == s@,
            out@ == s@.take(it.index()),
    {
        out.push(c);
        assert(out@ =~= s@.take(it.index() + 1));
    }
    assert(s@.take(s@.len() as int) =~= s@);
    out
}

/// The characters `from..to` with their escapes resolved.
fn unescape_token(raw: &Vec<char>, from: usize, to: usize) -> (r: Result<String, PointerParseError>)
    requires
        from <= to <= raw@.len(),
    ensures
        match r {
            Ok(s) => unescaped(raw@.subrange(from as int, to as int)) == Ok::<
                Seq<char>,
                PointerParseError,
            >(s@),
            Err(e) => unescaped(raw@.subrange(from as int, to as int)) == Err::<
                Seq<char>,
                PointerParseError,
            >(e),
        },
{
    let mut out: String = String::new();
    let mut i: usize = from;
    while i < to
        invariant
            from <= i <= to <= raw@.len(),
            match unescaped(raw@.subrange(i as int, to as int)) {
                Ok(rest) => unescaped(raw@.subrange(from as int, to as int)) == Ok::<
                    Seq<char>,
                    PointerParseError,
                >(out@ + rest),
                Err(e) => unescaped(raw@.subrange(from as int, to as int)) == Err::<
                    Seq<char>,
                    PointerParseError,
                >(e),
            },
        decreases to - i,
    {
        let ghost rest = raw@.subrange(i as int, to as int);
        let ghost before = out@;
        let c: char = raw[i];
        assert(rest[0] == c);
        if c != '~' {
            out.push(c);
            i = i + 1;
            assert(rest.skip(1) =~= raw@.subrange(i as int, to as int));
            assert(forall|t: Seq<char>| before + (seq![c] + t) =~= #[trigger] (out@ + t));
            continue;
        }
        if to - i == 1 {
            return Err(PointerParseError::DanglingTilde);
        }
        let escape: char = raw[i + 1];
        assert(rest[1] == escape);
        if escape == '0' {
            out.push('~');
        } else if escape == '1' {
            out.push('/');
        } else {
            return Err(PointerParseError::InvalidEscape { escape });
        }
        i = i + 2;
        assert(rest.skip(2) =~= raw@.subrange(i as int, to as int));
        let ghost put = if escape == '0' {
            '~'
        } else {
            '/'
        };
        assert(forall|t: Seq<char>| before + (seq![put] + t) =~= #[trigger] (out@ + t));
    }
    assert(raw@.subrange(i as int, to as int) =~= Seq::empty());
    assert(out@ + Seq::<char>::empty() =~= out@);
    Ok(out)
}

proof fn lemma_all_unescaped_push(raws: Seq<Seq<char>>, raw: Seq<char>)
    ensures
        all_unescaped(raws.push(raw)) == (match all_unescaped(raws) {
            Err(e) => Err(e),
            Ok(tokens) => match unescaped(raw) {
                Err(e) => Err(e),
                Ok(token) => Ok(tokens.push(token)),
            },
        }),
{
    assert(raws.push(raw).drop_last() =~= raws);
}

/// An error among the first parts is the error of them all.
proof fn lemma_all_unescaped_error(a: Seq<Seq<char>>, b: Seq<Seq<char>>)
    requires
        all_unescaped(a) is Err,
    ensures
        all_unescaped(a + b) == all_unescaped(a),
    decreases b.len(),
{
    if b.len() == 0 {
        assert(a + b =~= a);
    } else {
        lemma_all_unescaped_error(a, b.drop_last());
        assert((a + b).drop_last() =~= a + b.drop_last());
    }
}

impl JsonPointer {
    pub fn parse(input: &str) -> (r: Result<Self, PointerParseError>)
        ensures
            match r {
                Ok(p) => pointer_tokens(input@) == Ok::<Seq<Seq<char>>, PointerParseError>(p@),
                Err(e) => pointer_tokens(input@) == Err::<Seq<Seq<char>>, PointerParseError>(e),
            },
    {
        let chars: Vec<char> = characters(input);
        let mut tokens: Vec<String> = Vec::new();
        if chars.len() == 0 {
            let p = JsonPointer { tokens };
            assert(p@ =~= Seq::empty());
            return Ok(p);
        }
        if chars[0] != '/' {
            return Err(PointerParseError::MissingLeadingSlash);
        }
        let ghost body = input@.skip(1);
        let ghost mut done: Seq<Seq<char>> = Seq::empty();
        let mut from: usize = 1;
        assert(texts(tokens@) =~= Seq::empty());
        assert(chars@.skip(1) =~= body);
        assert(done + parts(body) =~= parts(body));
        loop
            invariant
                chars@ == input@,
                1 <= from <= chars@.len(),
                body == input@.skip(1),
                input@.len() > 0,
                input@[0] == '/',
                all_unescaped(done) == Ok::<Seq<Seq<char>>, PointerParseError>(texts(tokens@)),
                parts(body) == done + parts(chars@.skip(from as int)),
            decreases chars@.len() - from,
        {
            let ghost rest = chars@.skip(from as int);
            let mut to: usize = from;
            while to < chars.len() && chars[to] != '/'
                invariant
                    from <= to <= chars@.len(),
                    rest == chars@.skip(from as int),
                    slash_from(rest, 0) == slash_from(rest, to - from),
                decreases chars@.len() - to,
            {
                assert(rest[to - from] == chars@[to as int]);
                to = to + 1;
            }
            let ghost raw = chars@.subrange(from as int, to as int);
            proof {
                if to < chars@.len() {
                    assert(rest[to - from] == chars@[to as int]);
                }
                assert(slash_from(rest, 0) == to - from);
                assert(rest.take(to - from) =~= raw);
            }
            let token = unescape_token(&chars, from, to);
            proof {
                lemma_all_unescaped_push(done, raw);
            }
            match token {
                Err(e) => {
                    proof {
                        let more = parts(rest).skip(1);
                        assert(parts(rest) =~= seq![raw] + more);
                        assert(parts(body) =~= done.push(raw) + more);
                        lemma_all_unescaped_error(done.push(raw), more);
                    }
                    return Err(e);
                },
                Ok(text) => {
                    let ghost before = texts(tokens@);
                    tokens.push(text);
                    assert(texts(tokens@) =~= before.push(text@));
                },
            }
            if to >= chars.len() {
                proof {
                    assert(parts(rest) =~= seq![raw]);
                    assert(parts(body) =~= done.push(raw));
                }
                return Ok(JsonPointer { tokens });
            }
            proof {
                assert(rest.skip(to - from + 1) =~= chars@.skip(to + 1));
                assert(parts(body) =~= done.push(raw) + parts(chars@.skip(to + 1)));
                done = done.push(raw);
            }
            from = to + 1;
        }
    }

    pub fn tokens(&self) -> (t: &[String])
        ensures
            texts(t@) == self@,
    {
        self.tokens.as_slice()
    }
}

// ---- tokens as indices

/// The number that decimal digits spell.
pub open spec fn digits_value(digits: Seq<u8>) -> nat
    decreases digits.len(),
{
    if digits.len() == 0 {
        0
    } else {
        10 * digits_value(digits.drop_last()) + (digits.last() - 0x30) as nat
    }
}

pub open spec fn is_digit(b: u8) -> bool {
    0x30 <= b <= 0x39
}

/// The index that the bytes of a token spell: decimal digits without a leading zero,
/// of a number that a machine word holds.
pub open spec fn index_of(token: Seq<u8>) -> Option<usize> {
    if token.len() == 0 || (token[0] == 0x30 && token.len() > 1) || !(forall|i: int|
        0 <= i < token.len() ==> is_digit(#[trigger] token[i])) || digits_value(token)
        > usize::MAX {
        None
    } else {
        Some(digits_value(token) as usize)
    }
}

/// More digits spell no smaller a number.
proof fn lemma_digits_grow(digits: Seq<u8>, n: int)
    requires
        0 <= n <= digits.len(),
        forall|i: int| 0 <= i < digits.len() ==> is_digit(#[trigger] digits[i]),
    ensures
        digits_value(digits.take(n)) <= digits_value(digits),
    decreases digits.len() - n,
{
    if n < digits.len() {
        lemma_digits_grow(digits, n + 1);
        assert(digits.take(n + 1).drop_last() =~= digits.take(n));
        assert(is_digit(digits[n]));
    } else {
        assert(digits.take(n) =~= digits);
    }
}

/// A token is an index where it is the decimal text of a number that a machine word holds,
/// and the index is that number.
pub proof fn law_an_index_is_a_decimal(token: Seq<u8>, n: usize)
    ensures
        index_of(token) == Some(n) <==> crate::json::is_decimal(token, n as int),
        index_of(token) is None <==> !(exists|k: usize| #[trigger]
            crate::json::is_decimal(token, k as int)),
{
    if crate::json::is_digits(token) {
        assert forall|i: int| 0 <= i < token.len() implies is_digit(#[trigger] token[i]) by {}
        lemma_same_value(token);
    }
    if index_of(token) is Some {
        let k = index_of(token)->0;
        assert forall|i: int| 0 <= i < token.len() implies 0x30 <= #[trigger] token[i] <= 0x39 by {
            assert(is_digit(token[i]));
        }
        assert(crate::json::is_digits(token));
        lemma_same_value(token);
        assert(crate::json::is_decimal(token, k as int));
    }
}

proof fn lemma_same_value(token: Seq<u8>)
    requires
        forall|i: int| 0 <= i < token.len() ==> is_digit(#[trigger] token[i]),
    ensures
        digits_value(token) == crate::json::digits_value(token),
    decreases token.len(),
{
    if token.len() > 0 {
        let init = token.drop_last();
        assert forall|i: int| 0 <= i < init.len() implies is_digit(#[trigger] init[i]) by {
            assert(init[i] == token[i]);
        }
        assert(is_digit(token[token.len() - 1]));
        lemma_same_value(init);
    }
}

/// `~0` stands for a tilde and `~1` for a slash, and every other character but a tilde for
/// itself, wherever in a token they come.
pub proof fn law_what_escapes_stand_for(rest: Seq<char>, c: char)
    ensures
        match unescaped(rest) {
            Ok(text) => {
                &&& unescaped(seq!['~', '0'] + rest) == Ok::<Seq<char>, PointerParseError>(
                    seq!['~'] + text,
                )
                &&& unescaped(seq!['~', '1'] + rest) == Ok::<Seq<char>, PointerParseError>(
                    seq!['/'] + text,
                )
                &&& c != '~' ==> unescaped(seq![c] + rest) == Ok::<Seq<char>, PointerParseError>(
                    seq![c] + text,
                )
            },
            Err(e) => {
                &&& unescaped(seq!['~', '0'] + rest) == Err::<Seq<char>, PointerParseError>(e)
                &&& unescaped(seq!['~', '1'] + rest) == Err::<Seq<char>, PointerParseError>(e)
                &&& c != '~' ==> unescaped(seq![c] + rest) == Err::<Seq<char>, PointerParseError>(e)
            },
        },
        unescaped(Seq::empty()) == Ok::<Seq<char>, PointerParseError>(Seq::empty()),
{
    assert((seq!['~', '0'] + rest).skip(2) =~= rest);
    assert((seq!['~', '1'] + rest).skip(2) =~= rest);
    assert((seq![c] + rest).skip(1) =~= rest);
}

/// Parts put together again, a slash between them.
pub open spec fn slash_joined(parts: Seq<Seq<char>>) -> Seq<char>
    decreases parts.len(),
{
    if parts.len() == 0 {
        Seq::empty()
    } else if parts.len() == 1 {
        parts[0]
    } else {
        parts[0] + seq!['/'] + slash_joined(parts.drop_first())
    }
}

/// The parts of a text are what stands between its slashes: none of them holds a slash,
/// and put together they make the text.
pub proof fn law_parts_stand_between_slashes(text: Seq<char>)
    ensures
        parts(text).len() > 0,
        slash_joined(parts(text)) == text,
        forall|i: int| 0 <= i < parts(text).len() ==> !(#[trigger] parts(text)[i]).contains('/'),
    decreases text.len(),
{
    let n = slash_from(text, 0);
    lemma_first_slash(text, 0);
    let out = parts(text);
    if n >= text.len() {
        assert(out == seq![text]);
    } else {
        let rest = text.skip(n + 1);
        law_parts_stand_between_slashes(rest);
        assert(out.drop_first() =~= parts(rest));
        assert(text =~= text.take(n) + seq!['/'] + rest);
        assert forall|i: int| 0 <= i < out.len() implies !(#[trigger] out[i]).contains('/') by {
            if i > 0 {
                assert(out[i] == parts(rest)[i - 1]);
            }
        }
    }
}

proof fn lemma_first_slash(s: Seq<char>, i: int)
    requires
        0 <= i <= s.len(),
    ensures
        i <= slash_from(s, i) <= s.len(),
        forall|k: int| i <= k < slash_from(s, i) ==> s[k] != '/',
        slash_from(s, i) < s.len() ==> s[slash_from(s, i)] == '/',
    decreases s.len() - i,
{
    if i < s.len() && s[i] != '/' {
        lemma_first_slash(s, i + 1);
    }
}

/// A pointer has a token for each part after its leading slash; where a part is no token,
/// the first such part is the one that is reported.
pub proof fn law_the_first_bad_token_is_reported(input: Seq<char>)
    requires
        input.len() > 0,
        input[0] == '/',
    ensures
        ({
            let raws = parts(input.skip(1));
            match pointer_tokens(input) {
                Ok(tokens) => tokens.len() == raws.len() && forall|i: int|
                    0 <= i < raws.len() ==> unescaped(raws[i]) == Ok::<
                        Seq<char>,
                        PointerParseError,
                    >(#[trigger] tokens[i]),
                Err(e) => exists|n: int|
                    0 <= n < raws.len() && unescaped(#[trigger] raws[n]) == Err::<
                        Seq<char>,
                        PointerParseError,
                    >(e) && forall|i: int| 0 <= i < n ==> unescaped(#[trigger] raws[i]) is Ok,
            }
        }),
{
    lemma_first_bad(parts(input.skip(1)));
}

proof fn lemma_first_bad(raws: Seq<Seq<char>>)
    ensures
        match all_unescaped(raws) {
            Ok(tokens) => tokens.len() == raws.len() && forall|i: int|
                0 <= i < raws.len() ==> unescaped(raws[i]) == Ok::<Seq<char>, PointerParseError>(
                    #[trigger] tokens[i],
                ),
            Err(e) => exists|n: int|
                0 <= n < raws.len() && unescaped(#[trigger] raws[n]) == Err::<
                    Seq<char>,
                    PointerParseError,
                >(e) && forall|i: int| 0 <= i < n ==> unescaped(#[trigger] raws[i]) is Ok,
        },
    decreases raws.len(),
{
    if raws.len() > 0 {
        let init = raws.drop_last();
        lemma_first_bad(init);
        match all_unescaped(init) {
            Ok(before) => {
                assert forall|i: int| 0 <= i < init.len() implies unescaped(
                    #[trigger] raws[i],
                ) is Ok by {
                    assert(init[i] == raws[i]);
                    assert(unescaped(init[i]) == Ok::<Seq<char>, PointerParseError>(before[i]));
                }
                match unescaped(raws.last()) {
                    Ok(token) => {
                        let tokens = all_unescaped(raws)->Ok_0;
                        assert forall|i: int| 0 <= i < raws.len() implies unescaped(
                            raws[i],
                        ) == Ok::<Seq<char>, PointerParseError>(#[trigger] tokens[i]) by {
                            if i < init.len() {
                                assert(tokens[i] == before[i]);
                                assert(init[i] == raws[i]);
                            }
                        }
                    },
                    Err(e) => {
                        assert(raws[raws.len() - 1] == raws.last());
                    },
                }
            },
            Err(e) => {
                let n = choose|n: int|
                    0 <= n < init.len() && unescaped(#[trigger] init[n]) == Err::<
                        Seq<char>,
                        PointerParseError,
                    >(e) && forall|i: int| 0 <= i < n ==> unescaped(#[trigger] init[i]) is Ok;
                assert(raws[n] == init[n]);
                assert forall|i: int| 0 <= i < n implies unescaped(#[trigger] raws[i]) is Ok by {
                    assert(init[i] == raws[i]);
                }
            },
        }
    }
}

/// A tilde that ends a token, or that neither `0` nor `1` follows, is reported, whatever
/// stands before it.
pub proof fn law_a_bad_escape_is_reported(token: Seq<char>, escape: char, rest: Seq<char>)
    ensures
        unescaped(escaped(token) + seq!['~']) == Err::<Seq<char>, PointerParseError>(
            PointerParseError::DanglingTilde,
        ),
        escape != '0' && escape != '1' ==> unescaped(escaped(token) + seq!['~', escape] + rest)
            == Err::<Seq<char>, PointerParseError>(PointerParseError::InvalidEscape { escape }),
    decreases token.len(),
{
    let a = escaped(token) + seq!['~'];
    let b = escaped(token) + seq!['~', escape] + rest;
    if token.len() > 0 {
        let tail = token.skip(1);
        law_a_bad_escape_is_reported(tail, escape, rest);
        let x = escaped(tail) + seq!['~'];
        let y = escaped(tail) + seq!['~', escape] + rest;
        if token[0] == '~' || token[0] == '/' {
            assert(a[0] == '~' && b[0] == '~');
            assert(a.skip(2) =~= x);
            assert(b.skip(2) =~= y);
        } else {
            assert(a.skip(1) =~= x);
            assert(b.skip(1) =~= y);
        }
    } else {
        assert(a =~= seq!['~']);
        assert(b =~= seq!['~', escape] + rest);
    }
}

/// A text that neither is empty nor begins with a slash is no pointer, and that is what is
/// reported of it.
pub proof fn law_a_pointer_begins_with_a_slash(input: Seq<char>)
    requires
        input.len() > 0,
    ensures
        input[0] != '/' <==> pointer_tokens(input) == Err::<Seq<Seq<char>>, PointerParseError>(
            PointerParseError::MissingLeadingSlash,
        ),
{
    if input[0] == '/' {
        lemma_no_missing_slash(parts(input.skip(1)));
    }
}

proof fn lemma_no_missing_slash(raws: Seq<Seq<char>>)
    ensures
        all_unescaped(raws) != Err::<Seq<Seq<char>>, PointerParseError>(
            PointerParseError::MissingLeadingSlash,
        ),
    decreases raws.len(),
{
    if raws.len() > 0 {
        lemma_no_missing_slash(raws.drop_last());
        lemma_no_missing_slash_in(raws.last());
    }
}

proof fn lemma_no_missing_slash_in(raw: Seq<char>)
    ensures
        unescaped(raw) != Err::<Seq<char>, PointerParseError>(
            PointerParseError::MissingLeadingSlash,
        ),
    decreases raw.len(),
{
    if raw.len() > 0 {
        if raw[0] != '~' {
            lemma_no_missing_slash_in(raw.skip(1));
        } else if raw.len() > 1 {
            lemma_no_missing_slash_in(raw.skip(2));
        }
    }
}

pub fn token_as_array_index(token: &str) -> (r: Option<usize>)
    ensures
        r == index_of(vstd::utf8::encode_utf8(token@)),
{
    let bytes: &[u8] = token.as_bytes();
    if bytes.len() == 0 {
        return None;
    }
    if bytes[0] == 0x30 {
        if bytes.len() == 1 {
            assert(bytes@.drop_last() =~= Seq::empty());
            assert(digits_value(bytes@.drop_last()) == 0);
            return Some(0);
        }
        return None;
    }
    let mut i: usize = 0;
    while i < bytes.len()
        invariant
            i <= bytes@.len(),
            bytes@ == vstd::utf8::encode_utf8(token@),
            forall|k: int| 0 <= k < i ==> is_digit(#[trigger] bytes@[k]),
        decreases bytes@.len() - i,
    {
        if bytes[i] < 0x30 || bytes[i] > 0x39 {
            assert(!is_digit(bytes@[i as int]));
            return None;
        }
        i = i + 1;
    }
    let mut value: usize = 0;
    let mut n: usize = 0;
    assert(bytes@.take(0) =~= Seq::empty());
    while n < bytes.len()
        invariant
            n <= bytes@.len(),
            bytes@ == vstd::utf8::encode_utf8(token@),
            forall|k: int| 0 <= k < bytes@.len() ==> is_digit(#[trigger] bytes@[k]),
            value == digits_value(bytes@.take(n as int)),
            bytes@.len() > 0,
        decreases bytes@.len() - n,
    {
        proof {
            assert(bytes@.take(n + 1).drop_last() =~= bytes@.take(n as int));
            assert(is_digit(bytes@[n as int]));
            lemma_digits_grow(bytes@, n + 1);
        }
        let digit: usize = (bytes[n] - 0x30) as usize;
        if value > usize::MAX / 10 || 10 * value > usize::MAX - digit {
            return None;
        }
        value = 10 * value + digit;
        n = n + 1;
    }
    assert(bytes@.take(n as int) =~= bytes@);
    Some(value)
}

} // verus!
