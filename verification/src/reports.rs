//! How errors are put: the lines and the words, told case by case.

use vstd::prelude::*;

use crate::chunks::ReaderError;
use crate::cursor::error_line;
use crate::pointer::PointerParseError;
use crate::predicate::PredicateError;
use crate::resolve::PathFault;
use crate::select::SelectError;
use crate::session::SessionError;
use crate::source::{reply_fault, SourceError};
use crate::text::decimal;
use crate::walker::{JsonFaultCode, TraverseError};

verus! {

/// The number that decimal digits spell, the most significant first.
pub open spec fn spelled_number(digits: Seq<char>) -> int
    decreases digits.len(),
{
    if digits.len() == 0 {
        0
    } else {
        spelled_number(digits.drop_last()) * 10 + (digits.last() as int - '0' as int)
    }
}

/// A number is put in decimal: its digits spell it, without a zero in front of others.
pub proof fn law_a_number_is_put_in_decimal(n: nat)
    ensures
        spelled_number(decimal(n)) == n,
        decimal(n).len() > 0,
        decimal(n)[0] == '0' ==> n == 0 && decimal(n).len() == 1,
        forall|i: int| 0 <= i < decimal(n).len() ==> '0' <= #[trigger] decimal(n)[i] <= '9',
    decreases n,
{
    let t = decimal(n);
    if n < 10 {
        assert(t.drop_last() =~= Seq::empty());
        assert(spelled_number(t.drop_last()) == 0);
    } else {
        law_a_number_is_put_in_decimal(n / 10);
        let init = decimal(n / 10);
        assert(t.drop_last() =~= init);
        assert(t[0] == init[0]);
        assert forall|i: int| 0 <= i < t.len() implies '0' <= #[trigger] t[i] <= '9' by {
            if i < init.len() {
                assert(t[i] == init[i]);
            }
        }
    }
}

/// The line of an error: its code after `bote:`, with the place of the step at fault, or
/// the reason that a source gave, after another colon; and words where it has no code.
pub proof fn law_lines_name_the_fault(e: SessionError)
    ensures
        match e {
            SessionError::Path(PathFault::ThroughScalar { segment }) => error_line(e) == "bote:"@
                + "through_scalar"@ + ":"@ + decimal(segment as nat),
            SessionError::Path(PathFault::WrongKind { segment }) => error_line(e) == "bote:"@
                + "wrong_kind"@ + ":"@ + decimal(segment as nat),
            SessionError::Path(PathFault::ScalarTarget) => error_line(e) == "bote:"@
                + "scalar_target"@,
            SessionError::Traverse(TraverseError::Malformed(_)) => error_line(e) == "bote:"@
                + "malformed_json"@,
            SessionError::Traverse(TraverseError::UnexpectedEof(_)) => error_line(e) == "bote:"@
                + "unexpected_eof"@,
            SessionError::Traverse(TraverseError::Pending(miss)) => error_line(e)
                == "traversal error: "@ + ("chunk at offset "@ + decimal(miss.0 as nat)
                + " not loaded"@),
            SessionError::Reader(ReaderError::ByteStream(SourceError::Io(reason))) => error_line(e)
                == "bote:source_io:"@ + reason@,
            SessionError::Reader(
                ReaderError::ByteStream(SourceError::OutOfBounds { offset, size }),
            ) => error_line(e) == "read offset "@ + decimal(offset as nat)
                + " is past end of source (size "@ + decimal(size as nat) + ")"@,
            SessionError::Reader(ReaderError::InvalidChunkSize(n)) => error_line(e)
                == "chunk size must be a non-zero multiple of 64, got "@ + decimal(n as nat),
            SessionError::Select(SelectError::Json(reason)) => error_line(e)
                == "invalid select JSON: "@ + reason@,
        },
{
    reveal_strlit("");
    if let SessionError::Path(fault) = e {
        match fault {
            PathFault::ThroughScalar { segment } => {
                assert(error_line(e) =~= "bote:"@ + "through_scalar"@ + ":"@ + decimal(
                    segment as nat,
                ));
            },
            PathFault::WrongKind { segment } => {
                assert(error_line(e) =~= "bote:"@ + "wrong_kind"@ + ":"@ + decimal(
                    segment as nat,
                ));
            },
            PathFault::ScalarTarget => {},
        }
    }
    if let SessionError::Reader(ReaderError::InvalidChunkSize(n)) = e {
        assert(error_line(e) =~= "chunk size must be a non-zero multiple of 64, got "@ + decimal(
            n as nat,
        ));
    }
}

/// The code of each fault, and the step that it names, where it names one.
pub proof fn law_codes_name_the_fault(fault: PathFault)
    ensures
        match fault {
            PathFault::ThroughScalar { segment } => fault.spec_fault().spec_text()
                == "through_scalar"@ && fault.spec_segment() == Some(segment),
            PathFault::WrongKind { segment } => fault.spec_fault().spec_text() == "wrong_kind"@
                && fault.spec_segment() == Some(segment),
            PathFault::ScalarTarget => fault.spec_fault().spec_text() == "scalar_target"@
                && fault.spec_segment() is None,
        },
        fault.spec_code() == fault.spec_fault().spec_text() + (match fault.spec_segment() {
            Some(segment) => ":"@ + decimal(segment as nat),
            None => Seq::empty(),
        }),
        JsonFaultCode::MalformedJson.spec_text() == "malformed_json"@,
        JsonFaultCode::UnexpectedEof.spec_text() == "unexpected_eof"@,
{
    assert(fault.spec_code() =~= fault.spec_fault().spec_text() + (match fault.spec_segment() {
        Some(segment) => ":"@ + decimal(segment as nat),
        None => Seq::empty(),
    }));
}

/// The words of an error of a session are those of what went wrong, after where it did.
pub proof fn law_words_of_a_session(e: SessionError)
    ensures
        match e {
            SessionError::Traverse(t) => e.spec_message() == "traversal error: "@
                + t.spec_message(),
            SessionError::Reader(ReaderError::ByteStream(SourceError::Io(reason))) =>
                e.spec_message() == "source I/O error: "@ + reason@,
            SessionError::Reader(r) => e.spec_message() == r.spec_message(),
            SessionError::Path(fault) => e.spec_message() == fault.spec_code(),
            SessionError::Select(s) => e.spec_message() == s.spec_message(),
        },
{
}

/// The words of a fault of the document name the offset at which it lies.
pub proof fn law_words_name_the_offset(at: u64)
    ensures
        TraverseError::UnexpectedEof(at).spec_message() == "unexpected end of input at offset "@
            + decimal(at as nat),
        TraverseError::Malformed(at).spec_message() == "malformed JSON at offset "@ + decimal(
            at as nat,
        ),
{
    reveal_strlit("");
    assert(TraverseError::UnexpectedEof(at).spec_message() =~= "unexpected end of input at offset "@
        + decimal(at as nat));
    assert(TraverseError::Malformed(at).spec_message() =~= "malformed JSON at offset "@ + decimal(
        at as nat,
    ));
}

/// The words of a pointer that cannot be read, and of a predicate.
pub proof fn law_words_name_what_cannot_be_read(e: PointerParseError, p: PredicateError)
    ensures
        e.spec_message() == (match e {
            PointerParseError::MissingLeadingSlash =>
                "JSON pointer must be empty or start with '/'"@,
            PointerParseError::InvalidEscape { escape } => "invalid escape '~"@ + seq![escape]
                + "' (only ~0 and ~1 are valid)"@,
            PointerParseError::DanglingTilde => "dangling '~' at end of reference token"@,
        }),
        p.spec_message() == (match p {
            PredicateError::Json(reason) => "invalid predicate JSON: "@ + reason@,
            PredicateError::Pointer(pe) => "invalid predicate pointer: "@ + pe.spec_message(),
        }),
{
    if let PointerParseError::InvalidEscape { escape } = e {
        assert(e.spec_message() =~= "invalid escape '~"@ + seq![escape]
            + "' (only ~0 and ~1 are valid)"@);
    }
}

/// A reply of a source is taken where it is no longer than what was asked for, and brings
/// something, signals the end, or was not to bring anything.
pub proof fn law_which_replies_are_taken(offset: u64, length: usize, got: usize, eof: bool)
    ensures
        reply_fault(offset, length, got, eof) is None <==> got <= length && (got > 0 || eof
            || length == 0),
        got > length ==> reply_fault(offset, length, got, eof) == Some(
            "read() returned "@ + decimal(got as nat) + " bytes for a "@ + decimal(length as nat)
                + "-byte request"@,
        ),
        got == 0 && !eof && length > 0 ==> reply_fault(offset, length, got, eof) == Some(
            "read() returned 0 bytes for a "@ + decimal(length as nat)
                + "-byte request at offset "@ + decimal(offset as nat) + " without signaling eof"@,
        ),
{
}

} // verus!
