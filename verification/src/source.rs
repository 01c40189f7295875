//! What a source of bytes answers to `read(offset, length)`.

use bytes::Bytes;
use vstd::prelude::*;
use vstd::string::StringExecFns;

use crate::text::{decimal, push_decimal};

verus! {

/// An immutable, shared run of bytes.
#[verifier::external_type_specification]
#[verifier::external_body]
pub struct ExBytes(Bytes);

/// The bytes that a [`Bytes`] holds.
pub uninterp spec fn content(b: Bytes) -> Seq<u8>;

/// `Bytes::deref`: the bytes held, as a slice.
#[verifier::external_body]
pub(crate) fn bytes_of(b: &Bytes) -> (s: &[u8])
    ensures
        s@ == content(*b),
{
    &b[..]
}

/// `Bytes::copy_from_slice`: a value of its own that holds a copy of `data`.
#[verifier::external_body]
pub(crate) fn copied(data: &[u8]) -> (b: Bytes)
    ensures
        content(b) == data@,
{
    Bytes::copy_from_slice(data)
}

/// `Bytes::slice`: the bytes `from..to`, which must lie within `b`.
#[verifier::external_body]
pub(crate) fn sliced(b: &Bytes, from: usize, to: usize) -> (r: Bytes)
    requires
        from <= to <= content(*b).len(),
    ensures
        content(r) == content(*b).subrange(from as int, to as int),
{
    b.slice(from..to)
}

/// The bytes that a read brought, and whether they reach the end of the source.
#[derive(Debug)]
pub struct ReadOutcome {
    pub bytes: Bytes,
    pub eof: bool,
}

#[derive(Debug)]
pub enum SourceError {
    OutOfBounds { offset: u64, size: u64 },
    Io(String),
}

impl SourceError {
    /// The text of [`SourceError::message`].
    pub open spec fn spec_message(self) -> Seq<char> {
        match self {
            SourceError::OutOfBounds { offset, size } => "read offset "@ + decimal(offset as nat)
                + " is past end of source (size "@ + decimal(size as nat) + ")"@,
            SourceError::Io(reason) => "source I/O error: "@ + reason@,
        }
    }

    /// The error in words.
    pub fn message(&self) -> (s: String)
        ensures
            s@ == self.spec_message(),
    {
        let mut s: String = String::new();
        match self {
            SourceError::OutOfBounds { offset, size } => {
                s.append("read offset ");
                push_decimal(&mut s, *offset);
                s.append(" is past end of source (size ");
                push_decimal(&mut s, *size);
                s.append(")");
            },
            SourceError::Io(reason) => {
                s.append("source I/O error: ");
                s.append(reason.as_str());
            },
        }
        assert(s@ =~= self.spec_message());
        s
    }
}

#[derive(Debug, Clone, Copy, PartialEq, Eq, Structural)]
pub enum SourceFaultCode {
    SourceIo,
}

impl SourceFaultCode {
    pub fn as_str(self) -> (s: &'static str)
        ensures
            s@ == "source_io"@,
    {
        match self {
            Self::SourceIo => "source_io",
        }
    }
}

/// Why a reply of `got` bytes to a request for `length` bytes at `offset` is
/// not acceptable, if it is not: it is longer than what was asked for, or it is
/// empty although bytes were asked for and the end was not signalled.
pub open spec fn reply_fault(offset: u64, length: usize, got: usize, eof: bool) -> Option<
    Seq<char>,
> {
    if got > length {
        Some(
            "read() returned "@ + decimal(got as nat) + " bytes for a "@ + decimal(length as nat)
                + "-byte request"@,
        )
    } else if got == 0 && length > 0 && !eof {
        Some(
            "read() returned 0 bytes for a "@ + decimal(length as nat) + "-byte request at offset "@
                + decimal(offset as nat) + " without signaling eof"@,
        )
    } else {
        None
    }
}

/// Check the size of a reply against the request. A non-eof read must make
/// progress: 0 bytes without `eof` is a stuck source, not the end. (With `eof`,
/// 0 bytes legitimately means end-of-stream.)
pub fn check_reply(offset: u64, length: usize, got: usize, eof: bool) -> (r: Result<
    (),
    SourceError,
>)
    ensures
        match reply_fault(offset, length, got, eof) {
            None => r == Ok::<(), SourceError>(()),
            Some(text) => r matches Err(SourceError::Io(reason)) && reason@ == text,
        },
{
    if got > length {
        let mut s: String = String::new();
        s.append("read() returned ");
        push_decimal(&mut s, got as u64);
        s.append(" bytes for a ");
        push_decimal(&mut s, length as u64);
        s.append("-byte request");
        assert(s@ =~= reply_fault(offset, length, got, eof)->0);
        return Err(SourceError::Io(s));
    }
    if got == 0 && length > 0 && !eof {
        let mut s: String = String::new();
        s.append("read() returned 0 bytes for a ");
        push_decimal(&mut s, length as u64);
        s.append("-byte request at offset ");
        push_decimal(&mut s, offset);
        s.append(" without signaling eof");
        assert(s@ =~= reply_fault(offset, length, got, eof)->0);
        return Err(SourceError::Io(s));
    }
    Ok(())
}

/// What a source that holds `data` answers: the bytes from `offset`, at most
/// `length` of them, and whether they reach the end; an error past the end.
pub open spec fn is_read_of(
    data: Seq<u8>,
    offset: u64,
    length: usize,
    r: Result<ReadOutcome, SourceError>,
) -> bool {
    let size = data.len();
    if offset > size {
        r matches Err(e) && e == (SourceError::OutOfBounds { offset, size: size as u64 })
    } else {
        let end = if offset + length <= size {
            offset + length
        } else {
            size as int
        };
        r matches Ok(out) && content(out.bytes) == data.subrange(offset as int, end) && out.eof == (
        end == size)
    }
}

fn read_from(data: &Bytes, offset: u64, length: usize) -> (r: Result<ReadOutcome, SourceError>)
    ensures
        is_read_of(content(*data), offset, length, r),
{
    let held: usize = bytes_of(data).len();
    let size: u64 = held as u64;
    if offset > size {
        return Err(SourceError::OutOfBounds { offset, size });
    }
    let start: usize = offset as usize;
    let end: usize = if length <= held - start {
        start + length
    } else {
        held
    };
    Ok(ReadOutcome { bytes: sliced(data, start, end), eof: end >= held })
}

/// Source of known size backed by an owned buffer.
pub struct InMemoryStream {
    data: Bytes,
}

impl View for InMemoryStream {
    type V = Seq<u8>;

    closed spec fn view(&self) -> Seq<u8> {
        content(self.data)
    }
}

impl InMemoryStream {
    pub fn new(data: Vec<u8>) -> (s: Self)
        ensures
            s@ == data@,
    {
        InMemoryStream { data: copied(data.as_slice()) }
    }

    pub fn size(&self) -> (n: Option<u64>)
        ensures
            n == Some(self@.len() as u64),
            self@.len() <= u64::MAX,
    {
        Some(bytes_of(&self.data).len() as u64)
    }

    pub fn read(&self, offset: u64, length: usize) -> (r: Result<ReadOutcome, SourceError>)
        ensures
            is_read_of(self@, offset, length, r),
    {
        read_from(&self.data, offset, length)
    }
}

/// Source backed by an owned buffer that does not tell its size: a reader finds
/// the end from `eof`.
pub struct ForwardStream {
    data: Bytes,
}

impl View for ForwardStream {
    type V = Seq<u8>;

    closed spec fn view(&self) -> Seq<u8> {
        content(self.data)
    }
}

impl ForwardStream {
    pub fn new(data: Vec<u8>) -> (s: Self)
        ensures
            s@ == data@,
    {
        ForwardStream { data: copied(data.as_slice()) }
    }

    pub fn size(&self) -> (n: Option<u64>)
        ensures
            n is None,
    {
        None
    }

    pub fn read(&self, offset: u64, length: usize) -> (r: Result<ReadOutcome, SourceError>)
        ensures
            is_read_of(self@, offset, length, r),
    {
        read_from(&self.data, offset, length)
    }
}

} // verus!
