use bote::source::{ForwardStream, InMemoryStream, SourceError};

#[test]
fn in_memory_basic_read() {
    let src = InMemoryStream::new(b"hello, world".to_vec());
    assert_eq!(src.size(), Some(12));
    let chunk = src.read(0, 5).unwrap();
    assert_eq!(&chunk.bytes[..], b"hello");
    assert!(!chunk.eof, "a read short of the end is not eof");
}

#[test]
fn in_memory_read_clipped_to_size() {
    let src = InMemoryStream::new(b"abc".to_vec());
    let chunk = src.read(1, 100).unwrap();
    assert_eq!(&chunk.bytes[..], b"bc");
    assert!(chunk.eof, "a read reaching the end is eof");
}

#[test]
fn in_memory_read_at_exact_end_returns_empty() {
    let src = InMemoryStream::new(b"abc".to_vec());
    let chunk = src.read(3, 16).unwrap();
    assert!(chunk.bytes.is_empty());
    assert!(chunk.eof);
}

#[test]
fn in_memory_read_past_end_is_error() {
    let src = InMemoryStream::new(b"abc".to_vec());
    let err = src.read(4, 1).unwrap_err();
    assert!(matches!(
        err,
        SourceError::OutOfBounds { offset: 4, size: 3 }
    ));
}

#[test]
fn forward_stream_reports_no_size_and_eof_at_end() {
    let src = ForwardStream::new(b"abcde".to_vec());
    assert_eq!(src.size(), None, "a forward source has no known size");
    let mid = src.read(0, 3).unwrap();
    assert_eq!(&mid.bytes[..], b"abc");
    assert!(!mid.eof);
    let tail = src.read(3, 100).unwrap();
    assert_eq!(&tail.bytes[..], b"de");
    assert!(tail.eof, "the read reaching the end declares eof");
}
