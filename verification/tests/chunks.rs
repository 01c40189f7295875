use bote::chunks::{ChunkMiss, ChunkReader, ChunkWindow, ReaderError};
use bote::source::{ForwardStream, InMemoryStream};
use bytes::Bytes;

fn window(chunk_bytes: u64, source: &[u8]) -> ChunkWindow {
    let mut w = ChunkWindow::new(chunk_bytes, source.len() as u64);
    let mut off = 0u64;
    while (off as usize) < source.len() {
        let end = (off as usize + chunk_bytes as usize).min(source.len());
        w.insert(off, Bytes::copy_from_slice(&source[off as usize..end]));
        off += chunk_bytes;
    }
    w
}

#[test]
fn window_chunk_for_returns_bytes_or_miss() {
    let source: Vec<u8> = (0..128).map(|i| (i % 251) as u8).collect();
    let w = window(64, &source);
    assert_eq!(w.chunk_for(0).unwrap()[0], 0);
    assert_eq!(w.chunk_for(64).unwrap()[0], 64);
    assert_eq!(w.chunk_for(128).unwrap_err(), ChunkMiss(128));
}

#[test]
fn window_drop_below_evicts_lower_chunks() {
    let source: Vec<u8> = (0..256).map(|i| (i % 251) as u8).collect();
    let mut w = window(64, &source);
    assert_eq!(w.len(), 4);
    w.drop_below(130); // chunk containing 130 is 128; keep >= 128
    assert!(!w.contains(0));
    assert!(!w.contains(64));
    assert!(w.contains(128));
    assert!(w.contains(192));
    assert_eq!(w.len(), 2);
}

/// A source of `size` bytes and a reader of its chunks.
fn reader(size: usize, chunk: usize) -> (ChunkReader, InMemoryStream) {
    let data: Vec<u8> = (0..size).map(|i| (i % 251) as u8).collect();
    (ChunkReader::new(chunk).unwrap(), InMemoryStream::new(data))
}

/// Make the reads of a burst; the chunks, the end if one was found, and how many
/// reads it took, so that coalescing is directly observable.
fn read_chunks(
    reader: &ChunkReader,
    source: &InMemoryStream,
    start: u64,
    n: u64,
) -> (Vec<(u64, Bytes)>, Option<u64>, usize) {
    let mut reads = 0;
    let mut burst = reader.read_chunks(start, n);
    while let Some((offset, length)) = burst.next_request() {
        reads += 1;
        burst.absorb(source.read(offset, length).unwrap());
    }
    let (chunks, discovered) = burst.finish();
    (chunks, discovered, reads)
}

#[test]
fn reader_coalesces_contiguous_run_into_one_read() {
    // 4 MiB cap dwarfs the 512 B span, so 8 chunks fold into one read
    let (reader, source) = reader(512, 64);
    let (chunks, discovered, reads) = read_chunks(&reader, &source, 0, 8);
    assert_eq!(chunks.len(), 8, "one entry per chunk in the span");
    assert_eq!(discovered, Some(512), "the full read reaches the end");
    assert_eq!(reads, 1, "8 chunks coalesce into one read");
    for (i, (off, data)) in chunks.iter().enumerate() {
        assert_eq!(*off, (i * 64) as u64);
        assert_eq!(data.len(), 64);
        assert_eq!(
            &data[..],
            &(0..512).map(|b| (b % 251) as u8).collect::<Vec<_>>()[i * 64..i * 64 + 64]
        );
    }
}

#[test]
fn reader_clamps_span_to_source_end() {
    // 4 full chunks + a 20-byte partial tail; ask for 8.
    let (reader, source) = reader(64 * 4 + 20, 64);
    let (chunks, discovered, _) = read_chunks(&reader, &source, 0, 8);
    assert_eq!(chunks.len(), 5, "4 full chunks + 1 partial tail");
    assert_eq!(chunks.last().unwrap().0, 256);
    assert_eq!(chunks.last().unwrap().1.len(), 20, "tail chunk is partial");
    assert_eq!(
        discovered,
        Some(64 * 4 + 20),
        "end discovered from the short read"
    );
}

#[test]
fn reader_discovers_eof_for_unsized_source() {
    // Same shape behind a forward (unknown-size) source: the reader learns the
    // end from the source's eof, not from a size clamp.
    let data: Vec<u8> = (0..64 * 4 + 20).map(|i| (i % 251) as u8).collect();
    let source = ForwardStream::new(data);
    let reader = ChunkReader::new(64).unwrap();
    let mut burst = reader.read_chunks(0, 8);
    while let Some((offset, length)) = burst.next_request() {
        burst.absorb(source.read(offset, length).unwrap());
    }
    let (chunks, discovered) = burst.finish();
    assert_eq!(chunks.len(), 5, "4 full chunks + 1 partial tail");
    assert_eq!(chunks.last().unwrap().1.len(), 20, "tail chunk is partial");
    assert_eq!(discovered, Some(64 * 4 + 20), "end discovered from eof");
}

#[test]
fn reader_per_chunk_bytes_are_independent_allocations() {
    // can't observe the allocator; copy_from_slice gives each chunk its own
    // Bytes, so dropping one can't keep the others alive.
    let (reader, source) = reader(512, 64);
    let (chunks, _discovered, _) = read_chunks(&reader, &source, 0, 8);
    for (_, data) in &chunks {
        assert_eq!(data.len(), 64);
    }
}

#[test]
fn reader_rejects_invalid_chunk_size() {
    assert!(matches!(
        ChunkReader::new(63).err().expect("rejects 63"),
        ReaderError::InvalidChunkSize(63)
    ));
    assert!(matches!(
        ChunkReader::new(0).err().expect("rejects 0"),
        ReaderError::InvalidChunkSize(0)
    ));
}
