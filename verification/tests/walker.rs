use bote::chunks::{ChunkMiss, ChunkWindow};
use bote::simd::ScanCarry;
use bote::walker::{skip_value_step, CommaStop, SkipState, TraverseError, Walker};
use bytes::Bytes;

/// Build a [`ChunkWindow`] holding every chunk of `source`.
fn window(source: &[u8], chunk_bytes: u64) -> ChunkWindow {
    let mut w = ChunkWindow::new(chunk_bytes, source.len() as u64);
    let mut off = 0u64;
    while (off as usize) < source.len() {
        let end = (off as usize + chunk_bytes as usize).min(source.len());
        w.insert(off, Bytes::copy_from_slice(&source[off as usize..end]));
        off += chunk_bytes;
    }
    w
}

#[test]
fn byte_at_returns_chunk_byte() {
    let source = b"hello, world";
    let win = window(source, 64);
    let mut w = Walker::new(&win);
    assert_eq!(w.byte_at(0).unwrap(), Some(b'h'));
    assert_eq!(w.byte_at(7).unwrap(), Some(b'w'));
    assert_eq!(w.byte_at(12).unwrap(), None);
}

#[test]
fn byte_at_pending_when_chunk_missing() {
    let win = ChunkWindow::new(64, 6);
    let mut w = Walker::new(&win);
    assert_eq!(w.byte_at(0).unwrap_err(), ChunkMiss(0));
}

#[test]
fn next_string_close_finds_closing_quote() {
    let mut source = vec![b' '; 20];
    source[5] = b'"';
    source[6..11].copy_from_slice(b"hello");
    source[11] = b'"';
    let win = window(&source, 64);
    let mut w = Walker::new(&win);
    assert_eq!(w.next_string_close(6).unwrap(), Some(11));
}

#[test]
fn next_string_close_with_escaped_inner_quote() {
    let source = b"  \"a\\\"b\"  ";
    let win = window(source, 64);
    let mut w = Walker::new(&win);
    // String at offset 2; interior at 3. The middle `"` at 5 is escaped.
    assert_eq!(w.next_string_close(3).unwrap(), Some(7));
}

#[test]
fn next_string_close_across_chunks() {
    let mut source = vec![b'x'; 128];
    source[5] = b'"';
    source[100] = b'"';
    let win = window(&source, 64);
    let mut w = Walker::new(&win);
    assert_eq!(w.next_string_close(6).unwrap(), Some(100));
}

#[test]
fn next_string_close_empty_string() {
    // `""` at offset 0: interior is the closing quote itself.
    let source = b"\"\"rest";
    let win = window(source, 64);
    let mut w = Walker::new(&win);
    assert_eq!(w.next_string_close(1).unwrap(), Some(1));
}

#[test]
fn string_value_skip_resumes_across_faults_without_rescan() {
    // A string value whose interior spans 3 chunks, loaded one chunk at a time.
    // The resumable StringScan must thread the carry and not rescan the prefix.
    let chunk_bytes = 64usize;
    let mut source = vec![b'x'; chunk_bytes * 4];
    source[0] = b'"';
    let close_at = chunk_bytes * 3 + 10;
    source[close_at] = b'"';
    source.truncate(close_at + 1);

    let mut win = ChunkWindow::new(chunk_bytes as u64, source.len() as u64);
    let load = |win: &mut ChunkWindow, chunk_start: usize| {
        let end = (chunk_start + chunk_bytes).min(source.len());
        win.insert(
            chunk_start as u64,
            Bytes::copy_from_slice(&source[chunk_start..end]),
        );
    };
    load(&mut win, 0);
    let mut state = SkipState::start(0);

    // Faults forward chunk by chunk; state commits at block boundaries.
    for chunk_start in [64usize, 128, 192] {
        let err = skip_value_step(&mut Walker::new(&win), &mut state).unwrap_err();
        assert_eq!(err, TraverseError::Pending(ChunkMiss(chunk_start as u64)));
        load(&mut win, chunk_start);
    }
    let end = skip_value_step(&mut Walker::new(&win), &mut state).unwrap();
    assert_eq!(end, close_at as u64 + 1);
}

#[test]
fn skip_value_container_resumes_after_chunk_miss() {
    // Flat `[...]` whose closer is in chunk 3; load chunks lazily.
    let chunk_bytes = 64usize;
    let mut source = Vec::new();
    source.push(b'[');
    source.resize(chunk_bytes * 3 + 1, b' ');
    source.push(b']');
    let close_at = source.len() - 1;

    let mut win = ChunkWindow::new(chunk_bytes as u64, source.len() as u64);
    let load = |win: &mut ChunkWindow, chunk_start: usize| {
        let end = (chunk_start + chunk_bytes).min(source.len());
        win.insert(
            chunk_start as u64,
            Bytes::copy_from_slice(&source[chunk_start..end]),
        );
    };
    load(&mut win, 0);
    let mut state = SkipState::start(0);

    for chunk_start in [64usize, 128, 192] {
        let err = skip_value_step(&mut Walker::new(&win), &mut state).unwrap_err();
        assert_eq!(err, TraverseError::Pending(ChunkMiss(chunk_start as u64)));
        load(&mut win, chunk_start);
    }
    let end = skip_value_step(&mut Walker::new(&win), &mut state).unwrap();
    assert_eq!(end, close_at as u64 + 1);
}

#[test]
fn advance_commas_finds_target_element() {
    // [10,20,30,40] - advance 2 commas from just past `[`.
    let source = b"[10,20,30,40]";
    let win = window(source, 64);
    let mut w = Walker::new(&win);
    match w
        .advance_top_level_commas(1, 0, 2, ScanCarry::default())
        .unwrap()
    {
        CommaStop::Found {
            offset_after_comma,
            consumed,
        } => {
            assert_eq!(consumed, 2);
            assert_eq!(
                &source[offset_after_comma as usize..offset_after_comma as usize + 2],
                b"30"
            );
        }
        other => panic!("expected Found, got {other:?}"),
    }
}

#[test]
fn advance_commas_skips_nested_and_strings() {
    // Commas inside the nested object and the string must not count.
    let source = br#"[{"a":1,"b":2},"x,y",7]"#;
    let win = window(source, 64);
    let mut w = Walker::new(&win);
    // element 0 = object, element 1 = "x,y", element 2 = 7
    match w
        .advance_top_level_commas(1, 0, 2, ScanCarry::default())
        .unwrap()
    {
        CommaStop::Found {
            offset_after_comma,
            consumed,
        } => {
            assert_eq!(consumed, 2);
            assert_eq!(source[offset_after_comma as usize], b'7');
        }
        other => panic!("expected Found, got {other:?}"),
    }
}

#[test]
fn advance_commas_array_closed_before_target() {
    let source = b"[1,2]";
    let win = window(source, 64);
    let mut w = Walker::new(&win);
    assert_eq!(
        w.advance_top_level_commas(1, 0, 5, ScanCarry::default())
            .unwrap(),
        CommaStop::ArrayClosed { consumed: 1 }
    );
}

#[test]
fn advance_commas_resumes_across_chunks() {
    // A flat array of single-digit elements spanning several chunks; load chunks
    // lazily, mirroring the session drive: `Partial` commits progress (carry +
    // counts), a propagated `ChunkMiss` is fetched and retried with the caller's
    // state unchanged.
    let chunk_bytes = 64u64;
    let n = 200usize;
    let mut s = String::from("[");
    for i in 0..n {
        if i > 0 {
            s.push(',');
        }
        s.push('7');
    }
    s.push(']');
    let source = s.into_bytes();
    let target_index = 150usize;

    let mut win = ChunkWindow::new(chunk_bytes, source.len() as u64);
    let load = |win: &mut ChunkWindow, chunk_start: u64| {
        let end = (chunk_start + chunk_bytes).min(source.len() as u64) as usize;
        win.insert(
            chunk_start,
            Bytes::copy_from_slice(&source[chunk_start as usize..end]),
        );
    };
    load(&mut win, 0);

    let mut off = 1u64;
    let mut depth = 0u64;
    let mut carry = ScanCarry::default();
    let mut consumed_total = 0usize;
    let found;
    loop {
        let result = {
            let mut w = Walker::new(&win);
            w.advance_top_level_commas(off, depth, target_index - consumed_total, carry)
        };
        match result {
            Ok(CommaStop::Found {
                offset_after_comma, ..
            }) => {
                found = offset_after_comma;
                break;
            }
            Ok(CommaStop::Partial {
                offset,
                depth: d,
                consumed,
                carry: c,
            }) => {
                off = offset;
                depth = d;
                carry = c;
                consumed_total += consumed;
            }
            Ok(other) => panic!("unexpected {other:?}"),
            Err(TraverseError::Pending(ChunkMiss(m))) => load(&mut win, m),
            Err(e) => panic!("error {e:?}"),
        }
    }
    assert_eq!(
        source[found as usize], b'7',
        "element {target_index} is a digit"
    );
    let commas_before = source[..found as usize]
        .iter()
        .filter(|&&b| b == b',')
        .count();
    assert_eq!(
        commas_before, target_index,
        "landed past {target_index} commas"
    );
}

#[test]
fn read_range_across_chunks() {
    let source: Vec<u8> = (0..200).map(|i| (i % 251) as u8).collect();
    let win = window(&source, 64);
    let mut w = Walker::new(&win);
    assert_eq!(
        w.read_range(50, 150).unwrap(),
        (50..150).map(|i| (i % 251) as u8).collect::<Vec<_>>()
    );
}

/// Scan lazily for separators: where the scan ends, and how many it passed.
fn advance_lazily(source: &[u8], chunk_bytes: u64, needed: usize) -> (Option<u64>, usize) {
    let mut win = ChunkWindow::new(chunk_bytes, source.len() as u64);
    let (mut off, mut depth, mut carry, mut total) = (1u64, 0u64, ScanCarry::default(), 0usize);
    loop {
        let result = Walker::new(&win).advance_top_level_commas(off, depth, needed - total, carry);
        match result {
            Ok(CommaStop::Found { offset_after_comma, consumed }) => {
                return (Some(offset_after_comma), total + consumed);
            }
            Ok(CommaStop::ArrayClosed { consumed }) => return (None, total + consumed),
            Ok(CommaStop::Partial { offset, depth: d, consumed, carry: c }) => {
                assert!(off < offset);
                (off, depth, carry) = (offset, d, c);
                total += consumed;
            }
            Err(TraverseError::Pending(ChunkMiss(m))) => {
                // Only where no block could be scanned.
                assert!(m < off + 64);
                let end = (m + chunk_bytes).min(source.len() as u64) as usize;
                win.insert(m, Bytes::copy_from_slice(&source[m as usize..end]));
            }
            Err(e) => panic!("error {e:?}"),
        }
    }
}

#[test]
fn a_series_of_comma_scans_ends_as_one() {
    let mut text = String::from("[");
    for i in 0..60 {
        text.push_str(&format!("[{i},{{\"a\":\",]\\\\\"}}], "));
    }
    text.push_str("0]");
    let source = text.into_bytes();
    let whole = window(&source, 64);
    for needed in [1usize, 7, 59, 60, 61, 1000] {
        let once = Walker::new(&whole)
            .advance_top_level_commas(1, 0, needed, ScanCarry::default())
            .unwrap();
        let want = match once {
            CommaStop::Found { offset_after_comma, consumed } => (Some(offset_after_comma), consumed),
            CommaStop::ArrayClosed { consumed } => (None, consumed),
            CommaStop::Partial { .. } => panic!("all chunks are there"),
        };
        assert_eq!(want.1, needed.min(60));
        for chunk_bytes in [64, 128, 1024] {
            assert_eq!(advance_lazily(&source, chunk_bytes, needed), want);
        }
    }
}

#[test]
fn a_scan_for_no_comma_reads_nothing() {
    let source = b"[1,2]";
    let nothing = ChunkWindow::new(64, source.len() as u64);
    let all = window(source, 64);
    for win in [&nothing, &all] {
        for from in [1, 3, 5] {
            assert_eq!(
                Walker::new(win).advance_top_level_commas(from, 0, 0, ScanCarry::default()),
                Ok(CommaStop::Found { offset_after_comma: from, consumed: 0 })
            );
        }
    }
}
