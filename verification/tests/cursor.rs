use bote::chunks::{ChunkMiss, ReaderError};
use bote::cursor::{serialize, Cursor};
use bote::path::Segment;
use bote::resolve::{PathFault, ValueLocation};
use bote::select::{CompiledSelect, SelectError};
use bote::session::{
    Session, SessionError, DEFAULT_ARRAY_INDEX_INTERVAL, DEFAULT_INDEX_CACHE_ENTRIES,
    DEFAULT_OBJECT_MEMBER_CAP, MAX_BURST,
};
use bote::source::{InMemoryStream, SourceError};
use bote::stream::{BatchLimits, IterState};
use bote::walker::TraverseError;

fn items_path() -> Vec<Segment> {
    vec![Segment::Member("items".into())]
}

/// A source with its session. Counts reads, so an abandoned scan's effect on chunk
/// faulting is observable.
struct Opened {
    session: Session,
    source: InMemoryStream,
    reads: usize,
}

fn session(doc: Vec<u8>, chunk_bytes: usize) -> Opened {
    let source = InMemoryStream::new(doc);
    let session = Session::new(
        source.size(),
        chunk_bytes,
        DEFAULT_INDEX_CACHE_ENTRIES,
        DEFAULT_OBJECT_MEMBER_CAP,
        DEFAULT_ARRAY_INDEX_INTERVAL,
    )
    .unwrap();
    Opened { session, source, reads: 0 }
}

fn stream(
    s: &Opened,
    select: Option<CompiledSelect>,
    limits: BatchLimits,
    with_key: bool,
) -> IterState {
    Cursor::root().iter(&s.session, items_path(), select, limits, with_key)
}

/// Read what a stream misses.
fn fetch(s: &mut Opened, it: &mut IterState, offset: u64) {
    let chunks = it.burst(offset);
    let mut burst = s.session.reader().read_chunks(offset, chunks);
    while let Some((at, length)) = burst.next_request() {
        s.reads += 1;
        burst.absorb(s.source.read(at, length).unwrap());
    }
    let (chunks, end) = burst.finish();
    it.absorb(chunks, end);
}

/// The next batch of a stream, which is opened first if it is not yet.
fn next(s: &mut Opened, it: &mut IterState) -> Result<Option<String>, SessionError> {
    while !it.initialized() {
        match it.initialize(&mut s.session) {
            Err(SessionError::Traverse(TraverseError::Pending(ChunkMiss(offset)))) => {
                fetch(s, it, offset)
            }
            r => r?,
        }
    }
    loop {
        match it.fill_batch(&mut s.session) {
            Err(SessionError::Traverse(TraverseError::Pending(ChunkMiss(offset)))) => {
                fetch(s, it, offset)
            }
            r => return Ok(r?.map(|b| String::from_utf8(b).unwrap())),
        }
    }
}

fn complete(s: &mut Opened, it: &mut IterState) {
    it.record_early_break(&mut s.session);
    it.release();
}

/// Everything that a stream yields, batch by batch.
fn batches(s: &mut Opened, it: &mut IterState) -> Vec<String> {
    let mut out = Vec::new();
    while let Some(batch) = next(s, it).unwrap() {
        out.push(batch);
    }
    out
}

/// `{"items":[{"name":"i0000",...}, ...]}` sized to span many chunks so an iter
/// pins a real frontier chunk and the window bound holds throughout.
fn array_doc(items: usize) -> Vec<u8> {
    let mut doc = String::from("{\"items\":[");
    for i in 0..items {
        if i > 0 {
            doc.push(',');
        }
        doc.push_str(&format!("{{\"name\":\"i{i:04}\",\"total\":{i}}}"));
    }
    doc.push_str("]}");
    doc.into_bytes()
}

/// `{"items":{"k0000":{"name":"i0000",...}, ...}}` - an object whose members span many
/// chunks, so an iter over `items` pins a real frontier chunk.
fn object_doc(items: usize) -> Vec<u8> {
    let mut doc = String::from("{\"items\":{");
    for i in 0..items {
        if i > 0 {
            doc.push(',');
        }
        doc.push_str(&format!(
            "\"k{i:04}\":{{\"name\":\"i{i:04}\",\"total\":{i}}}"
        ));
    }
    doc.push_str("}}");
    doc.into_bytes()
}

/// One burst of chunks plus a small slack is the resident-window bound.
fn window_bound() -> usize {
    MAX_BURST as usize + 4
}

#[test]
fn iter_withkey_reencodes_escaped_object_key() {
    let doc = br#"{"items":{"a\"b":{"name":"x"}}}"#.to_vec();
    let mut s = session(doc, 256);
    let mut it = stream(&s, None, BatchLimits::count(1), true);
    let batch = next(&mut s, &mut it).unwrap().expect("one member");
    assert_eq!(batch, r#"[["a\"b",{"name":"x"}]]"#);
}

#[test]
fn pins_iter_released_on_complete() {
    let mut s = session(array_doc(500), 256);
    let mut it = stream(&s, None, BatchLimits::count(1), false);
    for _ in 0..3 {
        assert!(next(&mut s, &mut it).unwrap().is_some());
    }
    assert!(it.window_len() > 0);

    complete(&mut s, &mut it);

    assert_eq!(it.window_len(), 0);
    assert!(!it.is_open());
    assert!(next(&mut s, &mut it).unwrap().is_none());
}

#[test]
fn pins_iter_batch_early_break_releases() {
    let mut s = session(array_doc(500), 256);
    let mut it = stream(&s, None, BatchLimits::count(8), false);
    assert!(next(&mut s, &mut it).unwrap().is_some());
    complete(&mut s, &mut it);
    assert_eq!(
        it.window_len(),
        0,
        "complete() must clear the window after a batch"
    );
    assert!(!it.is_open());
}

#[test]
fn pins_iter_complete_stops_reads_far_below_full_walk() {
    let mut full = session(array_doc(5000), 256);
    let mut walk = stream(&full, None, BatchLimits::count(1), false);
    while next(&mut full, &mut walk).unwrap().is_some() {}
    let full_n = full.reads;

    let mut partial = session(array_doc(5000), 256);
    let mut it = stream(&partial, None, BatchLimits::count(1), false);
    for _ in 0..3 {
        assert!(next(&mut partial, &mut it).unwrap().is_some());
    }
    complete(&mut partial, &mut it);
    let after_complete = partial.reads;

    // A completed iter is exhausted and faults nothing more.
    assert!(next(&mut partial, &mut it).unwrap().is_none());
    assert_eq!(
        partial.reads, after_complete,
        "complete() must not fault further chunks"
    );
    assert!(
        after_complete < full_n / 10,
        "abandoned scan faulted {after_complete} reads; should be far below the full walk's {full_n}"
    );
}

#[test]
fn pins_iter_batch_window_bounded() {
    let mut s = session(array_doc(2000), 256);
    let bound = window_bound();
    let select = CompiledSelect::One(vec![Segment::Member("total".into())]);
    let mut it = stream(&s, Some(select), BatchLimits::count(64), false);
    while next(&mut s, &mut it).unwrap().is_some() {
        let len = it.window_len();
        assert!(
            len <= bound,
            "window held {len} chunks while batching (bound {bound})"
        );
    }
}

#[test]
fn pins_iter_object_released_on_complete() {
    let mut s = session(object_doc(500), 256);
    let mut it = stream(&s, None, BatchLimits::count(1), true);
    for _ in 0..3 {
        assert!(
            next(&mut s, &mut it).unwrap().is_some(),
            "object iter should yield member tuples"
        );
    }
    assert!(
        it.window_len() > 0,
        "iter should hold the frontier chunk between yields"
    );

    complete(&mut s, &mut it);

    assert_eq!(it.window_len(), 0, "complete() must clear the window");
    assert!(!it.is_open(), "complete() must drop the child_cursor");
    assert!(next(&mut s, &mut it).unwrap().is_none());
}

#[test]
fn pins_iter_object_withkey_window_bounded() {
    let mut s = session(object_doc(2000), 256);
    let bound = window_bound();
    let mut it = stream(&s, None, BatchLimits::count(64), true);
    while next(&mut s, &mut it).unwrap().is_some() {
        let len = it.window_len();
        assert!(
            len <= bound,
            "object withKey iter held {len} chunks while batching (bound {bound})"
        );
    }
}

#[test]
fn pins_iter_object_abandoned_windows_empty() {
    let mut s = session(object_doc(2000), 256);
    let mut abandoned = Vec::new();
    for _ in 0..64 {
        let mut it = stream(&s, None, BatchLimits::count(1), true);
        assert!(next(&mut s, &mut it).unwrap().is_some());
        complete(&mut s, &mut it);
        assert_eq!(it.window_len(), 0);
        abandoned.push(it); // keep alive: no Drop, no GC
    }
    assert_eq!(abandoned.len(), 64);
}

// ---- what a stream yields

#[test]
fn batches_hold_the_children_in_order() {
    let doc = br#"{"items":[1, "two" ,[3],{"four":4},null ]}"#.to_vec();
    let mut s = session(doc, 64);
    let mut it = stream(&s, None, BatchLimits::count(2), false);
    assert_eq!(
        batches(&mut s, &mut it),
        vec![r#"[1,"two"]"#, r#"[[3],{"four":4}]"#, "[null]"]
    );
    // Exhausted: nothing more, and nothing held.
    assert_eq!(next(&mut s, &mut it).unwrap(), None);
    assert_eq!(it.window_len(), 0);
}

#[test]
fn keys_are_indices_or_names() {
    let mut s = session(br#"{"items":[10,20,30]}"#.to_vec(), 64);
    let mut it = stream(&s, None, BatchLimits::count(8), true);
    assert_eq!(batches(&mut s, &mut it), vec!["[[0,10],[1,20],[2,30]]"]);

    // Duplicate keys are kept, one pair per occurrence.
    let mut s = session(br#"{"items":{"a":1,"b":2,"a":3}}"#.to_vec(), 64);
    let mut it = stream(&s, None, BatchLimits::count(8), true);
    assert_eq!(
        batches(&mut s, &mut it),
        vec![r#"[["a",1],["b",2],["a",3]]"#]
    );
}

#[test]
fn a_batch_flushes_at_its_byte_limit() {
    let mut s = session(br#"{"items":["aaaa","bbbb","cccc"]}"#.to_vec(), 64);
    let mut it = stream(&s, None, BatchLimits { max_count: 100, max_bytes: 10 }, false);
    assert_eq!(
        batches(&mut s, &mut it),
        vec![r#"["aaaa","bbbb"]"#, r#"["cccc"]"#]
    );
    // One item at least, however large.
    let mut it = stream(&s, None, BatchLimits { max_count: 100, max_bytes: 1 }, false);
    assert_eq!(
        batches(&mut s, &mut it),
        vec![r#"["aaaa"]"#, r#"["bbbb"]"#, r#"["cccc"]"#]
    );
}

#[test]
fn limits_are_at_least_one() {
    assert_eq!(
        BatchLimits::clamped(0, 0),
        BatchLimits { max_count: 1, max_bytes: 1 }
    );
    assert_eq!(
        BatchLimits::clamped(7, 9),
        BatchLimits { max_count: 7, max_bytes: 9 }
    );
    assert_eq!(
        BatchLimits::count(3),
        BatchLimits { max_count: 3, max_bytes: usize::MAX }
    );
}

#[test]
fn empty_and_missing_containers_yield_nothing() {
    for doc in [r#"{"items":[]}"#, r#"{"items":{ }}"#, r#"{"other":1}"#] {
        let mut s = session(doc.as_bytes().to_vec(), 64);
        let mut it = stream(&s, None, BatchLimits::count(4), false);
        assert_eq!(next(&mut s, &mut it).unwrap(), None);
        assert!(it.initialized());
        assert_eq!(it.window_len(), 0);
    }
}

#[test]
fn a_scalar_target_is_a_path_fault() {
    let mut s = session(br#"{"items":3}"#.to_vec(), 64);
    let mut it = stream(&s, None, BatchLimits::count(4), false);
    assert!(matches!(
        next(&mut s, &mut it),
        Err(SessionError::Path(PathFault::ScalarTarget))
    ));
    // Opened all the same: later calls yield nothing.
    assert_eq!(next(&mut s, &mut it).unwrap(), None);
    assert_eq!(it.window_len(), 0);
}

#[test]
fn a_path_against_the_shape_is_a_path_fault() {
    let mut s = session(br#"[1,2]"#.to_vec(), 64);
    let mut it = stream(&s, None, BatchLimits::count(4), false);
    assert!(matches!(
        next(&mut s, &mut it),
        Err(SessionError::Path(PathFault::WrongKind { segment: 0 }))
    ));
    assert!(!it.initialized());
    assert_eq!(it.window_len(), 0);
}

#[test]
fn a_malformed_child_is_an_error() {
    let mut s = session(br#"{"items":[1,2 3]}"#.to_vec(), 64);
    let mut it = stream(&s, None, BatchLimits::count(1), false);
    assert_eq!(next(&mut s, &mut it).unwrap().unwrap(), "[1]");
    assert!(matches!(
        next(&mut s, &mut it),
        Err(SessionError::Traverse(TraverseError::Malformed(14)))
    ));
    // A key that cannot be decoded.
    let mut s = session(br#"{"items":{"a\x":1}}"#.to_vec(), 64);
    let mut it = stream(&s, None, BatchLimits::count(1), true);
    assert!(matches!(
        next(&mut s, &mut it),
        Err(SessionError::Traverse(TraverseError::Malformed(10)))
    ));
}

#[test]
fn a_single_selection_yields_the_bare_sub_value() {
    let doc = br#"{"items":[{"a":{"b":[7,8]}},{"a":1},5,{"a":{"b":[9]}}]}"#.to_vec();
    let mut s = session(doc, 64);
    let path = vec![
        Segment::Member("a".into()),
        Segment::Member("b".into()),
        Segment::Element(1),
    ];
    let mut it = stream(&s, Some(CompiledSelect::One(path)), BatchLimits::count(8), false);
    assert_eq!(batches(&mut s, &mut it), vec!["[8,null,null,null]"]);
}

#[test]
fn a_field_selection_yields_an_object_in_declared_order() {
    let doc = br#"{"items":[{"x":1,"y":{"z":"q"},"x":2},{"y":0},"s",[10,[20,21]]]}"#.to_vec();
    let mut s = session(doc, 64);
    let fields = vec![
        (
            "deep\"key".to_string(),
            vec![Segment::Member("y".into()), Segment::Member("z".into())],
        ),
        ("x".to_string(), vec![Segment::Member("x".into())]),
        (
            "second".to_string(),
            vec![Segment::Element(1), Segment::Element(0)],
        ),
        ("all".to_string(), vec![]),
    ];
    let mut it = stream(
        &s,
        Some(CompiledSelect::Fields(fields)),
        BatchLimits::count(8),
        false,
    );
    assert_eq!(
        batches(&mut s, &mut it),
        vec![concat(&[
            r#"[{"deep\"key":"q","x":1,"second":null,"all":{"x":1,"y":{"z":"q"},"x":2}},"#,
            r#"{"deep\"key":null,"x":null,"second":null,"all":{"y":0}},"#,
            r#"{"deep\"key":null,"x":null,"second":null,"all":"s"},"#,
            r#"{"deep\"key":null,"x":null,"second":20,"all":[10,[20,21]]}]"#,
        ])]
    );
}

fn concat(parts: &[&str]) -> String {
    parts.iter().copied().collect()
}

#[test]
fn batches_do_not_depend_on_the_chunk_size() {
    let doc = object_doc(50);
    let select = || {
        CompiledSelect::Fields(vec![
            ("n".to_string(), vec![Segment::Member("name".into())]),
            ("t".to_string(), vec![Segment::Member("total".into())]),
        ])
    };
    let mut want: Option<Vec<String>> = None;
    for chunk in [64, 192, 1024, 65536] {
        let mut s = session(doc.clone(), chunk);
        let mut it = stream(&s, Some(select()), BatchLimits::count(7), true);
        let got = batches(&mut s, &mut it);
        assert_eq!(got.len(), 8);
        match &want {
            None => want = Some(got),
            Some(w) => assert_eq!(&got, w),
        }
    }
}

#[test]
fn an_exhausted_stream_leaves_count_close_and_landmarks() {
    let doc = array_doc(100);
    let mut s = session(doc.clone(), 256);
    let mut it = stream(&s, None, BatchLimits::count(16), false);
    batches(&mut s, &mut it);
    let node = s.session.cache().get(0, &items_path()).expect("node");
    assert_eq!(node.child_count(), Some(100));
    let location = node.location().unwrap();
    assert_eq!(doc[location.start as usize], b'[');
    assert_eq!(doc[location.end as usize - 1], b']');
    let members = node.array_members();
    assert_eq!(
        members.iter().map(|m| m.0).collect::<Vec<_>>(),
        vec![16, 32, 48, 64, 80, 96]
    );
    for (index, offset) in members {
        let at = offset as usize;
        assert!(doc[at..].starts_with(format!("{{\"name\":\"i{index:04}\"").as_bytes()));
    }
}

#[test]
fn a_broken_off_stream_leaves_a_resume_point() {
    let doc = array_doc(100);
    let mut s = session(doc.clone(), 256);
    let mut it = stream(&s, None, BatchLimits::count(5), false);
    next(&mut s, &mut it).unwrap().unwrap();
    complete(&mut s, &mut it);
    let (index, offset) = s
        .session
        .cache()
        .get(0, &items_path())
        .expect("node")
        .nearest_array_member(50)
        .unwrap();
    assert_eq!(index, 5);
    assert!(doc[offset as usize..].starts_with(b"{\"name\":\"i0005\""));
}

// ---- cursors and errors

#[test]
fn a_hop_moves_the_anchor_and_the_depth() {
    let root = Cursor::root();
    assert_eq!((root.anchor_start(), root.depth()), (0, 0));
    let there = root.hopped(ValueLocation { start: 12, end: 40 }, 2);
    assert_eq!((there.anchor_start(), there.depth()), (12, 2));
    let deeper = there.hopped(ValueLocation { start: 20, end: 30 }, 3);
    assert_eq!((deeper.anchor_start(), deeper.depth()), (20, 5));
    assert_eq!(
        Cursor::at(ValueLocation { start: 1, end: 2 }, 7).depth(),
        7
    );
    assert!(root.admits(u32::MAX as usize));
    assert!(!deeper.admits(u32::MAX as usize));
}

#[test]
fn a_stream_runs_relative_to_its_cursor() {
    let doc = br#"{"a":{"items":[1,2]},"items":[3]}"#.to_vec();
    let mut s = session(doc, 64);
    let there = Cursor::root().hopped(ValueLocation { start: 5, end: 20 }, 1);
    let mut it = there.iter(
        &s.session,
        items_path(),
        None,
        BatchLimits::count(9),
        false,
    );
    assert_eq!(batches(&mut s, &mut it), vec!["[1,2]"]);
}

#[test]
fn errors_are_reported_in_one_line() {
    let line = |e: SessionError| serialize(&e);
    assert_eq!(
        line(SessionError::Path(PathFault::ThroughScalar { segment: 2 })),
        "bote:through_scalar:2"
    );
    assert_eq!(
        line(SessionError::Path(PathFault::WrongKind { segment: 10 })),
        "bote:wrong_kind:10"
    );
    assert_eq!(
        line(SessionError::Path(PathFault::ScalarTarget)),
        "bote:scalar_target"
    );
    assert_eq!(
        line(SessionError::Traverse(TraverseError::Malformed(3))),
        "bote:malformed_json"
    );
    assert_eq!(
        line(SessionError::Traverse(TraverseError::UnexpectedEof(3))),
        "bote:unexpected_eof"
    );
    assert_eq!(
        line(SessionError::Reader(ReaderError::ByteStream(
            SourceError::Io("gone".to_string())
        ))),
        "bote:source_io:gone"
    );
    assert_eq!(
        line(SessionError::Reader(ReaderError::ByteStream(
            SourceError::OutOfBounds { offset: 9, size: 4 }
        ))),
        "read offset 9 is past end of source (size 4)"
    );
    assert_eq!(
        line(SessionError::Reader(ReaderError::InvalidChunkSize(63))),
        "chunk size must be a non-zero multiple of 64, got 63"
    );
    assert_eq!(
        line(SessionError::Traverse(TraverseError::Pending(ChunkMiss(64)))),
        "traversal error: chunk at offset 64 not loaded"
    );
    assert_eq!(
        line(SessionError::Select(SelectError::Json("eof".to_string()))),
        "invalid select JSON: eof"
    );
    assert_eq!(
        SessionError::Traverse(TraverseError::Malformed(8)).message(),
        "traversal error: malformed JSON at offset 8"
    );
    assert_eq!(
        SessionError::Traverse(TraverseError::UnexpectedEof(8)).message(),
        "traversal error: unexpected end of input at offset 8"
    );
}
