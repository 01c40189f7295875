//! What holds between operations, on concrete values.

use bote::chunks::{ChunkMiss, ChunkReader, ChunkWindow};
use bote::cursor::Cursor;
use bote::path::Segment;
use bote::query::{CountStart, Counting, Getting, Resolving};
use bote::resolve::{ChildKey, ContainerCursor, ContainerKind};
use bote::select::CompiledSelect;
use bote::session::{absorb, Session, SessionError, MAX_BURST};
use bote::source::{ForwardStream, InMemoryStream};
use bote::stream::{BatchLimits, IterState};
use bote::walker::TraverseError;

struct Opened {
    session: Session,
    source: InMemoryStream,
}

fn open(doc: &str, chunk_bytes: usize, interval: usize) -> Opened {
    let source = InMemoryStream::new(doc.as_bytes().to_vec());
    let session = Session::new(source.size(), chunk_bytes, 64, 16, interval).unwrap();
    Opened { session, source }
}

fn fetch(s: &Opened, window: &mut ChunkWindow, offset: u64, n: u64, keep_from: u64) {
    let mut burst = s.session.reader().read_chunks(offset, n);
    while let Some((at, length)) = burst.next_request() {
        burst.absorb(s.source.read(at, length).unwrap());
    }
    let (chunks, end) = burst.finish();
    absorb(window, chunks, end, keep_from);
}

/// All of the document in one window.
fn whole(s: &Opened) -> ChunkWindow {
    let mut window = s.session.new_window();
    fetch(s, &mut window, 0, 1 << 20, 0);
    window
}

fn get(s: &mut Opened, path: &[Segment]) -> Result<Option<String>, SessionError> {
    let mut window = s.session.new_window();
    let mut q: Getting = s.session.get_at(path.to_vec(), 0, 0);
    loop {
        match q.step(&mut s.session, &window) {
            Err(SessionError::Traverse(TraverseError::Pending(ChunkMiss(offset)))) => {
                let n = q.burst(offset);
                fetch(s, &mut window, offset, n, q.min_reachable());
            }
            r => return Ok(r?.map(|b| String::from_utf8(b).unwrap())),
        }
    }
}

fn count(s: &mut Opened, path: &[Segment]) -> u64 {
    let window = whole(s);
    match Counting::begin(&mut s.session, path.to_vec(), 0, 0) {
        CountStart::Known(n) => n,
        CountStart::Scan(mut q) => q.step(&mut s.session, &window).unwrap(),
    }
}

/// The first byte of every child, with its key, and the cursor at the end.
fn children(s: &Opened, at: u64) -> (Vec<(ChildKey, u64)>, ContainerCursor) {
    let window = whole(s);
    let mut cursor = s.session.enter_container(at, &window).unwrap().unwrap();
    let mut out = Vec::new();
    while let Some(child) = s.session.next_child(&mut cursor, &window).unwrap() {
        out.push((child.key, child.location.start));
    }
    (out, cursor)
}

fn stream_fetch(s: &Opened, it: &mut IterState, offset: u64) {
    let n = it.burst(offset);
    let mut burst = s.session.reader().read_chunks(offset, n);
    while let Some((at, length)) = burst.next_request() {
        burst.absorb(s.source.read(at, length).unwrap());
    }
    let (chunks, end) = burst.finish();
    it.absorb(chunks, end);
}

fn next(s: &mut Opened, it: &mut IterState) -> Option<String> {
    while !it.initialized() {
        match it.initialize(&mut s.session) {
            Err(SessionError::Traverse(TraverseError::Pending(ChunkMiss(offset)))) => {
                stream_fetch(s, it, offset)
            }
            r => r.unwrap(),
        }
    }
    loop {
        match it.fill_batch(&mut s.session) {
            Err(SessionError::Traverse(TraverseError::Pending(ChunkMiss(offset)))) => {
                stream_fetch(s, it, offset)
            }
            r => return r.unwrap().map(|b| String::from_utf8(b).unwrap()),
        }
    }
}

/// Everything that a stream over the root yields, without the brackets of the
/// batches.
fn items(doc: &str, select: Option<CompiledSelect>, limits: BatchLimits) -> String {
    let mut s = open(doc, 64, 4);
    let mut it = Cursor::root().iter(&s.session, vec![], select, limits, false);
    let mut out: Vec<String> = Vec::new();
    while let Some(batch) = next(&mut s, &mut it) {
        out.push(batch[1..batch.len() - 1].to_string());
    }
    out.join(",")
}

fn member(name: &str) -> Segment {
    Segment::Member(name.to_string())
}

const MIXED: &str = r#"[ 10, "a,]b" , [1,[2,3],{}], {"k":[4,5],"q":"}"}, null ,[] ]"#;

#[test]
fn the_nth_child_is_the_nth_element() {
    let mut s = open(MIXED, 64, 2);
    let (kids, _) = children(&s, 0);
    assert_eq!(kids.len(), 6);
    for (n, (key, start)) in kids.iter().enumerate() {
        assert_eq!(*key, ChildKey::Index(n));
        let window = whole(&s);
        let mut q = s.session.locate_at(vec![Segment::Element(n)], 0, 0);
        assert_eq!(
            q.step_offset(&mut s.session, &window).unwrap(),
            Some(*start)
        );
    }
    let window = whole(&s);
    let mut q = s.session.locate_at(vec![Segment::Element(6)], 0, 0);
    assert_eq!(q.step_offset(&mut s.session, &window).unwrap(), None);
}

#[test]
fn a_member_is_the_first_child_of_its_name() {
    let mut s = open(r#"{"a":1,"b":{"a":2},"a":3,"c":4}"#, 64, 2);
    let (kids, end) = children(&s, 0);
    assert_eq!(kids.len(), 4);
    assert_eq!(end.kind, ContainerKind::Object);
    for (name, n) in [("a", 0), ("b", 1), ("c", 3)] {
        let window = whole(&s);
        let mut q = s.session.locate_at(vec![member(name)], 0, 0);
        assert_eq!(
            q.step_offset(&mut s.session, &window).unwrap(),
            Some(kids[n].1)
        );
    }
}

#[test]
fn a_container_has_as_many_children_as_a_cursor_gives() {
    for (doc, n) in [
        (MIXED, 6),
        ("[]", 0),
        (" { } ", 0),
        (r#"{"a":[1,2],"b":"x,y"}"#, 2),
        // A separator before the closing byte counts as one more.
        ("[1,]", 2),
    ] {
        let mut s = open(doc, 64, 2);
        assert_eq!(count(&mut s, &[]), n, "{doc}");
    }
    let s = open("[1,]", 64, 2);
    assert_eq!(children(&s, 0).0.len(), 1);
}

#[test]
fn a_cursor_ends_at_the_close_of_its_container() {
    for doc in [MIXED, "[]", r#"{"a":{"b":[{}]}}"#] {
        let mut s = open(doc, 64, 2);
        let (_, end) = children(&s, 0);
        let window = whole(&s);
        let mut q: Resolving = s.session.resolve_at(vec![], 0, 0);
        let location = q.step(&mut s.session, &window).unwrap().unwrap();
        assert_eq!(end.close_offset(), location.end, "{doc}");
    }
}

#[test]
fn batches_are_the_items_cut_into_pieces() {
    let all = r#"10,"a,]b",[1,[2,3],{}],{"k":[4,5],"q":"}"},null,[]"#;
    for limits in [
        BatchLimits::count(1),
        BatchLimits::count(2),
        BatchLimits::count(5),
        BatchLimits::count(100),
        BatchLimits { max_count: 100, max_bytes: 12 },
    ] {
        assert_eq!(items(MIXED, None, limits), all);
    }
}

#[test]
fn a_stream_leaves_the_answers_as_they_were() {
    let doc = format!(
        "[{}]",
        (0..200)
            .map(|i| format!("{{\"n\":{i},\"pad\":\"{}\"}}", "x".repeat(i % 7)))
            .collect::<Vec<_>>()
            .join(",")
    );
    // One session streams to the end, one is broken off, one is fresh.
    let mut streamed = open(&doc, 64, 16);
    let mut it = Cursor::root().iter(&streamed.session, vec![], None, BatchLimits::count(9), false);
    while next(&mut streamed, &mut it).is_some() {}
    let mut broken = open(&doc, 64, 16);
    let mut it = Cursor::root().iter(&broken.session, vec![], None, BatchLimits::count(9), false);
    for _ in 0..5 {
        next(&mut broken, &mut it);
    }
    it.record_early_break(&mut broken.session);
    it.release();
    let mut fresh = open(&doc, 64, 16);
    for i in [0usize, 1, 15, 16, 17, 44, 45, 46, 100, 199, 200, 5] {
        let path = [Segment::Element(i), member("n")];
        let want = if i < 200 { Some(i.to_string()) } else { None };
        assert_eq!(get(&mut fresh, &path).unwrap(), want);
        assert_eq!(get(&mut streamed, &path).unwrap(), want);
        assert_eq!(get(&mut broken, &path).unwrap(), want);
    }
    assert_eq!(count(&mut streamed, &[]), 200);
    assert_eq!(count(&mut broken, &[]), 200);
}

#[test]
fn fields_are_what_their_paths_extract() {
    let doc = r#"[{"a":{"x":1,"y":[2,3]},"b":"t"},{"b":7},5]"#;
    let fields = CompiledSelect::Fields(vec![
        ("p".to_string(), vec![member("a"), member("y"), Segment::Element(1)]),
        ("q".to_string(), vec![member("b")]),
    ]);
    let one = |path: Vec<Segment>| items(doc, Some(CompiledSelect::One(path)), BatchLimits::count(9));
    assert_eq!(one(vec![member("a"), member("y"), Segment::Element(1)]), "3,null,null");
    assert_eq!(one(vec![member("b")]), r#""t",7,null"#);
    assert_eq!(
        items(doc, Some(fields), BatchLimits::count(9)),
        r#"{"p":3,"q":"t"},{"p":null,"q":7},{"p":null,"q":null}"#
    );

    let doc = r#"[[1,[2,3]],[4],{"x":5}]"#;
    let fields = CompiledSelect::Fields(vec![
        ("deep".to_string(), vec![Segment::Element(1), Segment::Element(0)]),
        ("head".to_string(), vec![Segment::Element(0)]),
        ("x".to_string(), vec![member("x")]),
    ]);
    assert_eq!(
        items(doc, Some(fields), BatchLimits::count(9)),
        r#"{"deep":2,"head":1,"x":null},{"deep":null,"head":4,"x":null},{"deep":null,"head":null,"x":5}"#
    );
}

#[test]
fn a_hop_answers_as_the_whole_path_does() {
    let doc = r#" {"a":{"b":[10,{"c":"x"}],"n":5}} "#;
    let mut s = open(doc, 64, 2);
    let window = whole(&s);
    let mut q = Cursor::root().hop(&mut s.session, vec![member("a")]);
    let location = q.step(&mut s.session, &window).unwrap().unwrap();
    let here = Cursor::root().hopped(location, 1);
    let tails: Vec<Vec<Segment>> = vec![
        vec![],
        vec![member("b"), Segment::Element(1), member("c")],
        vec![member("b")],
        vec![member("missing")],
    ];
    for tail in tails {
        let mut path = vec![member("a")];
        path.extend(tail.iter().cloned());
        let far = get(&mut s, &path).unwrap();
        let mut q = here.get(&mut s.session, tail);
        let near = q.step(&mut s.session, &window).unwrap();
        assert_eq!(near.map(|b| String::from_utf8(b).unwrap()), far);
    }
    // A fault names the step of the path that was asked.
    let mut q = here.get(&mut s.session, vec![member("n"), member("x")]);
    let near = q.step(&mut s.session, &window).unwrap_err();
    assert_eq!(near.message(), "through_scalar:1");
    let far = get(&mut s, &[member("a"), member("n"), member("x")]).unwrap_err();
    assert_eq!(far.message(), "through_scalar:2");
}

#[test]
fn bursts_bring_chunks_of_the_document() {
    let data: Vec<u8> = (0..200u8).collect();
    let source = ForwardStream::new(data.clone());
    let reader = ChunkReader::new(64).unwrap();
    let run = |start: u64, n: u64| {
        let mut burst = reader.read_chunks(start, n);
        while let Some((at, length)) = burst.next_request() {
            burst.absorb(source.read(at, length).unwrap());
        }
        burst.finish()
    };
    let (chunks, end) = run(64, 2);
    assert_eq!(end, None);
    assert_eq!(chunks.len(), 2);
    assert_eq!((chunks[0].0, &chunks[0].1[..]), (64, &data[64..128]));
    assert_eq!((chunks[1].0, &chunks[1].1[..]), (128, &data[128..192]));
    let (chunks, end) = run(128, 9);
    assert_eq!(end, Some(200));
    assert_eq!(chunks.len(), 2);
    assert_eq!((chunks[1].0, &chunks[1].1[..]), (192, &data[192..]));
}

#[test]
fn a_burst_at_the_end_finds_the_end() {
    let data = vec![b' '; 128];
    let source = ForwardStream::new(data);
    let reader = ChunkReader::new(64).unwrap();
    let mut window = ChunkWindow::new_unsized(64);
    let mut burst = reader.read_chunks(128, 1);
    while let Some((at, length)) = burst.next_request() {
        burst.absorb(source.read(at, length).unwrap());
    }
    let (chunks, end) = burst.finish();
    assert!(chunks.is_empty());
    assert_eq!(end, Some(128));
    absorb(&mut window, chunks, end, 128);
    assert_eq!(window.known_size(), Some(128));
}

#[test]
fn a_window_holds_no_more_than_lies_between_frontier_and_burst() {
    let doc = format!("[{}]", "\"0123456789\",".repeat(3000) + "0");
    let s = open(&doc, 64, 16);
    let mut window = s.session.new_window();
    fetch(&s, &mut window, 0, 8, 0);
    assert_eq!(window.len(), 8);
    // Only the chunks from the one that holds the frontier on are kept.
    fetch(&s, &mut window, 512, 4, 500);
    assert_eq!(window.len(), 5);
    fetch(&s, &mut window, 768, 2, 768);
    assert_eq!(window.len(), 2);
}

#[test]
fn lookups_double_their_bursts_and_ranges_do_not() {
    let doc = format!("[{},7]", "1,".repeat(60000) + "1");
    let mut s = open(&doc, 64, 0);
    let mut q = s.session.locate_at(vec![Segment::Element(60001)], 0, 0);
    let sizes: Vec<u64> = (0..10).map(|k| q.burst(64 * k)).collect();
    assert_eq!(sizes, [1, 2, 4, 8, 16, 32, 64, 128, MAX_BURST, MAX_BURST]);

    // A child that does not fit its chunk is read to its end in one burst.
    let long = format!("[\"{}\"]", "x".repeat(1000));
    let mut s = open(&long, 64, 0);
    let mut it = Cursor::root().iter(&s.session, vec![], None, BatchLimits::count(1), false);
    assert_eq!(next(&mut s, &mut it).unwrap().len(), 1004);
    assert_eq!(next(&mut s, &mut it), None);
}

/// A document whose first member is a long array, its second a long string and its
/// third a long object.
fn long_doc() -> String {
    let array = (0..4000).map(|i| i.to_string()).collect::<Vec<_>>().join(", ");
    let object = (0..1500).map(|i| format!("\"k{i}\":[{i}]")).collect::<Vec<_>>().join(",");
    format!("[[{array}], \"{}\", {{{object}}}]", "x\\\"".repeat(6000))
}

#[test]
fn a_count_holds_one_burst() {
    let doc = long_doc();
    let mut s = open(&doc, 64, 16);
    let mut window = s.session.new_window();
    let mut q = match Counting::begin(&mut s.session, vec![], 1, 1) {
        CountStart::Scan(q) => q,
        CountStart::Known(_) => panic!("a fresh session knows no count"),
    };
    let mut bound = 0;
    loop {
        match q.step(&mut s.session, &window) {
            Err(SessionError::Traverse(TraverseError::Pending(ChunkMiss(offset)))) => {
                assert!(bound <= q.min_reachable());
                bound = q.min_reachable();
                let n = q.burst(offset);
                fetch(&s, &mut window, offset, n, bound);
                assert!(window.len() as u64 <= n + 1);
                assert!(window.len() as u64 <= MAX_BURST + 1);
            }
            r => {
                assert_eq!(r.unwrap(), 4000);
                break;
            }
        }
    }
    assert!(bound > 16000);
}

#[test]
fn a_measured_value_holds_one_burst() {
    let doc = long_doc();
    let array_end = doc.find(']').unwrap() as u64 + 1;
    let text = doc.find('"').unwrap() as u64;
    let text_end = text + 2 + 3 * 6000;
    let object = doc.find('{').unwrap() as u64;
    for (start, end) in [(1, array_end), (text, text_end), (object, doc.len() as u64 - 1)] {
        let mut s = open(&doc, 64, 16);
        let mut window = s.session.new_window();
        let mut q = s.session.resolve_at(vec![], start, 1);
        loop {
            match q.step(&mut s.session, &window) {
                Err(SessionError::Traverse(TraverseError::Pending(ChunkMiss(offset)))) => {
                    let n = q.burst(offset);
                    fetch(&s, &mut window, offset, n, q.min_reachable());
                    assert!(window.len() as u64 <= n + 1);
                }
                r => {
                    let location = r.unwrap().unwrap();
                    assert_eq!((location.start, location.end), (start, end));
                    break;
                }
            }
        }
    }
}

#[test]
fn a_lookup_of_an_element_holds_one_burst_and_never_goes_back() {
    let doc = long_doc();
    let mut s = open(&doc, 64, 16);
    let mut window = s.session.new_window();
    let mut q = s.session.locate_at(vec![Segment::Element(3999)], 1, 1);
    let mut bound = q.min_reachable();
    assert_eq!(bound, 1);
    loop {
        match q.step_offset(&mut s.session, &window) {
            Err(SessionError::Traverse(TraverseError::Pending(ChunkMiss(offset)))) => {
                assert!(bound <= q.min_reachable());
                bound = q.min_reachable();
                assert!(bound < offset + 64);
                let n = q.burst(offset);
                fetch(&s, &mut window, offset, n, bound);
                assert!(window.len() as u64 <= n + 1);
            }
            r => {
                let at = r.unwrap().unwrap() as usize;
                assert_eq!(&doc[at..at + 5], "3999]");
                break;
            }
        }
    }
    assert!(bound > 16000);
}

#[test]
fn a_stream_yields_each_item_once_and_then_nothing_for_ever() {
    let doc = r#"{"a":1,"b":[2,3],"a":"x"}"#;
    for (with_key, want) in [
        (false, vec![r#"[1,[2,3]]"#, r#"["x"]"#]),
        (true, vec![r#"[["a",1],["b",[2,3]]]"#, r#"[["a","x"]]"#]),
    ] {
        let mut s = open(doc, 64, 4);
        let limits = BatchLimits::count(2);
        let mut it = Cursor::root().iter(&s.session, vec![], None, limits, with_key);
        for batch in want {
            assert_eq!(next(&mut s, &mut it).unwrap(), batch);
        }
        for _ in 0..3 {
            assert_eq!(next(&mut s, &mut it), None);
            assert!(!it.is_open());
        }
    }
}

#[test]
fn a_history_changes_no_answer() {
    let doc = r#"{"a":[{"n":1},{"n":2},{"n":3}],"b":{"c":{"d":"deep"}},"z":null}"#;
    let paths: Vec<Vec<Segment>> = vec![
        vec![member("b"), member("c"), member("d")],
        vec![member("a"), Segment::Element(2), member("n")],
        vec![member("a"), Segment::Element(9)],
        vec![member("b"), member("c"), member("x")],
        vec![member("z")],
        vec![],
    ];
    for (budget, cap, interval) in [(64, 16, 1), (2, 1, 1), (64, 0, 2), (64, usize::MAX, 0)] {
        let source = InMemoryStream::new(doc.as_bytes().to_vec());
        let session = Session::new(source.size(), 64, budget, cap, interval).unwrap();
        let mut s = Opened { session, source };
        for _ in 0..2 {
            for path in &paths {
                let source = InMemoryStream::new(doc.as_bytes().to_vec());
                let session = Session::new(source.size(), 64, 0, cap, interval).unwrap();
                let mut bare = Opened { session, source };
                assert_eq!(get(&mut s, path).unwrap(), get(&mut bare, path).unwrap());
            }
            assert_eq!(count(&mut s, &[member("a")]), 3);
            let mut it = Cursor::root().iter(
                &s.session,
                vec![member("a")],
                None,
                BatchLimits::count(2),
                false,
            );
            while next(&mut s, &mut it).is_some() {}
        }
    }
}

#[test]
fn a_tabled_path_is_answered_without_reading() {
    let doc = r#"{"a":{"b":{"c":5}},"z":0}"#;
    let mut s = open(doc, 64, 4);
    let path = vec![member("a"), member("b"), member("c")];
    assert_eq!(get(&mut s, &path).unwrap(), Some("5".to_string()));
    let nothing = s.session.new_window();
    let mut q = s.session.locate_at(path.clone(), 0, 0);
    assert_eq!(q.step_offset(&mut s.session, &nothing).unwrap(), Some(15));
    // A member that no table holds has to be read.
    let mut q = s.session.locate_at(vec![member("z")], 0, 0);
    assert!(matches!(
        q.step_offset(&mut s.session, &nothing),
        Err(SessionError::Traverse(TraverseError::Pending(ChunkMiss(0))))
    ));
}

#[test]
fn a_hop_along_a_missing_path_comes_to_nothing() {
    let doc = r#"{"a":[1,2],"b":{"c":3}}"#;
    let mut s = open(doc, 64, 2);
    let window = whole(&s);
    for path in [
        vec![member("x")],
        vec![member("a"), Segment::Element(2)],
        vec![member("b"), member("d")],
    ] {
        let mut q = Cursor::root().hop(&mut s.session, path);
        assert_eq!(q.step(&mut s.session, &window).unwrap(), None);
    }
    // The cursor that the hops began at still answers.
    assert_eq!(get(&mut s, &[member("b"), member("c")]).unwrap(), Some("3".to_string()));
}

#[test]
fn a_lookup_of_a_member_redoes_one_member_at_most() {
    let doc = format!(
        "{{{}}}",
        (0..2000).map(|i| format!("\"k{i}\":[{i}]")).collect::<Vec<_>>().join(",")
    );
    let mut s = open(&doc, 64, 16);
    let mut window = s.session.new_window();
    let mut q = s.session.locate_at(vec![member("k1999")], 0, 0);
    let mut bound = q.min_reachable();
    loop {
        match q.step_offset(&mut s.session, &window) {
            Err(SessionError::Traverse(TraverseError::Pending(ChunkMiss(offset)))) => {
                assert!(bound <= q.min_reachable());
                bound = q.min_reachable();
                // Every member but the one at hand is behind.
                let at = bound as usize;
                let reach = doc[at + 1..].find("],").map_or(doc.len(), |n| at + 1 + n + 2);
                assert!((offset as usize) < reach + 64);
                let n = q.burst(offset);
                fetch(&s, &mut window, offset, n, bound);
                assert!(window.len() as u64 <= n + 2);
            }
            r => {
                let at = r.unwrap().unwrap() as usize;
                assert_eq!(&doc[at..], "[1999]}");
                break;
            }
        }
    }
    assert!(bound > 16000);
}

#[test]
fn a_batch_holds_the_child_at_hand() {
    let doc = format!(
        "[{}]",
        (0..3000).map(|i| format!("{{\"n\":{i},\"m\":\"x\"}}")).collect::<Vec<_>>().join(", ")
    );
    let one = Some(CompiledSelect::One(vec![member("n")]));
    let fields = Some(CompiledSelect::Fields(vec![("n".to_string(), vec![member("n")])]));
    for select in [None, one, fields] {
        let mut s = open(&doc, 64, 16);
        let limits = BatchLimits::count(5000);
        let mut it = Cursor::root().iter(&s.session, vec![], select, limits, true);
        let mut most = 0;
        let text = loop {
            let r = if it.initialized() {
                it.fill_batch(&mut s.session)
            } else {
                it.initialize(&mut s.session).map(|_| None)
            };
            match r {
                Err(SessionError::Traverse(TraverseError::Pending(ChunkMiss(offset)))) => {
                    stream_fetch(&s, &mut it, offset);
                    most = most.max(it.window_len());
                }
                Ok(Some(text)) => break text,
                r => assert!(r.unwrap().is_none()),
            }
        };
        // One batch of everything, from a few chunks at a time.
        assert!(text.ends_with(b"]]"));
        assert!(most <= 4, "{most}");
    }
}

/// The chunks that a query asked for, one after the other.
fn asked(s: &mut Opened, path: &[Segment]) -> (Option<u64>, Vec<u64>) {
    let mut window = s.session.new_window();
    let mut q = s.session.locate_at(path.to_vec(), 0, 0);
    let mut misses = Vec::new();
    loop {
        match q.step_offset(&mut s.session, &window) {
            Err(SessionError::Traverse(TraverseError::Pending(ChunkMiss(offset)))) => {
                misses.push(offset);
                fetch(s, &mut window, offset, 1, q.min_reachable());
            }
            r => return (r.unwrap(), misses),
        }
    }
}

#[test]
fn a_lookup_reads_what_leads_to_its_value() {
    let doc = format!(
        "{{\"a\":{{\"b\":[1,2]}},\"pad\":\"{}\",\"list\":[[], {{}}, 7, {}],\"last\":{}}}",
        "x".repeat(3000),
        "\"y\", ".repeat(500) + "0",
        "[".repeat(400) + &"]".repeat(400),
    );
    let first = |text: &str| doc.find(text).unwrap() as u64;
    let cases = [
        (vec![member("a")], first("{\"b")),
        (vec![member("a"), member("b"), Segment::Element(1)], first("2]")),
        (vec![member("pad")], first("\"xxx")),
        (vec![member("list")], first("[[], ")),
        (vec![member("list"), Segment::Element(2)], first("7, ")),
        (vec![member("list"), Segment::Element(3)], first("\"y\"")),
        (vec![member("last")], first("[[[")),
    ];
    for (path, at) in cases {
        let mut s = open(&doc, 64, 16);
        let (found, misses) = asked(&mut s, &path);
        assert_eq!(found, Some(at));
        for miss in misses {
            assert!(miss < at + 64, "{miss} for a value at {at}");
        }
    }
}

#[test]
fn a_lookup_of_nothing_reads_to_the_close() {
    let doc = format!(
        "{{\"a\":{{\"b\":[1,[2,3]],\"c\":9}},\"pad\":\"{}\",\"last\":[]}}",
        "x".repeat(3000),
    );
    let at = |text: &str| doc.find(text).unwrap() as u64;
    let cases = [
        (vec![member("a"), member("z")], at("},\"pad")),
        (vec![member("a"), member("b"), Segment::Element(2)], at("],\"c")),
        (vec![member("a"), member("b"), Segment::Element(70)], at("],\"c")),
        (vec![member("a"), member("c"), member("d")], at("9}")),
        (vec![member("a"), Segment::Element(0)], at("{\"b")),
    ];
    for (path, end) in cases {
        let mut s = open(&doc, 64, 16);
        let mut window = s.session.new_window();
        let mut q = s.session.has_at(path, 0, 0);
        loop {
            match q.step_presence(&mut s.session, &window) {
                Err(SessionError::Traverse(TraverseError::Pending(ChunkMiss(offset)))) => {
                    assert!(offset < end + 64, "{offset} for {end}");
                    fetch(&s, &mut window, offset, 1, q.min_reachable());
                }
                r => {
                    assert!(!r.unwrap());
                    break;
                }
            }
        }
    }
}

#[test]
fn a_count_reads_to_the_close() {
    let doc = format!("[[1, [2, 3], {{}}], \"{}\"]", "x".repeat(3000));
    let mut s = open(&doc, 64, 16);
    let mut window = s.session.new_window();
    let mut q = match Counting::begin(&mut s.session, vec![Segment::Element(0)], 0, 0) {
        CountStart::Scan(q) => q,
        CountStart::Known(_) => panic!("a fresh session knows no count"),
    };
    let n = loop {
        match q.step(&mut s.session, &window) {
            Err(SessionError::Traverse(TraverseError::Pending(ChunkMiss(offset)))) => {
                assert!(offset < 16 + 64);
                fetch(&s, &mut window, offset, 1, q.min_reachable());
            }
            r => break r.unwrap(),
        }
    };
    assert_eq!(n, 3);
}

#[test]
fn a_value_is_read_to_its_end() {
    let doc = format!("{{\"a\":[1,[2]],\"b\":\"{}\"}}", "x".repeat(3000));
    let mut s = open(&doc, 64, 16);
    let mut window = s.session.new_window();
    let mut q = s.session.resolve_at(vec![member("a")], 0, 0);
    let end = loop {
        match q.step(&mut s.session, &window) {
            Err(SessionError::Traverse(TraverseError::Pending(ChunkMiss(offset)))) => {
                // The array ends at 12, and a scan reads a block ahead.
                assert!(offset < 12 + 64);
                fetch(&s, &mut window, offset, 1, q.min_reachable());
            }
            r => break r.unwrap().unwrap().end,
        }
    };
    assert_eq!(end, 12);
}

#[test]
fn entering_reads_up_to_the_open() {
    let doc = format!("[{}[{}]]", " ".repeat(200), "1,".repeat(500) + "1");
    let s = open(&doc, 64, 16);
    let mut window = s.session.new_window();
    let mut misses = Vec::new();
    let mut cursor = loop {
        match s.session.enter_container(1, &window) {
            Err(SessionError::Traverse(TraverseError::Pending(ChunkMiss(offset)))) => {
                misses.push(offset);
                fetch(&s, &mut window, offset, 1, 0);
            }
            r => break r.unwrap().unwrap(),
        }
    };
    assert_eq!(misses, vec![0, 64, 128, 192]);
    let child = s.session.next_child(&mut cursor, &window).unwrap().unwrap();
    assert_eq!((child.location.start, child.location.end), (202, 203));
}

#[test]
fn a_stream_reads_the_child_at_hand() {
    let doc = format!("[1, [2, 3], {{\"n\":\"{}\"}}, 4]", "x".repeat(4000));
    let mut s = open(&doc, 64, 4);
    let mut it = Cursor::root().iter(&s.session, vec![], None, BatchLimits::count(1), false);
    let mut batches = Vec::new();
    while batches.len() < 2 {
        let r = if it.initialized() {
            it.fill_batch(&mut s.session)
        } else {
            it.initialize(&mut s.session).map(|_| None)
        };
        match r {
            Err(SessionError::Traverse(TraverseError::Pending(ChunkMiss(offset)))) => {
                // The second child ends at 10, and a scan reads a block ahead.
                assert!(offset < 10 + 64);
                stream_fetch(&s, &mut it, offset);
            }
            Ok(Some(batch)) => batches.push(String::from_utf8(batch).unwrap()),
            r => assert!(r.unwrap().is_none()),
        }
    }
    assert_eq!(batches, vec!["[1]", "[[2, 3]]"]);
}
