use bote::chunks::{ChunkMiss, ChunkWindow};
use bote::path::Segment;
use bote::query::{CountStart, Counting, Getting, Locating, Resolving};
use bote::resolve::{ContainerCursor, PathFault, ValueLocation};
use bote::session::{
    absorb, doubling_burst, prune_window, range_burst, Session, SessionError,
    DEFAULT_ARRAY_INDEX_INTERVAL, DEFAULT_INDEX_CACHE_ENTRIES, DEFAULT_OBJECT_MEMBER_CAP, MAX_BURST,
};
use bote::source::InMemoryStream;
use bote::walker::TraverseError;

/// A session with its source. Counts reads so the index's effect on chunk faulting
/// is observable.
struct Opened {
    session: Session,
    source: InMemoryStream,
    reads: usize,
}

impl Opened {
    fn new(
        doc: String,
        chunk: usize,
        index_cache_budget: usize,
        object_member_cap: usize,
        array_interval: usize,
    ) -> Opened {
        let source = InMemoryStream::new(doc.into_bytes());
        let session = Session::new(
            source.size(),
            chunk,
            index_cache_budget,
            object_member_cap,
            array_interval,
        )
        .unwrap();
        Opened { session, source, reads: 0 }
    }

    fn cached(doc: String, chunk: usize) -> Opened {
        Opened::new(
            doc,
            chunk,
            DEFAULT_INDEX_CACHE_ENTRIES,
            DEFAULT_OBJECT_MEMBER_CAP,
            DEFAULT_ARRAY_INDEX_INTERVAL,
        )
    }

    /// Read a burst of chunks into the window.
    fn fetch(&mut self, window: &mut ChunkWindow, offset: u64, chunks: u64, keep_from: u64) {
        let mut burst = self.session.reader().read_chunks(offset, chunks);
        while let Some((at, length)) = burst.next_request() {
            self.reads += 1;
            burst.absorb(self.source.read(at, length).unwrap());
        }
        let (chunks, end) = burst.finish();
        absorb(window, chunks, end, keep_from);
    }

    fn run<Q: Query>(&mut self, mut query: Q, window: &mut ChunkWindow) -> Result<Q::Out, SessionError> {
        loop {
            match query.step(&mut self.session, window) {
                Err(SessionError::Traverse(TraverseError::Pending(ChunkMiss(offset)))) => {
                    let chunks = query.burst(offset);
                    let keep_from = query.min_reachable();
                    self.fetch(window, offset, chunks, keep_from);
                }
                r => return r,
            }
        }
    }

    fn run_locate(
        &mut self,
        path: &[Segment],
        window: &mut ChunkWindow,
    ) -> Result<Option<u64>, SessionError> {
        let query = self.session.locate_at(path.to_vec(), 0, 0);
        self.run(query, window)
    }

    fn locate(&mut self, path: &[Segment]) -> Result<Option<u64>, SessionError> {
        let mut window = self.session.new_window();
        self.run_locate(path, &mut window)
    }

    fn has(&mut self, path: &[Segment]) -> Result<bool, SessionError> {
        let mut window = self.session.new_window();
        let query = self.session.has_at(path.to_vec(), 0, 0);
        self.run(Presence(query), &mut window)
    }

    fn resolve(&mut self, path: &[Segment]) -> Result<Option<ValueLocation>, SessionError> {
        let mut window = self.session.new_window();
        let query = self.session.resolve_at(path.to_vec(), 0, 0);
        self.run(query, &mut window)
    }

    fn get(&mut self, path: &[Segment]) -> Result<Option<String>, SessionError> {
        let mut window = self.session.new_window();
        let query = self.session.get_at(path.to_vec(), 0, 0);
        let bytes = self.run(query, &mut window)?;
        Ok(bytes.map(|b| String::from_utf8(b).unwrap()))
    }

    fn count(&mut self, path: &[Segment]) -> Result<u64, SessionError> {
        let mut window = self.session.new_window();
        match Counting::begin(&mut self.session, path.to_vec(), 0, 0) {
            CountStart::Known(n) => Ok(n),
            CountStart::Scan(query) => self.run(query, &mut window),
        }
    }

    fn enter(&mut self, start: u64, window: &mut ChunkWindow) -> Option<ContainerCursor> {
        loop {
            match self.session.enter_container(start, window) {
                Err(SessionError::Traverse(TraverseError::Pending(ChunkMiss(offset)))) => {
                    self.fetch(window, offset, 1, start)
                }
                r => return r.unwrap(),
            }
        }
    }

    fn next_child(&mut self, cursor: &mut ContainerCursor, window: &mut ChunkWindow) -> bool {
        loop {
            match self.session.next_child(cursor, window) {
                Err(SessionError::Traverse(TraverseError::Pending(ChunkMiss(offset)))) => {
                    self.fetch(window, offset, 1, cursor.next_offset)
                }
                r => return r.unwrap().is_some(),
            }
        }
    }
}

/// A query that is stepped until it needs no more chunks.
trait Query {
    type Out;
    fn step(
        &mut self,
        session: &mut Session,
        window: &ChunkWindow,
    ) -> Result<Self::Out, SessionError>;
    fn burst(&mut self, offset: u64) -> u64;
    fn min_reachable(&self) -> u64;
}

impl Query for Locating {
    type Out = Option<u64>;
    fn step(&mut self, s: &mut Session, w: &ChunkWindow) -> Result<Option<u64>, SessionError> {
        self.step_offset(s, w)
    }
    fn burst(&mut self, offset: u64) -> u64 {
        Locating::burst(self, offset)
    }
    fn min_reachable(&self) -> u64 {
        Locating::min_reachable(self)
    }
}

struct Presence(Locating);

impl Query for Presence {
    type Out = bool;
    fn step(&mut self, s: &mut Session, w: &ChunkWindow) -> Result<bool, SessionError> {
        self.0.step_presence(s, w)
    }
    fn burst(&mut self, offset: u64) -> u64 {
        self.0.burst(offset)
    }
    fn min_reachable(&self) -> u64 {
        self.0.min_reachable()
    }
}

impl Query for Resolving {
    type Out = Option<ValueLocation>;
    fn step(
        &mut self,
        s: &mut Session,
        w: &ChunkWindow,
    ) -> Result<Option<ValueLocation>, SessionError> {
        Resolving::step(self, s, w)
    }
    fn burst(&mut self, offset: u64) -> u64 {
        Resolving::burst(self, offset)
    }
    fn min_reachable(&self) -> u64 {
        Resolving::min_reachable(self)
    }
}

impl Query for Getting {
    type Out = Option<Vec<u8>>;
    fn step(&mut self, s: &mut Session, w: &ChunkWindow) -> Result<Option<Vec<u8>>, SessionError> {
        Getting::step(self, s, w)
    }
    fn burst(&mut self, offset: u64) -> u64 {
        Getting::burst(self, offset)
    }
    fn min_reachable(&self) -> u64 {
        Getting::min_reachable(self)
    }
}

impl Query for Counting {
    type Out = u64;
    fn step(&mut self, s: &mut Session, w: &ChunkWindow) -> Result<u64, SessionError> {
        Counting::step(self, s, w)
    }
    fn burst(&mut self, offset: u64) -> u64 {
        Counting::burst(self, offset)
    }
    fn min_reachable(&self) -> u64 {
        Counting::min_reachable(self)
    }
}

fn member(name: &str) -> Segment {
    Segment::Member(name.into())
}

/// `{"a":{"b":{"f0":0,...,"f199":199,"c":1,"d":2}}}` - c and d are the last
/// members of a large object, so a cold scan of `b` is expensive.
fn deep_object_doc() -> String {
    let mut b = String::from("{");
    for i in 0..200 {
        b.push_str(&format!("\"f{i}\":{i},"));
    }
    b.push_str("\"c\":1,\"d\":2}");
    format!("{{\"a\":{{\"b\":{b}}}}}")
}

/// `{"arr":[{"v":"<padding>"}, ... 100 elements ...]}` - elements are large
/// enough that the comma popcount to a deep index faults several chunks.
fn big_array_doc() -> String {
    let pad = "x".repeat(40);
    let mut s = String::from("{\"arr\":[");
    for i in 0..100 {
        if i > 0 {
            s.push(',');
        }
        s.push_str(&format!("{{\"v\":\"{pad}\"}}"));
    }
    s.push_str("]}");
    s
}

/// `{"arr":["<pad>", ... n elements ...]}` - a long flat array where a deep
/// index sits many chunks in, so a backward re-get has real distance to save.
fn flat_array_doc(n: usize, pad: usize) -> String {
    let p = "x".repeat(pad);
    let mut s = String::from("{\"arr\":[");
    for i in 0..n {
        if i > 0 {
            s.push(',');
        }
        s.push('"');
        s.push_str(&p);
        s.push('"');
    }
    s.push_str("]}");
    s
}

#[test]
fn burst_doubling_schedule_caps_at_max_burst() {
    let mut b = doubling_burst();
    let mut expected = 1u64;
    for _ in 0..16 {
        assert_eq!(b.size(0), expected, "expected {expected} at this step");
        expected = expected.saturating_mul(2).min(MAX_BURST);
    }
    assert_eq!(b.size(0), MAX_BURST);
    assert_eq!(b.size(0), MAX_BURST);
}

#[test]
fn cache_object_sibling_faults_fewer_chunks() {
    let path_c = [member("a"), member("b"), member("c")];
    let path_d = [member("a"), member("b"), member("d")];

    // Warm: resolve c (populates the chain + b's member table), so d resumes
    // from c's resume_point - a one-member scan.
    let mut warm = Opened::cached(deep_object_doc(), 256);
    warm.locate(&path_c).unwrap().unwrap();
    warm.reads = 0;
    assert!(warm.locate(&path_d).unwrap().is_some());
    let warm_n = warm.reads;

    // Cold: d on a fresh session scans root, a, and all of b from their opens.
    let mut cold = Opened::cached(deep_object_doc(), 256);
    assert!(cold.locate(&path_d).unwrap().is_some());
    let cold_n = cold.reads;

    assert!(
        warm_n < cold_n,
        "warm sibling access ({warm_n} reads) should fault fewer chunks than cold ({cold_n})"
    );
}

#[test]
fn cache_array_resume_faults_fewer_chunks() {
    let at = |i: usize| [member("arr"), Segment::Element(i)];

    let mut warm = Opened::cached(big_array_doc(), 256);
    warm.locate(&at(40)).unwrap().unwrap();
    warm.reads = 0;
    assert!(warm.locate(&at(50)).unwrap().is_some());
    let warm_n = warm.reads;

    let mut cold = Opened::cached(big_array_doc(), 256);
    assert!(cold.locate(&at(50)).unwrap().is_some());
    let cold_n = cold.reads;

    assert!(
        warm_n < cold_n,
        "warm index resume ({warm_n} reads) should fault fewer chunks than cold ({cold_n})"
    );
}

#[test]
fn cache_backward_array_get_faults_fewer_chunks() {
    // The multi-member payoff: one deep get plants chunk-cadence array members
    // across the array, so a backward re-get resumes from the nearest array member
    // below its index instead of rescanning from the open.
    let doc = flat_array_doc(200, 120);
    let deep = [member("arr"), Segment::Element(180)];
    let back = [member("arr"), Segment::Element(20)];

    let mut warm = Opened::cached(doc.clone(), 256);
    warm.locate(&deep).unwrap().unwrap();
    warm.reads = 0;
    assert!(warm.locate(&back).unwrap().is_some());
    let warm_n = warm.reads;

    let mut cold = Opened::cached(doc, 256);
    assert!(cold.locate(&back).unwrap().is_some());
    let cold_n = cold.reads;

    assert!(
        warm_n < cold_n,
        "warm backward get ({warm_n} reads) should fault fewer chunks than cold ({cold_n})"
    );
}

#[test]
fn cache_repeat_count_issues_no_reads() {
    let mut s = Opened::cached(big_array_doc(), 256);
    let path = [member("arr")];
    let first = s.count(&path).unwrap();
    assert_eq!(first, 100);
    assert!(s.reads > 0, "cold count must read");
    s.reads = 0;
    let second = s.count(&path).unwrap();
    assert_eq!(second, 100);
    assert_eq!(
        s.reads, 0,
        "a repeat count must be served from the cache with no reads"
    );
}

/// Pins the mechanism - which nodes and members a scan tables - complementing the
/// read-count tests that prove the resulting benefit.
#[test]
fn cache_state_records_walked_containers() {
    // {"a":{"b":{"c":1,"d":2,"e":3}}}: resolving c then d tables both on the
    // [a,b] node; e is never queried, so it stays untabled.
    let doc = r#"{"a":{"b":{"c":1,"d":2,"e":3}}}"#.to_string();
    let mut s = Opened::cached(doc, 256);
    let ab = [member("a"), member("b")];

    // Cold: nothing cached yet.
    assert!(s.session.cache().get(0, &ab).is_none());

    s.locate(&[member("a"), member("b"), member("c")])
        .unwrap()
        .expect("c resolves");
    {
        let cache = s.session.cache();
        // The whole ancestor chain is tabled: root -> a, [a] -> b, [a,b] -> c.
        assert!(cache.get(0, &[]).unwrap().object_member("a").is_some());
        assert!(cache
            .get(0, &[member("a")])
            .unwrap()
            .object_member("b")
            .is_some());
        let n = cache.get(0, &ab).expect("the [a,b] container is cached");
        assert!(n.object_member("c").is_some(), "c was just resolved");
        assert!(n.object_member("d").is_none(), "d not yet seen");
        assert!(n.object_member("e").is_none());
    }

    s.locate(&[member("a"), member("b"), member("d")])
        .unwrap()
        .expect("d resolves");
    {
        let n = s.session.cache().get(0, &ab).unwrap();
        assert!(n.object_member("c").is_some(), "c still tabled");
        assert!(
            n.object_member("d").is_some(),
            "d now tabled (resumed past c)"
        );
        assert!(
            n.object_member("e").is_none(),
            "e never queried, never tabled"
        );
    }
}

#[test]
fn cache_state_array_records_array_member_at_target() {
    let mut s = Opened::cached(big_array_doc(), 256);
    let arr = [member("arr")];

    s.locate(&[member("arr"), Segment::Element(40)])
        .unwrap()
        .expect("element 40 resolves");
    // An exact array member was planted at the target, so the nearest at or below 40
    // is 40 itself.
    let nearest = s
        .session
        .cache()
        .get(0, &arr)
        .expect("arr node")
        .nearest_array_member(40);
    match nearest {
        Some((index, _)) => assert_eq!(index, 40, "exact array member at the resolved index"),
        None => panic!("expected an array member at or below 40"),
    }
}

#[test]
fn cache_state_count_records_child_count() {
    let mut s = Opened::cached(big_array_doc(), 256);
    let arr = [member("arr")];
    assert_eq!(s.count(&arr).unwrap(), 100);
    assert_eq!(
        s.session.cache().get(0, &arr).unwrap().child_count(),
        Some(100),
        "count must record the child count on the node"
    );
}

#[test]
fn cache_disabled_still_resolves() {
    // budget 0 => no caching; results must still resolve.
    let mut s = Opened::new(
        deep_object_doc(),
        256,
        0,
        DEFAULT_OBJECT_MEMBER_CAP,
        DEFAULT_ARRAY_INDEX_INTERVAL,
    );
    assert!(!s.session.cache_enabled());
    let path = [member("a"), member("b"), member("d")];
    assert!(s.locate(&path).unwrap().is_some());
    // Repeat count is not short-circuited when disabled.
    let n = s.count(&[member("a"), member("b")]).unwrap();
    assert_eq!(n, 202);
    assert!(s.session.cache().get(0, &path).is_none());
}

/// The bounded-memory contract: a full scan of a many-chunk document keeps the byte
/// window bounded by the burst, not by document size.
#[test]
fn window_stays_bounded_under_full_scan() {
    // 4 MiB doc of a flat array of small objects; 4 KiB chunks => ~1000 chunks.
    let mut doc = String::from("{\"items\":[");
    let mut i = 0;
    while doc.len() < 4 * 1024 * 1024 {
        if i > 0 {
            doc.push(',');
        }
        doc.push_str(&format!("{{\"n\":{i}}}"));
        i += 1;
    }
    doc.push_str("]}");
    let mut s = Opened::cached(doc, 4096);

    let start = s
        .locate(&[Segment::Member("items".into())])
        .unwrap()
        .expect("items resolves");

    let mut window = s.session.new_window();
    let mut cursor = s.enter(start, &mut window).expect("array");
    let bound = (MAX_BURST as usize) + 4; // one burst + small slack
    let mut seen = 0;
    while s.next_child(&mut cursor, &mut window) {
        seen += 1;
        prune_window(&mut window, cursor.next_offset);
        assert!(
            window.len() <= bound,
            "window held {} chunks at element {seen} (bound {bound})",
            window.len()
        );
    }
    assert!(seen > 1000, "scanned {seen} elements");
}

// ---- what queries answer

fn small(doc: &str) -> Opened {
    Opened::cached(doc.to_string(), 64)
}

#[test]
fn get_returns_the_raw_value() {
    let mut s = small(r#" {"a": [1, {"b": "x\ny"}, true], "c" : null}"#);
    assert_eq!(s.get(&[member("a")]).unwrap().unwrap(), r#"[1, {"b": "x\ny"}, true]"#);
    assert_eq!(
        s.get(&[member("a"), Segment::Element(1), member("b")])
            .unwrap()
            .unwrap(),
        r#""x\ny""#
    );
    assert_eq!(s.get(&[member("a"), Segment::Element(2)]).unwrap().unwrap(), "true");
    assert_eq!(s.get(&[member("c")]).unwrap().unwrap(), "null");
    assert_eq!(s.get(&[member("zzz")]).unwrap(), None);
    assert_eq!(s.get(&[member("a"), Segment::Element(3)]).unwrap(), None);
}

#[test]
fn get_of_the_root_skips_leading_whitespace() {
    let mut s = small("  \n {\"a\":1} ");
    assert_eq!(s.get(&[]).unwrap().unwrap(), "{\"a\":1}");
    // The close is known now; the answer stays.
    assert_eq!(s.get(&[]).unwrap().unwrap(), "{\"a\":1}");
    assert_eq!(s.get(&[member("a")]).unwrap().unwrap(), "1");
    assert_eq!(s.count(&[]).unwrap(), 1);
    assert_eq!(s.count(&[]).unwrap(), 1);
    assert_eq!(s.get(&[member("a")]).unwrap().unwrap(), "1");
}

#[test]
fn a_path_against_the_shape_is_an_error_of_get_only() {
    let mut s = small(r#"{"a":[1,2],"b":3}"#);
    assert!(matches!(
        s.get(&[member("b"), member("x")]),
        Err(SessionError::Path(PathFault::ThroughScalar { segment: 1 }))
    ));
    assert!(matches!(
        s.get(&[member("a"), member("x")]),
        Err(SessionError::Path(PathFault::WrongKind { segment: 1 }))
    ));
    assert!(matches!(
        s.locate(&[Segment::Element(0)]),
        Err(SessionError::Path(PathFault::WrongKind { segment: 0 }))
    ));
    assert!(!s.has(&[member("b"), member("x")]).unwrap());
    assert!(!s.has(&[member("a"), member("x")]).unwrap());
    assert!(!s.has(&[member("a"), Segment::Element(2)]).unwrap());
    assert!(s.has(&[member("a"), Segment::Element(1)]).unwrap());
    assert_eq!(s.count(&[member("b"), member("x")]).unwrap(), 0);
    assert_eq!(s.count(&[member("b")]).unwrap(), 0);
    assert_eq!(s.count(&[member("zzz")]).unwrap(), 0);
    assert_eq!(s.count(&[member("a")]).unwrap(), 2);
}

#[test]
fn presence_does_not_look_at_the_value() {
    // The value of "a" is cut off; it is there all the same.
    let mut s = small(r#"{"a":"cut"#);
    assert!(s.has(&[member("a")]).unwrap());
    assert!(matches!(
        s.get(&[member("a")]),
        Err(SessionError::Traverse(TraverseError::UnexpectedEof(_)))
    ));
}

#[test]
fn malformed_documents_are_errors() {
    let mut s = small(r#"{"a" 1}"#);
    assert!(matches!(
        s.get(&[member("a")]),
        Err(SessionError::Traverse(TraverseError::Malformed(5)))
    ));
    let mut s = small("");
    assert!(matches!(
        s.get(&[member("a")]),
        Err(SessionError::Traverse(TraverseError::UnexpectedEof(0)))
    ));
    let mut s = small("[1, 2");
    assert!(matches!(
        s.count(&[]),
        Err(SessionError::Traverse(TraverseError::UnexpectedEof(_)))
    ));
}

#[test]
fn counts_of_nested_and_empty_containers() {
    let mut s = small(r#"{"a":[ ],"b":{ },"c":[[1,2],{"x":1,"y":2},"p,q"],"d":[7]}"#);
    assert_eq!(s.count(&[member("a")]).unwrap(), 0);
    assert_eq!(s.count(&[member("b")]).unwrap(), 0);
    assert_eq!(s.count(&[member("c")]).unwrap(), 3);
    assert_eq!(s.count(&[member("d")]).unwrap(), 1);
    assert_eq!(s.count(&[]).unwrap(), 4);
    assert_eq!(s.count(&[member("c"), Segment::Element(1)]).unwrap(), 2);
}

#[test]
fn answers_do_not_depend_on_the_chunk_size_or_the_index() {
    let doc = deep_object_doc();
    let paths: Vec<Vec<Segment>> = vec![
        vec![],
        vec![member("a")],
        vec![member("a"), member("b"), member("f7")],
        vec![member("a"), member("b"), member("d")],
        vec![member("a"), member("b"), member("f199")],
        vec![member("a"), member("b"), member("none")],
    ];
    let mut want = Vec::new();
    let mut plain = Opened::new(doc.clone(), 4096, 0, 0, 0);
    for p in &paths {
        want.push((plain.resolve(p).unwrap(), plain.get(p).unwrap()));
    }
    for chunk in [64, 128, 1024] {
        for (budget, cap, interval) in [(0, 0, 0), (1024, usize::MAX, 16), (8, 4, 2), (1, 0, 1)] {
            let mut s = Opened::new(doc.clone(), chunk, budget, cap, interval);
            for _ in 0..2 {
                for (p, w) in paths.iter().zip(&want) {
                    assert_eq!(s.resolve(p).unwrap(), w.0);
                    assert_eq!(s.get(p).unwrap(), w.1);
                }
            }
            assert!(s.session.cache().slots_used() <= budget);
        }
    }
}

#[test]
fn a_repeated_get_of_a_container_reads_only_the_value() {
    let mut s = Opened::cached(big_array_doc(), 256);
    s.resolve(&[member("arr"), Segment::Element(60)]).unwrap().unwrap();
    s.reads = 0;
    // Both the way there and the close are known: nothing is read.
    s.resolve(&[member("arr"), Segment::Element(60)]).unwrap().unwrap();
    assert!(s.reads <= 1);
}

#[test]
fn a_session_rejects_an_invalid_chunk_size() {
    for n in [0, 63, 100] {
        let e = Session::new(Some(10), n, 0, 0, 0).err().unwrap();
        assert_eq!(
            e.message(),
            format!("chunk size must be a non-zero multiple of 64, got {n}")
        );
    }
    let s = Session::new(Some(10), 128, 0, 0, 0).unwrap();
    assert_eq!(s.chunk_bytes(), 128);
    assert_eq!(s.source_size(), Some(10));
    assert!(s.clock_allows(u64::MAX));
}

#[test]
fn a_range_is_read_in_one_burst() {
    assert_eq!(range_burst(0, 0, 64), 1);
    assert_eq!(range_burst(64, 65, 64), 1);
    assert_eq!(range_burst(64, 128, 64), 1);
    assert_eq!(range_burst(64, 129, 64), 2);
    assert_eq!(range_burst(100, 10, 64), 1);
    assert_eq!(range_burst(0, 64 * 1000, 64), 1000);
}

#[test]
fn a_forward_source_is_read_to_its_end() {
    let doc = deep_object_doc().into_bytes();
    let source = InMemoryStream::new(doc.clone());
    let session = Session::new(None, 64, 0, 0, 0).unwrap();
    let mut s = Opened { session, source, reads: 0 };
    assert_eq!(s.get(&[]).unwrap().unwrap().into_bytes(), doc);
    assert_eq!(s.get(&[member("a"), member("b"), member("d")]).unwrap().unwrap(), "2");
    assert_eq!(s.get(&[member("z")]).unwrap(), None);
}
