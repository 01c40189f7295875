use bote::chunks::ChunkWindow;
use bote::path::Segment;
use bote::resolve::{resolve_step, RecordBody, ResolveState, Resolved, ResumePoint};
use bote::walker::Walker;
use bytes::Bytes;

/// A [`ChunkWindow`] holding every chunk of `source`, so a single
/// [`resolve_step`] resolves without faulting.
fn full_window(source: &[u8]) -> ChunkWindow {
    let cs = 64u64;
    let mut w = ChunkWindow::new(cs, source.len() as u64);
    let mut off = 0u64;
    while (off as usize) < source.len() {
        let end = (off as usize + cs as usize).min(source.len());
        w.insert(off, Bytes::copy_from_slice(&source[off as usize..end]));
        off += cs;
    }
    w
}

fn resolve_once(win: &ChunkWindow, path: &[Segment], state: &mut ResolveState) -> Option<u64> {
    let mut w = Walker::new(win);
    match resolve_step(&mut w, path, state).expect("all chunks resident: no miss, no error") {
        Resolved::Found(off) => Some(off),
        Resolved::Absent | Resolved::NotNavigable(_) => None,
    }
}

fn member(name: &str) -> Segment {
    Segment::Member(name.into())
}

#[test]
fn resume_object_equals_cold() {
    // {"a":1,"b":2,"c":3} - "b" key starts at offset 7.
    let src = br#"{"a":1,"b":2,"c":3}"#;
    let win = full_window(src);

    let mut cold = ResolveState::resume(0, 0, None, false, 0);
    let cold_c = resolve_once(&win, &[member("c")], &mut cold);

    let mut seeded = ResolveState::resume(0, 0, Some(ResumePoint::Object { offset: 7 }), false, 0);
    let seeded_c = resolve_once(&win, &[member("c")], &mut seeded);

    assert_eq!(cold_c, seeded_c);
    assert_eq!(src[cold_c.unwrap() as usize], b'3');
}

#[test]
fn resume_array_equals_cold() {
    // [10,20,30,40] - element 1 starts at offset 4.
    let src = b"[10,20,30,40]";
    let win = full_window(src);

    let mut cold = ResolveState::resume(0, 0, None, false, 0);
    let cold_3 = resolve_once(&win, &[Segment::Element(3)], &mut cold);

    let mut seeded = ResolveState::resume(
        0,
        0,
        Some(ResumePoint::Array {
            index: 1,
            offset: 4,
        }),
        false,
        0,
    );
    let seeded_3 = resolve_once(&win, &[Segment::Element(3)], &mut seeded);

    assert_eq!(cold_3, seeded_3);
    assert_eq!(src[cold_3.unwrap() as usize], b'4');
}

#[test]
fn records_every_scanned_member() {
    let src = br#"{"a":1,"b":2,"c":3}"#;
    let win = full_window(src);
    let mut st = ResolveState::resume(0, 0, None, true, 16);
    resolve_once(&win, &[member("c")], &mut st);

    let h = st.take_scan_record().expect("collecting");
    assert_eq!(h.containers.len(), 1);
    let cs = &h.containers[0];
    assert_eq!(cs.seg, 0);
    assert_eq!(cs.value_start, 0);
    let RecordBody::Object { members, resume } = &cs.body else {
        panic!("expected an object record");
    };
    let names: Vec<&str> = members.iter().map(|(n, _, _)| n.as_ref()).collect();
    assert_eq!(names, vec!["a", "b", "c"]);
    // "c" starts at offset 13 - the high-water resume point.
    assert_eq!(*resume, Some(13));
}

#[test]
fn records_array_member() {
    let src = b"[10,20,30,40]";
    let win = full_window(src);
    let mut st = ResolveState::resume(0, 0, None, false, 16);
    resolve_once(&win, &[Segment::Element(2)], &mut st);

    let h = st.take_scan_record().expect("collecting");
    let RecordBody::Array { members } = &h.containers[0].body else {
        panic!("expected an array record");
    };
    // Stride 16 over 4 elements samples no grid array member, just the resolved
    // target. Element 2 ("30") starts at offset 7.
    assert_eq!(*members, vec![(2, 7)]);
}

#[test]
fn records_last_member_on_miss() {
    // Target absent: scan runs to the close. The last member (ends with `}` not
    // `,`) must be tabled too, or a later lookup of it would resume past it.
    let src = br#"{"a":1,"b":2}"#;
    let win = full_window(src);
    let mut st = ResolveState::resume(0, 0, None, true, 16);
    assert_eq!(resolve_once(&win, &[member("zzz")], &mut st), None);

    let h = st.take_scan_record().unwrap();
    let RecordBody::Object { members, resume } = &h.containers[0].body else {
        panic!("expected an object record");
    };
    let names: Vec<&str> = members.iter().map(|(n, _, _)| n.as_ref()).collect();
    assert_eq!(names, vec!["a", "b"], "the last member must be tabled too");
    assert_eq!(*resume, Some(12)); // the closing `}`
}

#[test]
fn records_spans_nested_containers() {
    let src = br#"{"users":[{"id":1},{"id":2,"name":"bo"}]}"#;
    let win = full_window(src);
    let mut st = ResolveState::resume(0, 0, None, true, 16);
    let got = resolve_once(
        &win,
        &[member("users"), Segment::Element(1), member("name")],
        &mut st,
    );
    assert!(got.is_some());

    let h = st.take_scan_record().expect("collecting");
    // One ContainerRecord per entered container: root object, users array, element object.
    assert_eq!(h.containers.len(), 3);
    assert_eq!(h.containers[0].seg, 0);
    assert_eq!(h.containers[1].seg, 1);
    assert_eq!(h.containers[2].seg, 2);
    let RecordBody::Array { members } = &h.containers[1].body else {
        panic!("expected an array record for the users array");
    };
    assert_eq!(members.last().map(|&(i, _)| i), Some(1));
}

#[test]
fn a_seed_at_any_child_changes_no_answer() {
    // The members begin at 1, 8, 16 and 24; the elements at 1, 4, 8 and 16.
    let object = br#"{"a":1, "b":2 , "c":{}, "d":[7]}"#;
    let win = full_window(object);
    for name in ["a", "b", "c", "d", "e"] {
        let path = [member(name)];
        let mut cold = ResolveState::resume(0, 0, None, true, 1);
        let want = resolve_once(&win, &path, &mut cold);
        for (n, offset) in [1u64, 8, 16, 24].into_iter().enumerate() {
            if ["a", "b", "c", "d"].iter().take(n).any(|m| *m == name) {
                continue;
            }
            // At the key, and just past the separator before it.
            for offset in [offset, if n == 0 { 1 } else { offset - 1 }] {
                let seed = Some(ResumePoint::Object { offset });
                let mut seeded = ResolveState::resume(0, 0, seed, true, 1);
                assert_eq!(resolve_once(&win, &path, &mut seeded), want, "{name} from {offset}");
            }
        }
    }
    let array = b"[0, 1 ,[2,3],\"4,5\"]";
    let win = full_window(array);
    for target in 0..6usize {
        let path = [Segment::Element(target)];
        let mut cold = ResolveState::resume(0, 0, None, true, 1);
        let want = resolve_once(&win, &path, &mut cold);
        for (index, offset) in [1u64, 4, 7, 13].into_iter().enumerate().take(target + 1) {
            let seed = Some(ResumePoint::Array { index, offset });
            let mut seeded = ResolveState::resume(0, 0, seed, true, 1);
            assert_eq!(resolve_once(&win, &path, &mut seeded), want, "{target} from {index}");
        }
    }
    // Past the container that it is for, the seed is of no account.
    let nested = br#"{"a":1,"b":{"a":2,"b":3}}"#;
    let win = full_window(nested);
    let mut seeded = ResolveState::resume(0, 0, Some(ResumePoint::Object { offset: 7 }), false, 0);
    let at = resolve_once(&win, &[member("b"), member("a")], &mut seeded).unwrap();
    assert_eq!(nested[at as usize], b'2');
}

#[test]
fn a_finished_path_reads_nothing() {
    let win = ChunkWindow::new(64, 1000);
    let mut state = ResolveState::resume(500, 1, None, true, 1);
    assert_eq!(state.min_reachable(), 500);
    assert_eq!(resolve_once(&win, &[member("a")], &mut state), Some(500));
}
