use bote::index_cache::{Frontier, IndexCache, PER_CONTAINER_MEMBERS};
use bote::path::Segment;
use bote::resolve::{ContainerKind, ValueLocation};

fn member(name: &str, start: u64, value_start: u64) -> (String, u64, u64) {
    (name.into(), start, value_start)
}

fn obj_path(name: &str) -> Vec<Segment> {
    vec![Segment::Member(name.into())]
}

#[test]
fn disabled_cache_records_nothing() {
    let mut c = IndexCache::new(0);
    assert!(!c.is_enabled());
    c.record_object_scan(0, &[], 0, &[member("a", 1, 4)], Some(1));
    c.record_close(0, &[], ContainerKind::Object, 0, 10);
    assert!(c.get(0, &[]).is_none());
    assert_eq!(c.held(), 0);
}

#[test]
fn index_cache_object_table_covers_open_to_high_water() {
    let mut c = IndexCache::new(64);
    // {"a":1,"b":2,"c":3} - scan matched "c"; a,b skipped, c matched. Terminal is
    // c's member-start (the high-water).
    let members = [member("a", 1, 5), member("b", 7, 11), member("c", 13, 17)];
    c.record_object_scan(0, &[], 0, &members, Some(13));
    let node = c.get(0, &[]).expect("node");
    assert_eq!(node.member("a"), Some(5));
    assert_eq!(node.member("b"), Some(11));
    assert_eq!(node.member("c"), Some(17));
    assert_eq!(node.member("d"), None);
    // Frontier sits at the matched member's start, so any un-tabled member is at
    // or after it and a resume from there finds it.
    assert_eq!(node.frontier(), Frontier::Object { offset: 13 });
    assert_eq!(c.held(), 1 + 3);
}

#[test]
fn index_cache_object_sibling_scans_extend_contiguously() {
    let mut c = IndexCache::new(64);
    // First scan tables a,b and matched b (terminal = b's start = 7).
    c.record_object_scan(0, &[], 0, &[member("a", 1, 5), member("b", 7, 11)], Some(7));
    assert_eq!(
        c.get(0, &[]).unwrap().frontier(),
        Frontier::Object { offset: 7 }
    );
    // Second scan resumes at 7, re-reads b, then c,d; matched d (terminal = d's start).
    c.record_object_scan(
        0,
        &[],
        0,
        &[member("b", 7, 11), member("c", 13, 17), member("d", 19, 23)],
        Some(19),
    );
    let node = c.get(0, &[]).unwrap();
    assert_eq!(node.member("c"), Some(17));
    assert_eq!(node.member("d"), Some(23));
    assert_eq!(node.frontier(), Frontier::Object { offset: 19 });
    // b not double-counted.
    assert_eq!(c.held(), 1 + 4);
}

#[test]
fn per_container_cap_spills_to_frontier() {
    let budget = 1024;
    let mut c = IndexCache::new(budget);
    let members: Vec<_> = (0..PER_CONTAINER_MEMBERS + 10)
        .map(|i| member(&format!("k{i}"), (i * 10) as u64, (i * 10 + 4) as u64))
        .collect();
    c.record_object_scan(0, &[], 0, &members, Some(99_999));
    let node = c.get(0, &[]).unwrap();
    assert_eq!(
        node.member_count(),
        PER_CONTAINER_MEMBERS,
        "table capped at the per-container limit"
    );
    // Frontier froze at the first un-tabled member's start, not the terminal.
    let first_untabled_start = (PER_CONTAINER_MEMBERS * 10) as u64;
    assert_eq!(
        node.frontier(),
        Frontier::Object {
            offset: first_untabled_start
        }
    );
}

#[test]
fn array_frontier_advances_forward_only() {
    let mut c = IndexCache::new(64);
    c.record_array_scan(0, &[], 0, Some((5, 50)));
    assert_eq!(
        c.get(0, &[]).unwrap().frontier(),
        Frontier::Array {
            index: 5,
            offset: 50
        }
    );
    // A later, further index advances it.
    c.record_array_scan(0, &[], 0, Some((9, 90)));
    assert_eq!(
        c.get(0, &[]).unwrap().frontier(),
        Frontier::Array {
            index: 9,
            offset: 90
        }
    );
    // An earlier index does not rewind it.
    c.record_array_scan(0, &[], 0, Some((3, 30)));
    assert_eq!(
        c.get(0, &[]).unwrap().frontier(),
        Frontier::Array {
            index: 9,
            offset: 90
        }
    );
}

#[test]
fn index_cache_scalars_close_and_count_and_location() {
    let mut c = IndexCache::new(64);
    c.record_close(0, &[], ContainerKind::Array, 0, 42);
    c.record_child_count(0, &[], ContainerKind::Array, 0, 7);
    let node = c.get(0, &[]).unwrap();
    assert_eq!(node.child_count(), Some(7));
    // `location` exposes the recorded close as a full `[start, end)`.
    assert_eq!(node.location(), Some(ValueLocation { start: 0, end: 42 }));
}

#[test]
fn whole_node_lru_keeps_held_within_budget() {
    let budget = 50;
    let mut c = IndexCache::new(budget);
    // Insert many distinct object nodes, each with a few members.
    for i in 0..200u64 {
        let p = obj_path(&format!("path{i}"));
        let members = [
            member("x", i * 100, i * 100 + 4),
            member("y", i * 100 + 6, i * 100 + 10),
        ];
        c.record_object_scan(i, &p, i * 100, &members, Some(i * 100));
        assert!(
            c.held() <= budget,
            "held {} exceeded budget {budget} at i={i}",
            c.held()
        );
    }
    assert_eq!(c.held(), c.recomputed_held(), "held accounting drifted");
    // The most-recently-written node survives.
    let last = obj_path("path199");
    assert!(c.get(199, &last).is_some());
}

#[test]
fn cache_stays_bounded_under_many_queries() {
    let budget = 128;
    let mut c = IndexCache::new(budget);
    for round in 0..50u64 {
        for i in 0..64u64 {
            let p = obj_path(&format!("c{i}"));
            c.record_object_scan(
                0,
                &p,
                i * 1000,
                &[member("f", i * 1000, i * 1000 + 4)],
                Some(i * 1000),
            );
            c.record_array_scan(round, &p, i * 7, Some((round as usize, i * 7)));
        }
        assert!(c.held() <= budget, "held {} over budget", c.held());
        assert!(c.node_count() <= budget, "node_count over budget");
    }
    assert_eq!(c.held(), c.recomputed_held());
}

#[test]
fn a_touched_node_is_evicted_last() {
    let mut c = IndexCache::new(3);
    let write = |c: &mut IndexCache, at: u64| {
        c.record_close(at, &[], ContainerKind::Object, at, at + 2);
        assert_eq!(c.held(), c.recomputed_held());
    };
    for at in [10, 20, 30] {
        write(&mut c, at);
    }
    c.touch(10, &[]);
    write(&mut c, 40);
    assert!(c.get(10, &[]).is_some());
    assert!(c.get(20, &[]).is_none());
    write(&mut c, 50);
    assert!(c.get(10, &[]).is_some());
    assert!(c.get(30, &[]).is_none());
    // Now it is the one used least recently.
    write(&mut c, 60);
    assert!(c.get(10, &[]).is_none());
    assert_eq!(c.node_count(), 3);
}

#[test]
fn a_table_names_a_member_once() {
    let mut c = IndexCache::new(64);
    let twice = [member("a", 1, 5), member("b", 7, 11), member("a", 13, 17)];
    c.record_object_scan(0, &[], 0, &twice, Some(13));
    c.record_object_scan(0, &[], 0, &twice, Some(19));
    let node = c.get(0, &[]).unwrap();
    assert_eq!(node.member_count(), 2);
    assert_eq!(node.member("a"), Some(5));
    // A budget below the cap is the cap.
    let mut small = IndexCache::new(2);
    small.record_object_scan(0, &[], 0, &[member("a", 1, 5)], Some(1));
    assert_eq!(small.get(0, &[]).unwrap().member_count(), 1);
}
