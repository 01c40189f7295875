use bote::cache::StructuralIndex;
use bote::path::Segment;
use bote::resolve::{
    ContainerKind, ContainerRecord, RecordBody, ResumePoint, ScanRecord, ValueLocation,
};

// Big enough that the table/array-member tests never trip eviction.
const NO_EVICT: usize = 1 << 20;

fn member(name: &str, start: u64, value_start: u64) -> (String, u64, u64) {
    (name.into(), start, value_start)
}

fn obj_path(name: &str) -> Vec<Segment> {
    vec![Segment::Member(name.into())]
}

#[test]
fn cache_object_table_covers_open_to_high_water() {
    let mut c = StructuralIndex::new(NO_EVICT, 64, 16);
    // {"a":1,"b":2,"c":3} - scan matched "c"; a,b skipped, c matched. Terminal is
    // c's member-start (the high-water).
    let members = [member("a", 1, 5), member("b", 7, 11), member("c", 13, 17)];
    c.merge_object_scan(0, 0, &[], 0, &members, Some(13));
    let node = c.get(0, &[]).expect("node");
    assert_eq!(node.object_member("a"), Some(5));
    assert_eq!(node.object_member("b"), Some(11));
    assert_eq!(node.object_member("c"), Some(17));
    assert_eq!(node.object_member("d"), None);
    // Resume sits at the matched member's start, so any un-tabled member is at or
    // after it - a resume from there finds it.
    assert_eq!(node.object_resume(), 13);
    assert_eq!(node.object_member_count(), 3);
}

#[test]
fn cache_object_sibling_scans_extend_contiguously() {
    let mut c = StructuralIndex::new(NO_EVICT, 64, 16);
    // First scan tables a,b and matched b (resume = b's start = 7).
    c.merge_object_scan(
        0,
        0,
        &[],
        0,
        &[member("a", 1, 5), member("b", 7, 11)],
        Some(7),
    );
    assert_eq!(c.get(0, &[]).unwrap().object_resume(), 7);
    // Second scan resumes at 7, re-reads b, then c,d; matched d (resume = d's start).
    c.merge_object_scan(
        0,
        0,
        &[],
        0,
        &[member("b", 7, 11), member("c", 13, 17), member("d", 19, 23)],
        Some(19),
    );
    let node = c.get(0, &[]).unwrap();
    assert_eq!(node.object_member("c"), Some(17));
    assert_eq!(node.object_member("d"), Some(23));
    assert_eq!(node.object_resume(), 19);
    // b not double-counted.
    assert_eq!(node.object_member_count(), 4);
    // Slot accounting tracks the growing table (node + 4 members).
    assert_eq!(c.slots_used(), 5);
    assert_eq!(c.slots_used(), c.recomputed_slots_used());
}

#[test]
fn object_cap_spills_to_resume_point() {
    let cap = 8;
    let mut c = StructuralIndex::new(NO_EVICT, cap, 16);
    let members: Vec<_> = (0..cap + 10)
        .map(|i| member(&format!("k{i}"), (i * 10) as u64, (i * 10 + 4) as u64))
        .collect();
    c.merge_object_scan(0, 0, &[], 0, &members, Some(99_999));
    let node = c.get(0, &[]).unwrap();
    assert_eq!(
        node.object_member_count(),
        cap,
        "table capped at object_member_cap"
    );
    // The resume offset froze at the first un-tabled member's start, not the resume.
    let first_untabled_start = (cap * 10) as u64;
    assert_eq!(node.object_resume(), first_untabled_start);
}

#[test]
fn object_cap_unbounded_tables_all() {
    let mut c = StructuralIndex::new(NO_EVICT, usize::MAX, 16);
    let members: Vec<_> = (0..500)
        .map(|i| member(&format!("k{i}"), (i * 10) as u64, (i * 10 + 4) as u64))
        .collect();
    c.merge_object_scan(0, 0, &[], 0, &members, Some(99_999));
    assert_eq!(
        c.get(0, &[]).unwrap().object_member_count(),
        500,
        "the unbounded default tables every member"
    );
}

#[test]
fn array_members_merge_sorted_and_deduped() {
    let mut c = StructuralIndex::new(NO_EVICT, 64, 16);
    c.merge_array_scan(0, 0, &[], 0, &[(5, 50), (2, 20), (9, 90)]);
    assert_eq!(
        c.get(0, &[]).unwrap().array_members(),
        &[(2, 20), (5, 50), (9, 90)]
    );
    // A second scan merges new indices and dedups a repeat (same index).
    c.merge_array_scan(0, 0, &[], 0, &[(2, 20), (7, 70)]);
    assert_eq!(
        c.get(0, &[]).unwrap().array_members(),
        &[(2, 20), (5, 50), (7, 70), (9, 90)]
    );
    // Array members don't count toward slots: one array node is one slot.
    assert_eq!(c.slots_used(), 1);
}

#[test]
fn array_members_unbounded() {
    let mut c = StructuralIndex::new(NO_EVICT, 64, 16);
    let lms: Vec<(usize, u64)> = (0..1000).map(|i| (i, (i * 10) as u64)).collect();
    c.merge_array_scan(0, 0, &[], 0, &lms);
    let got = c.get(0, &[]).unwrap().array_members();
    assert_eq!(
        got.len(),
        1000,
        "no cap/coarsen: every array member is kept"
    );
    assert!(
        got.windows(2).all(|w| w[0].0 < w[1].0),
        "indices stay sorted/unique"
    );
}

#[test]
fn chain_hops_array_seeds_nearest_at_or_below_target() {
    let mut c = StructuralIndex::new(NO_EVICT, 64, 16);
    // Root container is the array (prefix `[]`); array members at 2, 5, 9.
    c.merge_array_scan(0, 0, &[], 0, &[(2, 20), (5, 50), (9, 90)]);

    // Forward: target 7 resumes from the nearest at or below (index 5).
    let (start, seg, seed) = c.chain_hops(0, &[Segment::Element(7)]);
    assert_eq!((start, seg), (0, 0));
    assert_eq!(
        seed,
        Some(ResumePoint::Array {
            index: 5,
            offset: 50
        })
    );

    // Backward: target 3 resumes from index 2 - impossible under a single
    // forward-only member, which would have parked at 9 and rescanned from open.
    let (_, _, back) = c.chain_hops(0, &[Segment::Element(3)]);
    assert_eq!(
        back,
        Some(ResumePoint::Array {
            index: 2,
            offset: 20
        })
    );

    // No array member at or below 1: scan from the open.
    let (_, _, none) = c.chain_hops(0, &[Segment::Element(1)]);
    assert_eq!(none, None);
}

#[test]
fn cache_scalars_close_and_count_and_location() {
    let mut c = StructuralIndex::new(NO_EVICT, 64, 16);
    c.store_close(0, 0, &[], ContainerKind::Array, 0, 42);
    c.store_child_count(0, 0, &[], ContainerKind::Array, 0, 7);
    let node = c.get(0, &[]).unwrap();
    assert_eq!(node.child_count(), Some(7));
    assert_eq!(node.location(), Some(ValueLocation { start: 0, end: 42 }));
}

#[test]
fn disabled_when_budget_zero_or_caps_zero() {
    // Budget 0 disables regardless of the per-container caps.
    let mut c = StructuralIndex::new(0, 64, 16);
    assert!(!c.is_enabled());
    c.merge_object_scan(0, 0, &[], 0, &[member("a", 1, 4)], Some(1));
    c.store_close(0, 0, &[], ContainerKind::Object, 0, 10);
    assert!(c.get(0, &[]).is_none());
    // Both per-container caps 0 disables even with a budget (the off switch).
    let mut c = StructuralIndex::new(NO_EVICT, 0, 0);
    assert!(!c.is_enabled());
    c.merge_object_scan(0, 0, &[], 0, &[member("a", 1, 4)], Some(1));
    assert!(c.get(0, &[]).is_none());
}

#[test]
fn budget_bounds_slots_used() {
    let budget = 64;
    let mut c = StructuralIndex::new(budget, usize::MAX, 16);
    // Distinct single-member nodes, all at the same depth so eviction is purely
    // by recency.
    for i in 0..200u64 {
        let p = obj_path(&format!("path{i}"));
        c.merge_object_scan(
            0,
            i,
            &p,
            i * 100,
            &[member("x", i * 100, i * 100 + 4)],
            Some(i * 100),
        );
        assert!(
            c.slots_used() <= budget,
            "slots_used {} exceeded budget {budget} at i={i}",
            c.slots_used()
        );
    }
    assert_eq!(c.slots_used(), c.recomputed_slots_used());
    assert!(c.node_count() <= budget);
    assert!(
        c.get(199, &obj_path("path199")).is_some(),
        "recent node kept"
    );
    assert!(c.get(0, &obj_path("path0")).is_none(), "stale node evicted");
}

#[test]
fn eviction_is_depth_first_keeping_the_shallow_backbone() {
    let budget = 8;
    let mut c = StructuralIndex::new(budget, usize::MAX, 16);
    // One shallow backbone node (depth 0): a root array with array members.
    c.merge_array_scan(0, 0, &[], 0, &[(0, 0), (16, 160)]);
    // Flood deep nodes (depth 2): re-anchored element objects, tagged base_depth 2
    // the way iter/walk would.
    for i in 0..100u64 {
        c.merge_object_scan(
            2,
            i + 1,
            &[],
            i * 100,
            &[member("name", i * 100, i * 100 + 7)],
            Some(i * 100),
        );
        assert!(c.slots_used() <= budget);
    }
    // Never the victim while deeper nodes exist, so it survives the flood.
    let backbone = c.get(0, &[]).expect("shallow backbone node must survive");
    assert_eq!(backbone.array_members(), &[(0, 0), (16, 160)]);
    assert!(c.node_count() <= budget);
}

#[test]
fn the_table_stays_a_dense_prefix_over_scans() {
    // Members at 1, 11, 21, ..., their values four bytes on.
    let all: Vec<(String, u64, u64)> = (0..10u64)
        .map(|i| member(&format!("m{i}"), 10 * i + 1, 10 * i + 5))
        .collect();
    for cap in [3usize, 6, 64] {
        let mut c = StructuralIndex::new(NO_EVICT, cap, 16);
        let mut resume = 1;
        // Each scan starts at or before where the last one ended.
        for (from, to, ended) in [
            (0, 3, Some(21)),
            (2, 5, Some(41)),
            (0, 1, Some(1)),
            (4, 7, None),
            (3, 10, Some(101)),
        ] {
            // A scan resumes at the offset that the table gives.
            let from = all.iter().position(|m| m.1 >= resume).unwrap_or(10).min(from);
            let known: Vec<Option<u64>> = match c.get(0, &[]) {
                Some(node) => all.iter().map(|m| node.object_member(&m.0)).collect(),
                None => vec![None; 10],
            };
            c.merge_object_scan(0, 0, &[], 0, &all[from..to.max(from)], ended);
            let node = c.get(0, &[]).unwrap();
            assert!(node.object_resume() >= resume);
            resume = node.object_resume();
            assert!(node.object_member_count() <= cap);
            for (m, before) in all.iter().zip(known) {
                if m.1 < resume {
                    assert_eq!(node.object_member(&m.0), Some(m.2), "{} below {resume}", m.0);
                }
                if before.is_some() {
                    assert_eq!(node.object_member(&m.0), before);
                }
            }
        }
        // Past the cap the resume offset stays at the first member without a place.
        assert_eq!(resume, if cap < 10 { 10 * cap as u64 + 1 } else { 101 });
    }
}

#[test]
fn a_disabled_index_stays_empty_under_every_write() {
    for (budget, cap, interval, on) in [
        (0usize, 64usize, 16usize, false),
        (8, 0, 0, false),
        (0, 0, 0, false),
        (8, 1, 0, true),
        (8, 0, 1, true),
    ] {
        let mut c = StructuralIndex::new(budget, cap, interval);
        assert_eq!(c.is_enabled(), on);
        c.merge_object_scan(0, 0, &[], 0, &[member("a", 1, 5)], Some(1));
        c.merge_array_scan(0, 0, &obj_path("x"), 30, &[(16, 90)]);
        c.store_close(0, 0, &obj_path("y"), ContainerKind::Array, 50, 60);
        c.store_child_count(0, 0, &obj_path("z"), ContainerKind::Object, 70, 2);
        for path in [vec![], obj_path("x"), obj_path("y"), obj_path("z")] {
            assert_eq!(c.get(0, &path).is_some(), on);
        }
        assert_eq!(c.slots_used() == 0, !on);
        assert_eq!(c.node_count() == 0, !on);
    }
}

#[test]
fn a_record_is_written_as_its_scans() {
    let path = vec![Segment::Member("a".into()), Segment::Element(2)];
    let record = ScanRecord {
        containers: vec![
            ContainerRecord {
                seg: 0,
                value_start: 0,
                body: RecordBody::Object {
                    members: vec![member("x", 1, 5), member("a", 7, 11)],
                    resume: Some(7),
                },
            },
            ContainerRecord {
                seg: 1,
                value_start: 11,
                body: RecordBody::Array { members: vec![(0, 12), (2, 18)] },
            },
        ],
    };
    let mut at_once = StructuralIndex::new(NO_EVICT, 64, 2);
    at_once.apply_scan_record(3, 0, &path, &record);
    let mut one_by_one = StructuralIndex::new(NO_EVICT, 64, 2);
    let members = [member("x", 1, 5), member("a", 7, 11)];
    one_by_one.merge_object_scan(3, 0, &path[..0], 0, &members, Some(7));
    one_by_one.merge_array_scan(3, 0, &path[..1], 11, &[(0, 12), (2, 18)]);
    for c in [&at_once, &one_by_one] {
        let root = c.get(0, &[]).unwrap();
        assert_eq!((root.object_member("a"), root.object_resume()), (Some(11), 7));
        assert_eq!(c.get(0, &path[..1]).unwrap().array_members(), [(0, 12), (2, 18)]);
        assert_eq!((c.node_count(), c.slots_used(), c.clock()), (2, 4, 2));
    }
}

#[test]
fn a_touched_node_sheds_last_of_its_depth() {
    let mut c = StructuralIndex::new(8, 64, 16);
    for at in 1..=8u64 {
        c.store_close(1, 10 * at, &[], ContainerKind::Object, 10 * at, 10 * at + 2);
    }
    // A hop through the oldest node uses it.
    c.chain_hops(10, &obj_path("x"));
    c.store_close(1, 90, &[], ContainerKind::Object, 90, 92);
    assert_eq!(c.slots_used(), 7);
    let left: Vec<u64> = (1..=9).filter(|at| c.get(10 * at, &[]).is_some()).collect();
    assert_eq!(left, vec![1, 4, 5, 6, 7, 8, 9]);
}

#[test]
fn no_more_is_shed_than_has_to_be() {
    // One node of three slots, the others of one: going from nine slots to seven
    // takes the deepest node alone.
    let mut c = StructuralIndex::new(8, 64, 16);
    let two = [member("a", 101, 105), member("b", 107, 111)];
    c.merge_object_scan(2, 100, &[], 100, &two, Some(107));
    for at in 1..=6u64 {
        c.store_close(1, 10 * at, &[], ContainerKind::Object, 10 * at, 10 * at + 2);
    }
    assert!(c.get(100, &[]).is_none());
    assert_eq!(c.slots_used(), 6);
    assert_eq!(c.node_count(), 6);
}
