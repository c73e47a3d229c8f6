use openlrlens::encode_error::EncodeError;
use openlrlens::graph::{Direction, Graph, NetworkNode, NetworkSegment, NodeId, SegmentId};
use openlrlens::virtual_split::{split_for_rule1, LrpAnchor};

fn e7(deg: f64) -> i32 {
    (deg * 1e7).round() as i32
}

fn node(id: u32, lon: f64, lat: f64) -> NetworkNode {
    NetworkNode { id: NodeId(id), lon: e7(lon), lat: e7(lat), stable_id: String::new(), is_boundary: false }
}

/// A segment running due east from `(s * 0.1, 0.0)`, `len_m` long.
fn seg(id: u32, s: u32, e: u32, len_m: u32) -> NetworkSegment {
    let lon0 = f64::from(s) * 0.1;
    let len_deg = f64::from(len_m) / 111_000.0;
    NetworkSegment {
        id: SegmentId(id),
        start_node: NodeId(s),
        end_node: NodeId(e),
        geometry: vec![(e7(lon0), e7(0.0)), (e7(lon0 + len_deg), e7(0.0))],
        length_cm: len_m * 100,
        frc: 3,
        fow: 2,
        direction: Direction::Both,
        stable_id: String::new(),
        source_id: [0; 16],
    }
}

fn make_valid_junction(g: &mut Graph, at: NodeId, spur_id: u32, spur_to: u32) {
    // A degree-3 node (real branch) is a valid junction per `is_valid_node`.
    g.add_node(node(spur_to, 99.0, 79.0));
    g.add_segment(seg(spur_id, at.0, spur_to, 50));
}

#[test]
fn fits_within_budget_returns_single_unsplit_leg() {
    let mut g = Graph::new();
    g.add_node(node(0, 0.0, 0.0));
    g.add_node(node(1, 0.1, 0.0));
    g.add_segment(seg(1, 0, 1, 100));

    let legs = split_for_rule1(&g, NodeId(0), &[SegmentId(1)], 1_500_000).unwrap();
    assert_eq!(legs.len(), 1);
    assert!(matches!(legs[0].start, LrpAnchor::Node(NodeId(0))));
    assert_eq!(legs[0].segments, vec![SegmentId(1)]);
    assert_eq!(legs[0].length_cm, 10_000);
}

#[test]
fn multi_segment_leg_prefers_farthest_valid_node_within_budget() {
    let mut g = Graph::new();
    for i in 0..=4u32 {
        g.add_node(node(i, f64::from(i) * 0.1, 0.0));
    }
    g.add_segment(seg(1, 0, 1, 6_000));
    g.add_segment(seg(2, 1, 2, 3_000)); // cumulative 9km at node 2
    make_valid_junction(&mut g, NodeId(2), 20, 90);
    g.add_segment(seg(3, 2, 3, 900)); // cumulative 9.9km at node 3 (pass-through)
    g.add_segment(seg(4, 3, 4, 3_000)); // cumulative 12.9km at node 4 (pass-through)

    let path = vec![SegmentId(1), SegmentId(2), SegmentId(3), SegmentId(4)];
    let legs = split_for_rule1(&g, NodeId(0), &path, 1_000_000).unwrap();

    assert_eq!(legs.len(), 2, "12.9km total over a 10km cap needs exactly one split");
    assert!(matches!(legs[0].start, LrpAnchor::Node(NodeId(0))));
    assert_eq!(legs[0].segments, vec![SegmentId(1), SegmentId(2)], "should stop at the valid node 2, not push on to invalid nodes 3/4 within budget");
    assert_eq!(legs[0].length_cm, 900_000);
    assert!(matches!(legs[1].start, LrpAnchor::Node(NodeId(2))));
    assert_eq!(legs[1].segments, vec![SegmentId(3), SegmentId(4)]);
    assert_eq!(legs[1].length_cm, 390_000);
}

#[test]
fn falls_back_to_farthest_invalid_node_when_none_valid_in_range() {
    // 0 --9km-- 1(pass-through) --2km-- 2(pass-through) --2km-- 3(dead end, valid, but
    // out of reach of the 10km budget regardless).
    let mut g = Graph::new();
    for i in 0..=3u32 {
        g.add_node(node(i, f64::from(i) * 0.1, 0.0));
    }
    g.add_segment(seg(1, 0, 1, 9_000));
    g.add_segment(seg(2, 1, 2, 2_000)); // cumulative 11km, outside budget
    g.add_segment(seg(3, 2, 3, 2_000)); // cumulative 13km

    let path = vec![SegmentId(1), SegmentId(2), SegmentId(3)];
    let legs = split_for_rule1(&g, NodeId(0), &path, 1_000_000).unwrap();

    assert_eq!(legs.len(), 2, "13km total over a 10km cap needs exactly one split");
    assert_eq!(legs[0].segments, vec![SegmentId(1)], "only node 1 (9km) is within the 10km budget -- node 2 (11km) is not");
    assert_eq!(legs[0].length_cm, 900_000);
    assert!(matches!(legs[1].start, LrpAnchor::Node(NodeId(1))));
    assert_eq!(legs[1].segments, vec![SegmentId(2), SegmentId(3)]);
    assert_eq!(legs[1].length_cm, 400_000);
}

#[test]
fn single_oversized_segment_gets_virtual_cuts() {
    // One 40km segment, no interior node at all.
    let mut g = Graph::new();
    g.add_node(node(0, 0.0, 0.0));
    g.add_node(node(1, 40_000.0 / 111_000.0, 0.0));
    g.add_segment(seg(1, 0, 1, 40_000));

    let legs = split_for_rule1(&g, NodeId(0), &[SegmentId(1)], 1_500_000).unwrap();

    assert_eq!(legs.len(), 3, "40km / 15km needs 2 splits -> 3 legs (15+15+10)");
    assert!(matches!(legs[0].start, LrpAnchor::Node(NodeId(0))));
    assert_eq!(legs[0].length_cm, 1_500_000);
    match legs[1].start {
        LrpAnchor::Virtual { segment, entry_node, dist_from_entry_cm } => {
            assert_eq!(segment, SegmentId(1));
            assert_eq!(entry_node, NodeId(0));
            assert_eq!(dist_from_entry_cm, 1_500_000);
        }
        other => panic!("expected a virtual anchor, got {other:?}"),
    }
    assert_eq!(legs[1].length_cm, 1_500_000);
    match legs[2].start {
        LrpAnchor::Virtual { dist_from_entry_cm, .. } => assert_eq!(dist_from_entry_cm, 3_000_000),
        other => panic!("expected a virtual anchor, got {other:?}"),
    }
    assert_eq!(legs[2].length_cm, 1_000_000);
    for seg_id in legs.iter().map(|l| &l.segments) {
        assert_eq!(seg_id, &vec![SegmentId(1)]);
    }
}

#[test]
fn mixed_leg_ends_with_a_virtual_cut_on_the_final_oversized_segment() {
    // 0 --6km-- 1(pass-through) --3km-- 2(pass-through) --20km(oversized, no interior
    // node)-- 3(dead end, valid, but far out of reach).
    let mut g = Graph::new();
    g.add_node(node(0, 0.0, 0.0));
    g.add_node(node(1, 6_000.0 / 111_000.0, 0.0));
    g.add_node(node(2, 9_000.0 / 111_000.0, 0.0));
    g.add_node(node(3, 29_000.0 / 111_000.0, 0.0));
    g.add_segment(seg(1, 0, 1, 6_000));
    g.add_segment(seg(2, 1, 2, 3_000));
    g.add_segment(seg(3, 2, 3, 20_000));

    let path = vec![SegmentId(1), SegmentId(2), SegmentId(3)];
    let legs = split_for_rule1(&g, NodeId(0), &path, 1_500_000).unwrap();

    assert_eq!(legs.len(), 3);
    assert!(matches!(legs[0].start, LrpAnchor::Node(NodeId(0))));
    assert_eq!(legs[0].segments, vec![SegmentId(1), SegmentId(2)], "no node within budget is preferred/required -- take the farthest (node 2 at 9km)");
    assert_eq!(legs[0].length_cm, 900_000);

    assert!(matches!(legs[1].start, LrpAnchor::Node(NodeId(2))));
    assert_eq!(legs[1].segments, vec![SegmentId(3)]);
    assert_eq!(legs[1].length_cm, 1_500_000);

    match legs[2].start {
        LrpAnchor::Virtual { segment, entry_node, dist_from_entry_cm } => {
            assert_eq!(segment, SegmentId(3));
            assert_eq!(entry_node, NodeId(2));
            assert_eq!(dist_from_entry_cm, 1_500_000);
        }
        other => panic!("expected a virtual anchor, got {other:?}"),
    }
    assert_eq!(legs[2].segments, vec![SegmentId(3)]);
    assert_eq!(legs[2].length_cm, 500_000);
}

#[test]
fn degenerate_max_leg_m_returns_leg_too_long_instead_of_looping() {
    let mut g = Graph::new();
    g.add_node(node(0, 0.0, 0.0));
    g.add_node(node(1, 0.1, 0.0));
    g.add_segment(seg(1, 0, 1, 100));

    assert!(matches!(split_for_rule1(&g, NodeId(0), &[SegmentId(1)], 0), Err(EncodeError::LegTooLong { .. })));
    assert!(matches!(split_for_rule1(&g, NodeId(0), &[SegmentId(1)], -500), Err(EncodeError::LegTooLong { .. })));
    assert!(matches!(
        split_for_rule1(&g, NodeId(0), &[SegmentId(1), SegmentId(77)], i64::MIN),
        Err(EncodeError::LegTooLong { length_cm: 10_000, max_leg_cm: i64::MIN })
    ));
}
