use openlrlens::graph::{Direction, Graph, NetworkNode, NetworkSegment, NodeId, SegmentId, TurnRestriction};

fn seg(id: u32, s: u32, e: u32, direction: Direction) -> NetworkSegment {
    NetworkSegment {
        id: SegmentId(id),
        start_node: NodeId(s),
        end_node: NodeId(e),
        geometry: vec![(0, 0), (1, 1)],
        length_cm: 100,
        frc: 3,
        fow: 3,
        direction,
        stable_id: String::new(),
        source_id: [0; 16],
    }
}

#[test]
fn segments_are_found_from_their_nodes() {
    let mut g = Graph::new();
    g.add_segment(seg(1, 0, 1, Direction::Forward));
    g.add_segment(seg(2, 1, 2, Direction::Backward));
    g.add_segment(seg(3, 1, 1, Direction::Both));
    let around = g.topology_neighbors(NodeId(1));
    assert_eq!(
        around,
        vec![
            (NodeId(0), SegmentId(1)),
            (NodeId(2), SegmentId(2)),
            (NodeId(1), SegmentId(3)),
        ]
    );
    assert_eq!(g.outgoing_segments(NodeId(1)), vec![SegmentId(3)]);
    assert_eq!(g.outgoing_segments(NodeId(0)), vec![SegmentId(1)]);
    assert_eq!(g.outgoing_segments(NodeId(2)), vec![SegmentId(2)]);
    assert_eq!(g.other_end(SegmentId(2), NodeId(1)), Some(NodeId(2)));
    assert_eq!(g.other_end(SegmentId(2), NodeId(0)), None);
    assert_eq!(g.other_end(SegmentId(9), NodeId(0)), None);
    assert!(g.topology_neighbors(NodeId(77)).is_empty());
}

#[test]
fn a_segment_takes_the_place_of_its_namesake() {
    let mut g = Graph::new();
    g.add_segment(seg(1, 0, 1, Direction::Both));
    g.add_segment(seg(1, 2, 3, Direction::Both));
    assert_eq!(g.segments_count(), 1);
    assert!(g.topology_neighbors(NodeId(0)).is_empty());
    assert_eq!(g.topology_neighbors(NodeId(3)), vec![(NodeId(2), SegmentId(1))]);
}

#[test]
fn a_node_between_two_others_is_not_valid() {
    let mut g = Graph::new();
    g.add_segment(seg(1, 0, 1, Direction::Both));
    g.add_segment(seg(2, 1, 2, Direction::Both));
    assert!(g.is_valid_node(NodeId(0)));
    assert!(!g.is_valid_node(NodeId(1)));
    // A second road between the same nodes changes nothing; a third neighbor does.
    g.add_segment(seg(3, 1, 2, Direction::Both));
    assert!(!g.is_valid_node(NodeId(1)));
    g.add_segment(seg(4, 1, 3, Direction::Both));
    assert!(g.is_valid_node(NodeId(1)));
}

#[test]
fn a_path_is_traced_to_its_end() {
    let mut g = Graph::new();
    g.add_segment(seg(1, 0, 1, Direction::Both));
    g.add_segment(seg(2, 2, 1, Direction::Both));
    assert_eq!(g.trace_end_node(NodeId(0), &[SegmentId(1), SegmentId(2)]), Some(NodeId(2)));
    assert_eq!(g.trace_end_node(NodeId(0), &[SegmentId(2)]), None);
    assert_eq!(g.trace_end_node(NodeId(5), &[]), Some(NodeId(5)));
}

#[test]
fn nodes_and_turns_are_kept() {
    let mut g = Graph::new();
    g.add_node(NetworkNode { id: NodeId(4), lon: 1, lat: 2, stable_id: "x".to_string(), is_boundary: true });
    assert_eq!(g.nodes_count(), 1);
    assert_eq!(g.node(NodeId(4)).unwrap().stable_id, "x");
    let turn = TurnRestriction { from_seg: SegmentId(1), via_node: NodeId(4), to_seg: SegmentId(2) };
    g.add_restriction(turn);
    assert_eq!(g.restrictions(), &vec![turn]);
    g.mark_tile_loaded(1, 2, 3);
    assert!(g.is_tile_loaded(1, 2, 3));
}

#[test]
fn ways_are_told_by_their_source() {
    let mut s = seg(1, 0, 1, Direction::Both);
    assert_eq!(s.osm_way_id(), None);
    s.source_id[0] = 0x10;
    s.source_id[1] = 0x01;
    assert_eq!(s.osm_way_id(), Some(272));
    s.source_id[7] = 0x80;
    assert_eq!(s.osm_way_id(), Some(i64::MIN + 272));
    s.source_id[8] = 1;
    assert_eq!(s.osm_way_id(), None);
}
