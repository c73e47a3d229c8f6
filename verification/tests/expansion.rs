use openlrlens::expansion::{expand_to_valid_node, next_hop, ExpansionStopReason, Turn};
use openlrlens::graph::{Direction, Graph, NetworkSegment, NodeId, SegmentId};

const UNITS: f64 = 1e7;

fn e7(deg: f64) -> i32 {
    (deg * UNITS).round() as i32
}

fn deg(v: i32) -> f64 {
    f64::from(v) / UNITS
}

/// The bearing from one place to another, in degrees from north.
fn bearing(a: (i32, i32), b: (i32, i32)) -> f64 {
    let dx = (deg(b.0) - deg(a.0)) * deg(a.1).to_radians().cos();
    let dy = deg(b.1) - deg(a.1);
    dx.atan2(dy).to_degrees().rem_euclid(360.0)
}

/// The bearing from an end of a segment along it.
fn away(s: &NetworkSegment, n: NodeId) -> f64 {
    let last = s.geometry.len() - 1;
    if s.start_node == n {
        bearing(s.geometry[0], s.geometry[1])
    } else {
        bearing(s.geometry[last], s.geometry[last - 1])
    }
}

/// How far a turn deviates from straight on, in millionths of a degree.
fn turn_in(g: &Graph, t: Turn) -> Option<u32> {
    let from = g.segment(t.from_seg)?;
    let to = g.segment(t.to_seg)?;
    let heading = away(from, t.at) + 180.0;
    let d = (away(to, t.at) - heading).rem_euclid(360.0);
    Some((d.min(360.0 - d) * 1e6).round() as u32)
}

fn seg(id: u32, s: u32, e: u32, len: u32) -> NetworkSegment {
    NetworkSegment {
        id: SegmentId(id),
        start_node: NodeId(s),
        end_node: NodeId(e),
        geometry: vec![(e7(0.0), e7(0.0)), (e7(0.001), e7(0.0))],
        length_cm: len * 100,
        frc: 3,
        fow: 3,
        direction: Direction::Both,
        stable_id: String::new(),
        source_id: [0; 16],
    }
}

#[test]
fn already_valid_node_does_not_expand() {
    let mut g = Graph::new();
    // Node 1 has three distinct neighbors: a real branch, already valid.
    g.add_segment(seg(1, 0, 1, 100));
    g.add_segment(seg(2, 1, 2, 100));
    g.add_segment(seg(3, 1, 3, 100));
    let turn = |t: Turn| turn_in(&g, t);
    let exp = expand_to_valid_node(&g, NodeId(1), SegmentId(1), 1_500_000, 180_000_000, &turn);
    assert_eq!(exp.node, NodeId(1));
    assert_eq!(exp.distance_cm, 0);
    assert_eq!(exp.stopped, ExpansionStopReason::AlreadyValid);
}

#[test]
fn walks_past_one_pass_through_node() {
    // The boundary is at node 1 (a pass-through). The real junction is at node 2.
    let mut g = Graph::new();
    g.add_segment(seg(1, 0, 1, 100));
    g.add_segment(seg(2, 1, 2, 50));
    g.add_segment(seg(3, 2, 3, 100));
    g.add_segment(seg(4, 2, 4, 100)); // makes node 2 a real 3-way branch
    let turn = |t: Turn| turn_in(&g, t);
    let exp = expand_to_valid_node(&g, NodeId(1), SegmentId(1), 1_500_000, 180_000_000, &turn);
    assert_eq!(exp.node, NodeId(2));
    assert_eq!(exp.distance_cm, 5000);
    assert_eq!(exp.stopped, ExpansionStopReason::ReachedValidNode);
    assert_eq!(next_hop(&g, NodeId(1), SegmentId(1)), Some((NodeId(2), SegmentId(2), 5000)));
}

#[test]
fn stops_at_dead_end_when_no_valid_node_reachable() {
    // 0 -> 1 -> 2, and node 2 is a true dead end (degree 1), so node 2 itself counts as
    // valid, and expansion from node 1 should reach it.
    let mut g = Graph::new();
    g.add_segment(seg(1, 0, 1, 100));
    g.add_segment(seg(2, 1, 2, 50));
    let turn = |t: Turn| turn_in(&g, t);
    let exp = expand_to_valid_node(&g, NodeId(1), SegmentId(1), 1_500_000, 180_000_000, &turn);
    assert_eq!(exp.node, NodeId(2));
    assert_eq!(exp.distance_cm, 5000);
}

#[test]
fn respects_max_leg_cap() {
    let mut g = Graph::new();
    g.add_segment(seg(1, 0, 1, 100));
    g.add_segment(seg(2, 1, 2, 50));
    g.add_segment(seg(3, 2, 3, 100));
    g.add_segment(seg(4, 2, 4, 100)); // node 2 would be valid, but out of budget
    let turn = |t: Turn| turn_in(&g, t);
    let exp = expand_to_valid_node(&g, NodeId(1), SegmentId(1), 1_000, 180_000_000, &turn); // cap way below 50m
    assert_eq!(exp.node, NodeId(1), "should stay put rather than exceed the cap");
    assert_eq!(exp.distance_cm, 0);
    assert_eq!(exp.stopped, ExpansionStopReason::BudgetExhausted);
}

#[test]
fn stops_before_an_unnavigable_turn_at_a_pass_through_node() {
    // 0 -> 1 (heading due east) -> 2 (doubling straight back west from 1, a literal
    // reversal). Node 2 is a real 3-way branch, but the only way to reach it from node 1
    // requires a 180 degree turn.
    let mut g = Graph::new();
    let mut one = seg(1, 0, 1, 100);
    one.geometry = vec![(e7(0.0), e7(0.0)), (e7(0.002), e7(0.0))];
    g.add_segment(one);
    let mut two = seg(2, 1, 2, 50);
    two.geometry = vec![(e7(0.002), e7(0.0)), (e7(0.0005), e7(0.0))];
    g.add_segment(two);
    g.add_segment(seg(3, 2, 3, 100)); // makes node 2 a real 3-way branch
    g.add_segment(seg(4, 2, 4, 100));
    let turn = |t: Turn| turn_in(&g, t);

    let permissive = expand_to_valid_node(&g, NodeId(1), SegmentId(1), 1_500_000, 180_000_000, &turn);
    assert_eq!(permissive.node, NodeId(2), "an unrestricted cap should walk through to the valid node");
    assert_eq!(permissive.distance_cm, 5000);

    let strict = expand_to_valid_node(&g, NodeId(1), SegmentId(1), 1_500_000, 150_000_000, &turn);
    assert_eq!(strict.node, NodeId(1), "a 150 degree cap should refuse the 180 degree reversal and stay put");
    assert_eq!(strict.distance_cm, 0);
    assert!(strict.segments.is_empty());
    assert_eq!(strict.stopped, ExpansionStopReason::SharpTurn { deviation_microdeg: 180_000_000 });
}

#[test]
fn stops_where_a_double_road_ends() {
    // Two segments join nodes 0 and 1: node 1 has but one neighbor, by two ways.
    let mut g = Graph::new();
    g.add_segment(seg(1, 0, 1, 100));
    g.add_segment(seg(2, 1, 2, 50));
    g.add_segment(seg(3, 2, 1, 70));
    let turn = |_: Turn| None;
    let exp = expand_to_valid_node(&g, NodeId(1), SegmentId(1), 9_000, 180_000_000, &turn);
    assert!(exp.distance_cm <= 9_000);
    assert_eq!(next_hop(&g, NodeId(0), SegmentId(1)), None);
}
