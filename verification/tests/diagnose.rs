use openlrlens::diagnose::{diagnose_connection, find_sharp_turns};
use openlrlens::expansion::Turn;
use openlrlens::graph::{
    Direction, Graph, NetworkNode, NetworkSegment, NodeId, SegmentId, TileKey, NO_PRIOR_SEG,
};
use openlrlens::path::{PathOutcome, PathQuery, PathResult};

const UNITS: f64 = 1e7;

fn e7(deg: f64) -> i32 {
    (deg * UNITS).round() as i32
}

fn deg(v: i32) -> f64 {
    f64::from(v) / UNITS
}

/// The bearing from one place to another, in degrees from north.
fn bearing(a: (i32, i32), b: (i32, i32)) -> f64 {
    let dx = (deg(b.0) - deg(a.0)) * deg(a.1).to_radians().cos();
    let dy = deg(b.1) - deg(a.1);
    dx.atan2(dy).to_degrees().rem_euclid(360.0)
}

/// The bearing from an end of a segment along it.
fn away(s: &NetworkSegment, n: NodeId) -> f64 {
    let last = s.geometry.len() - 1;
    if s.start_node == n {
        bearing(s.geometry[0], s.geometry[1])
    } else {
        bearing(s.geometry[last], s.geometry[last - 1])
    }
}

/// How far a turn deviates from straight on, in millionths of a degree.
fn turn_in(g: &Graph, t: Turn) -> Option<u32> {
    let from = g.segment(t.from_seg)?;
    let to = g.segment(t.to_seg)?;
    let heading = away(from, t.at) + 180.0;
    let d = (away(to, t.at) - heading).rem_euclid(360.0);
    Some((d.min(360.0 - d) * 1e6).round() as u32)
}

fn allowed(s: &NetworkSegment, from: NodeId) -> Option<NodeId> {
    if s.start_node == from && s.direction != Direction::Backward {
        Some(s.end_node)
    } else if s.end_node == from && s.direction != Direction::Forward {
        Some(s.start_node)
    } else {
        None
    }
}

/// A shortest path that never turns back into the segment it came by.
fn search_in(g: &Graph, q: PathQuery) -> PathOutcome {
    let mut done: Vec<(i64, NodeId, SegmentId, Vec<SegmentId>)> = Vec::new();
    let mut open = vec![(0i64, q.from_node, q.from_seg, Vec::new())];
    while !open.is_empty() {
        let k = (0..open.len()).min_by_key(|i| open[*i].0).unwrap();
        let (cost, node, seg, path): (i64, NodeId, SegmentId, Vec<SegmentId>) = open.swap_remove(k);
        if node == q.to_node && !path.is_empty() {
            return PathOutcome::Found(PathResult { segments: path, length_cm: cost });
        }
        if done.iter().any(|d| d.1 == node && d.2 == seg) {
            continue;
        }
        for (_, next) in g.topology_neighbors(node) {
            let s = g.segment(next).unwrap();
            if next == seg || s.frc > q.lowest_frc + q.frc_tolerance {
                continue;
            }
            let dev = turn_in(g, Turn { from_seg: seg, at: node, to_seg: next });
            if dev.map_or(false, |d| d > q.max_turn_microdeg) {
                continue;
            }
            if let Some(to) = allowed(s, node) {
                let mut longer = path.clone();
                longer.push(next);
                open.push((cost + i64::from(s.length_cm), to, next, longer));
            }
        }
        done.push((cost, node, seg, path));
    }
    PathOutcome::NoPath
}

fn node(id: u32, lon: f64, lat: f64) -> NetworkNode {
    NetworkNode { id: NodeId(id), lon: e7(lon), lat: e7(lat), stable_id: String::new(), is_boundary: false }
}

fn seg(id: u32, s: u32, e: u32, geom: Vec<(f64, f64)>) -> NetworkSegment {
    NetworkSegment {
        id: SegmentId(id),
        start_node: NodeId(s),
        end_node: NodeId(e),
        geometry: geom.iter().map(|p| (e7(p.0), e7(p.1))).collect(),
        length_cm: 10_000,
        frc: 3,
        fow: 3,
        direction: Direction::Both,
        stable_id: String::new(),
        source_id: [0; 16],
    }
}

const ANY: SegmentId = SegmentId(NO_PRIOR_SEG);

#[test]
fn connected_within_cap_reports_both_true() {
    let mut g = Graph::new();
    g.add_node(node(0, 0.0, 0.0));
    g.add_node(node(1, 0.001, 0.0));
    g.add_segment(seg(1, 0, 1, vec![(0.0, 0.0), (0.001, 0.0)]));
    let (turn, search) = (|t: Turn| turn_in(&g, t), |q: PathQuery| search_in(&g, q));
    let d = diagnose_connection(&g, NodeId(0), ANY, NodeId(1), 180_000_000, 12, &search, &turn);
    assert!(d.connected_within_cap);
    assert!(d.connected_unrestricted);
    assert!(!d.blocked_by_turn_angle);
    assert_eq!(d.length_within_cap_cm, Some(10_000));
}

#[test]
fn genuinely_disconnected_reports_both_false() {
    let mut g = Graph::new();
    g.add_node(node(0, 0.0, 0.0));
    g.add_node(node(1, 0.1, 0.1));
    let (turn, search) = (|t: Turn| turn_in(&g, t), |q: PathQuery| search_in(&g, q));
    let d = diagnose_connection(&g, NodeId(0), ANY, NodeId(1), 180_000_000, 12, &search, &turn);
    assert!(!d.connected_within_cap);
    assert!(!d.connected_unrestricted);
    assert!(!d.blocked_by_turn_angle);
    assert!(d.sharp_turns.is_empty());
}

#[test]
fn turn_angle_blocked_pinpoints_the_sharp_node() {
    // 0 -> via (heading east) -> 2, where the via->2 hop is a near-reversal: connected
    // unrestricted, but not under a 150 degree cap.
    let mut g = Graph::new();
    g.add_node(node(0, 0.000, 0.000));
    g.add_node(node(2, 0.003, 0.000));
    g.add_node(node(3, 0.0001022, -0.0007765));
    g.add_segment(seg(1, 0, 2, vec![(0.000, 0.000), (0.003, 0.000)]));
    g.add_segment(seg(2, 2, 3, vec![(0.003, 0.000), (0.0001022, -0.0007765)]));
    let (turn, search) = (|t: Turn| turn_in(&g, t), |q: PathQuery| search_in(&g, q));

    let capped = diagnose_connection(&g, NodeId(0), ANY, NodeId(3), 150_000_000, 12, &search, &turn);
    assert!(!capped.connected_within_cap);
    assert!(capped.connected_unrestricted);
    assert!(capped.blocked_by_turn_angle);
    assert_eq!(capped.sharp_turns.len(), 1);
    assert_eq!(capped.sharp_turns[0].node, NodeId(2));
    assert!(capped.sharp_turns[0].deviation_microdeg > 150_000_000);

    let unrestricted = diagnose_connection(&g, NodeId(0), ANY, NodeId(3), 180_000_000, 12, &search, &turn);
    assert!(unrestricted.connected_within_cap);
}

#[test]
fn a_missing_tile_is_handed_on() {
    let g = Graph::new();
    let key = TileKey { z: 12, x: 3, y: 4 };
    let turn = |_: Turn| None;
    let always = |_: PathQuery| PathOutcome::NeedsTile(key);
    let d = diagnose_connection(&g, NodeId(0), ANY, NodeId(1), 150_000_000, 12, &always, &turn);
    assert_eq!(d.needs_tile, Some(key));
    assert!(!d.connected_unrestricted);
    // Only the second search, without a limit, comes to the border.
    let later = |q: PathQuery| {
        if q.max_turn_microdeg == 180_000_000 { PathOutcome::NeedsTile(key) } else { PathOutcome::NoPath }
    };
    let d = diagnose_connection(&g, NodeId(0), ANY, NodeId(1), 150_000_000, 12, &later, &turn);
    assert_eq!(d.needs_tile, Some(key));
}

#[test]
fn sharp_turns_end_where_a_segment_is_missing() {
    let mut g = Graph::new();
    g.add_segment(seg(1, 0, 1, vec![(0.0, 0.0), (0.001, 0.0)]));
    let turn = |_: Turn| Some(170_000_000);
    let path = [SegmentId(1), SegmentId(9), SegmentId(1)];
    let out = find_sharp_turns(&g, NodeId(0), ANY, &path, 150_000_000, &turn);
    assert_eq!(out.len(), 2);
    assert_eq!((out[0].node, out[0].from_segment, out[0].to_segment), (NodeId(0), ANY, SegmentId(1)));
    assert_eq!((out[1].node, out[1].to_segment), (NodeId(1), SegmentId(9)));
}

#[test]
fn a_connection_that_fails_only_under_the_limit_is_blocked() {
    let g = Graph::new();
    let turn = |_: Turn| None;
    let search = |q: PathQuery| {
        if q.max_turn_microdeg == 180_000_000 {
            PathOutcome::Found(PathResult { segments: vec![SegmentId(1)], length_cm: 7 })
        } else {
            PathOutcome::NoPath
        }
    };
    let d = diagnose_connection(&g, NodeId(0), ANY, NodeId(1), 150_000_000, 12, &search, &turn);
    assert!(d.blocked_by_turn_angle && d.connected_unrestricted && !d.connected_within_cap);
    assert_eq!(d.length_unrestricted_cm, Some(7));
    assert!(d.sharp_turns.is_empty());
}
