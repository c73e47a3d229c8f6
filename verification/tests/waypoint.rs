use openlrlens::anchors::{nearby_anchors, NearbyAnchor, NodeAndPlace, TwoPlaces};
use openlrlens::expansion::Turn;
use openlrlens::graph::{
    Direction, Graph, NetworkNode, NetworkSegment, NodeId, SegmentId, TileKey, NO_PRIOR_SEG,
};
use openlrlens::path::{PathOutcome, PathQuery, PathResult};
use openlrlens::route::{
    resolve_boundary_leg, resolve_boundary_leg_from, route_waypoints, RouteFailure, RouteOutcome,
};
use openlrlens::waypoint::{
    boundary_candidates, snap_point, BoundaryCandidate, Place, Projecting, Projection, SnapHint,
    SnappedWaypoint, Waypoint, WAYPOINT_SNAP_RADIUS_UM,
};

const UNITS: f64 = 1e7;

fn e7(deg: f64) -> i32 {
    (deg * UNITS).round() as i32
}

fn deg(v: i32) -> f64 {
    f64::from(v) / UNITS
}

/// The bearing from one place to another, in degrees from north.
fn bearing(a: (i32, i32), b: (i32, i32)) -> f64 {
    let dx = (deg(b.0) - deg(a.0)) * deg(a.1).to_radians().cos();
    let dy = deg(b.1) - deg(a.1);
    dx.atan2(dy).to_degrees().rem_euclid(360.0)
}

/// The bearing from an end of a segment along it.
fn away(s: &NetworkSegment, n: NodeId) -> f64 {
    let last = s.geometry.len() - 1;
    if s.start_node == n {
        bearing(s.geometry[0], s.geometry[1])
    } else {
        bearing(s.geometry[last], s.geometry[last - 1])
    }
}

/// How far a turn deviates from straight on, in millionths of a degree.
fn turn_in(g: &Graph, t: Turn) -> Option<u32> {
    let from = g.segment(t.from_seg)?;
    let to = g.segment(t.to_seg)?;
    let heading = away(from, t.at) + 180.0;
    let d = (away(to, t.at) - heading).rem_euclid(360.0);
    Some((d.min(360.0 - d) * 1e6).round() as u32)
}

fn allowed(s: &NetworkSegment, from: NodeId) -> Option<NodeId> {
    if s.start_node == from && s.direction != Direction::Backward {
        Some(s.end_node)
    } else if s.end_node == from && s.direction != Direction::Forward {
        Some(s.start_node)
    } else {
        None
    }
}

/// A shortest path that never turns back into the segment it came by.
fn search_in(g: &Graph, q: PathQuery) -> PathOutcome {
    let mut done: Vec<(i64, NodeId, SegmentId, Vec<SegmentId>)> = Vec::new();
    let mut open = vec![(0i64, q.from_node, q.from_seg, Vec::new())];
    while !open.is_empty() {
        let k = (0..open.len()).min_by_key(|i| open[*i].0).unwrap();
        let (cost, node, seg, path): (i64, NodeId, SegmentId, Vec<SegmentId>) = open.swap_remove(k);
        if node == q.to_node && !path.is_empty() {
            return PathOutcome::Found(PathResult { segments: path, length_cm: cost });
        }
        if done.iter().any(|d| d.1 == node && d.2 == seg) {
            continue;
        }
        for (_, next) in g.topology_neighbors(node) {
            let s = g.segment(next).unwrap();
            if next == seg || s.frc > q.lowest_frc + q.frc_tolerance {
                continue;
            }
            let dev = turn_in(g, Turn { from_seg: seg, at: node, to_seg: next });
            if dev.map_or(false, |d| d > q.max_turn_microdeg) {
                continue;
            }
            if let Some(to) = allowed(s, node) {
                let mut longer = path.clone();
                longer.push(next);
                open.push((cost + i64::from(s.length_cm), to, next, longer));
            }
        }
        done.push((cost, node, seg, path));
    }
    PathOutcome::NoPath
}

const METRES: f64 = 111_195.0;

fn at(lon: f64, lat: f64) -> Place {
    Place { lon: e7(lon), lat: e7(lat) }
}

/// From one place to another, in metres east and north.
fn offset_m(a: (i32, i32), b: (i32, i32)) -> (f64, f64) {
    let dx = (deg(b.0) - deg(a.0)) * deg(a.1).to_radians().cos() * METRES;
    (dx, (deg(b.1) - deg(a.1)) * METRES)
}

fn distance_um(a: (i32, i32), b: (i32, i32)) -> u64 {
    let (dx, dy) = offset_m(a, b);
    ((dx * dx + dy * dy).sqrt() * 1e6).round() as u64
}

fn project_in(g: &Graph, q: Projecting) -> Option<Projection> {
    let s = g.segment(q.segment)?;
    let p = (q.place.lon, q.place.lat);
    let mut best: Option<(u64, f64, (i32, i32))> = None;
    let mut walked = 0.0;
    for w in s.geometry.windows(2) {
        let (ex, ey) = offset_m(w[0], w[1]);
        let (px, py) = offset_m(w[0], p);
        let len2 = ex * ex + ey * ey;
        let t = if len2 > 0.0 { ((px * ex + py * ey) / len2).clamp(0.0, 1.0) } else { 0.0 };
        let mix = |a: i32, b: i32| (f64::from(a) + t * (f64::from(b) - f64::from(a))).round() as i32;
        let point = (mix(w[0].0, w[1].0), mix(w[0].1, w[1].1));
        let d = distance_um(p, point);
        if best.map_or(true, |b| d < b.0) {
            best = Some((d, walked + t * len2.sqrt(), point));
        }
        walked += len2.sqrt();
    }
    best.map(|(d, arc, point)| Projection {
        arc_offset_cm: (arc * 100.0).round() as u32,
        distance_um: d,
        point: Place { lon: point.0, lat: point.1 },
    })
}

fn near_in(g: &Graph, place: Place) -> Vec<(SegmentId, u64)> {
    g.segment_ids()
        .iter()
        .filter_map(|id| project_in(g, Projecting { place, segment: *id }).map(|p| (*id, p.distance_um)))
        .filter(|s| s.1 <= WAYPOINT_SNAP_RADIUS_UM)
        .collect()
}

fn snap(g: &Graph, lon: f64, lat: f64, hint: SnapHint) -> Option<SnappedWaypoint> {
    snap_point(g, at(lon, lat), hint, &|p| near_in(g, p), &|q| project_in(g, q))
}

fn cands(g: &Graph, w: &Waypoint) -> Option<Vec<BoundaryCandidate>> {
    boundary_candidates(g, w, &|p| near_in(g, p), &|q| project_in(g, q))
}

fn route(g: &Graph, w: &[Waypoint], cap: u32) -> RouteOutcome {
    let search = |q| search_in(g, q);
    let turn = |t| turn_in(g, t);
    route_waypoints(g, w, cap, 12, &|p| near_in(g, p), &|q| project_in(g, q), &search, &turn)
}

fn anchors(g: &Graph, lon: f64, lat: f64) -> Vec<NearbyAnchor> {
    let distance = |q: NodeAndPlace| {
        g.node(q.node).map(|n| distance_um((n.lon, n.lat), (q.place.lon, q.place.lat)))
    };
    let close = |q: TwoPlaces| distance_um((q.a.lon, q.a.lat), (q.b.lon, q.b.lat)) < 5_000_000;
    nearby_anchors(g, at(lon, lat), &|p| near_in(g, p), &distance, &|q| project_in(g, q), &close)
}

fn seg(id: u32, s: u32, e: u32, direction: Direction) -> NetworkSegment {
    NetworkSegment {
        id: SegmentId(id),
        start_node: NodeId(s),
        end_node: NodeId(e),
        geometry: vec![(e7(f64::from(s) * 0.001), 0), (e7(f64::from(e) * 0.001), 0)],
        length_cm: 11_120,
        frc: 3,
        fow: 3,
        direction,
        stable_id: format!("s{id}"),
        source_id: [0; 16],
    }
}

// A straight line of 4 nodes, ~111m apart (0.001 degree longitude at the equator), all
// Both-direction unless noted: 0 --seg1--> 1 --seg2--> 2 --seg3--> 3
fn line_graph() -> Graph {
    let mut g = Graph::new();
    for i in 0..4u32 {
        g.add_node(NetworkNode {
            id: NodeId(i),
            lon: e7(f64::from(i) * 0.001),
            lat: 0,
            stable_id: String::new(),
            is_boundary: false,
        });
    }
    for i in 0..3u32 {
        g.add_segment(seg(i + 1, i, i + 1, Direction::Both));
    }
    g
}

fn wp(lon: f64, lat: f64) -> Waypoint {
    Waypoint { lon: e7(lon), lat: e7(lat), segment_id: None, node_id: None }
}

fn on_node(lon: f64, id: u32) -> Waypoint {
    Waypoint { lon: e7(lon), lat: 0, segment_id: None, node_id: Some(id) }
}

#[test]
fn snap_point_node_hint_returns_exact_zero_offset() {
    let g = line_graph();
    let s = snap(&g, 0.001, 0.0, SnapHint::Node(NodeId(1))).unwrap();
    assert_eq!(s.node, NodeId(1));
    assert_eq!(s.offset_cm, 0);
}

#[test]
fn snap_point_nearest_picks_the_closer_endpoint_on_a_both_direction_segment() {
    let g = line_graph();
    // Just past node 1, along seg2: closer to node 1 than node 2.
    let s = snap(&g, 0.0011, 0.0, SnapHint::Nearest).unwrap();
    assert_eq!(s.seg_id, SegmentId(2));
    assert_eq!(s.node, NodeId(1));
    assert!(s.offset_cm > 0 && s.offset_cm < 5_500, "offset_cm={}", s.offset_cm);
}

#[test]
fn snap_point_forward_segment_always_anchors_at_start_node() {
    let mut g = line_graph();
    g.add_segment(seg(1, 0, 1, Direction::Forward));
    // A click near the far end (node 1): Forward must anchor at the start regardless.
    let s = snap(&g, 0.0009, 0.0, SnapHint::Nearest).unwrap();
    assert_eq!(s.node, NodeId(0));
    assert!(s.offset_cm > 8_000, "offset_cm={} should be near the full segment length", s.offset_cm);
}

#[test]
fn snap_point_backward_segment_anchors_at_end_node() {
    let mut g = line_graph();
    g.add_segment(seg(1, 0, 1, Direction::Backward));
    let s = snap(&g, 0.0001, 0.0, SnapHint::Nearest).unwrap();
    assert_eq!(s.node, NodeId(1));
    assert!(s.offset_cm > 8_000);
    // Nothing may be driven away from node 0 any more.
    assert_eq!(snap(&g, 0.0, 0.0, SnapHint::Node(NodeId(0))), None);
    // A node or a segment that is not loaded counts for nothing.
    let s = snap(&g, 0.0011, 0.0, SnapHint::Node(NodeId(77))).unwrap();
    assert_eq!(s.seg_id, SegmentId(2));
    let s = snap(&g, 0.0011, 0.0, SnapHint::Segment(SegmentId(77))).unwrap();
    assert_eq!(s.seg_id, SegmentId(2));
    let s = snap(&g, 0.0011, 0.0, SnapHint::Segment(SegmentId(3))).unwrap();
    assert_eq!((s.seg_id, s.node, s.offset_cm), (SegmentId(3), NodeId(2), 0));
}

#[test]
fn a_node_goes_before_a_segment() {
    let w = Waypoint { lon: 0, lat: 0, segment_id: Some(4), node_id: Some(5) };
    assert_eq!(w.snap_hint(), SnapHint::Node(NodeId(5)));
    let w = Waypoint { lon: 0, lat: 0, segment_id: Some(4), node_id: None };
    assert_eq!(w.snap_hint(), SnapHint::Segment(SegmentId(4)));
    assert_eq!(wp(0.0, 0.0).snap_hint(), SnapHint::Nearest);
}

#[test]
fn boundary_candidates_node_hint_is_a_single_zero_offset_candidate() {
    let g = line_graph();
    let c = cands(&g, &on_node(0.001, 1)).unwrap();
    assert_eq!(c.len(), 1);
    assert_eq!(c[0].anchor, NodeId(1));
    assert_eq!(c[0].continuation, NodeId(1));
    assert_eq!(c[0].offset_cm, 0);
    assert_eq!(c[0].bias_seg(), SegmentId(NO_PRIOR_SEG));
}

#[test]
fn boundary_candidates_mid_segment_offers_both_endpoints() {
    let g = line_graph();
    let c = cands(&g, &wp(0.0015, 0.0)).unwrap();
    assert_eq!(c.len(), 2);
    let anchors: Vec<NodeId> = c.iter().map(|c| c.anchor).collect();
    assert!(anchors.contains(&NodeId(1)) && anchors.contains(&NodeId(2)));
    // Offsets from either end should sum to the segment length.
    assert!((c[0].offset_cm + c[1].offset_cm - 11_120).abs() < 100);
    assert_eq!(c[0].bias_seg(), SegmentId(2));
}

#[test]
fn nearby_anchors_does_not_duplicate_a_node_as_a_segment_candidate() {
    let g = line_graph();
    let anchors = anchors(&g, 0.001, 0.0); // exactly at node 1
    let nodes: Vec<_> = anchors.iter().filter(|a| a.kind == "node").collect();
    let segs: Vec<_> = anchors.iter().filter(|a| a.kind == "segment").collect();
    assert_eq!(nodes.len(), 1, "exactly one node candidate for node 1 itself");
    assert_eq!(nodes[0].node_id, Some(NodeId(1)));
    assert!(segs.is_empty(), "seg1/seg2 touching node 1 exactly here must not duplicate it: {segs:?}");
}

#[test]
fn nearby_anchors_are_junctions_first_and_nearest_first() {
    let mut g = line_graph();
    // The same road once more, in the other direction.
    g.add_segment(seg(9, 2, 1, Direction::Both));
    let a = anchors(&g, 0.0013, 0.0001);
    let kinds: Vec<_> = a.iter().map(|a| a.kind).collect();
    // Segments 2 and 9 share a point, which is listed once, behind the farther junction.
    assert_eq!(kinds, vec!["node", "segment"]);
    assert_eq!(a[0].node_id, Some(NodeId(1)));
    assert_eq!(a[1].segment_id, Some(SegmentId(2)));
    assert_eq!(a[1].stable_id.as_deref(), Some("s2"));
    assert_eq!((a[1].frc, a[1].fow), (Some(3), Some(3)));
    assert_eq!(a[1].point, at(0.0013, 0.0));
    assert!(a[1].distance_um < a[0].distance_um && a[0].distance_um <= WAYPOINT_SNAP_RADIUS_UM);
    assert!(anchors(&g, 10.0, 10.0).is_empty());
}

#[test]
fn nearby_junctions_are_sorted_among_themselves() {
    let mut g = line_graph();
    // Node 8 is nearer to the click than node 1, and is met later.
    g.add_node(NetworkNode {
        id: NodeId(8),
        lon: e7(0.0012),
        lat: 0,
        stable_id: String::new(),
        is_boundary: false,
    });
    let mut s = seg(8, 8, 2, Direction::Both);
    s.geometry = vec![(e7(0.0012), 0), (e7(0.002), 0)];
    g.add_segment(s);
    let nodes: Vec<_> = anchors(&g, 0.00125, 0.0).iter().filter_map(|a| a.node_id).collect();
    assert_eq!(nodes, vec![NodeId(8), NodeId(1)]);
}

#[test]
fn route_waypoints_two_points_covers_the_whole_line() {
    let g = line_graph();
    let waypoints = vec![on_node(0.0, 0), on_node(0.003, 3)];
    match route(&g, &waypoints, 180_000_000) {
        RouteOutcome::Found { path, start_node, start_offset_cm, end_offset_cm, length_cm, snapped_coords, .. } => {
            assert_eq!(path, vec![SegmentId(1), SegmentId(2), SegmentId(3)]);
            assert_eq!(start_node, NodeId(0));
            assert_eq!(start_offset_cm, 0);
            assert_eq!(end_offset_cm, 0);
            assert_eq!(length_cm, 33_360);
            assert_eq!(snapped_coords, vec![(0, 0), (30_000, 0)]);
        }
        _ => panic!("expected Found, got a different outcome"),
    }
}

#[test]
fn route_waypoints_three_points_records_a_via_split() {
    let g = line_graph();
    let waypoints = vec![on_node(0.0, 0), on_node(0.002, 2), on_node(0.003, 3)];
    match route(&g, &waypoints, 180_000_000) {
        RouteOutcome::Found { path, via_split_points, .. } => {
            assert_eq!(path, vec![SegmentId(1), SegmentId(2), SegmentId(3)]);
            // The first leg (waypoint 0 -> 1) covers segments 1 and 2, so the split point
            // lands after 2 segments.
            assert_eq!(via_split_points, vec![2]);
        }
        _ => panic!("expected Found"),
    }
}

#[test]
fn route_waypoints_rejects_a_single_waypoint() {
    let g = line_graph();
    let waypoints = vec![wp(0.0, 0.0)];
    match route(&g, &waypoints, 180_000_000) {
        RouteOutcome::Error(f) => assert!(f.message.contains("at least 2")),
        _ => panic!("expected an Error outcome"),
    }
}

#[test]
fn route_waypoints_reports_no_road_near_an_isolated_waypoint() {
    let g = line_graph();
    // Far from any segment in line_graph.
    let waypoints = vec![wp(0.0, 0.0), wp(10.0, 10.0)];
    match route(&g, &waypoints, 180_000_000) {
        RouteOutcome::Error(f) => assert!(f.message.contains("no road found")),
        _ => panic!("expected an Error outcome"),
    }
}

fn failure(r: RouteOutcome) -> RouteFailure {
    match r {
        RouteOutcome::Error(f) => f,
        other => panic!("expected an Error outcome, got {other:?}"),
    }
}

#[test]
fn the_waypoint_without_a_road_is_named() {
    let g = line_graph();
    let far = wp(10.0, 10.0);
    let tail = "— load more tiles or move it closer to a road";
    let f = failure(route(&g, &[far, wp(0.0, 0.0)], 180_000_000));
    assert_eq!(f.message, format!("no road found within 50m of waypoint 0 {tail}"));
    let f = failure(route(&g, &[wp(0.0, 0.0), wp(0.001, 0.0), far, wp(0.003, 0.0)], 180_000_000));
    assert_eq!(f.message, format!("no road found within 50m of waypoint 2 {tail}"));
    assert_eq!((f.from_node, f.to_node, f.from_segment_id), (None, None, None));
}

#[test]
fn an_offset_is_measured_from_the_end_that_the_route_starts_at() {
    let g = line_graph();
    // The click is nearer to node 1, but the route to node 3 has to start at node 0.
    let r = route(&g, &[wp(0.0009, 0.0), on_node(0.003, 3)], 180_000_000);
    match r {
        RouteOutcome::Found { path, start_node, start_offset_cm, end_offset_cm, length_cm, .. } => {
            assert_eq!(path, vec![SegmentId(1), SegmentId(2), SegmentId(3)]);
            assert_eq!(start_node, NodeId(0));
            assert!(start_offset_cm > 9_900 && start_offset_cm < 10_100, "{start_offset_cm}");
            assert_eq!(end_offset_cm, 0);
            assert_eq!(length_cm, i128::from(start_offset_cm) + 2 * 11_120);
        }
        other => panic!("{other:?}"),
    }
}

#[test]
fn a_route_by_way_of_many_points() {
    let g = line_graph();
    let ws = [wp(0.0001, 0.0), on_node(0.001, 1), on_node(0.002, 2), wp(0.0029, 0.0)];
    match route(&g, &ws, 180_000_000) {
        RouteOutcome::Found { path, start_node, via_split_points, snapped_coords, .. } => {
            assert_eq!(path, vec![SegmentId(1), SegmentId(2), SegmentId(3)]);
            assert_eq!(start_node, NodeId(0));
            assert_eq!(via_split_points, vec![1, 2]);
            assert_eq!(snapped_coords, vec![(0, 0), (10_000, 0), (20_000, 0), (30_000, 0)]);
        }
        other => panic!("{other:?}"),
    }
}

#[test]
fn a_leg_without_a_path_is_named() {
    let mut g = line_graph();
    g.add_segment(seg(2, 1, 2, Direction::Backward));
    let ws = [on_node(0.0, 0), on_node(0.001, 1), on_node(0.002, 2), on_node(0.003, 3)];
    let f = failure(route(&g, &ws, 180_000_000));
    assert_eq!(f.message, "no route found between waypoint 1 and 2");
    assert_eq!((f.from_node, f.to_node, f.from_segment_id), (Some(1), Some(2), Some(1)));
    let f = failure(route(&g, &[on_node(0.0, 0), on_node(0.003, 3)], 180_000_000));
    assert_eq!(f.message, "no route found between waypoint 0 and 1");
    let f = failure(route(&g, &[on_node(0.0, 0), on_node(0.002, 2), on_node(0.003, 3)], 180_000_000));
    assert_eq!(f.message, "no route found for a boundary waypoint");
    let f = RouteFailure::leg("x".to_string(), NodeId(1), SegmentId(NO_PRIOR_SEG), NodeId(2));
    assert_eq!(f.from_segment_id, None);
}

#[test]
fn a_tile_that_is_missing_is_asked_for() {
    let g = line_graph();
    let key = TileKey { z: 12, x: 1, y: 2 };
    let search = |_: PathQuery| PathOutcome::NeedsTile(key);
    let near = |p| near_in(&g, p);
    let project = |q| project_in(&g, q);
    for ws in [
        vec![on_node(0.0, 0), on_node(0.003, 3)],
        vec![on_node(0.0, 0), on_node(0.002, 2), on_node(0.003, 3)],
    ] {
        match route_waypoints(&g, &ws, 180_000_000, 12, &near, &project, &search, &|t| turn_in(&g, t)) {
            RouteOutcome::NeedsTile(k) => assert_eq!(k, key),
            other => panic!("{other:?}"),
        }
    }
}

#[test]
fn the_shorter_boundary_wins_and_the_first_at_a_tie() {
    let g = line_graph();
    let search = |q: PathQuery| search_in(&g, q);
    let c = cands(&g, &wp(0.0012, 0.0)).unwrap();
    // To node 3: from node 1 by way of segment 2, measured from node 1.
    let (idx, leg) = resolve_boundary_leg(&c, NodeId(3), 180_000_000, 12, &search).unwrap();
    assert_eq!(c[idx].anchor, NodeId(1));
    assert_eq!(leg.segments, vec![SegmentId(3)]);
    let turn = |t: Turn| turn_in(&g, t);
    let (idx, leg) =
        resolve_boundary_leg_from(NodeId(1), SegmentId(1), &c, 180_000_000, 12, &search, &turn)
            .unwrap();
    assert_eq!(c[idx].continuation, NodeId(1));
    assert!(leg.segments.is_empty());
    let same = vec![c[0], c[0]];
    let (idx, _) = resolve_boundary_leg(&same, NodeId(3), 180_000_000, 12, &search).unwrap();
    assert_eq!(idx, 0);
    assert!(resolve_boundary_leg(&Vec::new(), NodeId(3), 180_000_000, 12, &search).is_err());
}

// Node 1 is joined to node 4 north of it by segment 5: a turn of 90 degrees from segment 1.
fn corner_graph() -> Graph {
    let mut g = line_graph();
    g.add_node(NetworkNode {
        id: NodeId(4),
        lon: e7(0.001),
        lat: e7(0.001),
        stable_id: String::new(),
        is_boundary: false,
    });
    let mut s = seg(5, 1, 4, Direction::Both);
    s.geometry = vec![(e7(0.001), 0), (e7(0.001), e7(0.001))];
    g.add_segment(s);
    g
}

#[test]
fn no_sharp_turn_is_taken_onto_the_last_segment() {
    let g = corner_graph();
    let end = wp(0.001, 0.0008);
    for ws in [
        vec![on_node(0.0, 0), end],
        // The last leg has no segments of its own.
        vec![on_node(0.0, 0), on_node(0.001, 1), end],
        // The first waypoint lies on a segment too, and both candidates meet at node 1.
        vec![wp(0.0002, 0.0), end],
    ] {
        match route(&g, &ws, 120_000_000) {
            RouteOutcome::Found { path, .. } => assert_eq!(path, vec![SegmentId(1), SegmentId(5)]),
            other => panic!("{other:?}"),
        }
        let f = failure(route(&g, &ws, 60_000_000));
        assert!(f.message.contains("no route found"), "{}", f.message);
    }
}
