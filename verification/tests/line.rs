use openlrlens::encode_error::EncodeError;
use openlrlens::expansion::Turn;
use openlrlens::graph::{
    Direction, Graph, NetworkNode, NetworkSegment, NodeId, SegmentId,
};
use openlrlens::line::{
    encode_line, node_coord, EndQuery, LegAttributes, LineLocationInput, LocationReference,
    SweepOutcome, SweepQuery, SweptLeg,
};
use openlrlens::path::{PathOutcome, PathQuery, PathResult};

const UNITS: f64 = 1e7;

fn e7(deg: f64) -> i32 {
    (deg * UNITS).round() as i32
}

fn deg(v: i32) -> f64 {
    f64::from(v) / UNITS
}

/// The bearing from one place to another, in degrees from north.
fn bearing(a: (i32, i32), b: (i32, i32)) -> f64 {
    let dx = (deg(b.0) - deg(a.0)) * deg(a.1).to_radians().cos();
    let dy = deg(b.1) - deg(a.1);
    dx.atan2(dy).to_degrees().rem_euclid(360.0)
}

/// The bearing from an end of a segment along it.
fn away(s: &NetworkSegment, n: NodeId) -> f64 {
    let last = s.geometry.len() - 1;
    if s.start_node == n {
        bearing(s.geometry[0], s.geometry[1])
    } else {
        bearing(s.geometry[last], s.geometry[last - 1])
    }
}

/// How far a turn deviates from straight on, in millionths of a degree.
fn turn_in(g: &Graph, t: Turn) -> Option<u32> {
    let from = g.segment(t.from_seg)?;
    let to = g.segment(t.to_seg)?;
    let heading = away(from, t.at) + 180.0;
    let d = (away(to, t.at) - heading).rem_euclid(360.0);
    Some((d.min(360.0 - d) * 1e6).round() as u32)
}

fn allowed(s: &NetworkSegment, from: NodeId) -> Option<NodeId> {
    if s.start_node == from && s.direction != Direction::Backward {
        Some(s.end_node)
    } else if s.end_node == from && s.direction != Direction::Forward {
        Some(s.start_node)
    } else {
        None
    }
}

/// A shortest path that never turns back into the segment it came by.
fn search_in(g: &Graph, q: PathQuery) -> PathOutcome {
    let mut done: Vec<(i64, NodeId, SegmentId, Vec<SegmentId>)> = Vec::new();
    let mut open = vec![(0i64, q.from_node, q.from_seg, Vec::new())];
    while !open.is_empty() {
        let k = (0..open.len()).min_by_key(|i| open[*i].0).unwrap();
        let (cost, node, seg, path): (i64, NodeId, SegmentId, Vec<SegmentId>) = open.swap_remove(k);
        if node == q.to_node && !path.is_empty() {
            return PathOutcome::Found(PathResult { segments: path, length_cm: cost });
        }
        if done.iter().any(|d| d.1 == node && d.2 == seg) {
            continue;
        }
        for (_, next) in g.topology_neighbors(node) {
            let s = g.segment(next).unwrap();
            if next == seg || s.frc > q.lowest_frc + q.frc_tolerance {
                continue;
            }
            let dev = turn_in(g, Turn { from_seg: seg, at: node, to_seg: next });
            if dev.map_or(false, |d| d > q.max_turn_microdeg) {
                continue;
            }
            if let Some(to) = allowed(s, node) {
                let mut longer = path.clone();
                longer.push(next);
                open.push((cost + i64::from(s.length_cm), to, next, longer));
            }
        }
        done.push((cost, node, seg, path));
    }
    PathOutcome::NoPath
}

/// One leg if the stretch is the shortest path, and no route otherwise.
fn sweep_in(g: &Graph, q: SweepQuery) -> SweepOutcome {
    let found = search_in(
        g,
        PathQuery {
            from_node: q.start_node,
            from_seg: q.start_seg,
            to_node: q.end_node,
            lowest_frc: 7,
            max_turn_microdeg: q.max_turn_microdeg,
            frc_tolerance: 0,
            zoom: q.zoom,
        },
    );
    match found {
        PathOutcome::Found(r) if r.segments == q.chunk => {
            SweepOutcome::Legs(vec![SweptLeg { start_node: q.start_node, segments: q.chunk }])
        }
        _ => SweepOutcome::Failed(EncodeError::NoRoute),
    }
}

fn attributes_in(g: &Graph, leg: &SweptLeg) -> Option<LegAttributes> {
    let first = g.segment(leg.segments[0])?;
    let mut dnp_cm = 0i64;
    let mut lfrcnp = 0;
    for id in &leg.segments {
        let s = g.segment(*id)?;
        dnp_cm += i64::from(s.length_cm);
        lfrcnp = lfrcnp.max(s.frc);
    }
    Some(LegAttributes {
        bearing_microdeg: (away(first, leg.start_node) * 1e6).round() as u32,
        frc: first.frc,
        fow: first.fow,
        lfrcnp,
        dnp_cm,
    })
}

fn encode(g: &Graph, input: &LineLocationInput, cap: u32) -> Result<LocationReference, EncodeError> {
    encode_line(
        g,
        input,
        cap,
        12,
        &|t: Turn| turn_in(g, t),
        &|q: SweepQuery| sweep_in(g, q),
        &|l: &SweptLeg| attributes_in(g, l),
        &|q: EndQuery| g.segment(q.seg).map(|s| (away(s, q.node) * 1e6).round() as u32),
    )
}

fn node(id: u32, lon: f64, lat: f64) -> NetworkNode {
    NetworkNode { id: NodeId(id), lon: e7(lon), lat: e7(lat), stable_id: String::new(), is_boundary: false }
}

fn seg(id: u32, s: u32, e: u32, len_deg: f64) -> NetworkSegment {
    let lon0 = f64::from(s) * 0.001;
    NetworkSegment {
        id: SegmentId(id),
        start_node: NodeId(s),
        end_node: NodeId(e),
        geometry: vec![(e7(lon0), e7(0.0)), (e7(lon0 + len_deg), e7(0.0))],
        length_cm: (len_deg * 11_100_000.0).round() as u32,
        frc: 3,
        fow: 2,
        direction: Direction::Both,
        stable_id: String::new(),
        source_id: [0; 16],
    }
}

fn input(path: &[u32], start: u32, offsets: (i64, i64), splits: &[usize]) -> LineLocationInput {
    LineLocationInput {
        path: path.iter().map(|id| SegmentId(*id)).collect(),
        start_node: NodeId(start),
        start_offset_cm: offsets.0,
        end_offset_cm: offsets.1,
        via_split_points: splits.to_vec(),
    }
}

fn straight() -> Graph {
    let mut g = Graph::new();
    for i in 0..=2u32 {
        g.add_node(node(i, f64::from(i) * 0.001, 0.0));
    }
    g.add_segment(seg(1, 0, 1, 0.001));
    g.add_segment(seg(2, 1, 2, 0.001));
    g
}

/// A simple 3-node straight line; both ends are dead ends (degree 1), already valid: no
/// expansion, no intermediates.
#[test]
fn simple_straight_line_encodes_two_lrps() {
    let g = straight();
    let loc = encode(&g, &input(&[1, 2], 0, (0, 0), &[]), 180_000_000).unwrap();
    let lrps = loc.lrps().unwrap();
    assert_eq!(lrps.len(), 2);
    assert!(lrps[0].dnp.is_some());
    assert!(lrps[1].dnp.is_none());
    assert!(lrps[0].pos_offset.is_none());
    assert!(lrps[1].neg_offset.is_none());
}

#[test]
fn nonzero_offsets_are_carried_through() {
    let g = straight();
    let loc = encode(&g, &input(&[1, 2], 0, (2_000, 1_500), &[]), 180_000_000).unwrap();
    let lrps = loc.lrps().unwrap();
    assert_eq!(lrps[0].pos_offset.unwrap().lb, 2_000);
    assert_eq!(lrps[1].neg_offset.unwrap().lb, 1_500);
}

#[test]
fn points_carry_what_is_needed_to_find_them() {
    let g = straight();
    let loc = encode(&g, &input(&[1, 2], 0, (0, 0), &[]), 180_000_000).unwrap();
    let lrps = loc.lrps().unwrap();
    assert_eq!((lrps[0].coord, lrps[1].coord), ((0, 0), (20_000, 0)));
    assert_eq!((lrps[0].bearing.lb, lrps[1].bearing.lb), (90_000_000, 270_000_000));
    assert_eq!((lrps[0].frc, lrps[0].fow, lrps[0].lfrcnp), (3, 2, Some(3)));
    assert_eq!(lrps[0].dnp.unwrap().lb, 22_200);
    assert_eq!((lrps[1].frc, lrps[1].fow, lrps[1].lfrcnp), (3, 2, None));
    assert_eq!(node_coord(&g, NodeId(1)), Ok((10_000, 0)));
    assert_eq!(node_coord(&g, NodeId(9)), Err(EncodeError::UnknownNode(NodeId(9))));
}

/// A drawn via-point (0→1→2) that is NOT on the shortest 0→2 route (a direct 0→2 shortcut
/// exists and is shorter than going via node 1). Nodes 0 and 2 each get an extra spur to a
/// dead end so that they are valid already.
#[test]
fn via_point_off_the_shortest_path_does_not_get_shortcut_away() {
    let mut g = Graph::new();
    g.add_node(node(0, 0.0, 0.0));
    g.add_node(node(1, 0.001, 0.001)); // via-point, off to the side
    g.add_node(node(2, 0.002, 0.0));
    g.add_node(node(3, -0.001, -0.001)); // dead-end spur off node 0
    g.add_node(node(4, 0.003, -0.001)); // dead-end spur off node 2
    g.add_segment(seg(1, 0, 1, 0.002)); // 0->1, longer leg
    g.add_segment(seg(2, 1, 2, 0.002)); // 1->2, longer leg
    g.add_segment(seg(3, 0, 2, 0.001)); // 0->2 direct shortcut, much shorter
    g.add_segment(seg(4, 0, 3, 0.001)); // spur: makes node 0 a valid 3-way branch
    g.add_segment(seg(5, 2, 4, 0.001)); // spur: makes node 2 a valid 3-way branch

    // Without via_split_points, the sweep takes the direct shortcut and fails.
    let no_via = input(&[1, 2], 0, (0, 0), &[]);
    assert!(matches!(encode(&g, &no_via, 180_000_000), Err(EncodeError::NoRoute)));

    // With the via-point boundary declared, it succeeds and forces an LRP exactly at node 1.
    let with_via = input(&[1, 2], 0, (0, 0), &[1]);
    let loc = encode(&g, &with_via, 180_000_000).unwrap();
    let lrps = loc.lrps().unwrap();
    assert_eq!(lrps.len(), 3, "start + via + end");
    let via_lrp = &lrps[1];
    assert!(
        via_lrp.coord.0 == 10_000 && via_lrp.coord.1 == 10_000,
        "middle LRP should sit at the via-point (node 1), not be shortcut away"
    );
}

/// A via-point (node 2) whose only way onward is a ~165° turn relative to how the path
/// arrived: a 150° cap must reject it as `NoRoute`, while a disabled (180°) cap must still
/// encode it.
#[test]
fn sharp_but_not_identical_boundary_turn_is_gated_by_max_turn_deviation() {
    fn s(id: u32, start: u32, end: u32, geom: Vec<(f64, f64)>) -> NetworkSegment {
        NetworkSegment {
            id: SegmentId(id),
            start_node: NodeId(start),
            end_node: NodeId(end),
            geometry: geom.iter().map(|p| (e7(p.0), e7(p.1))).collect(),
            length_cm: 30_000,
            frc: 3,
            fow: 3,
            direction: Direction::Both,
            stable_id: String::new(),
            source_id: [0; 16],
        }
    }

    let mut g = Graph::new();
    g.add_node(node(1, 0.000, 0.000)); // W1 (dead end, degree 1)
    g.add_node(node(2, 0.003, 0.000)); // via-point: seg1 arrives heading east
    g.add_node(node(3, 0.0001022, -0.0007765)); // only reachable via seg2, a ~165° turn
    g.add_segment(s(1, 1, 2, vec![(0.000, 0.000), (0.003, 0.000)]));
    g.add_segment(s(2, 2, 3, vec![(0.003, 0.000), (0.0001022, -0.0007765)]));

    let input = input(&[1, 2], 1, (0, 0), &[1]);

    let err = encode(&g, &input, 150_000_000)
        .expect_err("a 165° boundary turn must be rejected under the default-style 150° cap");
    assert!(matches!(err, EncodeError::NoRoute), "err={err:?}");

    let loc = encode(&g, &input, 180_000_000)
        .expect("with the turn-angle gate disabled, the same route should encode successfully");
    assert_eq!(loc.lrps().unwrap().len(), 3, "start + via + end");
}

#[test]
fn offsets_grow_by_what_the_ends_are_expanded() {
    // 0 - 1 - 2 - 3, with the location on the middle segment only: nodes 1 and 2 are
    // pass-throughs, so both ends are expanded to the dead ends.
    let mut g = straight();
    g.add_node(node(3, 0.003, 0.0));
    g.add_segment(seg(3, 2, 3, 0.001));
    let loc = encode(&g, &input(&[2], 1, (500, 700), &[]), 180_000_000).unwrap();
    let lrps = loc.lrps().unwrap();
    assert_eq!(lrps.len(), 2);
    assert_eq!((lrps[0].coord, lrps[1].coord), ((0, 0), (30_000, 0)));
    assert_eq!(lrps[0].pos_offset.unwrap().lb, 11_100 + 500);
    assert_eq!(lrps[1].neg_offset.unwrap().lb, 11_100 + 700);
}

#[test]
fn what_cannot_be_encoded_is_refused() {
    let g = straight();
    let e = |i: &LineLocationInput| encode(&g, i, 180_000_000).unwrap_err();
    assert_eq!(e(&input(&[], 0, (0, 0), &[])), EncodeError::EmptyPath);
    assert_eq!(e(&input(&[2, 1], 0, (0, 0), &[])), EncodeError::Disconnected { index: 0 });
    assert_eq!(
        e(&input(&[1, 2], 0, (22_200, 0), &[])),
        EncodeError::OffsetExceedsLeg { offset_cm: 22_200, leg_cm: 22_200 }
    );
    assert_eq!(
        e(&input(&[1, 2], 0, (0, 30_000), &[])),
        EncodeError::OffsetExceedsLeg { offset_cm: 30_000, leg_cm: 22_200 }
    );
    // An offset that is not positive counts for nothing.
    assert!(encode(&g, &input(&[1, 2], 0, (-5, 0), &[]), 180_000_000).is_ok());
    // A node of the path that is not loaded.
    let mut g = Graph::new();
    g.add_segment(seg(1, 0, 1, 0.001));
    assert_eq!(
        encode(&g, &input(&[1], 0, (0, 0), &[]), 180_000_000).unwrap_err(),
        EncodeError::UnknownNode(NodeId(0))
    );
}

#[test]
fn what_the_legs_lack_is_named() {
    let g = straight();
    let turn = |t: Turn| turn_in(&g, t);
    let sweep = |q: SweepQuery| sweep_in(&g, q);
    let attributes = |l: &SweptLeg| attributes_in(&g, l);
    let path = input(&[1, 2], 0, (0, 0), &[]);
    let r = encode_line(&g, &path, 180_000_000, 12, &turn, &sweep, &|_: &SweptLeg| None, &|_| Some(0));
    assert_eq!(r.unwrap_err(), EncodeError::UnknownSegment(SegmentId(1)));
    let r = encode_line(&g, &path, 180_000_000, 12, &turn, &sweep, &attributes, &|_| None);
    assert_eq!(r.unwrap_err(), EncodeError::UnknownSegment(SegmentId(2)));
    let none = |_: SweepQuery| SweepOutcome::Legs(Vec::new());
    let r = encode_line(&g, &path, 180_000_000, 12, &turn, &none, &attributes, &|_| Some(0));
    assert_eq!(r.unwrap_err(), EncodeError::EmptyPath);
}
