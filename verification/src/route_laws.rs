//! What a route is made of: the candidates at its ends and the legs between its waypoints.
use vstd::prelude::*;

use crate::expansion::{no_turns, Turn};
use crate::graph::{GraphModel, NodeId, SegmentId, TileKey};
use crate::graph_laws::law_walks_compose;
use crate::joined::joined;
use crate::path::{PathModel, PathQuery};
use crate::route::{
    best_in_row, best_leg, best_pair, boundary_leg, chain_start, chained, coords_of, finds_paths,
    inner_nodes, law_boundary_leg_is_shortest, law_direct_route_is_shortest, leg_path,
    no_leg_message, no_road_message, pair_path, route, BestPair, Chain, FailureModel, FixedEnd,
    RouteModel,
};
use crate::waypoint::{
    candidates, snapped, BoundaryCandidate, Place, Projecting, Projection, Waypoint,
};

verus! {

/// A leg of a route: the way from one stop to the next.
#[verifier::ext_equal]
pub struct RouteLeg {
    pub from: NodeId,
    /// The segment by which `from` was reached.
    pub from_seg: SegmentId,
    pub to: NodeId,
    pub segments: Seq<SegmentId>,
    pub length_cm: i64,
}

/// Whether a leg is what the search finds, on roads of every class, under the turn limit.
pub open spec fn is_searched(
    l: RouteLeg,
    max_turn: u32,
    zoom: u8,
    search: spec_fn(PathQuery) -> PathModel,
) -> bool {
    search(
        PathQuery {
            from_node: l.from,
            from_seg: l.from_seg,
            to_node: l.to,
            lowest_frc: 7,
            max_turn_microdeg: max_turn,
            frc_tolerance: 0,
            zoom,
        },
    ) == (PathModel::Found { segments: l.segments, length_cm: l.length_cm })
}

/// Whether a leg at the first or last waypoint is what the search finds, or nothing at all
/// where its ends are one node.
pub open spec fn is_boundary(
    l: RouteLeg,
    max_turn: u32,
    zoom: u8,
    search: spec_fn(PathQuery) -> PathModel,
) -> bool {
    if l.from == l.to {
        l.segments.len() == 0 && l.length_cm == 0
    } else {
        is_searched(l, max_turn, zoom, search)
    }
}

/// The segment of a candidate where the route runs along it, and nothing where the waypoint
/// is a node.
pub open spec fn own_way(c: BoundaryCandidate) -> Seq<SegmentId> {
    if c.anchor != c.continuation {
        seq![c.seg_id]
    } else {
        Seq::empty()
    }
}

/// The segment by which a route comes from a candidate: none where the waypoint is a node.
pub open spec fn comes_from(c: BoundaryCandidate) -> SegmentId {
    if c.anchor != c.continuation {
        c.seg_id
    } else {
        SegmentId(0xffff_ffff)
    }
}

/// The segment by which a leg arrives, or the one before it where it has none.
pub open spec fn arrives_by(l: RouteLeg) -> SegmentId {
    if l.segments.len() > 0 {
        l.segments.last()
    } else {
        l.from_seg
    }
}

/// Whether the turn onto the segment of a candidate is no sharper than allowed, where the
/// route takes one and anything is known of it.
pub open spec fn turns_gently(
    before: SegmentId,
    c: BoundaryCandidate,
    max_turn: u32,
    turn: spec_fn(Turn) -> Option<u32>,
) -> bool {
    c.anchor != c.continuation ==> (match turn(
        Turn { from_seg: before, at: c.continuation, to_seg: c.seg_id },
    ) {
        Some(d) => d <= max_turn,
        None => true,
    })
}

/// The segments of some legs, leg by leg.
pub open spec fn ways(legs: Seq<RouteLeg>) -> Seq<Seq<SegmentId>> {
    Seq::new(legs.len(), |k: int| legs[k].segments)
}

/// The total length of some legs.
pub open spec fn legs_length(legs: Seq<RouteLeg>) -> int
    decreases legs.len(),
{
    if legs.len() == 0 {
        0
    } else {
        legs_length(legs.drop_last()) + legs.last().length_cm
    }
}

/// Whether the legs lead from stop to stop, each going on from where and how the one before
/// it arrived.
pub open spec fn stop_by_stop(
    fc: BoundaryCandidate,
    stops: Seq<NodeId>,
    legs: Seq<RouteLeg>,
    max_turn: u32,
    zoom: u8,
    search: spec_fn(PathQuery) -> PathModel,
) -> bool {
    &&& legs.len() > 0
    &&& stops.len() == legs.len() + 1
    &&& legs[0].from_seg == comes_from(fc)
    &&& forall|k: int|
        0 <= k < legs.len() ==> (#[trigger] legs[k]).from == stops[k] && legs[k].to == stops[k + 1]
    &&& forall|k: int| 0 < k < legs.len() ==> (#[trigger] legs[k]).from_seg == arrives_by(
        legs[k - 1],
    )
    &&& forall|k: int|
        0 < k < legs.len() - 1 ==> is_searched(#[trigger] legs[k], max_turn, zoom, search)
    &&& is_boundary(legs[0], max_turn, zoom, search)
    &&& is_boundary(legs.last(), max_turn, zoom, search)
}

/// Whether the route stops at the continuation of its first candidate, at the node that
/// each inner waypoint is snapped to, and at the continuation of its last candidate.
pub open spec fn stops_at_waypoints(
    g: GraphModel,
    ws: Seq<Waypoint>,
    near: spec_fn(Place) -> Seq<(SegmentId, u64)>,
    project: spec_fn(Projecting) -> Option<Projection>,
    fc: BoundaryCandidate,
    lc: BoundaryCandidate,
    stops: Seq<NodeId>,
) -> bool {
    &&& stops.len() == ws.len() >= 2
    &&& stops[0] == fc.continuation
    &&& stops.last() == lc.continuation
    &&& forall|i: int|
        0 < i < ws.len() - 1 ==> snaps_to(g, ws, i, near, project, #[trigger] stops[i])
}

/// Whether the outcome is the route of these candidates and legs.
pub open spec fn made_of(
    g: GraphModel,
    fc: BoundaryCandidate,
    lc: BoundaryCandidate,
    stops: Seq<NodeId>,
    legs: Seq<RouteLeg>,
    r: RouteModel,
) -> bool {
    match r {
        RouteModel::Found {
            path,
            start_node,
            start_offset_cm,
            end_offset_cm,
            length_cm,
            via_split_points,
            snapped_coords,
        } => {
            &&& start_node == fc.anchor
            &&& start_offset_cm == fc.offset_cm
            &&& end_offset_cm == lc.offset_cm
            &&& path == own_way(fc) + joined(ways(legs)) + own_way(lc)
            &&& length_cm == fc.offset_cm + legs_length(legs) + lc.offset_cm
            &&& via_split_points.len() == legs.len() - 1
            &&& path.len() <= usize::MAX ==> forall|k: int|
                0 <= k < legs.len() - 1 ==> #[trigger] via_split_points[k] == own_way(fc).len()
                    + joined(ways(legs).take(k + 1)).len()
            &&& places_are_told(
                g,
                stops.update(0, fc.anchor).update(stops.len() - 1, lc.anchor),
                snapped_coords,
            )
        },
        _ => false,
    }
}

/// Whether `coords` are the places of the nodes, if all of them are known.
pub open spec fn places_are_told(
    g: GraphModel,
    nodes: Seq<NodeId>,
    coords: Seq<(i32, i32)>,
) -> bool {
    (forall|i: int| 0 <= i < nodes.len() ==> g.nodes.contains_key((#[trigger] nodes[i]).0)) ==> {
        &&& coords.len() == nodes.len()
        &&& forall|i: int|
            0 <= i < nodes.len() ==> (#[trigger] coords[i]).0 == g.nodes[nodes[i].0].lon
                && coords[i].1 == g.nodes[nodes[i].0].lat
    }
}

/// Whether no other candidate of the first waypoint would be shorter on its leg to `to`.
pub open spec fn no_shorter_start(
    first: Seq<BoundaryCandidate>,
    to: NodeId,
    total_cm: int,
    max_turn: u32,
    zoom: u8,
    search: spec_fn(PathQuery) -> PathModel,
) -> bool {
    forall|i: int, l: RouteLeg|
        0 <= i < first.len() && l.from == (#[trigger] first[i]).continuation && l.to == to
            && l.from_seg == comes_from(first[i]) && #[trigger] is_boundary(
            l,
            max_turn,
            zoom,
            search,
        ) ==> total_cm <= first[i].offset_cm + l.length_cm
}

/// Whether no other candidate of the last waypoint would be shorter on its leg from `from`.
pub open spec fn no_shorter_end(
    last: Seq<BoundaryCandidate>,
    from: NodeId,
    from_seg: SegmentId,
    total_cm: int,
    max_turn: u32,
    zoom: u8,
    search: spec_fn(PathQuery) -> PathModel,
    turn: spec_fn(Turn) -> Option<u32>,
) -> bool {
    forall|i: int, l: RouteLeg|
        0 <= i < last.len() && l.from == from && l.to == (#[trigger] last[i]).continuation
            && l.from_seg == from_seg && #[trigger] is_boundary(l, max_turn, zoom, search)
            && turns_gently(arrives_by(l), last[i], max_turn, turn) ==> total_cm
            <= last[i].offset_cm + l.length_cm
}

/// Whether no other pair of candidates of the two waypoints would be shorter.
pub open spec fn no_shorter_pair(
    first: Seq<BoundaryCandidate>,
    last: Seq<BoundaryCandidate>,
    total_cm: int,
    max_turn: u32,
    zoom: u8,
    search: spec_fn(PathQuery) -> PathModel,
    turn: spec_fn(Turn) -> Option<u32>,
) -> bool {
    forall|i: int, j: int, l: RouteLeg|
        0 <= i < first.len() && 0 <= j < last.len() && l.from == (#[trigger] first[i]).continuation
            && l.to == (#[trigger] last[j]).continuation && l.from_seg == comes_from(first[i])
            && #[trigger] is_boundary(l, max_turn, zoom, search) && turns_gently(
            arrives_by(l),
            last[j],
            max_turn,
            turn,
        ) ==> total_cm <= first[i].offset_cm + l.length_cm + last[j].offset_cm
}

proof fn lemma_joined_on<A>(pieces: Seq<Seq<A>>, last: Seq<A>)
    ensures
        joined(pieces.push(last)) == joined(pieces) + last,
{
    assert(pieces.push(last).drop_last() =~= pieces);
}

proof fn lemma_legs_on(legs: Seq<RouteLeg>, l: RouteLeg)
    ensures
        ways(legs.push(l)) == ways(legs).push(l.segments),
        joined(ways(legs.push(l))) == joined(ways(legs)) + l.segments,
        legs_length(legs.push(l)) == legs_length(legs) + l.length_cm,
{
    assert(ways(legs.push(l)) =~= ways(legs).push(l.segments));
    lemma_joined_on(ways(legs), l.segments);
    assert(legs.push(l).drop_last() =~= legs);
}

/// Whether `c` is the chain of the first legs of a route.
spec fn in_chain(
    c: Chain,
    fc: BoundaryCandidate,
    leg0: RouteLeg,
    nodes: Seq<NodeId>,
    n: int,
    legs: Seq<RouteLeg>,
    max_turn: u32,
    zoom: u8,
    search: spec_fn(PathQuery) -> PathModel,
) -> bool {
    &&& legs.len() == n + 1
    &&& legs[0] == leg0
    &&& forall|k: int|
        0 < k <= n ==> (#[trigger] legs[k]).from == nodes[k - 1] && legs[k].to == nodes[k]
            && legs[k].from_seg == arrives_by(legs[k - 1]) && is_searched(
            legs[k],
            max_turn,
            zoom,
            search,
        )
    &&& c.path == own_way(fc) + joined(ways(legs))
    &&& c.current_seg == arrives_by(legs[n])
    &&& c.length_cm == fc.offset_cm + legs_length(legs)
    &&& c.via_split_points.len() == n + 1
    &&& forall|k: int|
        0 <= k <= n ==> #[trigger] c.via_split_points[k] == (own_way(fc).len() + joined(
            ways(legs).take(k + 1),
        ).len()) as usize
}

proof fn lemma_chain_legs(
    nodes: Seq<NodeId>,
    n: int,
    fc: BoundaryCandidate,
    leg0: RouteLeg,
    max_turn: u32,
    zoom: u8,
    search: spec_fn(PathQuery) -> PathModel,
) -> (legs: Seq<RouteLeg>)
    requires
        0 <= n < nodes.len(),
        leg0.from_seg == comes_from(fc),
    ensures
        ({
            let start = chain_start(fc).with_leg(leg0.segments, leg0.length_cm as int);
            match chained(nodes, n, start, max_turn, zoom, search) {
                Ok(c) => in_chain(c, fc, leg0, nodes, n, legs, max_turn, zoom, search),
                Err(_) => true,
            }
        }),
    decreases n,
{
    let start = chain_start(fc).with_leg(leg0.segments, leg0.length_cm as int);
    if n == 0 {
        let none = Seq::<RouteLeg>::empty();
        let legs = none.push(leg0);
        lemma_legs_on(none, leg0);
        assert(joined(ways(none)) =~= Seq::empty());
        assert(start.path =~= own_way(fc) + joined(ways(legs)));
        assert(ways(legs).take(1) =~= ways(legs));
        legs
    } else {
        let before = lemma_chain_legs(nodes, n - 1, fc, leg0, max_turn, zoom, search);
        match chained(nodes, n, start, max_turn, zoom, search) {
            Err(_) => before,
            Ok(d) => {
                let c = chained(nodes, n - 1, start, max_turn, zoom, search)->Ok_0;
                let q = PathQuery {
                    from_node: nodes[n - 1],
                    from_seg: c.current_seg,
                    to_node: nodes[n],
                    lowest_frc: 7,
                    max_turn_microdeg: max_turn,
                    frc_tolerance: 0,
                    zoom,
                };
                let found = search(q);
                let l = RouteLeg {
                    from: nodes[n - 1],
                    from_seg: c.current_seg,
                    to: nodes[n],
                    segments: found->segments,
                    length_cm: found->Found_length_cm,
                };
                let legs = before.push(l);
                lemma_legs_on(before, l);
                assert(d.path =~= own_way(fc) + joined(ways(legs)));
                assert forall|k: int| 0 < k <= n implies (#[trigger] legs[k]).from == nodes[k - 1]
                    && legs[k].to == nodes[k] && legs[k].from_seg == arrives_by(legs[k - 1])
                    && is_searched(legs[k], max_turn, zoom, search) by {
                    if k < n {
                        assert(legs[k] == before[k] && legs[k - 1] == before[k - 1]);
                    } else {
                        assert(legs[k - 1] == before[n - 1]);
                    }
                }
                assert forall|k: int| 0 <= k <= n implies #[trigger] d.via_split_points[k] == (
                own_way(fc).len() + joined(ways(legs).take(k + 1)).len()) as usize by {
                    if k < n {
                        assert(d.via_split_points[k] == c.via_split_points[k]);
                        assert(ways(legs).take(k + 1) =~= ways(before).take(k + 1));
                    } else {
                        assert(ways(legs).take(k + 1) =~= ways(legs));
                    }
                }
                legs
            },
        }
    }
}

proof fn lemma_best_leg_found(
    cands: Seq<BoundaryCandidate>,
    n: int,
    end: FixedEnd,
    max_turn: u32,
    zoom: u8,
    search: spec_fn(PathQuery) -> PathModel,
    turn: spec_fn(Turn) -> Option<u32>,
)
    ensures
        best_leg(cands, n, end, max_turn, zoom, search, turn) matches Ok(Some(b)) ==> 0 <= b.idx < n
            && leg_path(cands[b.idx], end, max_turn, zoom, search, turn) == (PathModel::Found {
            segments: b.segments,
            length_cm: b.length_cm,
        }) && b.total_cm == cands[b.idx].offset_cm + b.length_cm,
    decreases n,
{
    if n > 0 {
        lemma_best_leg_found(cands, n - 1, end, max_turn, zoom, search, turn);
    }
}

spec fn pair_found(
    first: Seq<BoundaryCandidate>,
    last: Seq<BoundaryCandidate>,
    b: BestPair,
    max_turn: u32,
    zoom: u8,
    search: spec_fn(PathQuery) -> PathModel,
    turn: spec_fn(Turn) -> Option<u32>,
) -> bool {
    let p = pair_path(first[b.first], last[b.last], max_turn, zoom, search, turn);
    &&& 0 <= b.first < first.len()
    &&& 0 <= b.last < last.len()
    &&& p is Found
    &&& p->segments == b.segments
    &&& b.total_cm == first[b.first].offset_cm + p->Found_length_cm + last[b.last].offset_cm
}

proof fn lemma_row_found(
    first: Seq<BoundaryCandidate>,
    f: int,
    last: Seq<BoundaryCandidate>,
    n: int,
    best: Option<BestPair>,
    max_turn: u32,
    zoom: u8,
    search: spec_fn(PathQuery) -> PathModel,
    turn: spec_fn(Turn) -> Option<u32>,
)
    requires
        0 <= f < first.len(),
        n <= last.len(),
        best matches Some(b) ==> pair_found(first, last, b, max_turn, zoom, search, turn),
    ensures
        best_in_row(first, f, last, n, best, max_turn, zoom, search, turn) matches Ok(Some(b))
            ==> pair_found(first, last, b, max_turn, zoom, search, turn),
    decreases n,
{
    if n > 0 {
        lemma_row_found(first, f, last, n - 1, best, max_turn, zoom, search, turn);
    }
}

proof fn lemma_pair_found(
    first: Seq<BoundaryCandidate>,
    n: int,
    last: Seq<BoundaryCandidate>,
    max_turn: u32,
    zoom: u8,
    search: spec_fn(PathQuery) -> PathModel,
    turn: spec_fn(Turn) -> Option<u32>,
)
    requires
        n <= first.len(),
    ensures
        best_pair(first, n, last, max_turn, zoom, search, turn) matches Ok(Some(b)) ==> pair_found(
            first,
            last,
            b,
            max_turn,
            zoom,
            search,
            turn,
        ),
    decreases n,
{
    if n > 0 {
        lemma_pair_found(first, n - 1, last, max_turn, zoom, search, turn);
        if let Ok(best) = best_pair(first, n - 1, last, max_turn, zoom, search, turn) {
            lemma_row_found(
                first,
                n - 1,
                last,
                last.len() as int,
                best,
                max_turn,
                zoom,
                search,
                turn,
            );
        }
    }
}

proof fn lemma_places(g: GraphModel, nodes: Seq<NodeId>)
    ensures
        places_are_told(g, nodes, coords_of(g, nodes)),
    decreases nodes.len(),
{
    if nodes.len() > 0 && (forall|i: int|
        0 <= i < nodes.len() ==> g.nodes.contains_key((#[trigger] nodes[i]).0)) {
        let rest = nodes.drop_last();
        lemma_places(g, rest);
        assert forall|i: int| 0 <= i < rest.len() implies g.nodes.contains_key(
            (#[trigger] rest[i]).0,
        ) by {
            assert(rest[i] == nodes[i]);
        }
        assert(g.nodes.contains_key(nodes[nodes.len() - 1].0));
        let c = coords_of(g, nodes);
        assert forall|i: int| 0 <= i < nodes.len() implies (#[trigger] c[i]).0
            == g.nodes[nodes[i].0].lon && c[i].1 == g.nodes[nodes[i].0].lat by {
            if i < rest.len() {
                assert(coords_of(g, rest)[i] == c[i]);
            }
        }
    }
}

/// A candidate of `v`.
pub open spec fn is_one_of(v: Option<Seq<BoundaryCandidate>>, c: BoundaryCandidate) -> bool {
    v is Some && exists|i: int| 0 <= i < v->Some_0.len() && #[trigger] v->Some_0[i] == c
}

/// Whether a route runs from a candidate of its first waypoint, by way of the nodes of its
/// inner waypoints, to a candidate of its last: nothing of the outcome is left open.
pub open spec fn is_route(
    g: GraphModel,
    ws: Seq<Waypoint>,
    max_turn: u32,
    zoom: u8,
    near: spec_fn(Place) -> Seq<(SegmentId, u64)>,
    project: spec_fn(Projecting) -> Option<Projection>,
    search: spec_fn(PathQuery) -> PathModel,
    turn: spec_fn(Turn) -> Option<u32>,
    r: RouteModel,
    fc: BoundaryCandidate,
    lc: BoundaryCandidate,
    stops: Seq<NodeId>,
    legs: Seq<RouteLeg>,
) -> bool {
    let first = candidates(g, ws[0], near, project);
    let last = candidates(g, ws.last(), near, project);
    &&& is_one_of(first, fc)
    &&& is_one_of(last, lc)
    &&& stops_at_waypoints(g, ws, near, project, fc, lc, stops)
    &&& stop_by_stop(fc, stops, legs, max_turn, zoom, search)
    &&& turns_gently(arrives_by(legs.last()), lc, max_turn, turn)
    &&& made_of(g, fc, lc, stops, legs, r)
    &&& ws.len() == 2 ==> no_shorter_pair(
        first->Some_0,
        last->Some_0,
        fc.offset_cm + legs[0].length_cm + lc.offset_cm,
        max_turn,
        zoom,
        search,
        turn,
    )
    &&& ws.len() > 2 ==> no_shorter_start(
        first->Some_0,
        stops[1],
        fc.offset_cm + legs[0].length_cm,
        max_turn,
        zoom,
        search,
    ) && no_shorter_end(
        last->Some_0,
        stops[stops.len() - 2],
        legs.last().from_seg,
        lc.offset_cm + legs.last().length_cm,
        max_turn,
        zoom,
        search,
        turn,
    )
}

/// Every route that is found runs from a candidate of its first waypoint to a candidate of
/// its last, by way of the nodes that the waypoints between are snapped to. Its start node
/// and offsets are those of the two candidates; its path is the segment of the first
/// candidate, the legs that the search finds from stop to stop, and the segment of the last
/// candidate, and its length is theirs with both offsets. Each split point counts the
/// segments before its stop. No other choice of candidates would be shorter.
pub proof fn law_routes_are_made_of_legs(
    g: GraphModel,
    ws: Seq<Waypoint>,
    max_turn: u32,
    zoom: u8,
    near: spec_fn(Place) -> Seq<(SegmentId, u64)>,
    project: spec_fn(Projecting) -> Option<Projection>,
    search: spec_fn(PathQuery) -> PathModel,
    turn: spec_fn(Turn) -> Option<u32>,
)
    ensures
        ({
            let r = route(g, ws, max_turn, zoom, near, project, search, turn);
            r is Found ==> exists|
                fc: BoundaryCandidate,
                lc: BoundaryCandidate,
                stops: Seq<NodeId>,
                legs: Seq<RouteLeg>,
            |
                is_route(
                    g,
                    ws,
                    max_turn,
                    zoom,
                    near,
                    project,
                    search,
                    turn,
                    r,
                    fc,
                    lc,
                    stops,
                    legs,
                )
        }),
{
    let r = route(g, ws, max_turn, zoom, near, project, search, turn);
    if r is Found {
        if ws.len() == 2 {
            lemma_direct(g, ws, max_turn, zoom, near, project, search, turn);
        } else {
            lemma_via(g, ws, max_turn, zoom, near, project, search, turn);
        }
    }
}

proof fn lemma_direct(
    g: GraphModel,
    ws: Seq<Waypoint>,
    max_turn: u32,
    zoom: u8,
    near: spec_fn(Place) -> Seq<(SegmentId, u64)>,
    project: spec_fn(Projecting) -> Option<Projection>,
    search: spec_fn(PathQuery) -> PathModel,
    turn: spec_fn(Turn) -> Option<u32>,
)
    requires
        ws.len() == 2,
        route(g, ws, max_turn, zoom, near, project, search, turn) is Found,
    ensures
        exists|
            fc: BoundaryCandidate,
            lc: BoundaryCandidate,
            stops: Seq<NodeId>,
            legs: Seq<RouteLeg>,
        |
            is_route(
                g,
                ws,
                max_turn,
                zoom,
                near,
                project,
                search,
                turn,
                route(g, ws, max_turn, zoom, near, project, search, turn),
                fc,
                lc,
                stops,
                legs,
            ),
{
    let r = route(g, ws, max_turn, zoom, near, project, search, turn);
    let first = candidates(g, ws[0], near, project)->Some_0;
    let last = candidates(g, ws.last(), near, project)->Some_0;
    let n = first.len() as int;
    lemma_pair_found(first, n, last, max_turn, zoom, search, turn);
    let b = best_pair(first, n, last, max_turn, zoom, search, turn)->Ok_0->Some_0;
    let fc = first[b.first];
    let lc = last[b.last];
    let p = pair_path(fc, lc, max_turn, zoom, search, turn);
    let l = RouteLeg {
        from: fc.continuation,
        from_seg: comes_from(fc),
        to: lc.continuation,
        segments: b.segments,
        length_cm: p->Found_length_cm,
    };
    let none = Seq::<RouteLeg>::empty();
    let legs = none.push(l);
    let stops = seq![fc.continuation, lc.continuation];
    lemma_legs_on(none, l);
    assert(joined(ways(none)) =~= Seq::empty());
    assert(r->path =~= own_way(fc) + joined(ways(legs)) + own_way(lc));
    let shown = seq![fc.anchor, lc.anchor];
    assert(stops.update(0, fc.anchor).update(1, lc.anchor) =~= shown);
    lemma_places(g, shown);
    assert(made_of(g, fc, lc, stops, legs, r));
    assert forall|i: int, j: int, l: RouteLeg|
        0 <= i < first.len() && 0 <= j < last.len() && l.from == (
        #[trigger] first[i]).continuation && l.to == (#[trigger] last[j]).continuation
            && l.from_seg == comes_from(first[i]) && #[trigger] is_boundary(
            l,
            max_turn,
            zoom,
            search,
        ) && turns_gently(arrives_by(l), last[j], max_turn, turn) implies fc.offset_cm
        + legs[0].length_cm + lc.offset_cm <= first[i].offset_cm + l.length_cm
        + last[j].offset_cm by {
        assert(l.segments.len() == 0 ==> l.segments =~= Seq::empty());
        law_direct_route_is_shortest(first, n, last, max_turn, zoom, search, turn, i, j);
    }
    assert(is_route(
        g,
        ws,
        max_turn,
        zoom,
        near,
        project,
        search,
        turn,
        r,
        fc,
        lc,
        stops,
        legs,
    ));
}

proof fn lemma_via(
    g: GraphModel,
    ws: Seq<Waypoint>,
    max_turn: u32,
    zoom: u8,
    near: spec_fn(Place) -> Seq<(SegmentId, u64)>,
    project: spec_fn(Projecting) -> Option<Projection>,
    search: spec_fn(PathQuery) -> PathModel,
    turn: spec_fn(Turn) -> Option<u32>,
)
    requires
        ws.len() > 2,
        route(g, ws, max_turn, zoom, near, project, search, turn) is Found,
    ensures
        exists|
            fc: BoundaryCandidate,
            lc: BoundaryCandidate,
            stops: Seq<NodeId>,
            legs: Seq<RouteLeg>,
        |
            is_route(
                g,
                ws,
                max_turn,
                zoom,
                near,
                project,
                search,
                turn,
                route(g, ws, max_turn, zoom, near, project, search, turn),
                fc,
                lc,
                stops,
                legs,
            ),
{
    let r = route(g, ws, max_turn, zoom, near, project, search, turn);
    let first = candidates(g, ws[0], near, project)->Some_0;
    let last = candidates(g, ws.last(), near, project)->Some_0;
    let nodes = inner_nodes(g, ws, ws.len() - 2, near, project)->Ok_0;
    lemma_inner(g, ws, ws.len() - 2, near, project);
    let n = nodes.len() as int;
    let to = FixedEnd::To(nodes[0]);
    lemma_best_leg_found(first, first.len() as int, to, max_turn, zoom, search, no_turns());
    let f = boundary_leg(first, to, max_turn, zoom, search, no_turns())->Ok_0;
    let fc = first[f.idx];
    let leg0 = RouteLeg {
        from: fc.continuation,
        from_seg: comes_from(fc),
        to: nodes[0],
        segments: f.segments,
        length_cm: f.length_cm,
    };
    let start = chain_start(fc).with_leg(f.segments, f.length_cm as int);
    lemma_chain_fails(nodes, n - 1, start, max_turn, zoom, search);
    let c = chained(nodes, n - 1, start, max_turn, zoom, search)->Ok_0;
    let before = lemma_chain_legs(nodes, n - 1, fc, leg0, max_turn, zoom, search);
    let end = FixedEnd::From(nodes.last(), c.current_seg);
    lemma_best_leg_found(last, last.len() as int, end, max_turn, zoom, search, turn);
    let b = boundary_leg(last, end, max_turn, zoom, search, turn)->Ok_0;
    let lc = last[b.idx];
    let l = RouteLeg {
        from: nodes.last(),
        from_seg: c.current_seg,
        to: lc.continuation,
        segments: b.segments,
        length_cm: b.length_cm,
    };
    let legs = before.push(l);
    let stops = seq![fc.continuation] + nodes.push(lc.continuation);
    lemma_legs_on(before, l);
    assert(is_boundary(leg0, max_turn, zoom, search));
    assert(is_boundary(l, max_turn, zoom, search));
    lemma_via_made(g, fc, lc, nodes, c, before, l, max_turn, zoom, search, r);
    assert(stops_at_waypoints(g, ws, near, project, fc, lc, stops)) by {
        assert forall|i: int| 0 < i < ws.len() - 1 implies snaps_to(
            g,
            ws,
            i,
            near,
            project,
            #[trigger] stops[i],
        ) by {
            assert(stops[i] == nodes[i - 1]);
        }
    }
    assert(no_shorter_start(
        first,
        stops[1],
        fc.offset_cm + legs[0].length_cm,
        max_turn,
        zoom,
        search,
    )) by {
        assert forall|i: int, l: RouteLeg|
            0 <= i < first.len() && l.from == (#[trigger] first[i]).continuation && l.to
                == stops[1] && l.from_seg == comes_from(first[i]) && #[trigger] is_boundary(
                l,
                max_turn,
                zoom,
                search,
            ) implies fc.offset_cm + legs[0].length_cm <= first[i].offset_cm + l.length_cm by {
            law_boundary_leg_is_shortest(
                first,
                first.len() as int,
                to,
                max_turn,
                zoom,
                search,
                no_turns(),
                i,
            );
        }
    }
    assert(no_shorter_end(
        last,
        stops[stops.len() - 2],
        legs.last().from_seg,
        lc.offset_cm + legs.last().length_cm,
        max_turn,
        zoom,
        search,
        turn,
    )) by {
        assert(stops[stops.len() - 2] == nodes.last());
        assert forall|i: int, l: RouteLeg|
            0 <= i < last.len() && l.from == nodes.last() && l.to == (
            #[trigger] last[i]).continuation && l.from_seg == c.current_seg
                && #[trigger] is_boundary(l, max_turn, zoom, search) && turns_gently(
                arrives_by(l),
                last[i],
                max_turn,
                turn,
            ) implies lc.offset_cm + legs.last().length_cm <= last[i].offset_cm + l.length_cm by {
            law_boundary_leg_is_shortest(
                last,
                last.len() as int,
                end,
                max_turn,
                zoom,
                search,
                turn,
                i,
            );
        }
    }
    assert(is_route(
        g,
        ws,
        max_turn,
        zoom,
        near,
        project,
        search,
        turn,
        r,
        fc,
        lc,
        stops,
        legs,
    ));
}

proof fn lemma_via_made(
    g: GraphModel,
    fc: BoundaryCandidate,
    lc: BoundaryCandidate,
    nodes: Seq<NodeId>,
    c: Chain,
    before: Seq<RouteLeg>,
    l: RouteLeg,
    max_turn: u32,
    zoom: u8,
    search: spec_fn(PathQuery) -> PathModel,
    r: RouteModel,
)
    requires
        nodes.len() > 0,
        in_chain(
            c,
            fc,
            before[0],
            nodes,
            nodes.len() - 1,
            before,
            max_turn,
            zoom,
            search,
        ),
        before[0].from == fc.continuation,
        before[0].from_seg == comes_from(fc),
        before[0].to == nodes[0],
        is_boundary(before[0], max_turn, zoom, search),
        is_boundary(l, max_turn, zoom, search),
        l.from == nodes.last(),
        l.from_seg == c.current_seg,
        l.to == lc.continuation,
        r == (RouteModel::Found {
            path: c.path + l.segments + own_way(lc),
            start_node: fc.anchor,
            start_offset_cm: fc.offset_cm,
            end_offset_cm: lc.offset_cm,
            length_cm: c.length_cm + l.length_cm + lc.offset_cm,
            via_split_points: c.via_split_points,
            snapped_coords: coords_of(g, seq![fc.anchor] + nodes.push(lc.anchor)),
        }),
    ensures
        made_of(
            g,
            fc,
            lc,
            seq![fc.continuation] + nodes.push(lc.continuation),
            before.push(l),
            r,
        ),
        stop_by_stop(
            fc,
            seq![fc.continuation] + nodes.push(lc.continuation),
            before.push(l),
            max_turn,
            zoom,
            search,
        ),
{
    let legs = before.push(l);
    let n = nodes.len() as int;
    let stops = seq![fc.continuation] + nodes.push(lc.continuation);
    lemma_legs_on(before, l);
    assert(r->path =~= own_way(fc) + joined(ways(legs)) + own_way(lc));
    assert(stops.update(0, fc.anchor).update(stops.len() - 1, lc.anchor) =~= seq![fc.anchor]
        + nodes.push(lc.anchor));
    lemma_places(g, seq![fc.anchor] + nodes.push(lc.anchor));
    if r->path.len() <= usize::MAX {
        assert forall|k: int| 0 <= k < legs.len() - 1 implies #[trigger] r->via_split_points[k]
            == own_way(fc).len() + joined(ways(legs).take(k + 1)).len() by {
            assert(ways(legs).take(k + 1) =~= ways(before).take(k + 1));
            lemma_joined_shorter(ways(legs), k + 1);
        }
    }
    assert forall|k: int| 0 <= k < legs.len() implies (#[trigger] legs[k]).from == stops[k]
        && legs[k].to == stops[k + 1] by {
        if 0 < k < n {
            assert(legs[k] == before[k]);
            assert(stops[k] == nodes[k - 1] && stops[k + 1] == nodes[k]);
        } else if k == 0 {
            assert(legs[0] == before[0]);
            assert(stops[1] == nodes[0]);
        } else {
            assert(stops[n] == nodes[n - 1]);
        }
    }
    assert forall|k: int| 0 < k < legs.len() implies (#[trigger] legs[k]).from_seg == arrives_by(
        legs[k - 1],
    ) by {
        if k < n {
            assert(legs[k] == before[k] && legs[k - 1] == before[k - 1]);
        } else {
            assert(legs[k - 1] == before[n - 1]);
        }
    }
    assert forall|k: int| 0 < k < legs.len() - 1 implies is_searched(
        #[trigger] legs[k],
        max_turn,
        zoom,
        search,
    ) by {
        assert(legs[k] == before[k]);
    }
}

proof fn lemma_joined_shorter<A>(pieces: Seq<Seq<A>>, k: int)
    requires
        0 <= k <= pieces.len(),
    ensures
        joined(pieces.take(k)).len() <= joined(pieces).len(),
    decreases pieces.len(),
{
    if k < pieces.len() {
        lemma_joined_shorter(pieces.drop_last(), k);
        assert(pieces.drop_last().take(k) =~= pieces.take(k));
    } else {
        assert(pieces.take(k) =~= pieces);
    }
}

proof fn lemma_chain_fails(
    nodes: Seq<NodeId>,
    n: int,
    start: Chain,
    max_turn: u32,
    zoom: u8,
    search: spec_fn(PathQuery) -> PathModel,
)
    ensures
        chained(nodes, n, start, max_turn, zoom, search) matches Err(e) ==> !(e is Found),
    decreases n,
{
    if n > 0 {
        lemma_chain_fails(nodes, n - 1, start, max_turn, zoom, search);
    }
}

/// Whether waypoint `i` is snapped to `n`.
pub open spec fn snaps_to(
    g: GraphModel,
    ws: Seq<Waypoint>,
    i: int,
    near: spec_fn(Place) -> Seq<(SegmentId, u64)>,
    project: spec_fn(Projecting) -> Option<Projection>,
    n: NodeId,
) -> bool {
    match snapped(g, ws[i].place(), ws[i].hint(), near, project) {
        Some(s) => s.node == n,
        None => false,
    }
}

proof fn lemma_inner(
    g: GraphModel,
    ws: Seq<Waypoint>,
    n: int,
    near: spec_fn(Place) -> Seq<(SegmentId, u64)>,
    project: spec_fn(Projecting) -> Option<Projection>,
)
    requires
        0 <= n,
    ensures
        inner_nodes(g, ws, n, near, project) matches Ok(nodes) ==> nodes.len() == n && forall|i: int|
            0 <= i < n ==> snaps_to(g, ws, i + 1, near, project, #[trigger] nodes[i]),
        inner_nodes(g, ws, n, near, project) matches Err(i) ==> 0 < i <= n && snapped(
            g,
            ws[i].place(),
            ws[i].hint(),
            near,
            project,
        ) is None,
    decreases n,
{
    if n > 0 {
        lemma_inner(g, ws, n - 1, near, project);
        let before = inner_nodes(g, ws, n - 1, near, project);
        let after = inner_nodes(g, ws, n, near, project);
        if after is Ok {
            let nodes = after->Ok_0;
            assert forall|i: int| 0 <= i < n implies snaps_to(
                g,
                ws,
                i + 1,
                near,
                project,
                #[trigger] nodes[i],
            ) by {
                if i < n - 1 {
                    assert(nodes[i] == before->Ok_0[i]);
                } else {
                    assert(snaps_to(g, ws, n, near, project, nodes[n - 1]));
                }
            }
        }
    }
}

/// Whether a search was asked for a path on roads of every class under the turn limit.
pub open spec fn asked_for_route(q: PathQuery, max_turn: u32, zoom: u8) -> bool {
    q.lowest_frc == 7 && q.frc_tolerance == 0 && q.max_turn_microdeg == max_turn && q.zoom == zoom
}

/// Whether a tile is one that a search asked for.
pub open spec fn is_asked_for(
    k: TileKey,
    max_turn: u32,
    zoom: u8,
    search: spec_fn(PathQuery) -> PathModel,
) -> bool {
    exists|q: PathQuery| #[trigger]
        search(q) == PathModel::NeedsTile(k) && asked_for_route(q, max_turn, zoom)
}

/// Whether a failure that names a connection names one that the search has no path for.
pub open spec fn names_no_path(
    f: FailureModel,
    max_turn: u32,
    zoom: u8,
    search: spec_fn(PathQuery) -> PathModel,
) -> bool {
    exists|q: PathQuery| #[trigger]
        search(q) == PathModel::NoPath && asked_for_route(q, max_turn, zoom) && f.from_node == Some(
            q.from_node.0,
        ) && f.to_node == Some(q.to_node.0) && (if q.from_seg.0 == 0xffff_ffff {
            f.from_segment_id is None
        } else {
            f.from_segment_id == Some(q.from_seg.0)
        })
}

/// Whether a failure names no connection.
pub open spec fn names_nothing(f: FailureModel) -> bool {
    f.from_node is None && f.to_node is None && f.from_segment_id is None
}

proof fn lemma_leg_tile(
    c: BoundaryCandidate,
    end: FixedEnd,
    max_turn: u32,
    zoom: u8,
    search: spec_fn(PathQuery) -> PathModel,
    turn: spec_fn(Turn) -> Option<u32>,
)
    ensures
        leg_path(c, end, max_turn, zoom, search, turn) matches PathModel::NeedsTile(k)
            ==> is_asked_for(k, max_turn, zoom, search),
{
}

proof fn lemma_best_leg_tile(
    cands: Seq<BoundaryCandidate>,
    n: int,
    end: FixedEnd,
    max_turn: u32,
    zoom: u8,
    search: spec_fn(PathQuery) -> PathModel,
    turn: spec_fn(Turn) -> Option<u32>,
)
    ensures
        best_leg(cands, n, end, max_turn, zoom, search, turn) matches Err(k) ==> is_asked_for(
            k,
            max_turn,
            zoom,
            search,
        ),
    decreases n,
{
    if n > 0 {
        lemma_best_leg_tile(cands, n - 1, end, max_turn, zoom, search, turn);
        lemma_leg_tile(cands[n - 1], end, max_turn, zoom, search, turn);
    }
}

proof fn lemma_row_tile(
    first: Seq<BoundaryCandidate>,
    f: int,
    last: Seq<BoundaryCandidate>,
    n: int,
    best: Option<BestPair>,
    max_turn: u32,
    zoom: u8,
    search: spec_fn(PathQuery) -> PathModel,
    turn: spec_fn(Turn) -> Option<u32>,
)
    ensures
        best_in_row(first, f, last, n, best, max_turn, zoom, search, turn) matches Err(k)
            ==> is_asked_for(k, max_turn, zoom, search),
    decreases n,
{
    if n > 0 {
        lemma_row_tile(first, f, last, n - 1, best, max_turn, zoom, search, turn);
        lemma_leg_tile(
            first[f],
            FixedEnd::To(last[n - 1].continuation),
            max_turn,
            zoom,
            search,
            turn,
        );
    }
}

proof fn lemma_pair_tile(
    first: Seq<BoundaryCandidate>,
    n: int,
    last: Seq<BoundaryCandidate>,
    max_turn: u32,
    zoom: u8,
    search: spec_fn(PathQuery) -> PathModel,
    turn: spec_fn(Turn) -> Option<u32>,
)
    ensures
        best_pair(first, n, last, max_turn, zoom, search, turn) matches Err(k) ==> is_asked_for(
            k,
            max_turn,
            zoom,
            search,
        ),
    decreases n,
{
    if n > 0 {
        lemma_pair_tile(first, n - 1, last, max_turn, zoom, search, turn);
        if let Ok(best) = best_pair(first, n - 1, last, max_turn, zoom, search, turn) {
            lemma_row_tile(
                first,
                n - 1,
                last,
                last.len() as int,
                best,
                max_turn,
                zoom,
                search,
                turn,
            );
        }
    }
}

proof fn lemma_chain_cause(
    nodes: Seq<NodeId>,
    n: int,
    start: Chain,
    max_turn: u32,
    zoom: u8,
    search: spec_fn(PathQuery) -> PathModel,
)
    ensures
        chained(nodes, n, start, max_turn, zoom, search) matches Err(e) ==> (match e {
            RouteModel::Found { .. } => false,
            RouteModel::NeedsTile(k) => is_asked_for(k, max_turn, zoom, search),
            RouteModel::Error(f) => names_no_path(f, max_turn, zoom, search),
        }),
    decreases n,
{
    if n > 0 {
        lemma_chain_cause(nodes, n - 1, start, max_turn, zoom, search);
        if let Ok(c) = chained(nodes, n - 1, start, max_turn, zoom, search) {
            let q = PathQuery {
                from_node: nodes[n - 1],
                from_seg: c.current_seg,
                to_node: nodes[n],
                lowest_frc: 7,
                max_turn_microdeg: max_turn,
                frc_tolerance: 0,
                zoom,
            };
            assert(asked_for_route(q, max_turn, zoom));
            assert(search(q) == search(q));
        }
    }
}

/// A route that is not found is refused for a reason that holds: a tile is named only where
/// a search asked for it, and a connection only where the search has no path for it.
pub proof fn law_routes_fail_for_their_reason(
    g: GraphModel,
    ws: Seq<Waypoint>,
    max_turn: u32,
    zoom: u8,
    near: spec_fn(Place) -> Seq<(SegmentId, u64)>,
    project: spec_fn(Projecting) -> Option<Projection>,
    search: spec_fn(PathQuery) -> PathModel,
    turn: spec_fn(Turn) -> Option<u32>,
)
    ensures
        (match route(g, ws, max_turn, zoom, near, project, search, turn) {
            RouteModel::Found { .. } => true,
            RouteModel::NeedsTile(k) => is_asked_for(k, max_turn, zoom, search),
            RouteModel::Error(f) => names_nothing(f) || names_no_path(f, max_turn, zoom, search),
        }),
{
    if ws.len() >= 2 && candidates(g, ws[0], near, project) is Some && candidates(
        g,
        ws.last(),
        near,
        project,
    ) is Some {
        let first = candidates(g, ws[0], near, project)->Some_0;
        let last = candidates(g, ws.last(), near, project)->Some_0;
        if ws.len() == 2 {
            lemma_pair_tile(first, first.len() as int, last, max_turn, zoom, search, turn);
        } else if let Ok(nodes) = inner_nodes(g, ws, ws.len() - 2, near, project) {
            let to = FixedEnd::To(nodes[0]);
            lemma_best_leg_tile(first, first.len() as int, to, max_turn, zoom, search, no_turns());
            if let Ok(f) = boundary_leg(first, to, max_turn, zoom, search, no_turns()) {
                let start = chain_start(first[f.idx]).with_leg(f.segments, f.length_cm as int);
                lemma_chain_cause(nodes, nodes.len() - 1, start, max_turn, zoom, search);
                if let Ok(c) = chained(nodes, nodes.len() - 1, start, max_turn, zoom, search) {
                    let end = FixedEnd::From(nodes.last(), c.current_seg);
                    lemma_best_leg_tile(
                        last,
                        last.len() as int,
                        end,
                        max_turn,
                        zoom,
                        search,
                        turn,
                    );
                }
            }
        }
    }
}

proof fn lemma_chain_succeeds(
    nodes: Seq<NodeId>,
    n: int,
    start: Chain,
    max_turn: u32,
    zoom: u8,
    search: spec_fn(PathQuery) -> PathModel,
)
    requires
        forall|q: PathQuery| (#[trigger] search(q)) is Found,
    ensures
        chained(nodes, n, start, max_turn, zoom, search) is Ok,
    decreases n,
{
    if n > 0 {
        lemma_chain_succeeds(nodes, n - 1, start, max_turn, zoom, search);
    }
}

/// Where each of at least two waypoints has a road, every search finds a path and no turn is
/// too sharp, there is a route.
pub proof fn law_routes_are_found(
    g: GraphModel,
    ws: Seq<Waypoint>,
    max_turn: u32,
    zoom: u8,
    near: spec_fn(Place) -> Seq<(SegmentId, u64)>,
    project: spec_fn(Projecting) -> Option<Projection>,
    search: spec_fn(PathQuery) -> PathModel,
    turn: spec_fn(Turn) -> Option<u32>,
)
    requires
        g.wf(),
        ws.len() >= 2,
        candidates(g, ws[0], near, project) is Some,
        candidates(g, ws.last(), near, project) is Some,
        forall|i: int|
            0 < i < ws.len() - 1 ==> snapped(
                g,
                (#[trigger] ws[i]).place(),
                ws[i].hint(),
                near,
                project,
            ) is Some,
        forall|q: PathQuery| (#[trigger] search(q)) is Found,
        forall|t: Turn| (#[trigger] turn(t)) matches Some(d) ==> d <= max_turn,
    ensures
        route(g, ws, max_turn, zoom, near, project, search, turn) is Found,
{
    let first = candidates(g, ws[0], near, project)->Some_0;
    let last = candidates(g, ws.last(), near, project)->Some_0;
    let n = first.len() as int;
    let m = last.len() as int;
    assert(n > 0 && m > 0);
    if ws.len() == 2 {
        lemma_pair_tile(first, n, last, max_turn, zoom, search, turn);
        law_direct_route_is_shortest(first, n, last, max_turn, zoom, search, turn, 0, 0);
    } else {
        lemma_inner(g, ws, ws.len() - 2, near, project);
        if let Err(i) = inner_nodes(g, ws, ws.len() - 2, near, project) {
            assert(snapped(g, ws[i].place(), ws[i].hint(), near, project) is Some);
        }
        let nodes = inner_nodes(g, ws, ws.len() - 2, near, project)->Ok_0;
        let to = FixedEnd::To(nodes[0]);
        lemma_best_leg_tile(first, n, to, max_turn, zoom, search, no_turns());
        law_boundary_leg_is_shortest(first, n, to, max_turn, zoom, search, no_turns(), 0);
        let f = boundary_leg(first, to, max_turn, zoom, search, no_turns())->Ok_0;
        let start = chain_start(first[f.idx]).with_leg(f.segments, f.length_cm as int);
        lemma_chain_succeeds(nodes, nodes.len() - 1, start, max_turn, zoom, search);
        let c = chained(nodes, nodes.len() - 1, start, max_turn, zoom, search)->Ok_0;
        let end = FixedEnd::From(nodes.last(), c.current_seg);
        lemma_best_leg_tile(last, m, end, max_turn, zoom, search, turn);
        law_boundary_leg_is_shortest(last, m, end, max_turn, zoom, search, turn, 0);
    }
}

proof fn lemma_legs_lead(
    g: GraphModel,
    fc: BoundaryCandidate,
    stops: Seq<NodeId>,
    legs: Seq<RouteLeg>,
    n: int,
    max_turn: u32,
    zoom: u8,
    search: spec_fn(PathQuery) -> PathModel,
)
    requires
        finds_paths(g, search),
        stop_by_stop(fc, stops, legs, max_turn, zoom, search),
        0 <= n <= legs.len(),
    ensures
        g.walk_end(stops[0], joined(ways(legs).take(n))) == Some(stops[n]),
    decreases n,
{
    if n == 0 {
        assert(joined(ways(legs).take(0)) =~= Seq::empty());
    } else {
        lemma_legs_lead(g, fc, stops, legs, n - 1, max_turn, zoom, search);
        let l = legs[n - 1];
        assert(ways(legs).take(n).drop_last() =~= ways(legs).take(n - 1));
        assert(ways(legs).take(n).last() == l.segments);
        law_walks_compose(g, stops[0], joined(ways(legs).take(n - 1)), l.segments);
        assert(is_boundary(l, max_turn, zoom, search) || is_searched(l, max_turn, zoom, search))
            by {
            if n == legs.len() {
                assert(legs.last() == l);
            }
        }
        assert(g.walk_end(l.from, l.segments) == Some(l.to)) by {
            if l.segments.len() == 0 && l.from == l.to {
            } else {
                let q = PathQuery {
                    from_node: l.from,
                    from_seg: l.from_seg,
                    to_node: l.to,
                    lowest_frc: 7,
                    max_turn_microdeg: max_turn,
                    frc_tolerance: 0,
                    zoom,
                };
                assert(search(q) is Found);
            }
        }
    }
}

/// The segment of a candidate, where the route runs along it, leads between its anchor and
/// its continuation.
proof fn lemma_own_way(
    g: GraphModel,
    w: Waypoint,
    near: spec_fn(Place) -> Seq<(SegmentId, u64)>,
    project: spec_fn(Projecting) -> Option<Projection>,
    c: BoundaryCandidate,
)
    requires
        g.wf(),
        is_one_of(candidates(g, w, near, project), c),
    ensures
        g.walk_end(c.anchor, own_way(c)) == Some(c.continuation),
        g.walk_end(c.continuation, own_way(c)) == Some(c.anchor),
{
    reveal_with_fuel(GraphModel::walk_end, 2);
    if c.anchor != c.continuation {
        assert(own_way(c).drop_last() =~= Seq::empty());
        assert(g.other_end(c.seg_id, c.anchor) == Some(c.continuation));
        assert(g.other_end(c.seg_id, c.continuation) == Some(c.anchor));
    }
}

/// Every route that is found starts at the anchor of a candidate of its first waypoint, with
/// that candidate's offset, and first runs along its segment where anchor and continuation
/// differ; and it ends at the anchor of a candidate of its last waypoint, with that
/// candidate's offset, and last runs along its segment where they differ.
pub proof fn law_routes_run_from_first_to_last(
    g: GraphModel,
    ws: Seq<Waypoint>,
    max_turn: u32,
    zoom: u8,
    near: spec_fn(Place) -> Seq<(SegmentId, u64)>,
    project: spec_fn(Projecting) -> Option<Projection>,
    search: spec_fn(PathQuery) -> PathModel,
    turn: spec_fn(Turn) -> Option<u32>,
)
    requires
        g.wf(),
        finds_paths(g, search),
    ensures
        (match route(g, ws, max_turn, zoom, near, project, search, turn) {
            RouteModel::Found { path, start_node, start_offset_cm, end_offset_cm, .. } => {
                &&& exists|c: BoundaryCandidate|
                    {
                        &&& #[trigger] is_one_of(candidates(g, ws[0], near, project), c)
                        &&& c.anchor == start_node
                        &&& c.offset_cm == start_offset_cm
                        &&& c.anchor != c.continuation ==> path.len() > 0 && path.first()
                            == c.seg_id
                    }
                &&& exists|c: BoundaryCandidate|
                    {
                        &&& #[trigger] is_one_of(candidates(g, ws.last(), near, project), c)
                        &&& g.walk_end(start_node, path) == Some(c.anchor)
                        &&& c.offset_cm == end_offset_cm
                        &&& c.anchor != c.continuation ==> path.len() > 0 && path.last()
                            == c.seg_id
                    }
            },
            _ => true,
        }),
{
    let r = route(g, ws, max_turn, zoom, near, project, search, turn);
    if r is Found {
        law_routes_are_made_of_legs(g, ws, max_turn, zoom, near, project, search, turn);
        let (fc, lc, stops, legs) = choose|
            fc: BoundaryCandidate,
            lc: BoundaryCandidate,
            stops: Seq<NodeId>,
            legs: Seq<RouteLeg>,
        |
            is_route(
                g,
                ws,
                max_turn,
                zoom,
                near,
                project,
                search,
                turn,
                r,
                fc,
                lc,
                stops,
                legs,
            );
        lemma_own_way(g, ws[0], near, project, fc);
        lemma_own_way(g, ws.last(), near, project, lc);
        lemma_legs_lead(g, fc, stops, legs, legs.len() as int, max_turn, zoom, search);
        assert(ways(legs).take(legs.len() as int) =~= ways(legs));
        law_walks_compose(g, fc.anchor, own_way(fc), joined(ways(legs)));
        law_walks_compose(g, fc.anchor, own_way(fc) + joined(ways(legs)), own_way(lc));
        if fc.anchor != fc.continuation {
            assert(r->path[0] == fc.seg_id);
        }
        if lc.anchor != lc.continuation {
            assert(r->path[r->path.len() - 1] == lc.seg_id);
        }
    }
}

/// A route is refused for a waypoint without a road by naming that waypoint: the first or
/// the last one, or else the first of those between.
pub proof fn law_waypoints_without_roads_are_named(
    g: GraphModel,
    ws: Seq<Waypoint>,
    max_turn: u32,
    zoom: u8,
    near: spec_fn(Place) -> Seq<(SegmentId, u64)>,
    project: spec_fn(Projecting) -> Option<Projection>,
    search: spec_fn(PathQuery) -> PathModel,
    turn: spec_fn(Turn) -> Option<u32>,
    i: int,
)
    requires
        ws.len() >= 2,
        0 <= i < ws.len(),
        (if i == 0 {
            candidates(g, ws[0], near, project) is None
        } else if i == ws.len() - 1 {
            candidates(g, ws[0], near, project) is Some && candidates(g, ws[i], near, project)
                is None
        } else {
            &&& candidates(g, ws[0], near, project) is Some
            &&& candidates(g, ws.last(), near, project) is Some
            &&& snapped(g, ws[i].place(), ws[i].hint(), near, project) is None
            &&& forall|k: int|
                0 < k < i ==> snapped(
                    g,
                    (#[trigger] ws[k]).place(),
                    ws[k].hint(),
                    near,
                    project,
                ) is Some
        }),
    ensures
        (match route(g, ws, max_turn, zoom, near, project, search, turn) {
            RouteModel::Error(f) => names_nothing(f) && f.message == no_road_message(i as nat),
            _ => false,
        }),
{
    if 0 < i < ws.len() - 1 {
        lemma_first_missing(g, ws, ws.len() - 2, near, project, i);
    }
}

proof fn lemma_first_missing(
    g: GraphModel,
    ws: Seq<Waypoint>,
    n: int,
    near: spec_fn(Place) -> Seq<(SegmentId, u64)>,
    project: spec_fn(Projecting) -> Option<Projection>,
    i: int,
)
    requires
        0 < i <= n,
        snapped(g, ws[i].place(), ws[i].hint(), near, project) is None,
        forall|k: int|
            0 < k < i ==> snapped(
                g,
                (#[trigger] ws[k]).place(),
                ws[k].hint(),
                near,
                project,
            ) is Some,
    ensures
        inner_nodes(g, ws, n, near, project) == Err::<Seq<NodeId>, int>(i),
    decreases n,
{
    if i < n {
        lemma_first_missing(g, ws, n - 1, near, project, i);
    } else {
        lemma_inner(g, ws, n - 1, near, project);
        if let Err(k) = inner_nodes(g, ws, n - 1, near, project) {
            assert(snapped(g, ws[k].place(), ws[k].hint(), near, project) is Some);
        }
    }
}

/// A failure that names a connection names that of two inner waypoints, one after the other,
/// by the nodes that they are snapped to and by their numbers.
pub proof fn law_missing_legs_are_named(
    g: GraphModel,
    ws: Seq<Waypoint>,
    max_turn: u32,
    zoom: u8,
    near: spec_fn(Place) -> Seq<(SegmentId, u64)>,
    project: spec_fn(Projecting) -> Option<Projection>,
    search: spec_fn(PathQuery) -> PathModel,
    turn: spec_fn(Turn) -> Option<u32>,
)
    ensures
        route(g, ws, max_turn, zoom, near, project, search, turn) matches RouteModel::Error(f)
            ==> names_nothing(f) || exists|i: int|
            0 < i < ws.len() - 2 && #[trigger] names_leg(g, ws, near, project, f, i),
{
    if ws.len() > 2 && candidates(g, ws[0], near, project) is Some && candidates(
        g,
        ws.last(),
        near,
        project,
    ) is Some {
        let first = candidates(g, ws[0], near, project)->Some_0;
        lemma_inner(g, ws, ws.len() - 2, near, project);
        if let Ok(nodes) = inner_nodes(g, ws, ws.len() - 2, near, project) {
            let to = FixedEnd::To(nodes[0]);
            if let Ok(f) = boundary_leg(first, to, max_turn, zoom, search, no_turns()) {
                let start = chain_start(first[f.idx]).with_leg(f.segments, f.length_cm as int);
                lemma_leg_named(
                    g,
                    ws,
                    near,
                    project,
                    nodes,
                    nodes.len() - 1,
                    start,
                    max_turn,
                    zoom,
                    search,
                );
            }
        }
    }
}

/// Whether a failure names the leg from waypoint `i` to the one after it.
pub open spec fn names_leg(
    g: GraphModel,
    ws: Seq<Waypoint>,
    near: spec_fn(Place) -> Seq<(SegmentId, u64)>,
    project: spec_fn(Projecting) -> Option<Projection>,
    f: FailureModel,
    i: int,
) -> bool {
    &&& f.message == no_leg_message(i as nat, (i + 1) as nat)
    &&& f.from_node is Some && snaps_to(g, ws, i, near, project, NodeId(f.from_node->Some_0))
    &&& f.to_node is Some && snaps_to(g, ws, i + 1, near, project, NodeId(f.to_node->Some_0))
}

proof fn lemma_leg_named(
    g: GraphModel,
    ws: Seq<Waypoint>,
    near: spec_fn(Place) -> Seq<(SegmentId, u64)>,
    project: spec_fn(Projecting) -> Option<Projection>,
    nodes: Seq<NodeId>,
    n: int,
    start: Chain,
    max_turn: u32,
    zoom: u8,
    search: spec_fn(PathQuery) -> PathModel,
)
    requires
        n < nodes.len(),
        forall|i: int|
            0 <= i < nodes.len() ==> snaps_to(g, ws, i + 1, near, project, #[trigger] nodes[i]),
    ensures
        chained(nodes, n, start, max_turn, zoom, search) matches Err(RouteModel::Error(f))
            ==> exists|i: int| 0 < i <= n && #[trigger] names_leg(g, ws, near, project, f, i),
    decreases n,
{
    if n > 0 {
        lemma_leg_named(g, ws, near, project, nodes, n - 1, start, max_turn, zoom, search);
        if let Err(RouteModel::Error(f)) = chained(nodes, n, start, max_turn, zoom, search) {
            if chained(nodes, n - 1, start, max_turn, zoom, search) is Ok {
                assert(nodes[n - 1] == NodeId(f.from_node->Some_0));
                assert(nodes[n] == NodeId(f.to_node->Some_0));
                assert(names_leg(g, ws, near, project, f, n));
            } else {
                let i = choose|i: int|
                    0 < i <= n - 1 && #[trigger] names_leg(g, ws, near, project, f, i);
                assert(names_leg(g, ws, near, project, f, i));
            }
        }
    }
}

proof fn lemma_row_changes(
    first: Seq<BoundaryCandidate>,
    f: int,
    last: Seq<BoundaryCandidate>,
    n: int,
    best: Option<BestPair>,
    max_turn: u32,
    zoom: u8,
    search: spec_fn(PathQuery) -> PathModel,
    turn: spec_fn(Turn) -> Option<u32>,
)
    requires
        best matches Some(b) ==> b.first < f,
    ensures
        (match best_in_row(first, f, last, n, best, max_turn, zoom, search, turn) {
            Ok(Some(b)) => {
                &&& b.first <= f
                &&& b.first == f ==> b.last < n
                &&& best matches Some(c) ==> b == c || b.total_cm < c.total_cm
            },
            Ok(None) => best is None,
            Err(_) => true,
        }),
    decreases n,
{
    if n > 0 {
        lemma_row_changes(first, f, last, n - 1, best, max_turn, zoom, search, turn);
    }
}

proof fn lemma_row_takes_the_first(
    first: Seq<BoundaryCandidate>,
    f: int,
    last: Seq<BoundaryCandidate>,
    n: int,
    best: Option<BestPair>,
    max_turn: u32,
    zoom: u8,
    search: spec_fn(PathQuery) -> PathModel,
    turn: spec_fn(Turn) -> Option<u32>,
    l: int,
)
    requires
        0 <= l < n,
        best matches Some(b) ==> b.first < f,
        best_in_row(first, f, last, n, best, max_turn, zoom, search, turn) is Ok,
        pair_path(first[f], last[l], max_turn, zoom, search, turn) is Found,
    ensures
        ({
            let total_cm = first[f].offset_cm + last[l].offset_cm + pair_path(
                first[f],
                last[l],
                max_turn,
                zoom,
                search,
                turn,
            )->Found_length_cm;
            match best_in_row(first, f, last, n, best, max_turn, zoom, search, turn) {
                Ok(Some(b)) => b.total_cm <= total_cm && (b.first == f && l < b.last ==> b.total_cm
                    < total_cm),
                _ => false,
            }
        }),
    decreases n,
{
    lemma_row_changes(first, f, last, n - 1, best, max_turn, zoom, search, turn);
    if l < n - 1 {
        lemma_row_takes_the_first(first, f, last, n - 1, best, max_turn, zoom, search, turn, l);
    }
}

proof fn lemma_pair_in_range(
    first: Seq<BoundaryCandidate>,
    n: int,
    last: Seq<BoundaryCandidate>,
    max_turn: u32,
    zoom: u8,
    search: spec_fn(PathQuery) -> PathModel,
    turn: spec_fn(Turn) -> Option<u32>,
)
    ensures
        best_pair(first, n, last, max_turn, zoom, search, turn) matches Ok(Some(b)) ==> b.first < n,
    decreases n,
{
    if n > 0 {
        lemma_pair_in_range(first, n - 1, last, max_turn, zoom, search, turn);
        if let Ok(best) = best_pair(first, n - 1, last, max_turn, zoom, search, turn) {
            let m = last.len() as int;
            lemma_row_changes(first, n - 1, last, m, best, max_turn, zoom, search, turn);
        }
    }
}

/// Of the pairs of candidates that are connected, none is shorter in total than the chosen
/// one, and those before it, by the first candidate and then by the last, are longer.
pub proof fn law_first_of_the_shortest_pairs_is_taken(
    first: Seq<BoundaryCandidate>,
    n: int,
    last: Seq<BoundaryCandidate>,
    max_turn: u32,
    zoom: u8,
    search: spec_fn(PathQuery) -> PathModel,
    turn: spec_fn(Turn) -> Option<u32>,
    f: int,
    l: int,
)
    requires
        0 <= f < n <= first.len(),
        0 <= l < last.len(),
        best_pair(first, n, last, max_turn, zoom, search, turn) is Ok,
        pair_path(first[f], last[l], max_turn, zoom, search, turn) is Found,
    ensures
        ({
            let total_cm = first[f].offset_cm + last[l].offset_cm + pair_path(
                first[f],
                last[l],
                max_turn,
                zoom,
                search,
                turn,
            )->Found_length_cm;
            match best_pair(first, n, last, max_turn, zoom, search, turn) {
                Ok(Some(b)) => {
                    &&& b.total_cm <= total_cm
                    &&& f < b.first || f == b.first && l < b.last ==> b.total_cm < total_cm
                },
                _ => false,
            }
        }),
    decreases n,
{
    let m = last.len() as int;
    let before = best_pair(first, n - 1, last, max_turn, zoom, search, turn)->Ok_0;
    lemma_pair_in_range(first, n - 1, last, max_turn, zoom, search, turn);
    lemma_row_changes(first, n - 1, last, m, before, max_turn, zoom, search, turn);
    if f < n - 1 {
        law_first_of_the_shortest_pairs_is_taken(
            first,
            n - 1,
            last,
            max_turn,
            zoom,
            search,
            turn,
            f,
            l,
        );
    } else {
        lemma_row_takes_the_first(first, f, last, m, before, max_turn, zoom, search, turn, l);
    }
}

} // verus!
