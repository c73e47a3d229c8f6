//! From clicks on a map to anchors on the network.
use vstd::prelude::*;

use crate::graph::{
    departing, touching_at, Direction, Graph, GraphModel, NodeId, SegmentId, SegmentModel,
    NO_PRIOR_SEG,
};
use crate::oracle::{answer, lemma_answer, settled};

verus! {

/// How far a click may be from a road or a junction, in micrometres (50 m).
pub const WAYPOINT_SNAP_RADIUS_UM: u64 = 50_000_000;

/// A place on the map, in units of 1e-7 degree.
#[derive(Debug, Clone, Copy, PartialEq, Eq, Structural)]
pub struct Place {
    pub lon: i32,
    pub lat: i32,
}

/// A click, with an optional choice among the places that it may mean.
#[derive(Debug, Clone, Copy, PartialEq, Eq, Structural)]
pub struct Waypoint {
    pub lon: i32,
    pub lat: i32,
    /// Snap onto this segment. A chosen node goes before it.
    pub segment_id: Option<u32>,
    /// Snap to this node.
    pub node_id: Option<u32>,
}

/// The three ways in which a waypoint is resolved.
#[derive(Debug, Clone, Copy, PartialEq, Eq, Structural)]
pub enum SnapHint {
    /// Snap to this node, without an offset.
    Node(NodeId),
    /// Snap onto this segment.
    Segment(SegmentId),
    /// Snap onto the nearest segment.
    Nearest,
}

impl Waypoint {
    /// What the waypoint asks for.
    pub open spec fn hint(self) -> SnapHint {
        match (self.node_id, self.segment_id) {
            (Some(n), _) => SnapHint::Node(NodeId(n)),
            (None, Some(s)) => SnapHint::Segment(SegmentId(s)),
            (None, None) => SnapHint::Nearest,
        }
    }

    /// Where the waypoint is.
    pub open spec fn place(self) -> Place {
        Place { lon: self.lon, lat: self.lat }
    }

    /// What the waypoint asks for: its node, or else its segment, or else the nearest
    /// segment.
    pub fn snap_hint(&self) -> (h: SnapHint)
        ensures
            h == self.hint(),
    {
        match self.node_id {
            Some(id) => SnapHint::Node(NodeId(id)),
            None => match self.segment_id {
                Some(id) => SnapHint::Segment(SegmentId(id)),
                None => SnapHint::Nearest,
            },
        }
    }
}

/// A place and the segment that it is projected onto.
#[derive(Debug, Clone, Copy, PartialEq, Eq, Structural)]
pub struct Projecting {
    pub place: Place,
    pub segment: SegmentId,
}

/// The point of a segment that is nearest to a place.
#[derive(Debug, Clone, Copy, PartialEq, Eq, Structural)]
pub struct Projection {
    /// The distance along the segment from its start, in centimetres.
    pub arc_offset_cm: u32,
    /// The distance to the place, in micrometres.
    pub distance_um: u64,
    pub point: Place,
}

/// The segments near places.
pub open spec fn near_by<N: Fn(Place) -> Vec<(SegmentId, u64)>>(near: N) -> spec_fn(
    Place,
) -> Seq<(SegmentId, u64)> {
    |p: Place| answer(near, p)
}

/// The projections of places.
pub open spec fn projections_by<J: Fn(Projecting) -> Option<Projection>>(project: J) -> spec_fn(
    Projecting,
) -> Option<Projection> {
    |q: Projecting| answer(project, q)
}

/// The first of the nearest ones of the first `n` items.
pub open spec fn nearest_of(v: Seq<(SegmentId, u64)>, n: int) -> Option<int>
    decreases n,
{
    if n <= 0 {
        None
    } else {
        match nearest_of(v, n - 1) {
            Some(k) => if v[n - 1].1 < v[k].1 {
                Some(n - 1)
            } else {
                Some(k)
            },
            None => Some(n - 1),
        }
    }
}

/// The segment that a hint and a place mean: the hinted one if it is there, or else
/// the nearest.
pub open spec fn segment_for(
    g: GraphModel,
    place: Place,
    hint: SnapHint,
    near: spec_fn(Place) -> Seq<(SegmentId, u64)>,
) -> Option<SegmentId> {
    let around = near(place);
    let nearest = match nearest_of(around, around.len() as int) {
        Some(k) => Some(around[k].0),
        None => None,
    };
    match hint {
        SnapHint::Segment(id) => if g.segments.contains_key(id.0) {
            Some(id)
        } else {
            nearest
        },
        _ => nearest,
    }
}

/// A way in which the first or last waypoint may anchor a route.
#[derive(Debug, Clone, Copy, PartialEq, Eq, Structural)]
pub struct BoundaryCandidate {
    pub seg_id: SegmentId,
    /// The node from which the offset is measured.
    pub anchor: NodeId,
    /// The other end: where the rest of the route connects. Equal to `anchor` where
    /// the waypoint is a node.
    pub continuation: NodeId,
    /// The distance from `anchor` along `seg_id` to the waypoint, in centimetres.
    pub offset_cm: i64,
}

impl BoundaryCandidate {
    /// The segment that the rest of the route must not turn back into.
    pub open spec fn bias(self) -> SegmentId {
        if self.anchor == self.continuation {
            SegmentId(NO_PRIOR_SEG)
        } else {
            self.seg_id
        }
    }

    /// The segment that the rest of the route must not turn back into: the candidate's
    /// own if it is walked, or none.
    pub fn bias_seg(&self) -> (s: SegmentId)
        ensures
            s == self.bias(),
    {
        if self.anchor == self.continuation {
            SegmentId(NO_PRIOR_SEG)
        } else {
            self.seg_id
        }
    }
}

/// The two candidates of a waypoint on a segment: measured from either end.
pub open spec fn both_ends(s: SegmentModel, id: SegmentId, arc: u32) -> Seq<BoundaryCandidate> {
    seq![
        BoundaryCandidate {
            seg_id: id,
            anchor: s.start_node,
            continuation: s.end_node,
            offset_cm: arc as i64,
        },
        BoundaryCandidate {
            seg_id: id,
            anchor: s.end_node,
            continuation: s.start_node,
            offset_cm: (s.length_cm - arc) as i64,
        },
    ]
}

/// Every way in which a waypoint may anchor a route: one without offset for a chosen
/// node that is there, and two, one for each end, for a segment.
pub open spec fn candidates(
    g: GraphModel,
    w: Waypoint,
    near: spec_fn(Place) -> Seq<(SegmentId, u64)>,
    project: spec_fn(Projecting) -> Option<Projection>,
) -> Option<Seq<BoundaryCandidate>> {
    let at = match w.hint() {
        SnapHint::Node(n) => if g.nodes.contains_key(n.0) {
            Some(n)
        } else {
            None
        },
        _ => None,
    };
    match at {
        Some(n) => {
            let ids = touching_at(g.touching, n);
            if ids.len() == 0 {
                None
            } else {
                Some(
                    seq![
                        BoundaryCandidate {
                            seg_id: ids[0],
                            anchor: n,
                            continuation: n,
                            offset_cm: 0,
                        },
                    ],
                )
            }
        },
        None => match segment_for(g, w.place(), w.hint(), near) {
            None => None,
            Some(id) => if !g.segments.contains_key(id.0) {
                None
            } else {
                match project(Projecting { place: w.place(), segment: id }) {
                    None => None,
                    Some(p) => Some(both_ends(g.segments[id.0], id, p.arc_offset_cm)),
                }
            },
        },
    }
}

fn find_nearest(v: &Vec<(SegmentId, u64)>) -> (r: Option<SegmentId>)
    ensures
        (match nearest_of(v@, v@.len() as int) {
            Some(k) => r == Some(v@[k].0),
            None => r is None,
        }),
{
    if v.len() == 0 {
        return None;
    }
    let mut best: usize = 0;
    let mut i: usize = 1;
    assert(nearest_of(v@, 0) is None);
    assert(nearest_of(v@, 1) == Some(0int));
    while i < v.len()
        invariant
            1 <= i <= v@.len(),
            best < i,
            nearest_of(v@, i as int) == Some(best as int),
        decreases v@.len() - i,
    {
        if v[i].1 < v[best].1 {
            best = i;
        }
        i += 1;
    }
    Some(v[best].0)
}

fn find_segment<N: Fn(Place) -> Vec<(SegmentId, u64)>>(
    graph: &Graph,
    place: Place,
    hint: SnapHint,
    near: &N,
) -> (r: Option<SegmentId>)
    requires
        forall|p: Place| call_requires(*near, (p,)),
    ensures
        settled(*near) ==> r == segment_for(graph@, place, hint, near_by(*near)),
{
    match hint {
        SnapHint::Segment(id) => {
            if graph.segment(id).is_some() {
                return Some(id);
            }
        },
        _ => {},
    }
    let around: Vec<(SegmentId, u64)> = near(place);
    proof {
        lemma_answer(*near, place, around);
    }
    find_nearest(&around)
}

/// Every way in which a waypoint may anchor a route, if there is any: one without
/// offset for a chosen node, and two, one for each end, for a segment. Which end the
/// route continues from cannot be told before it is known where the route goes.
pub fn boundary_candidates<
    N: Fn(Place) -> Vec<(SegmentId, u64)>,
    J: Fn(Projecting) -> Option<Projection>,
>(graph: &Graph, w: &Waypoint, near: &N, project: &J) -> (r: Option<Vec<BoundaryCandidate>>)
    requires
        graph@.wf(),
        forall|p: Place| call_requires(*near, (p,)),
        forall|q: Projecting| call_requires(*project, (q,)),
    ensures
        settled(*near) && settled(*project) ==> (match r {
            Some(v) => candidates(graph@, *w, near_by(*near), projections_by(*project)) == Some(v@),
            None => candidates(graph@, *w, near_by(*near), projections_by(*project)) is None,
        }),
        r matches Some(v) ==> 1 <= v@.len() <= 2 && forall|i: int|
            0 <= i < v@.len() ==> -0x1_0000_0000 < (#[trigger] v@[i]).offset_cm < 0x1_0000_0000,
{
    let place = Place { lon: w.lon, lat: w.lat };
    match w.snap_hint() {
        SnapHint::Node(n) => {
            if graph.node(n).is_some() {
                let around: Vec<(NodeId, SegmentId)> = graph.topology_neighbors(n);
                if around.len() == 0 {
                    return None;
                }
                let mut v: Vec<BoundaryCandidate> = Vec::new();
                v.push(
                    BoundaryCandidate {
                        seg_id: around[0].1,
                        anchor: n,
                        continuation: n,
                        offset_cm: 0,
                    },
                );
                assert(v@ =~= seq![v@[0]]);
                return Some(v);
            }
        },
        _ => {},
    }
    let id: SegmentId = match find_segment(graph, place, w.snap_hint(), near) {
        Some(id) => id,
        None => {
            return None;
        },
    };
    match graph.segment(id) {
        Some(s) => {
            let question = Projecting { place, segment: id };
            let projected: Option<Projection> = project(question);
            proof {
                lemma_answer(*project, question, projected);
            }
            match projected {
                Some(p) => {
                    let mut v: Vec<BoundaryCandidate> = Vec::new();
                    v.push(
                        BoundaryCandidate {
                            seg_id: id,
                            anchor: s.start_node,
                            continuation: s.end_node,
                            offset_cm: p.arc_offset_cm as i64,
                        },
                    );
                    v.push(
                        BoundaryCandidate {
                            seg_id: id,
                            anchor: s.end_node,
                            continuation: s.start_node,
                            offset_cm: s.length_cm as i64 - p.arc_offset_cm as i64,
                        },
                    );
                    assert(v@ =~= both_ends(graph@.segments[id.0], id, p.arc_offset_cm));
                    Some(v)
                },
                None => None,
            }
        },
        None => None,
    }
}

/// A waypoint snapped onto a segment.
#[derive(Debug, Clone, Copy, PartialEq, Eq, Structural)]
pub struct SnappedWaypoint {
    pub seg_id: SegmentId,
    /// The end of `seg_id` that the waypoint is anchored at.
    pub node: NodeId,
    /// The distance from `node` to the waypoint along the segment, in centimetres.
    pub offset_cm: i64,
}

/// Where on a segment a waypoint is anchored: at the end that its direction permits to
/// depart from, or else at the nearer end.
pub open spec fn anchored_on(s: SegmentModel, id: SegmentId, arc: u32) -> SnappedWaypoint {
    let rest = s.length_cm - arc;
    let at_start = SnappedWaypoint { seg_id: id, node: s.start_node, offset_cm: arc as i64 };
    let at_end = SnappedWaypoint { seg_id: id, node: s.end_node, offset_cm: rest as i64 };
    match s.direction {
        Direction::Forward => at_start,
        Direction::Backward => at_end,
        Direction::Both => if arc <= rest {
            at_start
        } else {
            at_end
        },
    }
}

/// Where a place is snapped to. A chosen node that is there must have a segment that
/// may be driven away from it.
pub open spec fn snapped(
    g: GraphModel,
    place: Place,
    hint: SnapHint,
    near: spec_fn(Place) -> Seq<(SegmentId, u64)>,
    project: spec_fn(Projecting) -> Option<Projection>,
) -> Option<SnappedWaypoint> {
    let at = match hint {
        SnapHint::Node(n) => if g.nodes.contains_key(n.0) {
            Some(n)
        } else {
            None
        },
        _ => None,
    };
    match at {
        Some(n) => if g.outgoing(n).len() == 0 {
            None
        } else {
            Some(SnappedWaypoint { seg_id: g.outgoing(n)[0], node: n, offset_cm: 0 })
        },
        None => match segment_for(g, place, hint, near) {
            None => None,
            Some(id) => if !g.segments.contains_key(id.0) {
                None
            } else {
                match project(Projecting { place, segment: id }) {
                    None => None,
                    Some(p) => Some(anchored_on(g.segments[id.0], id, p.arc_offset_cm)),
                }
            },
        },
    }
}

/// Snap a place onto the network.
///
/// Nothing afterwards would reject an anchor in a prohibited direction, so a one-way
/// segment is anchored at the end that it may be driven away from, even where the
/// other end is nearer.
pub fn snap_point<
    N: Fn(Place) -> Vec<(SegmentId, u64)>,
    J: Fn(Projecting) -> Option<Projection>,
>(graph: &Graph, place: Place, hint: SnapHint, near: &N, project: &J) -> (r: Option<
    SnappedWaypoint,
>)
    requires
        forall|p: Place| call_requires(*near, (p,)),
        forall|q: Projecting| call_requires(*project, (q,)),
    ensures
        settled(*near) && settled(*project) ==> r == snapped(
            graph@,
            place,
            hint,
            near_by(*near),
            projections_by(*project),
        ),
{
    match hint {
        SnapHint::Node(n) => {
            if graph.node(n).is_some() {
                let out: Vec<SegmentId> = graph.outgoing_segments(n);
                if out.len() == 0 {
                    return None;
                }
                return Some(SnappedWaypoint { seg_id: out[0], node: n, offset_cm: 0 });
            }
        },
        _ => {},
    }
    let id: SegmentId = match find_segment(graph, place, hint, near) {
        Some(id) => id,
        None => {
            return None;
        },
    };
    match graph.segment(id) {
        Some(s) => {
            let question = Projecting { place, segment: id };
            let projected: Option<Projection> = project(question);
            proof {
                lemma_answer(*project, question, projected);
            }
            match projected {
                Some(p) => {
                    let arc: i64 = p.arc_offset_cm as i64;
                    let rest: i64 = s.length_cm as i64 - arc;
                    let from_start: bool = match s.direction {
                        Direction::Forward => true,
                        Direction::Backward => false,
                        Direction::Both => arc <= rest,
                    };
                    if from_start {
                        Some(SnappedWaypoint { seg_id: id, node: s.start_node, offset_cm: arc })
                    } else {
                        Some(SnappedWaypoint { seg_id: id, node: s.end_node, offset_cm: rest })
                    }
                },
                None => None,
            }
        },
        None => None,
    }
}

proof fn lemma_departing(g: GraphModel, ids: Seq<SegmentId>, n: NodeId)
    ensures
        forall|i: int|
            0 <= i < departing(g, ids, n).len() ==> g.departs(
                #[trigger] departing(g, ids, n)[i],
                n,
            ),
    decreases ids.len(),
{
    if ids.len() > 0 {
        let head = departing(g, ids.drop_last(), n);
        lemma_departing(g, ids.drop_last(), n);
        assert forall|i: int| 0 <= i < departing(g, ids, n).len() implies g.departs(
            #[trigger] departing(g, ids, n)[i],
            n,
        ) by {
            if i < head.len() {
                assert(departing(g, ids, n)[i] == head[i]);
            }
        }
    }
}

/// Wherever a place is snapped to, the segment may be driven away from the node.
pub proof fn law_snapped_segments_may_be_departed(
    g: GraphModel,
    place: Place,
    hint: SnapHint,
    near: spec_fn(Place) -> Seq<(SegmentId, u64)>,
    project: spec_fn(Projecting) -> Option<Projection>,
)
    requires
        g.wf(),
    ensures
        snapped(g, place, hint, near, project) matches Some(s) ==> g.departs(s.seg_id, s.node),
{
    match hint {
        SnapHint::Node(n) => {
            lemma_departing(g, touching_at(g.touching, n), n);
        },
        _ => {},
    }
}

/// The offsets from the two ends of a segment add up to its length.
pub proof fn law_offsets_add_up(s: SegmentModel, id: SegmentId, arc: u32)
    ensures
        both_ends(s, id, arc)[0].offset_cm + both_ends(s, id, arc)[1].offset_cm == s.length_cm,
{
}

} // verus!
