//! Where waypoints may anchor: what each candidate and each snapped place stands for.
use vstd::prelude::*;

use crate::graph::{touching_at, Direction, GraphModel, NodeId, SegmentId};
use crate::graph_laws::{drives_away, law_outgoing_segments_drive_away};
use crate::waypoint::{
    candidates, nearest_of, segment_for, snapped, BoundaryCandidate, Place, Projecting, Projection,
    SnapHint, SnappedWaypoint, Waypoint,
};

verus! {

/// Whether `id` is the nearest of some segments: the first of those at the least distance.
pub open spec fn is_nearest(around: Seq<(SegmentId, u64)>, id: SegmentId) -> bool {
    exists|k: int|
        {
            &&& 0 <= k < around.len()
            &&& (#[trigger] around[k]).0 == id
            &&& forall|j: int| 0 <= j < around.len() ==> around[k].1 <= (#[trigger] around[j]).1
            &&& forall|j: int| 0 <= j < k ==> around[k].1 < (#[trigger] around[j]).1
        }
}

/// Whether a place means segment `id`: a segment that was chosen and is there is meant, and
/// otherwise the nearest one.
pub open spec fn means(
    g: GraphModel,
    place: Place,
    chosen: Option<SegmentId>,
    near: spec_fn(Place) -> Seq<(SegmentId, u64)>,
    id: SegmentId,
) -> bool {
    match chosen {
        Some(c) => if g.segments.contains_key(c.0) {
            id == c
        } else {
            is_nearest(near(place), id)
        },
        None => is_nearest(near(place), id),
    }
}

/// The segment that a hint chooses.
pub open spec fn chosen_segment(hint: SnapHint) -> Option<SegmentId> {
    match hint {
        SnapHint::Segment(s) => Some(s),
        _ => None,
    }
}

proof fn lemma_nearest(around: Seq<(SegmentId, u64)>, n: int)
    requires
        0 <= n <= around.len(),
    ensures
        (match nearest_of(around, n) {
            Some(k) => 0 <= k < n && (forall|j: int|
                0 <= j < n ==> around[k].1 <= (#[trigger] around[j]).1) && (forall|j: int|
                0 <= j < k ==> around[k].1 < (#[trigger] around[j]).1),
            None => n == 0,
        }),
    decreases n,
{
    if n > 0 {
        lemma_nearest(around, n - 1);
    }
}

proof fn lemma_means(
    g: GraphModel,
    place: Place,
    hint: SnapHint,
    near: spec_fn(Place) -> Seq<(SegmentId, u64)>,
)
    ensures
        (match segment_for(g, place, hint, near) {
            Some(id) => means(g, place, chosen_segment(hint), near, id),
            None => near(place).len() == 0 && (chosen_segment(hint) matches Some(s)
                ==> !g.segments.contains_key(s.0)),
        }),
{
    let around = near(place);
    lemma_nearest(around, around.len() as int);
    if let Some(k) = nearest_of(around, around.len() as int) {
        assert(is_nearest(around, around[k].0)) by {
            assert(around[k].0 == around[k].0);
        }
    }
}

/// The node that a waypoint chooses, if it is there.
pub open spec fn chosen_node(g: GraphModel, w: Waypoint) -> Option<NodeId> {
    if w.node_id is Some && g.nodes.contains_key(w.node_id->Some_0) {
        Some(NodeId(w.node_id->Some_0))
    } else {
        None
    }
}

/// Whether the candidates are one for a node: there, without an offset, with the oldest of
/// its segments.
pub open spec fn one_at_node(g: GraphModel, n: NodeId, v: Seq<BoundaryCandidate>) -> bool {
    &&& v.len() == 1
    &&& v[0].anchor == n
    &&& v[0].continuation == n
    &&& v[0].offset_cm == 0
    &&& g.touching.contains_key(n.0)
    &&& g.touching[n.0].len() > 0
    &&& v[0].seg_id == g.touching[n.0][0]
}

/// Whether the candidates are two for a point of a segment: one from each end, with the
/// distance from that end to the point.
pub open spec fn two_on_segment(
    g: GraphModel,
    id: SegmentId,
    arc_cm: u32,
    v: Seq<BoundaryCandidate>,
) -> bool {
    let s = g.segments[id.0];
    &&& g.segments.contains_key(id.0)
    &&& v.len() == 2
    &&& v[0].seg_id == id && v[1].seg_id == id
    &&& v[0].anchor == s.start_node && v[0].continuation == s.end_node
    &&& v[1].anchor == s.end_node && v[1].continuation == s.start_node
    &&& v[0].offset_cm == arc_cm
    &&& v[0].offset_cm + v[1].offset_cm == s.length_cm
}

/// Where a waypoint is.
pub open spec fn spot(w: Waypoint) -> Place {
    Place { lon: w.lon, lat: w.lat }
}

/// The segment that a waypoint chooses: a chosen node goes before it.
pub open spec fn wanted_segment(w: Waypoint) -> Option<SegmentId> {
    if w.node_id is None && w.segment_id is Some {
        Some(SegmentId(w.segment_id->Some_0))
    } else {
        None
    }
}

/// Whether the candidates are those for the projection of a place onto a segment.
pub open spec fn projects_to(
    g: GraphModel,
    place: Place,
    id: SegmentId,
    project: spec_fn(Projecting) -> Option<Projection>,
    v: Seq<BoundaryCandidate>,
) -> bool {
    match project(Projecting { place, segment: id }) {
        Some(p) => two_on_segment(g, id, p.arc_offset_cm, v),
        None => false,
    }
}

/// Whether a place means no segment, or one that is not there or that it has no projection
/// onto.
pub open spec fn means_nothing(
    g: GraphModel,
    place: Place,
    chosen: Option<SegmentId>,
    near: spec_fn(Place) -> Seq<(SegmentId, u64)>,
    project: spec_fn(Projecting) -> Option<Projection>,
) -> bool {
    ||| near(place).len() == 0 && (chosen is Some ==> !g.segments.contains_key(chosen->Some_0.0))
    ||| exists|id: SegmentId| #[trigger]
        means(g, place, chosen, near, id) && (!g.segments.contains_key(id.0) || project(
            Projecting { place, segment: id },
        ) is None)
}

/// A waypoint that chooses a node that is there has one candidate, at the node. Any other
/// has two, one for each end of the segment that it means, with the distances from there to
/// its projection. There are none only where there is no such segment, or no projection.
pub proof fn law_candidates_are_where_the_waypoint_is(
    g: GraphModel,
    w: Waypoint,
    near: spec_fn(Place) -> Seq<(SegmentId, u64)>,
    project: spec_fn(Projecting) -> Option<Projection>,
)
    requires
        g.wf(),
    ensures
        (match (candidates(g, w, near, project), chosen_node(g, w)) {
            (Some(v), Some(n)) => one_at_node(g, n, v),
            (Some(v), None) => exists|id: SegmentId| #[trigger]
                means(g, spot(w), wanted_segment(w), near, id) && projects_to(
                    g,
                    spot(w),
                    id,
                    project,
                    v,
                ),
            (None, Some(n)) => forall|s: SegmentId| !(#[trigger] g.touches(s, n)),
            (None, None) => means_nothing(g, spot(w), wanted_segment(w), near, project),
        }),
{
    let place = spot(w);
    lemma_means(g, place, w.hint(), near);
    assert(wanted_segment(w) == chosen_segment(w.hint()));
    if let Some(id) = segment_for(g, place, w.hint(), near) {
        assert(means(g, place, wanted_segment(w), near, id));
        if let Some(v) = candidates(g, w, near, project) {
            if chosen_node(g, w) is None {
                assert(projects_to(g, place, id, project, v));
            }
        }
    }
    if let Some(n) = chosen_node(g, w) {
        let ids = touching_at(g.touching, n);
        if ids.len() == 0 {
            assert forall|s: SegmentId| !(#[trigger] g.touches(s, n)) by {
                assert(!ids.contains(s));
            }
        }
    }
}

/// Whether a place is snapped to a point of a segment: at the end that it may be driven away
/// from, and where it may be driven away from both, at the nearer one.
pub open spec fn snapped_on_segment(
    g: GraphModel,
    id: SegmentId,
    arc_cm: u32,
    s: SnappedWaypoint,
) -> bool {
    let seg = g.segments[id.0];
    let rest_cm = seg.length_cm - arc_cm;
    &&& g.segments.contains_key(id.0)
    &&& s.seg_id == id
    &&& {
        ||| s.node == seg.start_node && s.offset_cm == arc_cm && seg.direction
            != Direction::Backward && (seg.direction == Direction::Both ==> arc_cm <= rest_cm)
        ||| s.node == seg.end_node && s.offset_cm == rest_cm && seg.direction
            != Direction::Forward && (seg.direction == Direction::Both ==> rest_cm < arc_cm)
    }
}

/// Whether `id` is the oldest of the segments that lead away from `n`.
pub open spec fn first_away(g: GraphModel, n: NodeId, id: SegmentId) -> bool {
    let ids = touching_at(g.touching, n);
    exists|k: int|
        {
            &&& 0 <= k < ids.len()
            &&& #[trigger] ids[k] == id
            &&& drives_away(g, id, n)
            &&& forall|j: int| 0 <= j < k ==> !drives_away(g, #[trigger] ids[j], n)
        }
}

proof fn lemma_first_away(g: GraphModel, ids: Seq<SegmentId>, n: NodeId)
    ensures
        ({
            let out = ids.filter(|s: SegmentId| drives_away(g, s, n));
            &&& out.len() > 0 ==> exists|k: int|
                {
                    &&& 0 <= k < ids.len()
                    &&& #[trigger] ids[k] == out[0]
                    &&& drives_away(g, ids[k], n)
                    &&& forall|j: int| 0 <= j < k ==> !drives_away(g, #[trigger] ids[j], n)
                }
            &&& out.len() == 0 ==> forall|j: int|
                0 <= j < ids.len() ==> !drives_away(g, #[trigger] ids[j], n)
        }),
    decreases ids.len(),
{
    reveal(Seq::filter);
    let keep = |s: SegmentId| drives_away(g, s, n);
    if ids.len() > 0 {
        let p = ids.drop_last();
        lemma_first_away(g, p, n);
        let before = p.filter(keep);
        assert forall|j: int| 0 <= j < p.len() implies ids[j] == p[j] by {}
        if before.len() > 0 {
            let k = choose|k: int|
                {
                    &&& 0 <= k < p.len()
                    &&& #[trigger] p[k] == before[0]
                    &&& drives_away(g, p[k], n)
                    &&& forall|j: int| 0 <= j < k ==> !drives_away(g, #[trigger] p[j], n)
                };
            assert(ids[k] == ids.filter(keep)[0]);
            assert forall|j: int| 0 <= j < k implies !drives_away(g, #[trigger] ids[j], n) by {
                assert(!drives_away(g, p[j], n));
            }
        } else {
            assert forall|j: int| 0 <= j < p.len() implies !drives_away(
                g,
                #[trigger] ids[j],
                n,
            ) by {
                assert(!drives_away(g, p[j], n));
            }
            let last = ids.len() - 1;
            assert(ids[last] == ids.last());
        }
    }
}

/// A place is snapped to the node that its hint names, if that is there, with the oldest
/// segment that leads away from it and no offset; and otherwise to an end of the segment
/// that it means, with the distance from there to its projection.
pub proof fn law_places_snap_to_roads(
    g: GraphModel,
    place: Place,
    hint: SnapHint,
    near: spec_fn(Place) -> Seq<(SegmentId, u64)>,
    project: spec_fn(Projecting) -> Option<Projection>,
)
    ensures
        ({
            let at_node = hint matches SnapHint::Node(n) && g.nodes.contains_key(n.0);
            match snapped(g, place, hint, near, project) {
                Some(s) => if at_node {
                    &&& hint == SnapHint::Node(s.node)
                    &&& s.offset_cm == 0
                    &&& first_away(g, s.node, s.seg_id)
                } else {
                    &&& means(g, place, chosen_segment(hint), near, s.seg_id)
                    &&& project(Projecting { place, segment: s.seg_id }) matches Some(p)
                        && snapped_on_segment(g, s.seg_id, p.arc_offset_cm, s)
                },
                None => if at_node {
                    forall|j: int|
                        0 <= j < touching_at(g.touching, hint->Node_0).len() ==> !drives_away(
                            g,
                            #[trigger] touching_at(g.touching, hint->Node_0)[j],
                            hint->Node_0,
                        )
                } else {
                    means_nothing(g, place, chosen_segment(hint), near, project)
                },
            }
        }),
{
    lemma_means(g, place, hint, near);
    if let SnapHint::Node(n) = hint {
        law_outgoing_segments_drive_away(g, n);
        lemma_first_away(g, touching_at(g.touching, n), n);
    }
}

} // verus!
